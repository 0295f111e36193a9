# register-cli

A command-line client that reads and writes device registers, and sends
text commands, over a frame's TCP protocol.

- `src/` is the verified library: `protocol` (frames, handshake, command
  requests), `cli` (value parsers and the parsed command line), `output`
  (result lines and JSON), `session` (the register and text-command
  exchanges) and `text` (digits, words and white space).
- `app/` is the program: argument parsing with clap, the TCP client, the
  operation loop with its timeouts and Ctrl+C handling.
- `tests/` exercise the library on concrete inputs.
