//! A client library for reading and writing device registers through a
//! frame's binary protocol: the frame format and connection handshake, the
//! command-line value parsers, the output formats, and the decisions of a
//! register operation and of a generic text command.
pub mod text;
pub mod protocol;
pub mod cli;
pub mod output;
pub mod session;
