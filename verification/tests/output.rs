use register_cli::output::{write_register, write_text, OutputFormat};

#[test]
fn register_formats_match_the_public_contract() {
    for (json, decimal, expected) in [
        (false, false, "Address 0x20=0x2a\n"),
        (false, true, "Address 32=42\n"),
        (true, false, "{\"address\":\"0x20\",\"value\":\"0x2a\"}\n"),
        (true, true, "{\"address\":32,\"value\":42}\n"),
    ] {
        let mut bytes = String::new();
        write_register(&mut bytes, 32, 42, json, decimal);
        assert_eq!(bytes, expected);
    }
}

#[test]
fn raw_output_adds_only_a_missing_final_newline() {
    for text in [
        "Register 0x20 = 0x2a",
        "line one\nline two",
        "line\n",
        "line\r\n",
        "line\r",
        "",
    ] {
        let mut bytes = String::new();
        write_text(&mut bytes, text, false);
        let expected = if text.ends_with('\n') {
            text.to_owned()
        } else {
            format!("{text}\n")
        };
        assert_eq!(bytes.as_bytes(), expected.as_bytes());
    }
}

#[test]
fn json_preserves_and_escapes_original_text() {
    let text = "Register 0x20 = 0x2a\r\n\"done\"";
    let mut bytes = String::new();
    write_text(&mut bytes, text, true);
    assert_eq!(bytes.bytes().filter(|&byte| byte == b'\n').count(), 1);
    let result: serde_json::Value = serde_json::from_slice(bytes.as_bytes()).unwrap();
    assert_eq!(result["text"], text);
}

#[test]
fn json_escapes_quotes_backslashes_and_control_characters() {
    let mut line = String::new();
    write_text(&mut line, "a\"b\\c\u{1}\u{8}\u{c}\t\u{7f}é", true);
    assert_eq!(line, "{\"text\":\"a\\\"b\\\\c\\u0001\\b\\f\\t\u{7f}é\"}\n");
}

#[test]
fn large_and_zero_values_format_without_padding() {
    let mut line = String::new();
    write_register(&mut line, 0xffffff, 0, false, false);
    write_register(&mut line, 0xffffff, 255, false, true);
    write_register(&mut line, 0, 0xff, true, false);
    assert_eq!(
        line,
        "Address 0xffffff=0x0\nAddress 16777215=255\n{\"address\":\"0x0\",\"value\":\"0xff\"}\n"
    );
}

#[test]
fn format_methods_follow_their_flags() {
    let format = OutputFormat {
        json: true,
        decimal_output: false,
    };
    let mut out = String::new();
    format.write_register(&mut out, 0x20, 0x2a);
    format.write_text(&mut out, "hi\n");
    assert_eq!(
        out,
        "{\"address\":\"0x20\",\"value\":\"0x2a\"}\n{\"text\":\"hi\\n\"}\n"
    );
    let plain = OutputFormat {
        json: false,
        decimal_output: true,
    };
    let mut out = String::new();
    plain.write_register(&mut out, 0x20, 0x2a);
    plain.write_text(&mut out, "hi");
    assert_eq!(out, "Address 32=42\nhi\n");
}

#[test]
fn polled_results_repeat_the_same_line() {
    let format = OutputFormat {
        json: false,
        decimal_output: false,
    };
    let mut out = String::new();
    format.write_register(&mut out, 0x20, 0x2a);
    format.write_register(&mut out, 0x20, 0x2a);
    assert_eq!(out, "Address 0x20=0x2a\nAddress 0x20=0x2a\n");
}
