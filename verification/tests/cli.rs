use register_cli::cli::{
    check_duration, parse_address, parse_byte, parse_command, parse_duration, parse_unsigned,
    read_duration,
};

#[test]
fn input_radix_is_independent_of_output_format() {
    for _output in ["--json", "--decimal-output"] {
        assert_eq!(parse_address("20"), Ok(20));
        assert_eq!(parse_byte("0x2a"), Ok(42));
        assert_eq!(parse_duration("2s"), Ok((2, 0)));
    }
    assert_eq!(parse_address("0x20").unwrap(), 32);
    assert_eq!(parse_address("020").unwrap(), 20);
    assert_eq!(parse_address("0XFF").unwrap(), 255);
}

#[test]
fn rejects_values_that_firmware_would_truncate() {
    assert!(parse_address("0x1000000").is_err());
    assert!(parse_address("0").is_ok() && parse_byte("256").is_err());
    assert!(parse_address("0xffffff").is_ok() && parse_byte("0xff").is_ok());
    for input in ["-1", "+1", "0x", "ff", "1.0", "1_000", "4294967296"] {
        assert!(parse_address(input).is_err(), "accepted {input}");
    }
}

#[test]
fn polling_accepts_units_and_rejects_invalid_intervals() {
    assert_eq!(parse_address("0x20"), Ok(32));
    assert_eq!(parse_duration("500ms"), Ok((0, 500_000_000)));
    assert_eq!(parse_duration("1.5s"), Ok((1, 500_000_000)));
    for interval in ["0s", "-1s", "500", "nonsense"] {
        assert!(parse_duration(interval).is_err(), "{interval}");
    }
}

#[test]
fn raw_command_does_not_rewrite_register_inputs() {
    for text in ["fpgarr 20", "fpgarw 0x20 0xff", "  custom command  "] {
        assert_eq!(parse_command(text).unwrap(), text);
    }
    assert!(parse_command("").is_err());
    assert!(parse_command("read\0write").is_err());
    assert!(parse_command(&"x".repeat(259)).is_ok());
    assert!(parse_command(&"x".repeat(260)).is_err());
    assert!(parse_command(&"é".repeat(130)).is_err());
}

#[test]
fn parse_error_messages() {
    assert_eq!(
        parse_unsigned("ff"),
        Err("use an unsigned decimal integer or hexadecimal with a 0x prefix".to_string())
    );
    assert_eq!(
        parse_unsigned("4294967296"),
        Err("integer exceeds the supported range".to_string())
    );
    assert_eq!(parse_unsigned("4294967295"), Ok(u32::MAX));
    assert_eq!(parse_unsigned("0xFFFFFFFF"), Ok(u32::MAX));
    assert_eq!(
        parse_unsigned("0x100000000"),
        Err("integer exceeds the supported range".to_string())
    );
    assert_eq!(
        parse_address("16777216"),
        Err("address must be between 0 and 0xffffff".to_string())
    );
    assert_eq!(
        parse_byte("0x100"),
        Err("value must be between 0 and 0xff".to_string())
    );
    assert_eq!(
        parse_command(" \t\u{3000}"),
        Err("command must contain text and cannot contain a NUL character".to_string())
    );
    assert_eq!(
        parse_command(&"x".repeat(260)),
        Err("command must fit in 259 UTF-8 bytes".to_string())
    );
    assert_eq!(
        parse_duration("0"),
        Err("duration must be greater than zero".to_string())
    );
}

#[test]
fn printed_numbers_read_back() {
    for n in [0u32, 1, 9, 10, 0x20, 0xff, 0x1234, 0xffffff] {
        assert_eq!(parse_address(&format!("{n}")), Ok(n));
        assert_eq!(parse_address(&format!("0x{n:x}")), Ok(n));
    }
    for v in [0u8, 7, 0x2a, 0xff] {
        assert_eq!(parse_byte(&format!("{v}")), Ok(v));
        assert_eq!(parse_byte(&format!("0x{v:x}")), Ok(v));
    }
    assert!(parse_address(&format!("{}", 0x1000000)).is_err());
}

#[test]
fn durations_beyond_the_supported_range_are_refused_before_reading() {
    for text in [
        "18446744073709551615s 1000000000ns",
        "5124095576030431h15s500ms500ms",
        "500000000001ns",
        "5 00000000001y",
    ] {
        assert_eq!(
            read_duration(text),
            Err("duration exceeds the supported range".to_string())
        );
    }
    assert_eq!(read_duration("100000000000ns"), Ok((100, 0)));
    assert_eq!(read_duration("000000000001s"), Ok((1, 0)));
    assert_eq!(read_duration("500000000000ns"), Ok((500, 0)));
    assert_eq!(read_duration("99999999999ns"), Ok((99, 999_999_999)));
    assert_eq!(read_duration("1.5s"), Ok((1, 500_000_000)));
    assert_eq!(
        read_duration("0ms"),
        Err("duration must be greater than zero".to_string())
    );
    assert!(read_duration("2 parsecs").is_err());
}

#[test]
fn zero_duration_is_refused_and_others_kept() {
    assert_eq!(
        check_duration((0, 0)),
        Err("duration must be greater than zero".to_string())
    );
    assert_eq!(check_duration((0, 1)), Ok((0, 1)));
    assert_eq!(check_duration((3, 0)), Ok((3, 0)));
}

#[test]
fn padded_and_upper_case_inputs_read_back() {
    for n in [0u32, 1, 0x2a, 0xabcdef, u32::MAX] {
        assert_eq!(parse_unsigned(&format!("{n:012}")), Ok(n));
        assert_eq!(parse_unsigned(&format!("0x{n:08x}")), Ok(n));
        assert_eq!(parse_unsigned(&format!("0X{n:X}")), Ok(n));
        assert_eq!(parse_unsigned(&format!("0X{n:010X}")), Ok(n));
    }
}
