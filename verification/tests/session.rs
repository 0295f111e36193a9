use register_cli::protocol::Message;
use register_cli::session::{
    acknowledgement, check_readback, next_poll, parse_register, printed_text, read_command,
    write_command, CommandEvent, CommandExchange, PollStep, RegisterExchange, SessionError,
};

fn message(source: u8, kind: u8, payload: &[u8]) -> Message {
    Message {
        source,
        kind,
        payload: payload.to_vec(),
    }
}

#[test]
fn register_format_accepts_large_addresses_and_leading_zeroes() {
    assert_eq!(
        parse_register("Register 0x123456 = 0x0a\r\n").unwrap(),
        Some((0x123456, 10))
    );
    assert_eq!(
        parse_register("Register 0x00 = 0x00").unwrap(),
        Some((0, 0))
    );
    assert_eq!(parse_register("other diagnostic").unwrap(), None);
}

#[test]
fn malformed_register_values_are_not_silently_converted() {
    for value in [
        "Register 0x20 = 0x100",
        "Register 0x20 = 0xzz",
        "Register 0x20 = 0x01 extra",
        "Register 0x20 0x01",
    ] {
        assert!(parse_register(value).is_err(), "{value}");
    }
}

#[test]
fn print_payload_must_be_terminated_utf8() {
    assert_eq!(printed_text(b"hello\0").unwrap(), "hello");
    assert!(printed_text(b"hello").is_err());
    assert!(printed_text(b"a\0b\0").is_err());
    assert!(printed_text(&[0xff, 0]).is_err());
}

#[test]
fn register_report_edge_cases() {
    assert_eq!(parse_register("").unwrap(), None);
    assert_eq!(parse_register("   ").unwrap(), None);
    assert_eq!(parse_register("Registers 0x1 = 0x2").unwrap(), None);
    assert_eq!(
        parse_register("\tRegister  0xFFFFFFFF =\u{a0}0x+ff").unwrap(),
        Some((u32::MAX, 0xff))
    );
    for text in [
        "Register",
        "Register 0x100000000 = 0x00",
        "Register 20 = 0x01",
        "Register 0x = 0x01",
        "Register 0x20 = 0x",
        "Register 0X20 = 0x01",
        "Register 0x20 == 0x01",
    ] {
        assert!(parse_register(text).is_err(), "{text}");
    }
}

#[test]
fn malformed_report_message_quotes_the_text() {
    let error = parse_register("Register 0x20 = 0x100").unwrap_err();
    assert_eq!(
        error.message(),
        "malformed register output: \"Register 0x20 = 0x100\""
    );
}

#[test]
fn acknowledgement_codes() {
    assert!(acknowledgement(&[0]).is_ok());
    assert!(matches!(acknowledgement(&[1]), Err(SessionError::Unsupported)));
    assert!(matches!(acknowledgement(&[9]), Err(SessionError::Rejected(9))));
    assert!(matches!(
        acknowledgement(&[]),
        Err(SessionError::MalformedAcknowledgement)
    ));
    assert!(matches!(
        acknowledgement(&[0, 0]),
        Err(SessionError::MalformedAcknowledgement)
    ));
    assert_eq!(
        acknowledgement(&[1]).unwrap_err().message(),
        "device does not support the command interface"
    );
    assert_eq!(
        acknowledgement(&[9]).unwrap_err().message(),
        "device rejected command request with code 9"
    );
    assert_eq!(
        acknowledgement(&[]).unwrap_err().message(),
        "malformed command acknowledgement"
    );
}

#[test]
fn printed_text_errors() {
    assert!(matches!(printed_text(b""), Err(SessionError::MissingNul)));
    assert!(matches!(printed_text(b"a\0b\0"), Err(SessionError::EmbeddedNul)));
    assert!(matches!(printed_text(&[0xff, 0]), Err(SessionError::InvalidUtf8(_))));
    assert_eq!(printed_text(b"\0").unwrap(), "");
    assert_eq!(printed_text("é\0".as_bytes()).unwrap(), "é");
}

#[test]
fn register_commands() {
    assert_eq!(read_command(0x20), "fpgarr 0x20");
    assert_eq!(read_command(0), "fpgarr 0x0");
    assert_eq!(write_command(0x20, 42), "fpgarw 0x20 0x2a");
    assert_eq!(write_command(0xabcdef, 0xff), "fpgarw 0xabcdef 0xff");
}

#[test]
fn readback_must_match() {
    assert!(check_readback(0x20, 42, 42).is_ok());
    let error = check_readback(0x20, 42, 41).unwrap_err();
    assert_eq!(
        error.message(),
        "readback mismatch at address 0x20: requested 0x2a, read 0x29"
    );
    assert_eq!(
        check_readback(0x1, 5, 0x10).unwrap_err().message(),
        "readback mismatch at address 0x1: requested 0x05, read 0x10"
    );
}

#[test]
fn read_filters_other_cards_and_keeps_print_before_ack() {
    let mut exchange = RegisterExchange::new(3, 0x20);
    assert_eq!(
        exchange.accept(&message(0x14, 0, b"Register 0x20 = 0xff\0")).unwrap(),
        None
    );
    assert_eq!(
        exchange.accept(&message(0x13, 0, b"Register 0x21 = 0xff\0")).unwrap(),
        None
    );
    assert_eq!(
        exchange.accept(&message(0x13, 0, b"Register 0x20 = 0x2a\0")).unwrap(),
        None
    );
    assert_eq!(exchange.accept(&message(0x13, 0xc4, &[0])).unwrap(), Some(0x2a));
}

#[test]
fn read_completes_on_report_after_ack() {
    let mut exchange = RegisterExchange::new(3, 0x20);
    assert_eq!(exchange.accept(&message(0x13, 0xc4, &[0])).unwrap(), None);
    assert_eq!(exchange.accept(&message(0x13, 0x55, &[])).unwrap(), None);
    assert_eq!(
        exchange.accept(&message(0x13, 0, b"Register 0x20 = 0x2a\0")).unwrap(),
        Some(0x2a)
    );
}

#[test]
fn first_report_wins() {
    let mut exchange = RegisterExchange::new(3, 0x20);
    exchange.accept(&message(0x13, 0, b"Register 0x20 = 0x01\0")).unwrap();
    exchange.accept(&message(0x13, 0, b"Register 0x20 = 0x02\0")).unwrap();
    assert_eq!(exchange.accept(&message(0x13, 0xc4, &[0])).unwrap(), Some(1));
}

#[test]
fn missing_acknowledgement_and_missing_register_are_errors() {
    let mut exchange = RegisterExchange::new(3, 0x20);
    exchange.accept(&message(0x13, 0, b"Register 0x20 = 0x2a\0")).unwrap();
    let error = exchange.expire();
    assert!(matches!(error, SessionError::NoAcknowledgement));
    assert_eq!(error.message(), "timed out waiting for command acknowledgement");

    let mut exchange = RegisterExchange::new(3, 0x20);
    exchange.accept(&message(0x13, 0xc4, &[0])).unwrap();
    assert_eq!(
        exchange.expire().message(),
        "timed out waiting for register 0x20"
    );

    let mut exchange = RegisterExchange::new(3, 0x20);
    exchange.accept(&message(0x13, 0xc4, &[0])).unwrap();
    exchange.accept(&message(0x13, 0, b"busy\n\0")).unwrap();
    assert_eq!(
        exchange.expire().message(),
        "timed out waiting for register 0x20; last device output: \"busy\\n\""
    );
}

#[test]
fn rejected_command_is_an_error() {
    let mut exchange = RegisterExchange::new(3, 0);
    let error = exchange.accept(&message(0x13, 0xc4, &[1])).unwrap_err();
    assert!(error.message().contains("does not support"));
    let mut exchange = RegisterExchange::new(3, 0);
    assert!(exchange.accept(&message(0x13, 0, b"Register 0x0 = 0x100\0")).is_err());
    let mut exchange = RegisterExchange::new(3, 0);
    assert!(exchange.accept(&message(0x12, 0xc4, &[1])).unwrap().is_none());
}

#[test]
fn generic_command_prints_before_and_after_acknowledgement() {
    let mut exchange = CommandExchange::new(3);
    assert_eq!(
        exchange.accept(&message(0x14, 0, b"unrelated\0")).unwrap(),
        CommandEvent::Ignore
    );
    assert_eq!(
        exchange.accept(&message(0x13, 0, b"before acknowledgement\0")).unwrap(),
        CommandEvent::Print("before acknowledgement".to_string())
    );
    assert!(exchange.finish().is_err());
    assert_eq!(
        exchange.accept(&message(0x13, 0xc4, &[0])).unwrap(),
        CommandEvent::Acknowledged { first: true }
    );
    assert_eq!(
        exchange.accept(&message(0x13, 0, b"Register 0x20 = 0x2a\0")).unwrap(),
        CommandEvent::Print("Register 0x20 = 0x2a".to_string())
    );
    assert_eq!(
        exchange.accept(&message(0x13, 0xc4, &[0])).unwrap(),
        CommandEvent::Acknowledged { first: false }
    );
    assert_eq!(
        exchange.accept(&message(0x13, 0x55, &[1, 2])).unwrap(),
        CommandEvent::Ignore
    );
    assert!(exchange.finish().is_ok());
}

#[test]
fn generic_command_without_acknowledgement_fails() {
    let mut exchange = CommandExchange::new(3);
    exchange.accept(&message(0x13, 0, b"Register 0x20 = 0x2a\0")).unwrap();
    let error = exchange.finish().unwrap_err();
    assert_eq!(error.message(), "timed out waiting for command acknowledgement");
    let mut exchange = CommandExchange::new(3);
    assert!(exchange.accept(&message(0x13, 0xc4, &[2])).is_err());
    assert!(exchange.accept(&message(0x13, 0, b"no terminator")).is_err());
}

#[test]
fn device_reports_read_with_or_without_padding_and_line_end() {
    for (address, value) in [(0u32, 0u8), (0x20, 0x2a), (0x123456, 0xff), (u32::MAX, 1)] {
        for text in [
            format!("Register 0x{address:x} = 0x{value:x}"),
            format!("Register 0x{address:06x} = 0x{value:02x}\r\n"),
            format!("Register 0x{address:010x} = 0x{value:04x} \n"),
        ] {
            assert_eq!(parse_register(&text).unwrap(), Some((address, value)), "{text}");
        }
    }
}

#[test]
fn report_without_line_end_is_read_in_either_order_among_other_messages() {
    let report = b"Register 0x20 = 0x2a\0";
    let others = [
        message(0x14, 0, b"Register 0x20 = 0xff\0"),
        message(0x13, 0, b"Register 0x21 = 0xff\0"),
        message(0x12, 0xc4, &[7]),
        message(0x13, 0, b"booting\0"),
    ];
    for report_first in [true, false] {
        let mut exchange = RegisterExchange::new(3, 0x20);
        for other in &others[..2] {
            assert_eq!(exchange.accept(other).unwrap(), None);
        }
        let first = if report_first {
            message(0x13, 0, report)
        } else {
            message(0x13, 0xc4, &[0])
        };
        let second = if report_first {
            message(0x13, 0xc4, &[0])
        } else {
            message(0x13, 0, report)
        };
        assert_eq!(exchange.accept(&first).unwrap(), None);
        for other in &others[2..] {
            assert_eq!(exchange.accept(other).unwrap(), None);
        }
        assert_eq!(exchange.accept(&second).unwrap(), Some(0x2a));
    }
}

#[test]
fn polling_waits_one_interval_from_each_start() {
    assert!(matches!(next_poll(None, 5, true), Ok(PollStep::Stop)));
    assert!(matches!(next_poll(Some((1, 0)), 5, false), Ok(PollStep::Stop)));
    assert!(matches!(
        next_poll(Some((1, 500_000_000)), 2_000_000_000, true),
        Ok(PollStep::WaitUntil(3_500_000_000))
    ));
    // A late start moves the schedule: the next wait is measured from it.
    assert!(matches!(
        next_poll(Some((0, 100)), 1_000, true),
        Ok(PollStep::WaitUntil(1_100))
    ));
    assert!(matches!(
        next_poll(Some((0, 100)), 5_000, true),
        Ok(PollStep::WaitUntil(5_100))
    ));
    assert!(matches!(
        next_poll(Some((u64::MAX, 0)), 0, true),
        Err(SessionError::DurationTooLarge)
    ));
    assert!(matches!(
        next_poll(Some((0, 2)), u64::MAX - 1, true),
        Err(SessionError::DurationTooLarge)
    ));
    assert_eq!(SessionError::DurationTooLarge.message(), "duration is too large");
}
