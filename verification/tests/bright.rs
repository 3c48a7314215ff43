use tyla::bright::{clamp_brightness, parse_level, ArgParser, ArgStep, ArgsError, BrightKind};

fn value(step: ArgStep) -> (BrightKind, String) {
    match step {
        ArgStep::Value { kind, text } => (kind, text),
        _ => panic!("expected a value"),
    }
}

#[test]
fn first_argument_is_the_value() {
    let mut p = ArgParser::new();
    assert_eq!(value(p.next_arg("100".to_string())), (BrightKind::SetTo, "100".to_string()));
    let mut p = ArgParser::new();
    assert_eq!(value(p.next_arg("+1".to_string())), (BrightKind::Increment, "1".to_string()));
    let mut p = ArgParser::new();
    assert_eq!(value(p.next_arg("-2.5".to_string())), (BrightKind::Decrement, "2.5".to_string()));
}

#[test]
fn second_argument_is_the_device_and_a_third_is_unexpected() {
    let mut p = ArgParser::new();
    value(p.next_arg("1".to_string()));
    assert!(matches!(p.next_arg("intel_backlight".to_string()), ArgStep::Name));
    match p.next_arg("extra".to_string()) {
        ArgStep::Unexpected(a) => assert_eq!(a, "extra"),
        _ => panic!("expected an unexpected argument"),
    }
    assert_eq!(p.finish(), Ok(Some("intel_backlight".to_string())));
}

#[test]
fn help_is_recognised_anywhere() {
    let mut p = ArgParser::new();
    assert!(matches!(p.next_arg("-h".to_string()), ArgStep::Help));
    value(p.next_arg("5".to_string()));
    assert!(matches!(p.next_arg("--help".to_string()), ArgStep::Help));
}

#[test]
fn no_value_is_an_error() {
    let p = ArgParser::new();
    assert_eq!(p.finish(), Err(ArgsError::NoBright));
    let mut p = ArgParser::new();
    value(p.next_arg("50".to_string()));
    assert_eq!(p.finish(), Ok(None));
}

#[test]
fn levels_are_clamped() {
    assert_eq!(clamp_brightness(120, 100), 100);
    assert_eq!(clamp_brightness(-3, 100), 0);
    assert_eq!(clamp_brightness(42, 100), 42);
}

#[test]
fn levels_are_read_like_i64_from_str() {
    for text in ["42\n", "  7 ", "-5", "+8", "", "abc", "1 2", "9223372036854775807", "9223372036854775808",
        "-9223372036854775808", "-9223372036854775809", "+", "-", "00012", "\u{a0}3\u{2003}", "1_000", "99999999999999999999999"]
    {
        assert_eq!(parse_level(text), text.trim().parse::<i64>().ok(), "text {text:?}");
    }
}
