use ledger_sim::backend_tokio::{
    hold_ticks, parse_virtual_micros, NumberFault, TickOverrideError, VirtualOverride, VirtualRng,
};

#[test]
fn tick_override_oversized_is_typed() {
    let err = parse_virtual_micros("1".repeat(256).into_bytes()).unwrap_err();
    assert!(matches!(err, TickOverrideError::Oversized { cap: 256 }), "got {err:?}");
    assert!(err.message().contains("256"), "display must cite the cap: {}", err.message());
}

#[test]
fn tick_override_invalid_utf8_is_typed() {
    let err = parse_virtual_micros(vec![0xffu8, 0xfe]).unwrap_err();
    assert!(matches!(err, TickOverrideError::Utf8(_)), "got {err:?}");
}

#[test]
fn tick_override_parse_failure_is_typed_with_source() {
    let err = parse_virtual_micros(b"not-a-number".to_vec()).unwrap_err();
    match &err {
        TickOverrideError::Parse { text, source } => {
            assert_eq!(text, "not-a-number");
            assert!(source.message().contains("invalid digit"));
        }
        other => panic!("expected Parse, got {other:?}"),
    }
    assert!(err.message().contains("not-a-number"), "display must cite the text");
}

#[test]
fn tick_override_valid_value_parses() {
    assert_eq!(parse_virtual_micros(b"  12345  ".to_vec()).unwrap(), 12345);
}

#[test]
fn tick_numbers_parse_like_std() {
    for text in [
        "", "0", "+5", "+", "-", "-1", "007", "18446744073709551615", "18446744073709551616",
        "99999999999999999999999", "1x", "x1", "1 2", "++1", "184467440737095516150x",
    ] {
        let ours = parse_virtual_micros(text.as_bytes().to_vec());
        match text.trim().parse::<u64>() {
            Ok(value) => assert_eq!(ours, Ok(value), "{text}"),
            Err(fault) => match ours {
                Err(TickOverrideError::Parse { source, .. }) => {
                    assert_eq!(source.message(), fault.to_string(), "{text}");
                }
                other => panic!("{text} must not parse, got {other:?}"),
            },
        }
    }
}

#[test]
fn invalid_text_is_described_like_std() {
    for bytes in [
        vec![0xffu8, 0xfe],
        vec![b'1', 0xe2, 0x82],
        vec![b'a', 0xc3, 0xa9, 0xf0, 0x9f, b'x'],
        vec![0xc3],
        vec![b'7', 0xed, 0xa0, 0x80],
    ] {
        let expected = std::str::from_utf8(&bytes).expect_err("invalid text").to_string();
        let err = parse_virtual_micros(bytes).unwrap_err();
        assert_eq!(err.message(), format!("utf8: {expected}"));
    }
}

#[test]
fn failed_readings_hold_the_last_good_one_and_keep_the_first_reason() {
    let mut slot: Option<String> = None;
    let mut last: Option<u64> = None;
    let cut = TickOverrideError::Read("cut".to_string());
    assert_eq!(cut.message(), "read: cut");
    assert_eq!(hold_ticks(&mut None, &mut last, "/t", Err(cut)), 0, "nothing was good yet");
    assert_eq!(hold_ticks(&mut slot, &mut last, "/t", Ok(12345)), 12345);
    assert_eq!((slot.clone(), last), (None, Some(12345)));
    let first = TickOverrideError::Parse { text: "x".to_string(), source: NumberFault::InvalidDigit };
    assert_eq!(hold_ticks(&mut slot, &mut last, "/t", Err(first)), 12345);
    let kept = slot.clone().expect("a reason");
    assert_eq!(kept, "ticks file /t: parse 'x': invalid digit found in string");
    let second = TickOverrideError::Open("gone".to_string());
    assert_eq!(second.message(), "open: gone");
    assert_eq!(hold_ticks(&mut slot, &mut last, "/t", Err(second)), 12345);
    assert_eq!(hold_ticks(&mut slot, &mut last, "/t", Ok(3)), 3);
    assert_eq!((slot, last), (Some(kept), Some(3)));
    assert_eq!(NumberFault::Empty.message(), "cannot parse integer from empty string");
    assert_eq!(NumberFault::Overflow.message(), "number too large to fit in target type");
}

#[test]
fn settings_are_filtered() {
    let chosen = VirtualOverride::from_settings(Some(String::new()), Some("0123".to_string()));
    assert_eq!(chosen.ticks_path, None);
    assert_eq!(chosen.seed_hex, None);
    let chosen = VirtualOverride::from_settings(
        Some("/t".to_string()),
        Some("  0123456789abcdefABCDEF \n".to_string()),
    );
    assert_eq!(chosen.ticks_path, Some("/t".to_string()));
    assert_eq!(chosen.seed_hex, Some("0123456789abcdefABCDEF".to_string()));
    let chosen =
        VirtualOverride::from_settings(None, Some("0123456789abcdefg".to_string()));
    assert_eq!(chosen.seed_hex, None);
    let none = VirtualOverride::default();
    assert!(none.ticks_path.is_none() && none.seed_hex.is_none());
}

#[test]
fn virtual_generator_is_splitmix() {
    assert!(VirtualRng::from_hex("0123456789abcde").is_none());
    assert!(VirtualRng::from_hex("0123456789abcdeg").is_none());
    let mut rng = VirtualRng::from_hex(" 0000000000000000ff ").expect("a seed");
    assert_eq!(rng.state, 0);
    assert_eq!(rng.next_u64_inner(), 0xe220a8397b1dcdaf);
    assert_eq!(rng.next_u64_inner(), 0x6e789e6aa1b965f4);
    assert_eq!(rng.next_u64_inner(), 0x06c45d188009454f);
    let mut rng = VirtualRng::from_hex("0000000000000000").expect("a seed");
    assert_eq!(rng.next_u32(), 0x7b1dcdaf);
    assert_eq!(
        VirtualRng::from_hex("0123456789abcdef").expect("a seed").state,
        0x0123456789abcdef
    );
}
