use tagtools::flags::error_text;

#[test]
fn known_flags_are_named() {
    assert_eq!(error_text(0), Vec::<String>::new());
    assert_eq!(error_text(1), vec!["DataOverflow".to_string()]);
    assert_eq!(error_text(1 << 3), vec!["DoubleError".to_string()]);
    assert_eq!(error_text(1 << 28), vec!["OutOfSequence".to_string()]);
    assert_eq!(
        error_text(0b101),
        vec!["DataOverflow".to_string(), "PosFifoOverflow".to_string()]
    );
}

#[test]
fn unknown_bits_get_generic_names() {
    assert_eq!(error_text(1 << 12), vec!["UnknownFlag12".to_string()]);
    assert_eq!(error_text(1 << 31), vec!["UnknownFlag31".to_string()]);
}

#[test]
fn names_come_in_ascending_bit_order() {
    let names = error_text((1 << 9) | (1 << 1) | (1 << 28));
    assert_eq!(
        names,
        vec![
            "NegFifoOverflow".to_string(),
            "OutTooLate".to_string(),
            "OutOfSequence".to_string()
        ]
    );
}
