use frame_codec::pubkey::PubkeyDisplay;

#[test]
fn parses_the_three_display_names() {
    assert_eq!(PubkeyDisplay::from_str("base64"), Ok(PubkeyDisplay::Base64));
    assert_eq!(PubkeyDisplay::from_str("bech32"), Ok(PubkeyDisplay::Bech32));
    assert_eq!(PubkeyDisplay::from_str("json"), Ok(PubkeyDisplay::Json));
}

#[test]
fn rejects_unknown_display_names() {
    assert_eq!(
        PubkeyDisplay::from_str("hex"),
        Err("unknown display type".to_owned())
    );
    assert_eq!(
        PubkeyDisplay::from_str(""),
        Err("unknown display type".to_owned())
    );
    // A prefix or a case change of a known name is not a known name.
    assert_eq!(
        PubkeyDisplay::from_str("base6"),
        Err("unknown display type".to_owned())
    );
    assert_eq!(
        PubkeyDisplay::from_str("Base64"),
        Err("unknown display type".to_owned())
    );
}
