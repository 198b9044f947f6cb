use snap::key::SnapKey;

#[test]
fn key_in_text() {
    assert_eq!(SnapKey::new(1, 20, 18446744073709551615).to_string(), "1_20_18446744073709551615");
}
