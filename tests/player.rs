use eda_tester::player::PlayerName;

#[test]
fn names_up_to_twelve_bytes_round_trip() {
    for name in ["", "a", "Bob", "twelve_bytes", "héllo", "日本語"] {
        let p = PlayerName::try_from(name).unwrap();
        assert_eq!(p.as_string(), name);
    }
}

#[test]
fn names_over_twelve_bytes_fail() {
    assert!(PlayerName::try_from("thirteen_byte").is_err());
    assert!(PlayerName::try_from("ééééééé").is_err());
    assert!(PlayerName::try_from("a very long player name").is_err());
}

#[test]
fn trailing_nul_characters_are_not_displayed() {
    let p = PlayerName::try_from("ab\0\0").unwrap();
    assert_eq!(p.as_string(), "ab");
}
