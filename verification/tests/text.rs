use scpify::text::{join, split_colons, to_ascii_uppercase, trim};

#[test]
fn trimming_drops_white_space_at_both_ends() {
    for s in ["", "  ", "a", " a b\t", "\u{2003}x\u{a0}", "\r\n*IDN?\r\n", "\u{200b}x"] {
        assert_eq!(trim(s), s.trim());
    }
}

#[test]
fn upper_case_is_ascii_only() {
    assert_eq!(to_ascii_uppercase("aZ\u{e9}_9z"), "AZ\u{e9}_9Z");
}

#[test]
fn paths_are_split_and_joined() {
    for s in ["", ":", "a", "a:b", ":a::b:", "\u{e9}:\u{1F600}"] {
        let parts = split_colons(s);
        assert_eq!(parts, s.split(':').collect::<Vec<_>>());
        let owned: Vec<String> = parts.iter().map(|p| p.to_string()).collect();
        assert_eq!(join(&owned, ':'), s);
    }
    assert_eq!(join(&vec![], ','), "");
}
