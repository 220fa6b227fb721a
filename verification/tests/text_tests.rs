use proxy_term::text::{parse_port_number, same_text};

#[test]
fn port_round_trip() {
    for p in [0u16, 9, 10, 443, 7890, 65535] {
        assert_eq!(parse_port_number(&p.to_string()), Some(p));
    }
}

#[test]
fn text_equality() {
    assert!(same_text("fish", "fish"));
    assert!(!same_text("fish", "fis"));
    assert!(!same_text("bash", "zsh"));
}
