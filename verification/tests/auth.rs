use mles_relay::auth::auth_message;
use mles_relay::auth::auth_token;

#[test]
fn test_token_deterministic() {
    let t1 = auth_token("alice", "lobby", None);
    let t2 = auth_token("alice", "lobby", None);
    assert_eq!(t1, t2);
    let s1 = auth_token("alice", "lobby", Some("shared"));
    let s2 = auth_token("alice", "lobby", Some("shared"));
    assert_eq!(s1, s2);
}

#[test]
fn test_token_input_sensitivity() {
    let base = auth_token("alice", "lobby", None);
    assert_ne!(base, auth_token("bob", "lobby", None));
    assert_ne!(base, auth_token("alice", "other", None));
    assert_ne!(base, auth_token("alice", "lobby", Some("shared")));
    let with_secret = auth_token("alice", "lobby", Some("shared"));
    assert_ne!(with_secret, auth_token("alice", "lobby", Some("another")));
}

#[test]
fn test_token_format() {
    let token = auth_token("alice", "lobby", Some("shared"));
    assert_eq!(token.len(), 16);
    assert!(token.chars().all(|c| c.is_ascii_hexdigit() && !c.is_uppercase()));
}

#[test]
fn test_token_not_trivial() {
    // The token is a keyed digest, not an echo of its inputs.
    assert_ne!(auth_token("", "", None), "0000000000000000");
    assert_ne!(auth_token("alice", "", None), "alice");
}

#[test]
fn test_message_exact_bytes() {
    let msg = auth_message("alice", "lobby", "00a1b2c3d4e5f607");
    assert_eq!(
        msg.as_slice(),
        br#"{"uid":"alice","channel":"lobby","auth":"00a1b2c3d4e5f607"}"#
    );
}

#[test]
fn test_message_parses_as_json() {
    let token = auth_token("alice", "lobby", None);
    let msg = auth_message("alice", "lobby", &token);
    let parsed: serde_json::Value = serde_json::from_slice(&msg).unwrap();
    assert_eq!(parsed.get("uid").and_then(|v| v.as_str()), Some("alice"));
    assert_eq!(parsed.get("channel").and_then(|v| v.as_str()), Some("lobby"));
    assert_eq!(
        parsed.get("auth").and_then(|v| v.as_str()),
        Some(token.as_str())
    );
}

#[test]
fn test_message_escapes_special_characters() {
    let uid = "a\"b\\c\nd\te";
    let channel = "ch 🌍 räum";
    let msg = auth_message(uid, channel, "0123456789abcdef");
    let parsed: serde_json::Value = serde_json::from_slice(&msg).unwrap();
    assert_eq!(parsed.get("uid").and_then(|v| v.as_str()), Some(uid));
    assert_eq!(parsed.get("channel").and_then(|v| v.as_str()), Some(channel));
}

#[test]
fn test_message_escapes_control_bytes() {
    let msg = auth_message("a\u{1f}b", "c", "d");
    let text = String::from_utf8(msg).unwrap();
    assert!(text.contains("\\u001f"));
    let parsed: serde_json::Value = serde_json::from_str(&text).unwrap();
    assert_eq!(parsed.get("uid").and_then(|v| v.as_str()), Some("a\u{1f}b"));
}
