//! The outbound wire text: exact encodings, escaping, and parse-back
//! compatibility with an ordinary JSON parser.

use proximity_relay::codec::encode_server_message;
use proximity_relay::messages::ServerMessage;

#[test]
fn nearby_peers_encodes_exactly() {
    let m = ServerMessage::NearbyPeers(vec!["A".to_string(), "B".to_string()]);
    assert_eq!(
        encode_server_message(&m),
        r#"{"type":"NearbyPeers","data":["A","B"]}"#
    );
    let empty = ServerMessage::NearbyPeers(Vec::new());
    assert_eq!(encode_server_message(&empty), r#"{"type":"NearbyPeers","data":[]}"#);
    let one = ServerMessage::NearbyPeers(vec!["only".to_string()]);
    assert_eq!(encode_server_message(&one), r#"{"type":"NearbyPeers","data":["only"]}"#);
}

#[test]
fn offer_and_error_encode_exactly() {
    let m = ServerMessage::ReceiveOffer {
        sender_id: "A".to_string(),
        offer: "sdp".to_string(),
    };
    assert_eq!(
        encode_server_message(&m),
        r#"{"type":"ReceiveOffer","data":{"sender_id":"A","offer":"sdp"}}"#
    );
    let e = ServerMessage::Error("boom".to_string());
    assert_eq!(encode_server_message(&e), r#"{"type":"Error","data":"boom"}"#);
}

#[test]
fn quotes_backslashes_and_controls_are_escaped() {
    let e = ServerMessage::Error("a\"b\\c\nd\u{1f}e".to_string());
    assert_eq!(
        encode_server_message(&e),
        r#"{"type":"Error","data":"a\"b\\c\u000ad\u001fe"}"#
    );
}

#[test]
fn encoded_payloads_parse_back_unchanged() {
    // An offer payload is itself JSON text full of quotes; a JSON
    // parser must read the very same string back from the encoding.
    let offer = "{\"sdp\":\"v=0\\r\\no=-\",\"type\":\"offer\"}\nend\t\u{7}".to_string();
    let m = ServerMessage::ReceiveOffer { sender_id: "peer-1".to_string(), offer: offer.clone() };
    let text = encode_server_message(&m);
    let v: serde_json::Value = serde_json::from_str(&text).expect("the encoding is valid JSON");
    assert_eq!(v.get("type").and_then(|t| t.as_str()), Some("ReceiveOffer"));
    let data = v.get("data").expect("a data payload");
    assert_eq!(data.get("sender_id").and_then(|s| s.as_str()), Some("peer-1"));
    assert_eq!(data.get("offer").and_then(|s| s.as_str()), Some(offer.as_str()));
}

#[test]
fn every_variant_parses_back_with_its_tag() {
    let cases: Vec<(ServerMessage, &str)> = vec![
        (ServerMessage::NearbyPeers(vec!["x".to_string()]), "NearbyPeers"),
        (
            ServerMessage::ReceiveOffer { sender_id: "a".to_string(), offer: "o".to_string() },
            "ReceiveOffer",
        ),
        (
            ServerMessage::ReceiveAnswer { sender_id: "a".to_string(), answer: "w".to_string() },
            "ReceiveAnswer",
        ),
        (
            ServerMessage::ReceiveIceCandidate {
                sender_id: "a".to_string(),
                candidate: "c".to_string(),
            },
            "ReceiveIceCandidate",
        ),
        (ServerMessage::Error("e".to_string()), "Error"),
    ];
    for (m, tag) in cases {
        let text = encode_server_message(&m);
        let v: serde_json::Value = serde_json::from_str(&text).expect("valid JSON");
        assert_eq!(v.get("type").and_then(|t| t.as_str()), Some(tag));
        assert!(v.get("data").is_some());
    }
}

#[test]
fn unicode_payloads_pass_through_unescaped() {
    let e = ServerMessage::Error("héllo ☃".to_string());
    let text = encode_server_message(&e);
    assert_eq!(text, "{\"type\":\"Error\",\"data\":\"héllo ☃\"}");
    let v: serde_json::Value = serde_json::from_str(&text).unwrap();
    assert_eq!(v.get("data").and_then(|s| s.as_str()), Some("héllo ☃"));
}
