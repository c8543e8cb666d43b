use gos::codec::{decode, encode};
use gos::record::Record;

fn rec(id: &str, first: &str, last: &str, created: &str) -> Record {
    Record {
        id: id.as_bytes().to_vec(),
        first_name: first.as_bytes().to_vec(),
        last_name: last.as_bytes().to_vec(),
        created_at: created.as_bytes().to_vec(),
    }
}

#[test]
fn encode_exact_bytes() {
    let r = rec("abc-123", "Ada", "Lovelace", "2024-01-02T03:04:05+00:00");
    let out = encode(&r);
    let expected = "{\n  \"id\": \"abc-123\",\n  \"first_name\": \"Ada\",\n  \"last_name\": \"Lovelace\",\n  \"created_at\": \"2024-01-02T03:04:05+00:00\"\n}";
    assert_eq!(String::from_utf8(out).unwrap(), expected);
}

#[test]
fn encode_is_readable_json() {
    // any JSON reader sees exactly the four fields with their values
    let r = rec("id-9", "Grace \"G\"", "Hopper", "2020-12-09T00:00:00+00:00");
    let out = encode(&r);
    let v: serde_json::Value = serde_json::from_slice(&out).unwrap();
    let obj = v.as_object().unwrap();
    assert_eq!(obj.len(), 4);
    assert_eq!(obj["id"], "id-9");
    assert_eq!(obj["first_name"], "Grace \"G\"");
    assert_eq!(obj["last_name"], "Hopper");
    assert_eq!(obj["created_at"], "2020-12-09T00:00:00+00:00");
}

#[test]
fn round_trip_plain() {
    let r = rec("a0b1", "Ada", "Lovelace", "2024-01-02T03:04:05+00:00");
    let back = decode(&encode(&r)).unwrap();
    assert_eq!(back.id, r.id);
    assert_eq!(back.first_name, r.first_name);
    assert_eq!(back.last_name, r.last_name);
    assert_eq!(back.created_at, r.created_at);
}

#[test]
fn round_trip_escapes() {
    let r = Record {
        id: b"x".to_vec(),
        first_name: b"A\"quote".to_vec(),
        last_name: b"back\\slash".to_vec(),
        created_at: b"line\nbreak\ttab".to_vec(),
    };
    let bytes = encode(&r);
    assert!(bytes.iter().all(|&b| b >= 0x20 || b == b'\n'));
    let back = decode(&bytes).unwrap();
    assert_eq!(back.first_name, r.first_name);
    assert_eq!(back.last_name, r.last_name);
    assert_eq!(back.created_at, r.created_at);
}

#[test]
fn decode_rejects_noise() {
    assert!(decode(&Vec::new()).is_err());
    assert!(decode(&b"not json at all".to_vec()).is_err());
    assert!(decode(&b"{}".to_vec()).is_err());
}

#[test]
fn decode_rejects_wrong_fields() {
    let text = "{\n  \"id\": \"x\",\n  \"first\": \"a\",\n  \"last_name\": \"b\",\n  \"created_at\": \"c\"\n}";
    assert!(decode(&text.as_bytes().to_vec()).is_err());
}

#[test]
fn decode_rejects_truncation() {
    let r = rec("abc", "Ada", "Lovelace", "2024-01-02T03:04:05+00:00");
    let full = encode(&r);
    for cut in 0..full.len() {
        let part = full[..cut].to_vec();
        assert!(decode(&part).is_err(), "a truncated record decoded at {cut}");
    }
}

#[test]
fn decode_rejects_trailing_bytes() {
    let r = rec("abc", "Ada", "Lovelace", "2024-01-02T03:04:05+00:00");
    let mut full = encode(&r);
    full.push(b'\n');
    assert!(decode(&full).is_err());
}

#[test]
fn decode_rejects_noncanonical_escape() {
    // \u0041 spells 'A', but 'A' is written plainly in the canonical form
    let text = "{\n  \"id\": \"\\u0041\",\n  \"first_name\": \"a\",\n  \"last_name\": \"b\",\n  \"created_at\": \"c\"\n}";
    assert!(decode(&text.as_bytes().to_vec()).is_err());
}

#[test]
fn decode_accepts_canonical_control_escape() {
    let text = "{\n  \"id\": \"x\",\n  \"first_name\": \"a\\u0001b\",\n  \"last_name\": \"b\",\n  \"created_at\": \"c\"\n}";
    let back = decode(&text.as_bytes().to_vec()).unwrap();
    assert_eq!(back.first_name, vec![b'a', 0x01, b'b']);
}
