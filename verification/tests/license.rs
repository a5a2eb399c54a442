use yoctofy::license::licenses_json;
use yoctofy::order::OrderedMap;

fn json(entries: &[(&str, &str)]) -> String {
    let mut map: OrderedMap<String, String> = OrderedMap::new();
    for (key, value) in entries {
        map.insert(key.to_string(), value.to_string());
    }
    licenses_json(&map)
}

#[test]
fn no_licenses() {
    assert_eq!(json(&[]), "{}");
}

#[test]
fn licenses_in_order_of_their_keys() {
    assert_eq!(
        json(&[
            ("git+https://h/tools@abc", "MPL-2.0"),
            ("crate://crates.io/serde/1.0.0", "MIT OR Apache-2.0"),
        ]),
        "{\n  \"crate://crates.io/serde/1.0.0\": \"MIT OR Apache-2.0\",\n  \"git+https://h/tools@abc\": \"MPL-2.0\"\n}"
    );
}

#[test]
fn licenses_with_escapes() {
    assert_eq!(
        json(&[("a\"b\\c", "x\ny\t\r\u{8}\u{c}z")]),
        "{\n  \"a\\\"b\\\\c\": \"x\\ny\\t\\r\\b\\fz\"\n}"
    );
    assert_eq!(
        json(&[("\u{0}\u{1f}\u{1b}", "/\u{7f}é\u{2028}😀")]),
        "{\n  \"\\u0000\\u001f\\u001b\": \"/\u{7f}é\u{2028}😀\"\n}"
    );
}

#[test]
fn every_control_character_is_escaped() {
    for n in 0u8..32 {
        let c = n as char;
        let written = match c {
            '\u{8}' => "\\b".to_string(),
            '\t' => "\\t".to_string(),
            '\n' => "\\n".to_string(),
            '\u{c}' => "\\f".to_string(),
            '\r' => "\\r".to_string(),
            _ => format!("\\u{:04x}", n),
        };
        let text = c.to_string();
        assert_eq!(json(&[("k", &text)]), format!("{{\n  \"k\": \"{written}\"\n}}"));
    }
}

#[test]
fn licenses_read_back() {
    let key = "git+https://h/\"quoted\"@\\\n";
    let text = json(&[(key, "MIT"), ("b", "UNKNOWN")]);
    let read: std::collections::BTreeMap<String, String> = serde_json::from_str(&text).unwrap();
    assert_eq!(read.len(), 2);
    assert_eq!(read[key], "MIT");
    assert_eq!(read["b"], "UNKNOWN");
}
