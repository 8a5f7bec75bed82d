use zspell_index::deserialize::parse_index;
use zspell_index::index::{DictionaryFormat, Downloadable, Index, IndexEntry};
use zspell_index::serialize::{serialize_index, serialize_index_pretty};

fn dl(url: &str, hash: &str, size: u64) -> Downloadable {
    Downloadable { urls: vec![url.to_string()], hash: hash.to_string(), size }
}

fn sample_entry() -> IndexEntry {
    IndexEntry {
        lang: "en".to_string(),
        tags: vec!["source-wooorm".to_string()],
        is_ext: false,
        id: "0192aaaa-bbbb-7ccc-8ddd-eeeeffff0000".to_string(),
        format: DictionaryFormat::Hunspell {
            aff: dl("https://example.test/en.aff", "sha1:aaa", 10),
            dic: dl("https://example.test/en.dic", "sha1:bbb", 20),
        },
        lic: dl("https://example.test/license", "sha1:ccc", 30),
    }
}

#[test]
fn compact_text_is_exact() {
    let index = Index {
        schema_version: 1,
        updated: "2024-01-02T03:04:05+00:00".to_string(),
        retrieved: None,
        items: vec![sample_entry()],
    };
    let text = serialize_index(&index);
    let expected = "{\"schema_version\":1,\"updated\":\"2024-01-02T03:04:05+00:00\",\"retrieved\":null,\"items\":[{\"lang\":\"en\",\"tags\":[\"source-wooorm\"],\"is_ext\":false,\"id\":\"0192aaaa-bbbb-7ccc-8ddd-eeeeffff0000\",\"fmt\":\"hunspell\",\"aff\":{\"urls\":[\"https://example.test/en.aff\"],\"hash\":\"sha1:aaa\",\"size\":10},\"dic\":{\"urls\":[\"https://example.test/en.dic\"],\"hash\":\"sha1:bbb\",\"size\":20},\"lic\":{\"urls\":[\"https://example.test/license\"],\"hash\":\"sha1:ccc\",\"size\":30}}]}";
    assert_eq!(text, expected);
}

#[test]
fn compact_text_is_valid_json() {
    let index = Index {
        schema_version: 1,
        updated: "2024-01-02T03:04:05+00:00".to_string(),
        retrieved: Some("2024-02-03T04:05:06+00:00".to_string()),
        items: vec![sample_entry()],
    };
    let text = serialize_index(&index);
    let value: serde_json::Value = serde_json::from_str(&text).expect("writer must emit JSON");
    assert_eq!(value["schema_version"], serde_json::Value::from(1));
    assert_eq!(value["items"][0]["lang"], serde_json::Value::from("en"));
    assert_eq!(value["items"][0]["fmt"], serde_json::Value::from("hunspell"));
    assert_eq!(value["items"][0]["lic"]["hash"], serde_json::Value::from("sha1:ccc"));
    let pretty = serialize_index_pretty(&index);
    let value2: serde_json::Value = serde_json::from_str(&pretty).expect("pretty must be JSON");
    assert_eq!(value, value2);
}

#[test]
fn round_trip_returns_an_equal_index() {
    let wordlist_entry = IndexEntry {
        lang: "de".to_string(),
        tags: vec!["source-wooorm".to_string(), "size-compact".to_string()],
        is_ext: true,
        id: "0192aaaa-bbbb-7ccc-8ddd-eeeeffff0001".to_string(),
        format: DictionaryFormat::Wordlist(dl("https://example.test/de.txt", "sha1:ddd", 40)),
        lic: dl("https://example.test/de-license", "sha1:eee", 50),
    };
    let index = Index {
        schema_version: 1,
        updated: "2024-01-02T03:04:05+00:00".to_string(),
        retrieved: Some("2024-02-03T04:05:06+00:00".to_string()),
        items: vec![sample_entry(), wordlist_entry],
    };
    let text = serialize_index(&index);
    let back = parse_index(&text).expect("canonical text must parse");
    assert_eq!(back, index);
}

#[test]
fn round_trip_keeps_escaped_characters() {
    let mut entry = sample_entry();
    entry.lang = "quo\"te\\slash".to_string();
    entry.tags = vec!["a\"b".to_string(), "c\\d".to_string()];
    let index = Index {
        schema_version: 7,
        updated: "later".to_string(),
        retrieved: None,
        items: vec![entry],
    };
    let text = serialize_index(&index);
    let back = parse_index(&text).expect("escaped text must parse");
    assert_eq!(back, index);
    let value: serde_json::Value = serde_json::from_str(&text).expect("escapes must stay JSON");
    assert_eq!(value["items"][0]["lang"], serde_json::Value::from("quo\"te\\slash"));
}

#[test]
fn control_characters_are_escaped_like_serde_json() {
    let mut entry = sample_entry();
    entry.lang = "a\nb\tc\u{1}d".to_string();
    entry.tags = vec!["x\u{8}\u{c}\r\u{1f}".to_string()];
    let index = Index {
        schema_version: 1,
        updated: "t".to_string(),
        retrieved: None,
        items: vec![entry],
    };
    let text = serialize_index(&index);
    assert!(text.contains("a\\nb\\tc\\u0001d"));
    assert!(text.contains("x\\b\\f\\r\\u001f"));
    assert!(!text.chars().any(|c| (c as u32) < 0x20));
    let value: serde_json::Value = serde_json::from_str(&text).expect("escaped controls are JSON");
    assert_eq!(value["items"][0]["lang"], serde_json::Value::from("a\nb\tc\u{1}d"));
    assert_eq!(serde_json::to_string(&value["items"][0]["tags"][0]).unwrap(),
        serde_json::to_string(&serde_json::Value::from("x\u{8}\u{c}\r\u{1f}")).unwrap());
    let back = parse_index(&text).expect("escaped controls must parse");
    assert_eq!(back, index);
}

#[test]
fn pretty_text_of_control_characters_is_valid_json() {
    let mut entry = sample_entry();
    entry.id = "line\nbreak\u{0}".to_string();
    let index = Index {
        schema_version: 1,
        updated: "t".to_string(),
        retrieved: None,
        items: vec![entry],
    };
    let pretty = serialize_index_pretty(&index);
    let value: serde_json::Value = serde_json::from_str(&pretty).expect("pretty must stay JSON");
    assert_eq!(value["items"][0]["id"], serde_json::Value::from("line\nbreak\u{0}"));
    let compact: serde_json::Value = serde_json::from_str(&serialize_index(&index)).unwrap();
    assert_eq!(value, compact);
}

#[test]
fn round_trip_of_empty_index() {
    let index = Index {
        schema_version: 1,
        updated: "now".to_string(),
        retrieved: None,
        items: Vec::new(),
    };
    let text = serialize_index(&index);
    assert_eq!(text, "{\"schema_version\":1,\"updated\":\"now\",\"retrieved\":null,\"items\":[]}");
    let back = parse_index(&text).expect("empty index must parse");
    assert_eq!(back, index);
}

#[test]
fn round_trip_keeps_the_largest_size() {
    let mut entry = sample_entry();
    entry.format = DictionaryFormat::Wordlist(dl("u", "sha1:fff", u64::MAX));
    let index = Index {
        schema_version: 255,
        updated: "t".to_string(),
        retrieved: None,
        items: vec![entry],
    };
    let back = parse_index(&serialize_index(&index)).expect("large sizes must parse");
    assert_eq!(back, index);
    match &back.items[0].format {
        DictionaryFormat::Wordlist(d) => assert_eq!(d.size, u64::MAX),
        DictionaryFormat::Hunspell { .. } => panic!("expected the wordlist format"),
    }
}

#[test]
fn round_trip_of_fresh_builder_output() {
    let index = Index::new();
    let back = parse_index(&serialize_index(&index)).expect("fresh index must parse");
    assert_eq!(back, index);
}

#[test]
fn parse_rejects_damaged_text() {
    let index = Index {
        schema_version: 1,
        updated: "now".to_string(),
        retrieved: None,
        items: Vec::new(),
    };
    let text = serialize_index(&index);
    assert!(parse_index(&text[..text.len() - 1]).is_none());
    assert!(parse_index(&format!("{text} ")).is_none());
    assert!(parse_index("").is_none());
    assert!(parse_index("{\"schema_version\":999999999999999999999}").is_none());
}

#[test]
fn pretty_text_is_exact_for_empty_items() {
    let index = Index {
        schema_version: 1,
        updated: "now".to_string(),
        retrieved: None,
        items: Vec::new(),
    };
    let pretty = serialize_index_pretty(&index);
    let expected = "{\n  \"schema_version\": 1,\n  \"updated\": \"now\",\n  \"retrieved\": null,\n  \"items\": []\n}";
    assert_eq!(pretty, expected);
}
