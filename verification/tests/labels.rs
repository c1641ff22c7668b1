use chunkah::cmd_build::{parse_key_value_pairs, LabelMap};

fn parse(pairs: &[&str], base: LabelMap) -> Result<LabelMap, chunkah::cmd_build::KvError> {
    let v: Vec<String> = pairs.iter().map(|s| s.to_string()).collect();
    parse_key_value_pairs(&v, base)
}

#[test]
fn test_parse_key_value_pairs_invalid() {
    let invalid_pairs = ["", "no-equals", "=", "=value", "-key", "=-"];

    for pair in invalid_pairs {
        let result = parse(&[pair], LabelMap::new());
        assert!(result.is_err(), "pair {:?} should be rejected", pair);
    }
}

#[test]
fn test_parse_key_value_pairs_valid() {
    let mut base = LabelMap::new();
    base.set("to-remove".to_string(), "base".to_string());
    base.set("to-override".to_string(), "base".to_string());
    base.set("-".to_string(), "dash-value".to_string());

    let result = parse(
        &[
            "to-remove-",
            "to-override=cli",
            "new=first",
            "new=second",
            "empty=",
            "has=equals=in=value",
            "nonexistent-",
            "--",
        ],
        base,
    )
    .unwrap();

    assert_eq!(result.len(), 4);
    assert_eq!(result.get("to-override").unwrap(), "cli");
    assert_eq!(result.get("new").unwrap(), "second");
    assert_eq!(result.get("empty").unwrap(), "");
    assert_eq!(result.get("has").unwrap(), "equals=in=value");
    assert!(result.get("to-remove").is_none());
    assert!(result.get("-").is_none());
}

#[test]
fn test_parse_key_value_pairs_clear() {
    // Verify "-" clears both base labels and earlier CLI pairs.
    let mut base = LabelMap::new();
    base.set("from-base".to_string(), "value".to_string());

    let result = parse(&["from-cli=value", "-", "after-clear=new"], base).unwrap();
    assert_eq!(result.len(), 1);
    assert_eq!(result.get("after-clear").unwrap(), "new");
}

#[test]
fn test_parse_key_value_pairs_empty_list_keeps_base() {
    let mut base = LabelMap::new();
    base.set("a".to_string(), "1".to_string());
    base.set("b".to_string(), "2".to_string());

    let result = parse(&[], base).unwrap();
    assert_eq!(result.len(), 2);
    assert_eq!(result.get("a").unwrap(), "1");
    assert_eq!(result.get("b").unwrap(), "2");
}

#[test]
fn test_labels_clear_and_re_add() {
    // Base labels {a: 1}; mutations b=2, -, c=3 leave exactly {c: 3}.
    let mut base = LabelMap::new();
    base.set("a".to_string(), "1".to_string());

    let result = parse(&["b=2", "-", "c=3"], base).unwrap();
    assert_eq!(result.len(), 1);
    assert!(result.get("a").is_none());
    assert!(result.get("b").is_none());
    assert_eq!(result.get("c").unwrap(), "3");
}

#[test]
fn test_labels_override_order() {
    // Base labels {existing, override-me}; later pairs override earlier.
    let mut base = LabelMap::new();
    base.set("existing".to_string(), "from-config".to_string());
    base.set("override-me".to_string(), "old-value".to_string());

    let result = parse(
        &["override-me=new-value", "new-label=first", "new-label=second"],
        base,
    )
    .unwrap();
    assert_eq!(result.get("existing").unwrap(), "from-config");
    assert_eq!(result.get("override-me").unwrap(), "new-value");
    assert_eq!(result.get("new-label").unwrap(), "second");
}
