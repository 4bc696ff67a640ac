use breezy_registry::digest::{content_etag, digest_of, Hasher};
use breezy_registry::number::{decimal_of, padded_of, parse_i64, signed_of};
use breezy_registry::order::sorted;
use breezy_registry::table::Table;
use breezy_registry::text::{
    before, contains, has_prefix, has_suffix, same, split, split_once, strip_prefix, strip_suffix,
    trim, trim_end, trim_start,
};

#[test]
fn numbers() {
    for s in ["0", "7", "10", "-1", "9223372036854775807", "-9223372036854775808"] {
        assert_eq!(signed_of(parse_i64(s).unwrap()), s);
    }
    assert_eq!(parse_i64("+5"), Some(5));
    assert_eq!(parse_i64("-0"), Some(0));
    assert_eq!(parse_i64("007"), Some(7));
    for s in ["", "-", "+", " 1", "1 ", "1a", "--1", "9223372036854775808", "-9223372036854775809"] {
        assert_eq!(parse_i64(s), None);
        assert!(s.parse::<i64>().is_err());
    }
    assert_eq!(parse_i64(&"9".repeat(40)), None);
    assert_eq!(parse_i64(&format!("{}5", "0".repeat(40))), Some(5));
    assert_eq!(decimal_of(u64::MAX), u64::MAX.to_string());
    for n in [0, 7, 42, 1234567890, 12345678901, -3, -1234567890, i64::MIN] {
        assert_eq!(padded_of(n), format!("{n:010}"));
        assert_eq!(parse_i64(&padded_of(n)), Some(n));
    }
}

#[test]
fn pieces_of_text() {
    assert!(same("é", "é") && !same("a", "ab") && !same("ab", "a"));
    assert!(before("a", "b") && before("a", "aa") && !before("a", "a") && before("z", "é"));
    assert_eq!(split("a/b//c", '/'), vec!["a", "b", "", "c"]);
    assert_eq!(split("", '/'), vec![""]);
    assert_eq!(split_once("a:b:c", ':'), Some(("a".to_string(), "b:c".to_string())));
    assert_eq!(split_once("abc", ':'), None);
    assert_eq!(strip_prefix("repos/x", "repos/"), Some("x".to_string()));
    assert_eq!(strip_prefix("rep", "repos/"), None);
    assert_eq!(strip_suffix("x/index.json", "/index.json"), Some("x".to_string()));
    assert_eq!(strip_suffix("json", "/index.json"), None);
    assert!(has_prefix("abc", "ab") && !has_prefix("abc", "b"));
    assert!(has_suffix("abc", "bc") && !has_suffix("abc", "b"));
    assert_eq!(trim(" \t\u{3000}x y\u{85}\n"), "x y");
    assert_eq!(trim("  "), "");
    assert_eq!(trim("\u{200b}x"), "\u{200b}x".trim());
    for c in ['\u{9}', '\u{b}', '\u{1680}', '\u{180e}', '\u{2000}', '\u{200a}', '\u{2028}', '\u{202f}', '\u{205f}', '\u{feff}'] {
        let s = format!("{c}a{c}");
        assert_eq!(trim(&s), s.trim());
    }
    assert_eq!(trim_end("http://a//", '/'), "http://a");
    assert_eq!(trim_start("//a/", '/'), "a/");
    assert!(contains(&vec!["a".to_string(), "b".to_string()], "b"));
    assert!(!contains(&vec![], ""));
}

#[test]
fn sorting() {
    let list: Vec<String> = ["b", "a", "c", "a", "", "ab", "b"].iter().map(|s| s.to_string()).collect();
    assert_eq!(sorted(&list), vec!["", "a", "ab", "b", "c"]);
    assert_eq!(sorted(&vec![]), Vec::<String>::new());
    let mut many: Vec<String> = (0..500).map(|i| format!("{}", (i * 7919) % 1000)).collect();
    let got = sorted(&many);
    many.sort();
    many.dedup();
    assert_eq!(got, many);
}

#[test]
fn tables() {
    let mut t: Table<i64> = Table::new();
    assert_eq!(t.len(), 0);
    for k in ["m", "a", "z", "m", "b"] {
        t.insert(k.to_string(), k.len() as i64 + t.len() as i64);
    }
    assert_eq!(t.len(), 4);
    let keys: Vec<&str> = (0..t.len()).map(|i| t.key_at(i).as_str()).collect();
    assert_eq!(keys, vec!["a", "b", "m", "z"]);
    assert_eq!(t.get("m"), Some(&4));
    assert_eq!(t.value_at(0), &2);
    assert!(t.contains_key("z") && !t.contains_key("y"));
    assert_eq!(t.remove("y"), None);
    assert_eq!(t.remove("a"), Some(2));
    t.remove_all(&vec!["z".to_string(), "nothing".to_string()]);
    assert_eq!(t.len(), 2);
    assert_eq!(t.get("z"), None);
}

#[test]
fn digests() {
    assert_eq!(
        digest_of(b""),
        "sha256:e3b0c44298fc1c149afbf4c8996fb92427ae41e4649b934ca495991b7852b855"
    );
    assert_eq!(
        digest_of(b"abc"),
        "sha256:ba7816bf8f01cfea414140de5dae2223b00361a396177a9cb410ff61f20015ad"
    );
    let mut h = Hasher::new();
    h.update(b"a");
    h.update(b"");
    h.update(b"bc");
    assert_eq!(h.digest(), digest_of(b"abc"));
    assert_eq!(content_etag(b"abc"), "ba7816bf8f01cfea414140de5dae2223");
}
