use shortcut_sync::codec::{encode_document, parse_document};
use shortcut_sync::model::Shortcut;

fn sc(id: u64, name: &str, steps: &[&str]) -> Shortcut {
    Shortcut {
        id,
        name: name.to_string(),
        sequence: steps.iter().map(|s| s.to_string()).collect(),
    }
}

#[test]
fn encode_empty_list_is_bracket_pair() {
    assert_eq!(encode_document(&Vec::new()), "[]");
}

#[test]
fn encode_one_entry_exact_text() {
    let doc = encode_document(&vec![sc(1, "Save", &["Ctrl+S"])]);
    assert_eq!(doc, "[{\"id\":1,\"name\":\"Save\",\"sequence\":[\"Ctrl+S\"]}]");
}

#[test]
fn encode_two_entries_exact_text() {
    let doc = encode_document(&vec![sc(10, "A", &[]), sc(2, "B", &["x", "y"])]);
    assert_eq!(
        doc,
        "[{\"id\":10,\"name\":\"A\",\"sequence\":[]},{\"id\":2,\"name\":\"B\",\"sequence\":[\"x\",\"y\"]}]"
    );
}

#[test]
fn encode_escapes_quote_backslash_and_control() {
    let doc = encode_document(&vec![sc(0, "a\"b\\c\nd", &[])]);
    assert_eq!(doc, "[{\"id\":0,\"name\":\"a\\\"b\\\\c\\u000ad\",\"sequence\":[]}]");
}

#[test]
fn parse_inverts_encode() {
    let list = vec![
        sc(1, "plain", &["Ctrl+S", "hello world"]),
        sc(18446744073709551614, "big id", &[]),
        sc(7, "esc \" \\ \t", &["\u{1} low control"]),
        sc(9, "ünïcodé", &["Ctrl+É"]),
    ];
    let doc = encode_document(&list);
    let back = parse_document(&doc).expect("canonical documents parse");
    assert_eq!(back.len(), list.len());
    for (x, y) in list.iter().zip(back.iter()) {
        assert_eq!(x.id, y.id);
        assert_eq!(x.name, y.name);
        assert_eq!(x.sequence, y.sequence);
    }
}

#[test]
fn parse_reads_standard_escapes() {
    let doc = "[{\"id\":3,\"name\":\"t\\u0041b\\n\\t\\\\\",\"sequence\":[\"\\\"q\\\"\"]}]";
    let list = parse_document(doc).expect("escapes are understood");
    assert_eq!(list[0].id, 3);
    assert_eq!(list[0].name, "tAb\n\t\\");
    assert_eq!(list[0].sequence, vec!["\"q\"".to_string()]);
}

#[test]
fn parse_rejects_malformed_documents() {
    assert!(parse_document("").is_none());
    assert!(parse_document("{}").is_none());
    assert!(parse_document("[{\"id\":1,\"name\":\"x\",\"sequence\":[]}").is_none());
    assert!(parse_document("[{\"id\":-1,\"name\":\"x\",\"sequence\":[]}]").is_none());
    assert!(parse_document("[{\"id\":1,\"name\":\"x\",\"sequence\":[]}] ").is_none());
    assert!(parse_document("[{\"id\":99999999999999999999999,\"name\":\"x\",\"sequence\":[]}]")
        .is_none());
    assert!(parse_document("[{\"id\":1,\"name\":\"bad\\q\",\"sequence\":[]}]").is_none());
    assert!(parse_document("[{\"id\":1,\"name\":\"\\ud800\",\"sequence\":[]}]").is_none());
}

#[test]
fn parse_empty_document_is_empty_list() {
    assert_eq!(parse_document("[]").unwrap().len(), 0);
}
