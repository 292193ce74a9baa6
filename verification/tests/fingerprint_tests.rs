use fhmp::note::{DbNote, NoteData};

fn note_with(tags: &str, data: NoteData) -> DbNote {
    DbNote { uuid: 1, ctime: 0, tags: tags.to_string(), data }
}

#[test]
fn fingerprint_is_lowercase_hex_of_128_bits() {
    let n = note_with("a\nb", NoteData::Text("hello".to_string()));
    let h = n.fingerprint();
    assert_eq!(h.len(), 32);
    assert!(h.chars().all(|c| c.is_ascii_hexdigit() && !c.is_ascii_uppercase()));
}

#[test]
fn fingerprint_is_deterministic() {
    let a = note_with("a", NoteData::Text("x".to_string()));
    let b = note_with("a", NoteData::Text("x".to_string()));
    assert_eq!(a.fingerprint(), b.fingerprint());
}

#[test]
fn fingerprint_separates_tags_from_payload() {
    // the framed encoding keeps tag bytes and payload bytes apart
    let a = note_with("ab", NoteData::Text("c".to_string()));
    let b = note_with("a", NoteData::Text("bc".to_string()));
    assert_ne!(a.fingerprint(), b.fingerprint());
}

#[test]
fn fingerprint_distinguishes_payload_kinds() {
    let text = note_with("t", NoteData::Text("x".to_string()));
    let card = note_with(
        "t",
        NoteData::Card(vec!["x".to_string(), "".to_string()]),
    );
    assert_ne!(text.fingerprint(), card.fingerprint());
}

#[test]
fn fingerprint_distinguishes_card_splits() {
    let a = note_with("t", NoteData::Card(vec!["ab".to_string(), "c".to_string()]));
    let b = note_with("t", NoteData::Card(vec!["a".to_string(), "bc".to_string()]));
    assert_ne!(a.fingerprint(), b.fingerprint());
}
