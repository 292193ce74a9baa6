use fhmp::note::{DbNote, InputNote, NoteData, NoteParseError, ReviewResult};
use fhmp::note::transform_notes;

fn text_input(tags: &str, text: &str) -> InputNote {
    InputNote {
        uuid: None,
        ctime: None,
        tags: tags.to_string(),
        data: NoteData::Text(text.to_string()),
    }
}

#[test]
fn db_note_hash_depends_on_tags() {
    let note0 = DbNote {
        uuid: 0x11111111_2222_3333_4444_555555555555,
        ctime: 1_700_000_000,
        tags: "hello\nworld".to_string(),
        data: NoteData::Text("first note".to_string()),
    };
    let h0 = note0.fingerprint();

    let note1 = DbNote { tags: "hello".to_string(), ..note0.clone() };
    assert_ne!(note1.fingerprint(), h0);

    let note2 = DbNote { data: NoteData::Text("First note".to_string()), ..note0.clone() };
    assert_ne!(note2.fingerprint(), h0);

    let note3 = DbNote { uuid: 0x99999999_8888_7777_6666_555555555555, ..note0.clone() };
    assert_eq!(note3.fingerprint(), h0);

    let note4 = DbNote { ctime: note0.ctime + 86400, ..note0.clone() };
    assert_eq!(note4.fingerprint(), h0);
}

#[test]
fn input_note_to_db_note_ok() {
    let input_note = text_input("hello, world", "hello, world!\n");
    let db_note = input_note.to_db_note().unwrap();
    assert_eq!(db_note.tags, "hello\nworld");
    assert_eq!(db_note.data, NoteData::Text("hello, world!\n".to_string()));

    let input_note = InputNote {
        uuid: None,
        ctime: None,
        tags: "hello, world".to_string(),
        data: NoteData::Card(vec!["hello".to_string(), "world".to_string()]),
    };
    let db_note = input_note.to_db_note().unwrap();
    assert_eq!(db_note.tags, "hello\nworld");
    assert_eq!(
        db_note.data,
        NoteData::Card(vec!["hello".to_string(), "world".to_string()])
    );
}

#[test]
fn input_note_to_db_note_errs() {
    let input_note = InputNote {
        uuid: None,
        ctime: None,
        tags: "hello, world".to_string(),
        data: NoteData::Card(vec!["hello".to_string()]),
    };
    assert_eq!(input_note.to_db_note(), Err(NoteParseError::InvalidCard));
}

#[test]
fn card_validation_boundary() {
    // one segment is rejected, two segments are accepted
    let one = InputNote {
        uuid: None,
        ctime: None,
        tags: "t".to_string(),
        data: NoteData::Card(vec!["front".to_string()]),
    };
    assert_eq!(one.to_db_note(), Err(NoteParseError::InvalidCard));

    let two = InputNote {
        uuid: None,
        ctime: None,
        tags: "t".to_string(),
        data: NoteData::Card(vec!["front".to_string(), "back".to_string()]),
    };
    assert!(two.to_db_note().is_ok());
}

#[test]
fn to_db_note_keeps_identity_and_ctime() {
    let input = InputNote {
        uuid: Some(42),
        ctime: Some(1_600_000_000),
        tags: "a".to_string(),
        data: NoteData::Text("x".to_string()),
    };
    let note = input.to_db_note().unwrap();
    assert_eq!(note.uuid, 42);
    assert_eq!(note.ctime, 1_600_000_000);
}

#[test]
fn tags_are_normalized() {
    // split on commas, trim, lower-case, sort, dedupe, join with newlines
    let note = text_input("  B , a ", "x").to_db_note().unwrap();
    assert_eq!(note.tags, "a\nb");

    let note = text_input("b, a, b", "x").to_db_note().unwrap();
    assert_eq!(note.tags, "a\nb");

    let note = text_input("", "x").to_db_note().unwrap();
    assert_eq!(note.tags, "");
}

#[test]
fn transform_notes_collects_all_errors() {
    let bad1 = InputNote {
        uuid: None,
        ctime: None,
        tags: "t".to_string(),
        data: NoteData::Card(vec![]),
    };
    let bad2 = InputNote {
        uuid: None,
        ctime: None,
        tags: "t".to_string(),
        data: NoteData::Card(vec!["only front".to_string()]),
    };
    let good = text_input("t", "fine");
    let errs = transform_notes(&vec![bad1, good, bad2]).unwrap_err();
    assert_eq!(
        errs,
        vec![NoteParseError::InvalidCard, NoteParseError::InvalidCard]
    );
}

#[test]
fn transform_notes_accepts_valid_batch() {
    let batch = vec![text_input("b, a", "one"), text_input("c", "two")];
    let notes = transform_notes(&batch).unwrap();
    assert_eq!(notes.len(), 2);
    assert_eq!(notes[0].tags, "a\nb");
    assert_eq!(notes[1].tags, "c");
}

#[test]
fn review_result_from_choice() {
    assert_eq!(ReviewResult::from_choice(0), None);
    assert_eq!(ReviewResult::from_choice(1), Some(ReviewResult::Easy));
    assert_eq!(ReviewResult::from_choice(2), Some(ReviewResult::Hard));
    assert_eq!(ReviewResult::from_choice(3), Some(ReviewResult::Again));
    assert_eq!(ReviewResult::from_choice(4), None);
}

#[test]
fn parse_error_message() {
    assert_eq!(
        NoteParseError::InvalidCard.message(),
        "`card` must have two or more elements"
    );
}
