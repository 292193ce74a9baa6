use fhmp::note::NoteData;
use fhmp::store::ReviewEvent;
use fhmp::sync::{RawSyncNote, ReplicaStore, SyncError, SyncNote};

fn note(id: u128, text: &str, version: u64, last: i64, next: i64) -> SyncNote {
    SyncNote {
        id,
        text: text.to_string(),
        version,
        last_reviewed_at: last,
        next_review_at: next,
    }
}

fn review(id: u64) -> ReviewEvent {
    ReviewEvent {
        id,
        note_id: 1,
        ctime: 0,
        result: "easy".to_string(),
        decision: "{}".to_string(),
    }
}

fn push_notes(store: &mut ReplicaStore, notes: Vec<SyncNote>) {
    store.push(&notes, &Vec::new());
}

#[test]
fn push_inserts_new_notes() {
    let mut store = ReplicaStore::new();
    push_notes(&mut store, vec![note(1, "a", 1, 10, 20)]);
    assert_eq!(store.notes().len(), 1);
    assert_eq!(store.notes()[0].text, "a");
}

#[test]
fn lower_version_does_not_overwrite() {
    // the scenario: a push with a lower version leaves text and version
    // alone; a push with a lower review time leaves the schedule alone
    let mut store = ReplicaStore::new();
    push_notes(&mut store, vec![note(1, "new text", 2, 50, 60)]);

    push_notes(&mut store, vec![note(1, "old text", 1, 50, 60)]);
    assert_eq!(store.notes()[0].text, "new text");
    assert_eq!(store.notes()[0].version, 2);

    push_notes(&mut store, vec![note(1, "old text", 1, 40, 99)]);
    assert_eq!(store.notes()[0].last_reviewed_at, 50);
    assert_eq!(store.notes()[0].next_review_at, 60);
}

#[test]
fn fields_update_independently() {
    let mut store = ReplicaStore::new();
    push_notes(&mut store, vec![note(1, "a", 1, 10, 20)]);
    // one replica edited the text, another did a review
    push_notes(&mut store, vec![note(1, "b", 2, 10, 20)]);
    push_notes(&mut store, vec![note(1, "a", 1, 30, 40)]);

    let merged = &store.notes()[0];
    assert_eq!(merged.text, "b");
    assert_eq!(merged.version, 2);
    assert_eq!(merged.last_reviewed_at, 30);
    assert_eq!(merged.next_review_at, 40);
}

#[test]
fn merge_converges_in_either_order() {
    // disjoint-field updates commute
    let x = note(1, "b", 2, 10, 20);
    let y = note(1, "a", 1, 30, 40);

    let mut one = ReplicaStore::new();
    push_notes(&mut one, vec![note(1, "a", 1, 10, 20)]);
    push_notes(&mut one, vec![x.clone()]);
    push_notes(&mut one, vec![y.clone()]);

    let mut two = ReplicaStore::new();
    push_notes(&mut two, vec![note(1, "a", 1, 10, 20)]);
    push_notes(&mut two, vec![y]);
    push_notes(&mut two, vec![x]);

    assert_eq!(one.notes().len(), 1);
    assert_eq!(two.notes().len(), 1);
    let a = &one.notes()[0];
    let b = &two.notes()[0];
    assert_eq!(a.text, b.text);
    assert_eq!(a.version, b.version);
    assert_eq!(a.last_reviewed_at, b.last_reviewed_at);
    assert_eq!(a.next_review_at, b.next_review_at);
    assert_eq!(a.text, "b");
    assert_eq!(a.last_reviewed_at, 30);
}

#[test]
fn reviews_are_facts() {
    let mut store = ReplicaStore::new();
    store.push(&Vec::new(), &vec![review(1), review(2), review(1)]);
    assert_eq!(store.reviews().len(), 2);
    store.push(&Vec::new(), &vec![review(2)]);
    assert_eq!(store.reviews().len(), 2);
}

#[test]
fn raw_note_validation() {
    let raw = RawSyncNote {
        id: None,
        version: Some(1),
        text: "t".to_string(),
        last_reviewed_at: 0,
        next_review_at: 0,
    };
    assert!(matches!(raw.validate(), Err(SyncError::MissingId)));

    let raw = RawSyncNote {
        id: Some(1),
        version: None,
        text: "t".to_string(),
        last_reviewed_at: 0,
        next_review_at: 0,
    };
    assert!(matches!(raw.validate(), Err(SyncError::MissingVersion)));

    let raw = RawSyncNote {
        id: Some(1),
        version: Some(3),
        text: "t".to_string(),
        last_reviewed_at: 7,
        next_review_at: 8,
    };
    let ok = raw.validate().unwrap();
    assert_eq!(ok.id, 1);
    assert_eq!(ok.version, 3);
    assert_eq!(ok.text, "t");
}

#[test]
fn pulled_note_reenters_pipeline() {
    let n = note(77, "pulled text", 3, 1, 2);
    let input = n.to_input_note();
    assert_eq!(input.uuid, Some(77));
    assert_eq!(input.ctime, None);
    assert_eq!(input.tags, "");
    assert_eq!(input.data, NoteData::Text("pulled text".to_string()));
    let db_note = input.to_db_note().unwrap();
    assert_eq!(db_note.uuid, 77);
    assert_eq!(db_note.tags, "");
}
