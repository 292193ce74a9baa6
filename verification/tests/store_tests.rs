use fhmp::note::{DbNote, NoteData};
use fhmp::store::{QueueEntry, ReviewEvent, Store};

const NOW: i64 = 1_700_000_000;

fn text_note(uuid: u128, tags: &str, text: &str) -> DbNote {
    DbNote {
        uuid,
        ctime: NOW,
        tags: tags.to_string(),
        data: NoteData::Text(text.to_string()),
    }
}

fn review(id: u64, note_id: u128) -> ReviewEvent {
    ReviewEvent {
        id,
        note_id,
        ctime: NOW,
        result: "easy".to_string(),
        decision: "{}".to_string(),
    }
}

#[test]
fn can_init_schema() {
    let db = Store::new();
    assert_eq!(db.version_count(), 0);
}

#[test]
fn can_add_single_note() {
    let mut db = Store::new();
    let note = text_note(1, "hello\nworld", "hello!");
    db.insert_notes(&vec![note.clone()], NOW);

    let dump = db.active_notes();
    assert_eq!(dump.len(), 1);
    assert_eq!(dump[0], note);
}

#[test]
fn insert_skips_duplicates() {
    let mut db = Store::new();
    let note1 = text_note(1, "hello\nworld", "hello!");
    let note2 = text_note(2, "bye\nworld", "bye!");
    let notes = vec![note1.clone(), note2.clone(), note1.clone()];
    db.insert_notes(&notes, NOW);
    let notes = vec![note2.clone(), note2.clone()];
    db.insert_notes(&notes, NOW);

    let mut n1 = 0;
    let mut n2 = 0;
    for n in db.active_notes() {
        if n == note1 {
            n1 += 1;
        } else if n == note2 {
            n2 += 1;
        }
    }
    assert_eq!(1, n1);
    assert_eq!(1, n2);
}

#[test]
fn can_update_note() {
    let mut db = Store::new();
    let note1 = text_note(1, "hello\nworld", "hello!");
    let note2 = DbNote { uuid: note1.uuid, ..text_note(1, "hello\nworld", "bye!") };
    let notes = vec![note1, note2.clone()];
    db.insert_notes(&notes, NOW);

    let dump = db.active_notes();
    assert_eq!(dump.len(), 1);
    assert_eq!(dump[0], note2);
}

#[test]
fn insert_batch_is_idempotent() {
    // re-running the same batch leaves the store exactly as one run does
    let mut db = Store::new();
    let note = text_note(7, "a\nb", "content");
    db.insert_notes(&vec![note.clone()], NOW);
    let after_once = db.active_notes();
    let rows_once = db.version_count();

    db.insert_notes(&vec![note.clone()], NOW + 100);
    assert_eq!(db.active_notes(), after_once);
    assert_eq!(db.version_count(), rows_once);
    assert_eq!(db.count_versions(7), 1);
}

#[test]
fn one_active_version_per_note() {
    // after any sequence of inserts, each note id has at most one active row
    let mut db = Store::new();
    let v1 = text_note(5, "t", "one");
    let v2 = text_note(5, "t", "two");
    let v3 = text_note(5, "t", "three");
    let other = text_note(6, "t", "other");
    db.insert_notes(&vec![v1, other.clone(), v2, v3.clone()], NOW);

    let active: Vec<_> = db.active_notes();
    let for_five: Vec<_> = active.iter().filter(|n| n.uuid == 5).collect();
    assert_eq!(for_five.len(), 1);
    assert_eq!(*for_five[0], v3);
    assert_eq!(db.count_versions(5), 3);
    assert_eq!(db.count_versions(6), 1);
}

#[test]
fn update_retires_and_keeps_history() {
    // the scenario: insert, re-insert the identical note, then a new version
    let mut db = Store::new();
    let first = normalized(text_note(9, "b, a", "hello"));
    db.insert_notes(&vec![first.clone()], NOW);
    assert_eq!(first.tags, "a\nb");
    assert_eq!(db.active_notes().len(), 1);
    assert_eq!(db.count_versions(9), 1);

    db.insert_notes(&vec![first.clone()], NOW);
    assert_eq!(db.count_versions(9), 1);

    let second = normalized(text_note(9, "a,b", "hello!"));
    db.insert_notes(&vec![second.clone()], NOW);
    assert_eq!(db.count_versions(9), 2);
    let active = db.active_notes();
    assert_eq!(active.len(), 1);
    assert_eq!(active[0], second);
}

fn normalized(n: DbNote) -> DbNote {
    DbNote { tags: fhmp::tags::normalize_tags(&n.tags), ..n }
}

#[test]
fn select_active_finds_current_version() {
    let mut db = Store::new();
    let v1 = text_note(5, "t", "one");
    let v2 = text_note(5, "t", "two");
    db.insert_notes(&vec![v1, v2.clone()], NOW);
    assert_eq!(db.select_active(5), Some(v2));
    assert_eq!(db.select_active(6), None);
}

#[test]
fn review_events_deduplicate_by_id() {
    let mut db = Store::new();
    db.append_review_event(review(1, 5));
    db.append_review_event(review(2, 5));
    db.append_review_event(review(1, 5));
    assert_eq!(db.reviews().len(), 2);
}

#[test]
fn queue_upsert_keeps_one_entry_per_note() {
    let mut db = Store::new();
    db.upsert_queue_entry(5, NOW + 10);
    db.upsert_queue_entry(6, NOW + 20);
    db.upsert_queue_entry(5, NOW + 30);
    let q = db.queue_entries();
    assert_eq!(q.len(), 2);
    assert_eq!(q[0], QueueEntry { note_id: 5, next_review: NOW + 30 });
    assert_eq!(q[1], QueueEntry { note_id: 6, next_review: NOW + 20 });
}

#[test]
fn select_due_notes_respects_queue_and_limit() {
    let mut db = Store::new();
    let a = text_note(1, "t", "a");
    let b = text_note(2, "t", "b");
    let c = text_note(3, "t", "c");
    db.insert_notes(&vec![a.clone(), b.clone(), c.clone()], NOW);
    db.upsert_queue_entry(1, NOW - 5);
    db.upsert_queue_entry(2, NOW + 100);
    db.upsert_queue_entry(3, NOW - 1);
    db.upsert_queue_entry(4, NOW - 1); // no such note: nothing to review

    let due = db.select_notes_for_review(10, NOW);
    assert_eq!(due.len(), 2);
    assert_eq!(due[0], a);
    assert_eq!(due[1], c);

    let due = db.select_notes_for_review(1, NOW);
    assert_eq!(due.len(), 1);
    assert_eq!(due[0], a);
}
