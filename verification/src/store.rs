//! The note store: note versions, review events and the review queue.
//!
//! Note versions are immutable and keyed by their content fingerprint.  At
//! most one version of a logical note is active at a time: inserting a new
//! version retires every other active version with the same note id, and
//! inserting content that is already present changes nothing at all — the
//! idempotency that makes re-submitting a batch always safe.  Review events
//! are append-only and deduplicated by their id; the queue holds one row per
//! logical note saying when it is next due.

use vstd::prelude::*;

use crate::fingerprint::fingerprint_spec;
use crate::note::{DbNote, DbNoteView, NoteData, NoteDataView};

verus! {

/// The lifecycle status of a note version.
#[derive(Debug, Clone, Copy, PartialEq, Eq, Structural)]
pub enum NoteStatus {
    Active,
    Retired,
}

/// One stored note version.  `mtime` is set when the row is retired.
#[derive(Debug, Clone)]
pub struct NoteRow {
    pub hash: String,
    pub uuid: u128,
    pub ctime: i64,
    pub mtime: Option<i64>,
    pub tags: String,
    pub data: NoteData,
    pub status: NoteStatus,
}

/// Specification-level value of a [`NoteRow`].
#[verifier::ext_equal]
pub ghost struct NoteRowView {
    pub hash: Seq<char>,
    pub uuid: u128,
    pub ctime: int,
    pub mtime: Option<int>,
    pub tags: Seq<char>,
    pub data: NoteDataView,
    pub status: NoteStatus,
}

impl View for NoteRow {
    type V = NoteRowView;

    open spec fn view(&self) -> NoteRowView {
        NoteRowView {
            hash: self.hash@,
            uuid: self.uuid,
            ctime: self.ctime as int,
            mtime: match self.mtime {
                Some(t) => Some(t as int),
                None => None,
            },
            tags: self.tags@,
            data: self.data@,
            status: self.status,
        }
    }
}

impl DeepView for NoteRow {
    type V = NoteRowView;

    open spec fn deep_view(&self) -> NoteRowView {
        self.view()
    }
}

/// One review outcome for a note: append-only, deduplicated by `id`.
#[derive(Debug, Clone)]
pub struct ReviewEvent {
    pub id: u64,
    pub note_id: u128,
    pub ctime: i64,
    pub result: String,
    pub decision: String,
}

/// Specification-level value of a [`ReviewEvent`].
#[verifier::ext_equal]
pub ghost struct ReviewEventView {
    pub id: u64,
    pub note_id: u128,
    pub ctime: int,
    pub result: Seq<char>,
    pub decision: Seq<char>,
}

impl View for ReviewEvent {
    type V = ReviewEventView;

    open spec fn view(&self) -> ReviewEventView {
        ReviewEventView {
            id: self.id,
            note_id: self.note_id,
            ctime: self.ctime as int,
            result: self.result@,
            decision: self.decision@,
        }
    }
}

impl DeepView for ReviewEvent {
    type V = ReviewEventView;

    open spec fn deep_view(&self) -> ReviewEventView {
        self.view()
    }
}

/// When a logical note is next due for review: one entry per note id.
#[derive(Debug, Clone, Copy, PartialEq, Eq, Structural)]
pub struct QueueEntry {
    pub note_id: u128,
    pub next_review: i64,
}

/// Specification-level value of the whole store.
#[verifier::ext_equal]
pub ghost struct StoreView {
    pub rows: Seq<NoteRowView>,
    pub reviews: Seq<ReviewEventView>,
    pub queue: Seq<QueueEntry>,
}

/// The note store.
pub struct Store {
    rows: Vec<NoteRow>,
    reviews: Vec<ReviewEvent>,
    queue: Vec<QueueEntry>,
}

impl View for Store {
    type V = StoreView;

    closed spec fn view(&self) -> StoreView {
        StoreView {
            rows: self.rows.deep_view(),
            reviews: self.reviews.deep_view(),
            queue: self.queue@,
        }
    }
}

/// Whether some row already carries this content hash.
pub open spec fn row_hash_present(rows: Seq<NoteRowView>, h: Seq<char>) -> bool {
    exists|i: int| 0 <= i < rows.len() && #[trigger] rows[i].hash == h
}

/// A row after `retire_active_versions(uuid, except, now)` has run over it.
pub open spec fn retire_row(r: NoteRowView, uuid: u128, except: Seq<char>, now: int) -> NoteRowView {
    if r.uuid == uuid && r.status is Active && r.hash != except {
        NoteRowView { status: NoteStatus::Retired, mtime: Some(now), ..r }
    } else {
        r
    }
}

/// All rows after retirement.
pub open spec fn retire_rows(
    rows: Seq<NoteRowView>,
    uuid: u128,
    except: Seq<char>,
    now: int,
) -> Seq<NoteRowView> {
    rows.map_values(|r: NoteRowView| retire_row(r, uuid, except, now))
}

/// The fingerprint of a note version's content.
pub open spec fn note_hash(n: DbNoteView) -> Seq<char> {
    fingerprint_spec(n.tags, n.data)
}

/// The fresh active row a note version is stored as.
pub open spec fn new_row(n: DbNoteView) -> NoteRowView {
    NoteRowView {
        hash: note_hash(n),
        uuid: n.uuid,
        ctime: n.ctime,
        mtime: None,
        tags: n.tags,
        data: n.data,
        status: NoteStatus::Active,
    }
}

/// One step of the insert pipeline: content already present is absorbed
/// silently; otherwise every other active version of the note is retired
/// and the new version is inserted active.
pub open spec fn apply_note(rows: Seq<NoteRowView>, n: DbNoteView, now: int) -> Seq<NoteRowView> {
    if row_hash_present(rows, note_hash(n)) {
        rows
    } else {
        retire_rows(rows, n.uuid, note_hash(n), now).push(new_row(n))
    }
}

/// A whole batch, applied in submission order.
pub open spec fn apply_notes(
    rows: Seq<NoteRowView>,
    batch: Seq<DbNoteView>,
    now: int,
) -> Seq<NoteRowView>
    decreases batch.len(),
{
    if batch.len() == 0 {
        rows
    } else {
        apply_note(apply_notes(rows, batch.drop_last(), now), batch.last(), now)
    }
}

/// Content hashes are primary keys: no two rows share one.
pub open spec fn unique_hashes(rows: Seq<NoteRowView>) -> bool {
    forall|i: int, j: int|
        0 <= i < rows.len() && 0 <= j < rows.len() && i != j ==> #[trigger] rows[i].hash != #[trigger] rows[j].hash
}

/// At most one row per logical note is active.
pub open spec fn one_active_per_note(rows: Seq<NoteRowView>) -> bool {
    forall|i: int, j: int|
        0 <= i < rows.len() && 0 <= j < rows.len() && i != j && #[trigger] rows[i].status is Active
            && #[trigger] rows[j].status is Active ==> rows[i].uuid != rows[j].uuid
}

/// Review events are unique by id.
pub open spec fn unique_review_ids(reviews: Seq<ReviewEventView>) -> bool {
    forall|i: int, j: int|
        0 <= i < reviews.len() && 0 <= j < reviews.len() && i != j ==> #[trigger] reviews[i].id
            != #[trigger] reviews[j].id
}

/// The queue holds at most one entry per logical note.
pub open spec fn unique_queue_ids(queue: Seq<QueueEntry>) -> bool {
    forall|i: int, j: int|
        0 <= i < queue.len() && 0 <= j < queue.len() && i != j ==> #[trigger] queue[i].note_id
            != #[trigger] queue[j].note_id
}

/// The store's invariant.
pub open spec fn store_wf(s: StoreView) -> bool {
    &&& unique_hashes(s.rows)
    &&& one_active_per_note(s.rows)
    &&& unique_review_ids(s.reviews)
    &&& unique_queue_ids(s.queue)
}

impl Store {
    /// An empty store; the idempotent schema initialization of a durable
    /// backend corresponds to constructing this.
    pub fn new() -> (s: Store)
        ensures
            s@.rows.len() == 0,
            s@.reviews.len() == 0,
            s@.queue.len() == 0,
            store_wf(s@),
    {
        Store { rows: Vec::new(), reviews: Vec::new(), queue: Vec::new() }
    }

    /// Whether some stored version already carries this content hash.
    pub fn has_hash(&self, h: &String) -> (r: bool)
        ensures
            r == row_hash_present(self@.rows, h@),
    {
        let mut i: usize = 0;
        while i < self.rows.len()
            invariant
                i <= self.rows.len(),
                forall|j: int| 0 <= j < i ==> #[trigger] self@.rows[j].hash != h@,
            decreases self.rows.len() - i,
        {
            if self.rows[i].hash == *h {
                assert(self@.rows[i as int].hash == h@);
                return true;
            }
            i += 1;
        }
        false
    }

    /// Retires every active version of the note other than the one with
    /// `except_hash`, stamping it with the retirement time.
    pub fn retire_active_versions(&mut self, note_id: u128, except_hash: &String, now: i64)
        ensures
            final(self)@.rows == retire_rows(old(self)@.rows, note_id, except_hash@, now as int),
            final(self)@.reviews == old(self)@.reviews,
            final(self)@.queue == old(self)@.queue,
    {
        let ghost orig = self@;
        let n = self.rows.len();
        let mut i: usize = 0;
        while i < n
            invariant
                i <= n,
                n == self.rows.len(),
                orig.rows.len() == n,
                self@.reviews == orig.reviews,
                self@.queue == orig.queue,
                forall|j: int|
                    0 <= j < i ==> #[trigger] self@.rows[j] == retire_row(
                        orig.rows[j],
                        note_id,
                        except_hash@,
                        now as int,
                    ),
                forall|j: int| i <= j < n ==> #[trigger] self@.rows[j] == orig.rows[j],
            decreases n - i,
        {
            let must_retire = self.rows[i].uuid == note_id && self.rows[i].status
                == NoteStatus::Active && !(self.rows[i].hash == *except_hash);
            let ghost rows0 = self@.rows;
            if must_retire {
                let updated = NoteRow {
                    hash: self.rows[i].hash.clone(),
                    uuid: self.rows[i].uuid,
                    ctime: self.rows[i].ctime,
                    mtime: Some(now),
                    tags: self.rows[i].tags.clone(),
                    data: self.rows[i].data.duplicate(),
                    status: NoteStatus::Retired,
                };
                self.rows[i] = updated;
                proof {
                    assert(self@.rows[i as int] =~= retire_row(
                        rows0[i as int],
                        note_id,
                        except_hash@,
                        now as int,
                    ));
                }
            }
            proof {
                assert(self@.rows.len() == n);
                assert forall|j: int|
                    0 <= j < i + 1 implies #[trigger] self@.rows[j] == retire_row(
                    orig.rows[j],
                    note_id,
                    except_hash@,
                    now as int,
                ) by {
                    if j < i {
                        assert(self@.rows[j] == rows0[j]);
                        assert(rows0[j] == retire_row(orig.rows[j], note_id, except_hash@, now as int));
                    } else {
                        assert(rows0[j] == orig.rows[j]);
                        assert(self@.rows[i as int] =~= retire_row(
                            rows0[i as int],
                            note_id,
                            except_hash@,
                            now as int,
                        ));
                    }
                }
                assert forall|j: int| i + 1 <= j < n implies #[trigger] self@.rows[j] == orig.rows[j] by {
                    assert(self@.rows[j] == rows0[j]);
                    assert(rows0[j] == orig.rows[j]);
                }
            }
            i += 1;
        }
        proof {
            assert(self@.rows =~= retire_rows(orig.rows, note_id, except_hash@, now as int));
        }
    }

    /// Inserts a note version row keyed by its content hash; a row whose
    /// hash is already present is silently absorbed.
    pub fn insert_version(&mut self, row: NoteRow)
        ensures
            final(self)@.rows == (if row_hash_present(old(self)@.rows, row@.hash) {
                old(self)@.rows
            } else {
                old(self)@.rows.push(row@)
            }),
            final(self)@.reviews == old(self)@.reviews,
            final(self)@.queue == old(self)@.queue,
    {
        if self.has_hash(&row.hash) {
            return;
        }
        let ghost r0 = self@.rows;
        self.rows.push(row);
        proof {
            assert(self@.rows =~= r0.push(row@));
        }
    }

    /// The version lifecycle step for one note: content already stored is a
    /// successful no-op; otherwise every other active version of the note is
    /// retired and the new version inserted active, as one unit.
    pub fn apply(&mut self, n: &DbNote, now: i64)
        ensures
            final(self)@.rows == apply_note(old(self)@.rows, n@, now as int),
            final(self)@.reviews == old(self)@.reviews,
            final(self)@.queue == old(self)@.queue,
            store_wf(old(self)@) ==> store_wf(final(self)@),
    {
        proof {
            if store_wf(self@) {
                lemma_apply_note_preserves_invariants(self@.rows, n@, now as int);
            }
        }
        let h = n.fingerprint();
        if self.has_hash(&h) {
            return;
        }
        let ghost orig = self@.rows;
        self.retire_active_versions(n.uuid, &h, now);
        let row = NoteRow {
            hash: h,
            uuid: n.uuid,
            ctime: n.ctime,
            mtime: None,
            tags: n.tags.clone(),
            data: n.data.duplicate(),
            status: NoteStatus::Active,
        };
        proof {
            assert(row@ =~= new_row(n@));
            lemma_retire_preserves_hash_presence(
                orig,
                n.uuid,
                note_hash(n@),
                now as int,
                note_hash(n@),
            );
        }
        self.insert_version(row);
    }

    /// Applies a batch of note versions in submission order.  Re-submitting
    /// a batch is always safe: every already-applied record is absorbed as a
    /// no-op by its content hash.
    pub fn insert_notes(&mut self, notes: &Vec<DbNote>, now: i64)
        ensures
            final(self)@.rows == apply_notes(old(self)@.rows, notes.deep_view(), now as int),
            final(self)@.reviews == old(self)@.reviews,
            final(self)@.queue == old(self)@.queue,
            store_wf(old(self)@) ==> store_wf(final(self)@),
    {
        proof {
            if store_wf(self@) {
                lemma_apply_notes_preserves_invariants(
                    self@.rows,
                    notes.deep_view(),
                    now as int,
                );
            }
        }
        let ghost orig = self@;
        let ghost batch = notes.deep_view();
        proof {
            assert(batch.take(0) =~= Seq::<DbNoteView>::empty());
        }
        let mut i: usize = 0;
        while i < notes.len()
            invariant
                i <= notes.len(),
                batch == notes.deep_view(),
                batch.len() == notes@.len(),
                self@.rows == apply_notes(orig.rows, batch.take(i as int), now as int),
                self@.reviews == orig.reviews,
                self@.queue == orig.queue,
            decreases notes.len() - i,
        {
            self.apply(&notes[i], now);
            proof {
                assert(batch.take(i + 1).drop_last() =~= batch.take(i as int));
                assert(batch.take(i + 1).last() == batch[i as int]);
            }
            i += 1;
        }
        proof {
            assert(batch.take(batch.len() as int) =~= batch);
        }
    }

    /// The currently active note versions, in storage order.
    pub fn active_notes(&self) -> (r: Vec<DbNote>)
        ensures
            r.deep_view() == active_notes_spec(self@.rows),
    {
        let mut out: Vec<DbNote> = Vec::new();
        proof {
            assert(self@.rows.take(0) =~= Seq::<NoteRowView>::empty());
            assert(out.deep_view() =~= Seq::<DbNoteView>::empty());
        }
        let mut i: usize = 0;
        while i < self.rows.len()
            invariant
                i <= self.rows.len(),
                out.deep_view() == active_notes_spec(self@.rows.take(i as int)),
            decreases self.rows.len() - i,
        {
            let ghost d0 = out.deep_view();
            proof {
                assert(self@.rows.take(i + 1).drop_last() =~= self@.rows.take(i as int));
                assert(self@.rows.take(i + 1).last() == self@.rows[i as int]);
            }
            if self.rows[i].status == NoteStatus::Active {
                let note = DbNote {
                    uuid: self.rows[i].uuid,
                    ctime: self.rows[i].ctime,
                    tags: self.rows[i].tags.clone(),
                    data: self.rows[i].data.duplicate(),
                };
                out.push(note);
                proof {
                    assert(out.deep_view() =~= d0.push(note_of_row(self@.rows[i as int])));
                }
            }
            i += 1;
        }
        proof {
            assert(self@.rows.take(self@.rows.len() as int) =~= self@.rows);
        }
        out
    }
}

/// Retiring changes statuses and retirement stamps only, so it neither adds
/// nor removes any content hash.
pub proof fn lemma_retire_preserves_hash_presence(
    rows: Seq<NoteRowView>,
    uuid: u128,
    except: Seq<char>,
    now: int,
    h: Seq<char>,
)
    ensures
        row_hash_present(retire_rows(rows, uuid, except, now), h) == row_hash_present(rows, h),
{
    let retired = retire_rows(rows, uuid, except, now);
    assert(retired.len() == rows.len());
    assert forall|i: int| 0 <= i < rows.len() implies #[trigger] retired[i].hash == rows[i].hash by {
        assert(retired[i] == retire_row(rows[i], uuid, except, now));
    }
    if row_hash_present(rows, h) {
        let i = choose|i: int| 0 <= i < rows.len() && #[trigger] rows[i].hash == h;
        assert(retired[i].hash == h);
    }
    if row_hash_present(retired, h) {
        let i = choose|i: int| 0 <= i < retired.len() && #[trigger] retired[i].hash == h;
        assert(rows[i].hash == h);
    }
}

/// Whether a review event with this id is already recorded.
pub open spec fn review_present(reviews: Seq<ReviewEventView>, id: u64) -> bool {
    exists|i: int| 0 <= i < reviews.len() && #[trigger] reviews[i].id == id
}

/// Appending a review event: a duplicate id is absorbed, anything else is
/// appended.
pub open spec fn append_review_spec(
    reviews: Seq<ReviewEventView>,
    ev: ReviewEventView,
) -> Seq<ReviewEventView> {
    if review_present(reviews, ev.id) {
        reviews
    } else {
        reviews.push(ev)
    }
}

/// Whether the queue already has an entry for this note.
pub open spec fn queue_present(queue: Seq<QueueEntry>, note_id: u128) -> bool {
    exists|i: int| 0 <= i < queue.len() && #[trigger] queue[i].note_id == note_id
}

/// Upserting a queue entry: every entry of the note is rewritten to the new
/// due time, or a fresh entry is appended if there was none.
pub open spec fn upsert_queue_spec(
    queue: Seq<QueueEntry>,
    note_id: u128,
    next_review: int,
) -> Seq<QueueEntry> {
    if queue_present(queue, note_id) {
        queue.map_values(
            |q: QueueEntry|
                if q.note_id == note_id {
                    QueueEntry { note_id: q.note_id, next_review: next_review as i64 }
                } else {
                    q
                },
        )
    } else {
        queue.push(QueueEntry { note_id, next_review: next_review as i64 })
    }
}

/// Whether this row is the active version of the note.
pub open spec fn is_active_for(r: NoteRowView, uuid: u128) -> bool {
    r.status is Active && r.uuid == uuid
}

/// Whether the note has an active version at all.
pub open spec fn has_active(rows: Seq<NoteRowView>, uuid: u128) -> bool {
    exists|i: int| 0 <= i < rows.len() && is_active_for(#[trigger] rows[i], uuid)
}

/// The note's active version, if it has one.
pub open spec fn active_note_for(rows: Seq<NoteRowView>, uuid: u128) -> Option<DbNoteView> {
    if has_active(rows, uuid) {
        let i = choose|i: int| 0 <= i < rows.len() && is_active_for(#[trigger] rows[i], uuid);
        Some(note_of_row(rows[i]))
    } else {
        None
    }
}

/// The notes due for review: walking the queue in order, every entry due at
/// `now` whose note still has an active version yields that version, up to
/// `limit` notes.
pub open spec fn due_notes_spec(
    queue: Seq<QueueEntry>,
    rows: Seq<NoteRowView>,
    limit: nat,
    now: int,
) -> Seq<DbNoteView>
    decreases queue.len(),
{
    if limit == 0 || queue.len() == 0 {
        Seq::empty()
    } else if queue[0].next_review <= now && active_note_for(rows, queue[0].note_id) is Some {
        seq![active_note_for(rows, queue[0].note_id)->0] + due_notes_spec(
            queue.drop_first(),
            rows,
            (limit - 1) as nat,
            now,
        )
    } else {
        due_notes_spec(queue.drop_first(), rows, limit, now)
    }
}

/// How many versions of the note are stored, whatever their status.
pub open spec fn count_rows_for(rows: Seq<NoteRowView>, uuid: u128) -> nat
    decreases rows.len(),
{
    if rows.len() == 0 {
        0
    } else {
        count_rows_for(rows.drop_last(), uuid) + if rows.last().uuid == uuid {
            1nat
        } else {
            0nat
        }
    }
}

impl Store {
    /// Records a review event once: an event whose id is already present is
    /// absorbed silently, and nothing recorded is ever changed.
    pub fn append_review_event(&mut self, ev: ReviewEvent)
        ensures
            final(self)@.reviews == append_review_spec(old(self)@.reviews, ev@),
            final(self)@.rows == old(self)@.rows,
            final(self)@.queue == old(self)@.queue,
            store_wf(old(self)@) ==> store_wf(final(self)@),
    {
        proof {
            if store_wf(self@) {
                lemma_append_review_preserves_unique(self@.reviews, ev@);
            }
        }
        let mut i: usize = 0;
        while i < self.reviews.len()
            invariant
                i <= self.reviews.len(),
                forall|j: int| 0 <= j < i ==> #[trigger] self@.reviews[j].id != ev@.id,
            decreases self.reviews.len() - i,
        {
            if self.reviews[i].id == ev.id {
                assert(self@.reviews[i as int].id == ev@.id);
                return;
            }
            i += 1;
        }
        let ghost r0 = self@.reviews;
        self.reviews.push(ev);
        proof {
            assert(self@.reviews =~= r0.push(ev@));
        }
    }

    /// Points the note's queue entry at a new due time, creating the entry
    /// if the note had none.
    pub fn upsert_queue_entry(&mut self, note_id: u128, next_review: i64)
        ensures
            final(self)@.queue == upsert_queue_spec(old(self)@.queue, note_id, next_review as int),
            final(self)@.rows == old(self)@.rows,
            final(self)@.reviews == old(self)@.reviews,
            store_wf(old(self)@) ==> store_wf(final(self)@),
    {
        proof {
            if store_wf(self@) {
                lemma_upsert_queue_preserves_unique(self@.queue, note_id, next_review as int);
            }
        }
        let ghost orig = self@;
        let n = self.queue.len();
        let mut found = false;
        let mut i: usize = 0;
        while i < n
            invariant
                i <= n,
                n == self.queue.len(),
                orig.queue.len() == n,
                self@.rows == orig.rows,
                self@.reviews == orig.reviews,
                found == queue_present(orig.queue.take(i as int), note_id),
                forall|j: int|
                    0 <= j < i ==> #[trigger] self@.queue[j] == (if orig.queue[j].note_id
                        == note_id {
                        QueueEntry { note_id: orig.queue[j].note_id, next_review }
                    } else {
                        orig.queue[j]
                    }),
                forall|j: int| i <= j < n ==> #[trigger] self@.queue[j] == orig.queue[j],
            decreases n - i,
        {
            let ghost q0 = self@.queue;
            if self.queue[i].note_id == note_id {
                self.queue[i] = QueueEntry { note_id, next_review };
                found = true;
                proof {
                    assert(orig.queue.take(i + 1)[i as int].note_id == note_id);
                }
            }
            proof {
                assert(orig.queue.take(i + 1).drop_last() =~= orig.queue.take(i as int));
                if queue_present(orig.queue.take(i + 1), note_id) && !queue_present(
                    orig.queue.take(i as int),
                    note_id,
                ) {
                    let w = choose|w: int|
                        0 <= w < i + 1 && #[trigger] orig.queue.take(i + 1)[w].note_id == note_id;
                    assert(w == i as int);
                    assert(orig.queue[i as int].note_id == note_id);
                }
                assert forall|j: int| 0 <= j < n && j != i as int implies #[trigger] self@.queue[j]
                    == q0[j] by {}
            }
            i += 1;
        }
        proof {
            assert(orig.queue.take(n as int) =~= orig.queue);
        }
        if !found {
            let ghost q0 = self@.queue;
            self.queue.push(QueueEntry { note_id, next_review });
            proof {
                assert(self@.queue =~= q0.push(QueueEntry { note_id, next_review }));
            }
        } else {
            proof {
                assert(self@.queue =~= upsert_queue_spec(orig.queue, note_id, next_review as int));
            }
        }
    }

    /// The index of the note's active version, if it has one.
    fn find_active(&self, uuid: u128) -> (r: Option<usize>)
        ensures
            match r {
                Some(i) => i < self@.rows.len() && is_active_for(self@.rows[i as int], uuid),
                None => !has_active(self@.rows, uuid),
            },
    {
        let mut i: usize = 0;
        while i < self.rows.len()
            invariant
                i <= self.rows.len(),
                forall|j: int| 0 <= j < i ==> !is_active_for(#[trigger] self@.rows[j], uuid),
            decreases self.rows.len() - i,
        {
            if self.rows[i].status == NoteStatus::Active && self.rows[i].uuid == uuid {
                return Some(i);
            }
            i += 1;
        }
        None
    }

    /// The note's active version, if it has one.
    pub fn select_active(&self, note_id: u128) -> (r: Option<DbNote>)
        requires
            store_wf(self@),
        ensures
            r.deep_view() == active_note_for(self@.rows, note_id),
    {
        match self.find_active(note_id) {
            Some(idx) => {
                proof {
                    let c = choose|c: int|
                        0 <= c < self@.rows.len() && is_active_for(
                            #[trigger] self@.rows[c],
                            note_id,
                        );
                    assert(is_active_for(self@.rows[idx as int], note_id));
                    if c != idx as int {
                        assert(self@.rows[c].status is Active);
                        assert(self@.rows[idx as int].status is Active);
                        assert(self@.rows[c].uuid != self@.rows[idx as int].uuid);
                    }
                    assert(c == idx as int);
                }
                Some(
                    DbNote {
                        uuid: self.rows[idx].uuid,
                        ctime: self.rows[idx].ctime,
                        tags: self.rows[idx].tags.clone(),
                        data: self.rows[idx].data.duplicate(),
                    },
                )
            },
            None => None,
        }
    }

    /// The notes due for review at `now`, in queue order, at most `limit` of
    /// them: a queue entry yields its note's active version, if any.
    pub fn select_notes_for_review(&self, limit: usize, now: i64) -> (r: Vec<DbNote>)
        requires
            store_wf(self@),
        ensures
            r.deep_view() == due_notes_spec(self@.queue, self@.rows, limit as nat, now as int),
    {
        let mut out: Vec<DbNote> = Vec::new();
        let n = self.queue.len();
        let mut qi: usize = 0;
        proof {
            assert(self@.queue.skip(0) =~= self@.queue);
            assert(out.deep_view() =~= Seq::<DbNoteView>::empty());
            assert(out.deep_view() + due_notes_spec(
                self@.queue,
                self@.rows,
                limit as nat,
                now as int,
            ) =~= due_notes_spec(self@.queue, self@.rows, limit as nat, now as int));
        }
        while qi < n && out.len() < limit
            invariant
                qi <= n,
                n == self.queue.len(),
                store_wf(self@),
                out.deep_view().len() == out@.len() <= limit,
                due_notes_spec(self@.queue, self@.rows, limit as nat, now as int) == out.deep_view()
                    + due_notes_spec(
                    self@.queue.skip(qi as int),
                    self@.rows,
                    (limit - out@.len()) as nat,
                    now as int,
                ),
            decreases n - qi,
        {
            let ghost rest = self@.queue.skip(qi as int);
            proof {
                assert(rest[0] == self@.queue[qi as int]);
                assert(rest.drop_first() =~= self@.queue.skip(qi + 1));
            }
            let entry = self.queue[qi];
            if entry.next_review <= now {
                match self.find_active(entry.note_id) {
                    Some(idx) => {
                        let ghost d0 = out.deep_view();
                        proof {
                            let c = choose|c: int|
                                0 <= c < self@.rows.len() && is_active_for(
                                    #[trigger] self@.rows[c],
                                    entry.note_id,
                                );
                            assert(is_active_for(self@.rows[idx as int], entry.note_id));
                            if c != idx as int {
                                assert(self@.rows[c].status is Active);
                                assert(self@.rows[idx as int].status is Active);
                                assert(self@.rows[c].uuid != self@.rows[idx as int].uuid);
                            }
                            assert(c == idx as int);
                            assert(active_note_for(self@.rows, entry.note_id) == Some(
                                note_of_row(self@.rows[idx as int]),
                            ));
                        }
                        let note = DbNote {
                            uuid: self.rows[idx].uuid,
                            ctime: self.rows[idx].ctime,
                            tags: self.rows[idx].tags.clone(),
                            data: self.rows[idx].data.duplicate(),
                        };
                        out.push(note);
                        proof {
                            assert(out.deep_view() =~= d0.push(note_of_row(self@.rows[idx as int])));
                            assert(d0 + (seq![note_of_row(self@.rows[idx as int])] + due_notes_spec(
                                self@.queue.skip(qi + 1),
                                self@.rows,
                                (limit - out@.len()) as nat,
                                now as int,
                            )) =~= out.deep_view() + due_notes_spec(
                                self@.queue.skip(qi + 1),
                                self@.rows,
                                (limit - out@.len()) as nat,
                                now as int,
                            ));
                        }
                    },
                    None => {
                        proof {
                            assert(active_note_for(self@.rows, entry.note_id) is None);
                        }
                    },
                }
            }
            qi += 1;
        }
        proof {
            if qi == n {
                assert(self@.queue.skip(n as int).len() == 0);
            }
            assert(out.deep_view() + due_notes_spec(
                self@.queue.skip(qi as int),
                self@.rows,
                (limit - out@.len()) as nat,
                now as int,
            ) =~= out.deep_view());
        }
        out
    }

    /// How many versions of the note are stored, whatever their status.
    pub fn count_versions(&self, uuid: u128) -> (r: usize)
        ensures
            r == count_rows_for(self@.rows, uuid),
    {
        let mut count: usize = 0;
        proof {
            assert(self@.rows.take(0) =~= Seq::<NoteRowView>::empty());
        }
        let mut i: usize = 0;
        while i < self.rows.len()
            invariant
                i <= self.rows.len(),
                count == count_rows_for(self@.rows.take(i as int), uuid),
                count <= i,
            decreases self.rows.len() - i,
        {
            proof {
                assert(self@.rows.take(i + 1).drop_last() =~= self@.rows.take(i as int));
                assert(self@.rows.take(i + 1).last() == self@.rows[i as int]);
            }
            if self.rows[i].uuid == uuid {
                count += 1;
            }
            i += 1;
        }
        proof {
            assert(self@.rows.take(self@.rows.len() as int) =~= self@.rows);
        }
        count
    }

    /// Every stored note version row, active and retired, in storage order.
    pub fn rows(&self) -> (r: &Vec<NoteRow>)
        ensures
            r.deep_view() == self@.rows,
    {
        &self.rows
    }

    /// The recorded review events, in insertion order.
    pub fn reviews(&self) -> (r: &Vec<ReviewEvent>)
        ensures
            r.deep_view() == self@.reviews,
    {
        &self.reviews
    }

    /// The review queue, in insertion order.
    pub fn queue_entries(&self) -> (r: &Vec<QueueEntry>)
        ensures
            r@ == self@.queue,
    {
        &self.queue
    }

    /// How many note version rows the store holds in all.
    pub fn version_count(&self) -> (r: usize)
        ensures
            r == self@.rows.len(),
    {
        self.rows.len()
    }
}

/// Recording a review event keeps review ids unique.
pub proof fn lemma_append_review_preserves_unique(
    reviews: Seq<ReviewEventView>,
    ev: ReviewEventView,
)
    requires
        unique_review_ids(reviews),
    ensures
        unique_review_ids(append_review_spec(reviews, ev)),
{
    if !review_present(reviews, ev.id) {
        let result = reviews.push(ev);
        assert forall|i: int, j: int|
            0 <= i < result.len() && 0 <= j < result.len() && i != j implies #[trigger] result[i].id
            != #[trigger] result[j].id by {
            if i < reviews.len() && j < reviews.len() {
                assert(result[i].id == reviews[i].id);
                assert(result[j].id == reviews[j].id);
            } else if i < reviews.len() {
                assert(result[j].id == ev.id);
                assert(result[i].id == reviews[i].id);
                assert(reviews[i].id != ev.id);
            } else {
                assert(result[i].id == ev.id);
                assert(result[j].id == reviews[j].id);
                assert(reviews[j].id != ev.id);
            }
        }
    }
}

/// Upserting a queue entry keeps note ids unique in the queue.
pub proof fn lemma_upsert_queue_preserves_unique(
    queue: Seq<QueueEntry>,
    note_id: u128,
    next_review: int,
)
    requires
        unique_queue_ids(queue),
    ensures
        unique_queue_ids(upsert_queue_spec(queue, note_id, next_review)),
{
    let result = upsert_queue_spec(queue, note_id, next_review);
    if queue_present(queue, note_id) {
        assert forall|i: int| 0 <= i < result.len() implies #[trigger] result[i].note_id
            == queue[i].note_id by {}
    } else {
        assert forall|i: int, j: int|
            0 <= i < result.len() && 0 <= j < result.len() && i != j implies #[trigger] result[i].note_id
            != #[trigger] result[j].note_id by {
            if i < queue.len() && j < queue.len() {
                assert(result[i].note_id == queue[i].note_id);
                assert(result[j].note_id == queue[j].note_id);
            } else if i < queue.len() {
                assert(result[j].note_id == note_id);
                assert(result[i].note_id == queue[i].note_id);
                assert(queue[i].note_id != note_id);
            } else {
                assert(result[i].note_id == note_id);
                assert(result[j].note_id == queue[j].note_id);
                assert(queue[j].note_id != note_id);
            }
        }
    }
}

/// Inserting a note version is idempotent: applying the same version to a
/// store that already absorbed it changes nothing, whatever retirement
/// times the two applications would have stamped.
pub proof fn lemma_apply_note_idempotent(rows: Seq<NoteRowView>, n: DbNoteView, now1: int, now2: int)
    ensures
        apply_note(apply_note(rows, n, now1), n, now2) == apply_note(rows, n, now1),
{
    let h = note_hash(n);
    let once = apply_note(rows, n, now1);
    if !row_hash_present(rows, h) {
        assert(once[once.len() - 1].hash == h);
        assert(row_hash_present(once, h));
    }
}

/// Idempotency of the batch pipeline on one version: running
/// `insert_notes([v])` twice leaves the same rows as running it once.
pub proof fn lemma_insert_batch_idempotent(
    rows: Seq<NoteRowView>,
    n: DbNoteView,
    now1: int,
    now2: int,
)
    ensures
        apply_notes(apply_notes(rows, seq![n], now1), seq![n], now2) == apply_notes(
            rows,
            seq![n],
            now1,
        ),
{
    lemma_apply_singleton(rows, n, now1);
    lemma_apply_singleton(apply_notes(rows, seq![n], now1), n, now2);
    lemma_apply_note_idempotent(rows, n, now1, now2);
}

/// A one-element batch is one lifecycle step.
pub proof fn lemma_apply_singleton(rows: Seq<NoteRowView>, n: DbNoteView, now: int)
    ensures
        apply_notes(rows, seq![n], now) == apply_note(rows, n, now),
{
    let empty = seq![n].drop_last();
    assert(empty.len() == 0);
    assert(apply_notes(rows, empty, now) == rows);
    assert(seq![n].last() == n);
}

/// One lifecycle step keeps the store's row invariants: content hashes stay
/// unique and each logical note keeps at most one active version.
pub proof fn lemma_apply_note_preserves_invariants(rows: Seq<NoteRowView>, n: DbNoteView, now: int)
    requires
        unique_hashes(rows),
        one_active_per_note(rows),
    ensures
        unique_hashes(apply_note(rows, n, now)),
        one_active_per_note(apply_note(rows, n, now)),
{
    let h = note_hash(n);
    if !row_hash_present(rows, h) {
        let retired = retire_rows(rows, n.uuid, h, now);
        let result = retired.push(new_row(n));
        assert forall|i: int| 0 <= i < rows.len() implies #[trigger] retired[i] == retire_row(
            rows[i],
            n.uuid,
            h,
            now,
        ) by {}
        assert forall|i: int, j: int|
            0 <= i < result.len() && 0 <= j < result.len() && i != j implies #[trigger] result[i].hash
            != #[trigger] result[j].hash by {
            if i < rows.len() && j < rows.len() {
                assert(result[i].hash == rows[i].hash);
                assert(result[j].hash == rows[j].hash);
            } else if i < rows.len() {
                assert(result[j].hash == h);
                assert(result[i].hash == rows[i].hash);
                assert(rows[i].hash != h);
            } else {
                assert(result[i].hash == h);
                assert(result[j].hash == rows[j].hash);
                assert(rows[j].hash != h);
            }
        }
        assert forall|i: int|
            0 <= i < rows.len() && #[trigger] retired[i].status is Active implies rows[i].status is Active
            && rows[i].uuid != n.uuid && retired[i].uuid == rows[i].uuid by {
            if rows[i].uuid == n.uuid && rows[i].status is Active {
                assert(rows[i].hash != h);
                assert(retired[i].status is Retired);
            }
        }
        assert forall|i: int, j: int|
            0 <= i < result.len() && 0 <= j < result.len() && i != j
                && #[trigger] result[i].status is Active
                && #[trigger] result[j].status is Active implies result[i].uuid != result[j].uuid by {
            if i < rows.len() && j < rows.len() {
                assert(rows[i].status is Active && rows[j].status is Active);
            } else if i < rows.len() {
                assert(result[j].uuid == n.uuid);
                assert(result[i].uuid == rows[i].uuid);
                assert(rows[i].uuid != n.uuid);
            } else {
                assert(result[i].uuid == n.uuid);
                assert(result[j].uuid == rows[j].uuid);
                assert(rows[j].uuid != n.uuid);
            }
        }
    }
}

/// Inserting content that was not stored before leaves exactly the inserted
/// version active for its note: what `select_active` then answers.
pub proof fn lemma_apply_note_activates(rows: Seq<NoteRowView>, n: DbNoteView, now: int)
    requires
        unique_hashes(rows),
        one_active_per_note(rows),
        !row_hash_present(rows, note_hash(n)),
    ensures
        active_note_for(apply_note(rows, n, now), n.uuid) == Some(note_of_row(new_row(n))),
{
    lemma_apply_note_preserves_invariants(rows, n, now);
    let result = apply_note(rows, n, now);
    let last = result.len() - 1;
    assert(result[last] == new_row(n));
    assert(is_active_for(result[last], n.uuid));
    assert(has_active(result, n.uuid));
    let c = choose|c: int| 0 <= c < result.len() && is_active_for(#[trigger] result[c], n.uuid);
    if c != last {
        assert(result[c].status is Active);
        assert(result[last].status is Active);
        assert(result[c].uuid != result[last].uuid);
    }
    assert(c == last);
}

/// A whole batch keeps the store's row invariants: after any sequence of
/// successful inserts, each logical note still has exactly one or zero
/// active versions, and hashes are still unique.
pub proof fn lemma_apply_notes_preserves_invariants(
    rows: Seq<NoteRowView>,
    batch: Seq<DbNoteView>,
    now: int,
)
    requires
        unique_hashes(rows),
        one_active_per_note(rows),
    ensures
        unique_hashes(apply_notes(rows, batch, now)),
        one_active_per_note(apply_notes(rows, batch, now)),
    decreases batch.len(),
{
    if batch.len() > 0 {
        lemma_apply_notes_preserves_invariants(rows, batch.drop_last(), now);
        lemma_apply_note_preserves_invariants(
            apply_notes(rows, batch.drop_last(), now),
            batch.last(),
            now,
        );
    }
}

/// A note's projection out of its stored row.
pub open spec fn note_of_row(r: NoteRowView) -> DbNoteView {
    DbNoteView { uuid: r.uuid, ctime: r.ctime, tags: r.tags, data: r.data }
}

/// The active note versions among a row sequence, in storage order.
pub open spec fn active_notes_spec(rows: Seq<NoteRowView>) -> Seq<DbNoteView>
    decreases rows.len(),
{
    if rows.len() == 0 {
        Seq::empty()
    } else {
        let rest = active_notes_spec(rows.drop_last());
        if rows.last().status is Active {
            rest.push(note_of_row(rows.last()))
        } else {
            rest
        }
    }
}

} // verus!
