//! Reconciliation between replicas.
//!
//! A replica pushes batches of notes and review events into a shared,
//! per-replica-key state and pulls the merged state back.  The state here is
//! the flat wire model — one record per note id with a version counter and a
//! review schedule — distinct from the store's hash-and-retire model; the
//! two are converted into each other only at this boundary.  Merging is
//! field-level last-writer-wins: a higher version adopts text and version, a
//! later review time adopts the schedule, and the two comparisons are
//! independent, so content edited on one replica and a review done on
//! another both survive.  Review events are facts: inserted if absent,
//! never superseded.

use vstd::prelude::*;

use crate::note::{InputNote, InputNoteView, NoteData};
use crate::store::{append_review_spec, unique_review_ids, ReviewEvent, ReviewEventView};

verus! {

/// One note as the reconciliation service stores it.
#[derive(Debug, Clone)]
pub struct SyncNote {
    pub id: u128,
    pub text: String,
    pub version: u64,
    pub last_reviewed_at: i64,
    pub next_review_at: i64,
}

/// Specification-level value of a [`SyncNote`].
#[verifier::ext_equal]
pub ghost struct SyncNoteView {
    pub id: u128,
    pub text: Seq<char>,
    pub version: u64,
    pub last_reviewed_at: int,
    pub next_review_at: int,
}

impl View for SyncNote {
    type V = SyncNoteView;

    open spec fn view(&self) -> SyncNoteView {
        SyncNoteView {
            id: self.id,
            text: self.text@,
            version: self.version,
            last_reviewed_at: self.last_reviewed_at as int,
            next_review_at: self.next_review_at as int,
        }
    }
}

impl DeepView for SyncNote {
    type V = SyncNoteView;

    open spec fn deep_view(&self) -> SyncNoteView {
        self.view()
    }
}

/// An incoming wire record before structural validation: identity and
/// version may still be missing.
pub struct RawSyncNote {
    pub id: Option<u128>,
    pub version: Option<u64>,
    pub text: String,
    pub last_reviewed_at: i64,
    pub next_review_at: i64,
}

/// Why an incoming record was rejected before any merge.
#[derive(Debug, Clone, Copy, PartialEq, Eq, Structural)]
pub enum SyncError {
    MissingId,
    MissingVersion,
}

impl RawSyncNote {
    /// Structural validation of an incoming record: a record without an id
    /// or without a version is rejected before it can touch any state.
    pub fn validate(&self) -> (r: Result<SyncNote, SyncError>)
        ensures
            r is Ok <==> (self.id is Some && self.version is Some),
            r is Ok ==> r->Ok_0@ == (SyncNoteView {
                id: self.id->0,
                text: self.text@,
                version: self.version->0,
                last_reviewed_at: self.last_reviewed_at as int,
                next_review_at: self.next_review_at as int,
            }),
            r is Err ==> r->Err_0 == (if self.id is None {
                SyncError::MissingId
            } else {
                SyncError::MissingVersion
            }),
    {
        let id = match self.id {
            Some(id) => id,
            None => {
                return Err(SyncError::MissingId);
            },
        };
        let version = match self.version {
            Some(v) => v,
            None => {
                return Err(SyncError::MissingVersion);
            },
        };
        Ok(
            SyncNote {
                id,
                text: self.text.clone(),
                version,
                last_reviewed_at: self.last_reviewed_at,
                next_review_at: self.next_review_at,
            },
        )
    }
}

/// Field-level last-writer-wins: a strictly higher version adopts text and
/// version; a strictly later review time adopts the schedule; the two are
/// independent.
pub open spec fn merge_note(stored: SyncNoteView, inc: SyncNoteView) -> SyncNoteView {
    SyncNoteView {
        id: stored.id,
        text: if inc.version > stored.version {
            inc.text
        } else {
            stored.text
        },
        version: if inc.version > stored.version {
            inc.version
        } else {
            stored.version
        },
        last_reviewed_at: if inc.last_reviewed_at > stored.last_reviewed_at {
            inc.last_reviewed_at
        } else {
            stored.last_reviewed_at
        },
        next_review_at: if inc.last_reviewed_at > stored.last_reviewed_at {
            inc.next_review_at
        } else {
            stored.next_review_at
        },
    }
}

/// The first index holding this note id, or -1.
pub open spec fn note_idx(notes: Seq<SyncNoteView>, id: u128) -> int
    decreases notes.len(),
{
    if notes.len() == 0 {
        -1
    } else if notes[0].id == id {
        0
    } else {
        let r = note_idx(notes.drop_first(), id);
        if r < 0 {
            -1
        } else {
            r + 1
        }
    }
}

/// One incoming note: inserted as-is if its id is new, merged field by
/// field into the stored note otherwise.
pub open spec fn apply_sync_note(notes: Seq<SyncNoteView>, inc: SyncNoteView) -> Seq<SyncNoteView> {
    let i = note_idx(notes, inc.id);
    if i < 0 {
        notes.push(inc)
    } else {
        notes.update(i, merge_note(notes[i], inc))
    }
}

/// A pushed batch of notes, applied in submission order.
pub open spec fn apply_sync_notes(
    notes: Seq<SyncNoteView>,
    batch: Seq<SyncNoteView>,
) -> Seq<SyncNoteView>
    decreases batch.len(),
{
    if batch.len() == 0 {
        notes
    } else {
        apply_sync_note(apply_sync_notes(notes, batch.drop_last()), batch.last())
    }
}

/// A pushed batch of review events, each inserted if absent.
pub open spec fn apply_reviews(
    reviews: Seq<ReviewEventView>,
    batch: Seq<ReviewEventView>,
) -> Seq<ReviewEventView>
    decreases batch.len(),
{
    if batch.len() == 0 {
        reviews
    } else {
        append_review_spec(apply_reviews(reviews, batch.drop_last()), batch.last())
    }
}

/// Note ids are unique in a replica's state.
pub open spec fn unique_note_ids(notes: Seq<SyncNoteView>) -> bool {
    forall|i: int, j: int|
        0 <= i < notes.len() && 0 <= j < notes.len() && i != j ==> #[trigger] notes[i].id
            != #[trigger] notes[j].id
}

/// The reconciliation state invariant.
pub open spec fn replica_wf(v: ReplicaView) -> bool {
    &&& unique_note_ids(v.notes)
    &&& unique_review_ids(v.reviews)
}

/// Specification-level value of a [`ReplicaStore`].
#[verifier::ext_equal]
pub ghost struct ReplicaView {
    pub notes: Seq<SyncNoteView>,
    pub reviews: Seq<ReviewEventView>,
}

/// The merged state for one replica key: its notes and its review log.
pub struct ReplicaStore {
    notes: Vec<SyncNote>,
    reviews: Vec<ReviewEvent>,
}

impl View for ReplicaStore {
    type V = ReplicaView;

    closed spec fn view(&self) -> ReplicaView {
        ReplicaView { notes: self.notes.deep_view(), reviews: self.reviews.deep_view() }
    }
}

/// If every index before `i` misses the id and `i` hits it, `i` is the
/// first index.
proof fn lemma_note_idx_found(notes: Seq<SyncNoteView>, id: u128, i: int)
    requires
        0 <= i < notes.len(),
        forall|j: int| 0 <= j < i ==> #[trigger] notes[j].id != id,
        notes[i].id == id,
    ensures
        note_idx(notes, id) == i,
    decreases i,
{
    if i > 0 {
        let rest = notes.drop_first();
        assert forall|j: int| 0 <= j < i - 1 implies #[trigger] rest[j].id != id by {
            assert(rest[j] == notes[j + 1]);
        }
        assert(rest[i - 1] == notes[i]);
        lemma_note_idx_found(rest, id, i - 1);
    }
}

/// If no index holds the id, there is no first index.
proof fn lemma_note_idx_missing(notes: Seq<SyncNoteView>, id: u128)
    requires
        forall|j: int| 0 <= j < notes.len() ==> #[trigger] notes[j].id != id,
    ensures
        note_idx(notes, id) == -1,
    decreases notes.len(),
{
    if notes.len() > 0 {
        let rest = notes.drop_first();
        assert forall|j: int| 0 <= j < rest.len() implies #[trigger] rest[j].id != id by {
            assert(rest[j] == notes[j + 1]);
        }
        lemma_note_idx_missing(rest, id);
    }
}

impl ReplicaStore {
    /// An empty replica state.
    pub fn new() -> (s: ReplicaStore)
        ensures
            s@.notes.len() == 0,
            s@.reviews.len() == 0,
            replica_wf(s@),
    {
        ReplicaStore { notes: Vec::new(), reviews: Vec::new() }
    }

    /// Merges one incoming note: inserted if its id is new, merged field by
    /// field otherwise.
    fn merge_one(&mut self, inc: &SyncNote)
        ensures
            final(self)@.notes == apply_sync_note(old(self)@.notes, inc@),
            final(self)@.reviews == old(self)@.reviews,
    {
        let n = self.notes.len();
        let mut i: usize = 0;
        while i < n
            invariant
                i <= n,
                n == self.notes.len(),
                self@.notes == old(self)@.notes,
                self@.reviews == old(self)@.reviews,
                forall|j: int| 0 <= j < i ==> #[trigger] self@.notes[j].id != inc@.id,
            decreases n - i,
        {
            if self.notes[i].id == inc.id {
                proof {
                    lemma_note_idx_found(self@.notes, inc@.id, i as int);
                }
                let ghost notes0 = self@.notes;
                let stored = &self.notes[i];
                let adopt_content = inc.version > stored.version;
                let adopt_schedule = inc.last_reviewed_at > stored.last_reviewed_at;
                let merged = SyncNote {
                    id: stored.id,
                    text: if adopt_content {
                        inc.text.clone()
                    } else {
                        stored.text.clone()
                    },
                    version: if adopt_content {
                        inc.version
                    } else {
                        stored.version
                    },
                    last_reviewed_at: if adopt_schedule {
                        inc.last_reviewed_at
                    } else {
                        stored.last_reviewed_at
                    },
                    next_review_at: if adopt_schedule {
                        inc.next_review_at
                    } else {
                        stored.next_review_at
                    },
                };
                self.notes[i] = merged;
                proof {
                    assert(self@.notes[i as int] =~= merge_note(notes0[i as int], inc@));
                    assert forall|j: int| 0 <= j < n && j != i as int implies #[trigger] self@.notes[j]
                        == notes0[j] by {}
                    assert(self@.notes =~= notes0.update(
                        i as int,
                        merge_note(notes0[i as int], inc@),
                    ));
                }
                return;
            }
            i += 1;
        }
        proof {
            lemma_note_idx_missing(self@.notes, inc@.id);
        }
        let ghost notes0 = self@.notes;
        self.notes.push(
            SyncNote {
                id: inc.id,
                text: inc.text.clone(),
                version: inc.version,
                last_reviewed_at: inc.last_reviewed_at,
                next_review_at: inc.next_review_at,
            },
        );
        proof {
            assert(self@.notes =~= notes0.push(inc@));
        }
    }

    /// Records one review event if its id is absent; a duplicate is
    /// absorbed, and nothing recorded is ever changed.
    fn record_review(&mut self, ev: &ReviewEvent)
        ensures
            final(self)@.reviews == append_review_spec(old(self)@.reviews, ev@),
            final(self)@.notes == old(self)@.notes,
    {
        let mut i: usize = 0;
        while i < self.reviews.len()
            invariant
                i <= self.reviews.len(),
                forall|j: int| 0 <= j < i ==> #[trigger] self@.reviews[j].id != ev@.id,
            decreases self.reviews.len() - i,
        {
            if self.reviews[i].id == ev.id {
                assert(self@.reviews[i as int].id == ev@.id);
                return;
            }
            i += 1;
        }
        let ghost r0 = self@.reviews;
        self.reviews.push(
            ReviewEvent {
                id: ev.id,
                note_id: ev.note_id,
                ctime: ev.ctime,
                result: ev.result.clone(),
                decision: ev.decision.clone(),
            },
        );
        proof {
            assert(self@.reviews =~= r0.push(ev@));
        }
    }

    /// Merges a pushed batch: every review event is inserted if absent, and
    /// every note is inserted or merged field by field, in submission order.
    pub fn push(&mut self, notes: &Vec<SyncNote>, reviews: &Vec<ReviewEvent>)
        ensures
            final(self)@.notes == apply_sync_notes(old(self)@.notes, notes.deep_view()),
            final(self)@.reviews == apply_reviews(old(self)@.reviews, reviews.deep_view()),
            replica_wf(old(self)@) ==> replica_wf(final(self)@),
    {
        proof {
            if replica_wf(self@) {
                lemma_apply_sync_notes_preserves_invariant(self@.notes, notes.deep_view());
                lemma_apply_reviews_preserves_unique(self@.reviews, reviews.deep_view());
            }
        }
        let ghost orig = self@;
        let ghost rbatch = reviews.deep_view();
        proof {
            assert(rbatch.take(0) =~= Seq::<ReviewEventView>::empty());
        }
        let mut i: usize = 0;
        while i < reviews.len()
            invariant
                i <= reviews.len(),
                rbatch == reviews.deep_view(),
                rbatch.len() == reviews@.len(),
                self@.reviews == apply_reviews(orig.reviews, rbatch.take(i as int)),
                self@.notes == orig.notes,
            decreases reviews.len() - i,
        {
            self.record_review(&reviews[i]);
            proof {
                assert(rbatch.take(i + 1).drop_last() =~= rbatch.take(i as int));
                assert(rbatch.take(i + 1).last() == rbatch[i as int]);
            }
            i += 1;
        }
        proof {
            assert(rbatch.take(rbatch.len() as int) =~= rbatch);
        }
        let ghost reviews_done = self@.reviews;
        let ghost nbatch = notes.deep_view();
        proof {
            assert(nbatch.take(0) =~= Seq::<SyncNoteView>::empty());
        }
        let mut i: usize = 0;
        while i < notes.len()
            invariant
                i <= notes.len(),
                nbatch == notes.deep_view(),
                nbatch.len() == notes@.len(),
                self@.notes == apply_sync_notes(orig.notes, nbatch.take(i as int)),
                self@.reviews == reviews_done,
            decreases notes.len() - i,
        {
            self.merge_one(&notes[i]);
            proof {
                assert(nbatch.take(i + 1).drop_last() =~= nbatch.take(i as int));
                assert(nbatch.take(i + 1).last() == nbatch[i as int]);
            }
            i += 1;
        }
        proof {
            assert(nbatch.take(nbatch.len() as int) =~= nbatch);
        }
    }

    /// The merged notes, for a pull.
    pub fn notes(&self) -> (r: &Vec<SyncNote>)
        ensures
            r.deep_view() == self@.notes,
    {
        &self.notes
    }

    /// The review log, for a pull.
    pub fn reviews(&self) -> (r: &Vec<ReviewEvent>)
        ensures
            r.deep_view() == self@.reviews,
    {
        &self.reviews
    }
}

impl SyncNote {
    /// The draft note a pulled record re-enters the local insert pipeline
    /// as: same identity, text payload, no tags and no creation time of its
    /// own.  This is the explicit conversion between the reconciliation
    /// model and the store's hash-and-retire model.
    pub fn to_input_note(&self) -> (r: InputNote)
        ensures
            r@ == (InputNoteView {
                uuid: Some(self.id),
                ctime: None,
                tags: Seq::<char>::empty(),
                data: crate::note::NoteDataView::Text(self.text@),
            }),
    {
        let r = InputNote {
            uuid: Some(self.id),
            ctime: None,
            tags: String::new(),
            data: NoteData::Text(self.text.clone()),
        };
        proof {
            assert(r@ =~= InputNoteView {
                uuid: Some(self.id),
                ctime: None,
                tags: Seq::<char>::empty(),
                data: crate::note::NoteDataView::Text(self.text@),
            });
        }
        r
    }
}

/// Merging a content update and a schedule update converges whatever the
/// order: pushing a note with a higher version but no later review, and a
/// note with a later review but no higher version, leaves the text and
/// version of the first and the schedule of the second, in either order.
pub proof fn lemma_merge_disjoint_fields_commute(s: SyncNoteView, x: SyncNoteView, y: SyncNoteView)
    requires
        x.version > s.version,
        x.last_reviewed_at <= s.last_reviewed_at,
        y.version <= s.version,
        y.last_reviewed_at > s.last_reviewed_at,
    ensures
        merge_note(merge_note(s, x), y) == merge_note(merge_note(s, y), x),
        merge_note(merge_note(s, x), y) == (SyncNoteView {
            id: s.id,
            text: x.text,
            version: x.version,
            last_reviewed_at: y.last_reviewed_at,
            next_review_at: y.next_review_at,
        }),
{
    assert(merge_note(merge_note(s, x), y) =~= merge_note(merge_note(s, y), x));
    assert(merge_note(merge_note(s, x), y) =~= SyncNoteView {
        id: s.id,
        text: x.text,
        version: x.version,
        last_reviewed_at: y.last_reviewed_at,
        next_review_at: y.next_review_at,
    });
}

/// One merged note keeps note ids unique.
pub proof fn lemma_apply_sync_note_preserves_invariant(notes: Seq<SyncNoteView>, inc: SyncNoteView)
    requires
        unique_note_ids(notes),
    ensures
        unique_note_ids(apply_sync_note(notes, inc)),
{
    let i = note_idx(notes, inc.id);
    if i < 0 {
        lemma_note_idx_bounds(notes, inc.id);
        let result = notes.push(inc);
        assert forall|a: int, b: int|
            0 <= a < result.len() && 0 <= b < result.len() && a != b implies #[trigger] result[a].id
            != #[trigger] result[b].id by {
            if a < notes.len() && b < notes.len() {
                assert(result[a].id == notes[a].id);
                assert(result[b].id == notes[b].id);
            } else if a < notes.len() {
                assert(result[b].id == inc.id);
                assert(notes[a].id != inc.id);
            } else {
                assert(result[a].id == inc.id);
                assert(notes[b].id != inc.id);
            }
        }
    } else {
        lemma_note_idx_bounds(notes, inc.id);
        let result = notes.update(i, merge_note(notes[i], inc));
        assert forall|a: int| 0 <= a < result.len() implies #[trigger] result[a].id == notes[a].id by {}
    }
}

/// A whole pushed batch keeps note ids unique.
pub proof fn lemma_apply_sync_notes_preserves_invariant(
    notes: Seq<SyncNoteView>,
    batch: Seq<SyncNoteView>,
)
    requires
        unique_note_ids(notes),
    ensures
        unique_note_ids(apply_sync_notes(notes, batch)),
    decreases batch.len(),
{
    if batch.len() > 0 {
        lemma_apply_sync_notes_preserves_invariant(notes, batch.drop_last());
        lemma_apply_sync_note_preserves_invariant(
            apply_sync_notes(notes, batch.drop_last()),
            batch.last(),
        );
    }
}

/// A pushed batch of review events keeps review ids unique.
pub proof fn lemma_apply_reviews_preserves_unique(
    reviews: Seq<ReviewEventView>,
    batch: Seq<ReviewEventView>,
)
    requires
        unique_review_ids(reviews),
    ensures
        unique_review_ids(apply_reviews(reviews, batch)),
    decreases batch.len(),
{
    if batch.len() > 0 {
        lemma_apply_reviews_preserves_unique(reviews, batch.drop_last());
        crate::store::lemma_append_review_preserves_unique(
            apply_reviews(reviews, batch.drop_last()),
            batch.last(),
        );
    }
}

/// What the first-index function finds: a miss means the id is absent, a
/// hit is in bounds, carries the id, and nothing before it does.
pub proof fn lemma_note_idx_bounds(notes: Seq<SyncNoteView>, id: u128)
    ensures
        note_idx(notes, id) == -1 ==> forall|j: int|
            0 <= j < notes.len() ==> #[trigger] notes[j].id != id,
        note_idx(notes, id) >= 0 ==> note_idx(notes, id) < notes.len() && notes[note_idx(
            notes,
            id,
        )].id == id,
    decreases notes.len(),
{
    if notes.len() > 0 {
        let rest = notes.drop_first();
        lemma_note_idx_bounds(rest, id);
        if notes[0].id != id {
            assert forall|j: int| 0 <= j < rest.len() implies rest[j] == notes[j + 1] by {}
            if note_idx(notes, id) == -1 {
                assert forall|j: int| 0 <= j < notes.len() implies #[trigger] notes[j].id != id by {
                    if j > 0 {
                        assert(rest[j - 1].id != id);
                    }
                }
            }
        }
    }
}

} // verus!

