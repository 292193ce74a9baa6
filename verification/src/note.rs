//! Note data model: payloads, stored notes, draft notes and their validation.
//!
//! A note payload is either a single block of free text or a flashcard made
//! of two or more reveal segments.  A draft note (`InputNote`) carries a raw
//! comma-separated tag string and optional identity and creation time; turning
//! it into a stored note (`DbNote`) normalizes the tags into a canonical,
//! newline-joined sorted form and rejects malformed flashcards.

use vstd::prelude::*;

verus! {

/// The payload of a note: free text, or an ordered list of flashcard
/// segments (front side first, then one or more back sides).
#[derive(Debug, Clone)]
pub enum NoteData {
    Text(String),
    Card(Vec<String>),
}

/// Specification-level value of a [`NoteData`].
pub ghost enum NoteDataView {
    Text(Seq<char>),
    Card(Seq<Seq<char>>),
}

impl View for NoteData {
    type V = NoteDataView;

    open spec fn view(&self) -> NoteDataView {
        match self {
            NoteData::Text(s) => NoteDataView::Text(s@),
            NoteData::Card(items) => NoteDataView::Card(items.deep_view()),
        }
    }
}

impl PartialEq for NoteData {
    fn eq(&self, other: &NoteData) -> bool {
        match (self, other) {
            (NoteData::Text(a), NoteData::Text(b)) => *a == *b,
            (NoteData::Card(a), NoteData::Card(b)) => {
                if a.len() != b.len() {
                    assert(a.deep_view().len() != b.deep_view().len());
                    return false;
                }
                let mut i: usize = 0;
                while i < a.len()
                    invariant
                        0 <= i <= a.len(),
                        a.len() == b.len(),
                        self@ == NoteDataView::Card(a.deep_view()),
                        other@ == NoteDataView::Card(b.deep_view()),
                        forall|j: int| 0 <= j < i ==> a.deep_view()[j] == b.deep_view()[j],
                    decreases a.len() - i,
                {
                    let same = a[i] == b[i];
                    if !same {
                        assert(a.deep_view()[i as int] != b.deep_view()[i as int]);
                        return false;
                    }
                    assert(a.deep_view()[i as int] == b.deep_view()[i as int]);
                    i += 1;
                }
                assert(a.deep_view() =~= b.deep_view());
                true
            },
            (NoteData::Text(_), NoteData::Card(_)) => false,
            (NoteData::Card(_), NoteData::Text(_)) => false,
        }
    }
}

impl vstd::std_specs::cmp::PartialEqSpecImpl for NoteData {
    open spec fn obeys_eq_spec() -> bool {
        true
    }

    open spec fn eq_spec(&self, other: &NoteData) -> bool {
        self@ == other@
    }
}

impl NoteData {
    /// An owned copy of the payload, with its value known to the verifier.
    pub fn duplicate(&self) -> (r: NoteData)
        ensures
            r@ == self@,
    {
        match self {
            NoteData::Text(s) => NoteData::Text(s.clone()),
            NoteData::Card(items) => {
                let mut copy: Vec<String> = Vec::new();
                let mut i: usize = 0;
                while i < items.len()
                    invariant
                        i <= items.len(),
                        copy.deep_view().len() == i,
                        forall|j: int| 0 <= j < i ==> copy.deep_view()[j] == #[trigger] items.deep_view()[j],
                    decreases items.len() - i,
                {
                    copy.push(items[i].clone());
                    i += 1;
                }
                proof {
                    assert(copy.deep_view() =~= items.deep_view());
                }
                NoteData::Card(copy)
            },
        }
    }

    /// Whether the payload is structurally valid: free text always is, a
    /// flashcard needs at least two segments.
    pub fn is_valid(&self) -> (r: bool)
        ensures
            r == valid_note_data(self@),
    {
        match self {
            NoteData::Text(_) => true,
            NoteData::Card(items) => items.len() >= 2,
        }
    }
}

/// A structurally valid payload: a flashcard must have a front and at least
/// one back segment.
pub open spec fn valid_note_data(d: NoteDataView) -> bool {
    match d {
        NoteDataView::Text(_) => true,
        NoteDataView::Card(items) => items.len() >= 2,
    }
}

/// The outcome a user can choose after reviewing a note.
#[derive(Debug, Clone, Copy, PartialEq, Eq, Structural)]
pub enum ReviewResult {
    Easy,
    Hard,
    Again,
}

impl ReviewResult {
    /// Maps a review menu choice to its outcome: choices `1`, `2` and `3`
    /// stand for easy, hard and again; anything else means "skip, record
    /// nothing".
    pub fn from_choice(choice: usize) -> (r: Option<ReviewResult>)
        ensures
            r == (if choice == 1 {
                Some(ReviewResult::Easy)
            } else if choice == 2 {
                Some(ReviewResult::Hard)
            } else if choice == 3 {
                Some(ReviewResult::Again)
            } else {
                None::<ReviewResult>
            }),
    {
        match choice {
            1 => Some(ReviewResult::Easy),
            2 => Some(ReviewResult::Hard),
            3 => Some(ReviewResult::Again),
            _ => None,
        }
    }
}

/// Why a draft note was rejected.
#[derive(Debug, Clone, Copy, PartialEq, Eq, Structural)]
pub enum NoteParseError {
    /// A flashcard payload must have two or more segments.
    InvalidCard,
}

impl NoteParseError {
    /// A human-readable description of the error.
    pub fn message(&self) -> (r: &'static str)
        ensures
            r@ == "`card` must have two or more elements"@,
    {
        "`card` must have two or more elements"
    }
}

/// A note version as the store keeps it: a stable 128-bit note id, a
/// creation time (seconds since the Unix epoch, zone-free), the canonical
/// tag string and the payload.
#[derive(Debug, Clone)]
pub struct DbNote {
    pub uuid: u128,
    pub ctime: i64,
    pub tags: String,
    pub data: NoteData,
}

/// Specification-level value of a [`DbNote`].
#[verifier::ext_equal]
pub ghost struct DbNoteView {
    pub uuid: u128,
    pub ctime: int,
    pub tags: Seq<char>,
    pub data: NoteDataView,
}

impl View for DbNote {
    type V = DbNoteView;

    open spec fn view(&self) -> DbNoteView {
        DbNoteView {
            uuid: self.uuid,
            ctime: self.ctime as int,
            tags: self.tags@,
            data: self.data@,
        }
    }
}

impl DeepView for DbNote {
    type V = DbNoteView;

    open spec fn deep_view(&self) -> DbNoteView {
        self.view()
    }
}

impl PartialEq for DbNote {
    fn eq(&self, other: &DbNote) -> bool {
        self.uuid == other.uuid && self.ctime == other.ctime && self.tags == other.tags
            && self.data == other.data
    }
}

impl vstd::std_specs::cmp::PartialEqSpecImpl for DbNote {
    open spec fn obeys_eq_spec() -> bool {
        true
    }

    open spec fn eq_spec(&self, other: &DbNote) -> bool {
        self@ == other@
    }
}

impl DbNote {
    /// The content fingerprint of this note version: a function of its tags
    /// and payload alone.
    pub fn fingerprint(&self) -> (r: String)
        ensures
            r@ == crate::fingerprint::fingerprint_spec(self.tags@, self.data@),
    {
        crate::fingerprint::fingerprint(self.tags.as_str(), &self.data)
    }
}

/// A draft note as read from outside: a raw comma-separated tag string, a
/// payload, and optional stable identity and creation time.
pub struct InputNote {
    pub uuid: Option<u128>,
    pub ctime: Option<i64>,
    pub tags: String,
    pub data: NoteData,
}

/// Specification-level value of an [`InputNote`].
pub ghost struct InputNoteView {
    pub uuid: Option<u128>,
    pub ctime: Option<int>,
    pub tags: Seq<char>,
    pub data: NoteDataView,
}

impl View for InputNote {
    type V = InputNoteView;

    open spec fn view(&self) -> InputNoteView {
        InputNoteView {
            uuid: self.uuid,
            ctime: match self.ctime {
                Some(t) => Some(t as int),
                None => None,
            },
            tags: self.tags@,
            data: self.data@,
        }
    }
}

impl DeepView for InputNote {
    type V = InputNoteView;

    open spec fn deep_view(&self) -> InputNoteView {
        self.view()
    }
}

/// The stored note a draft turns into, given the identity and creation time
/// that fill in for absent fields.
pub open spec fn db_note_of(input: InputNoteView, uuid: u128, ctime: int) -> DbNoteView {
    DbNoteView {
        uuid: match input.uuid {
            Some(u) => u,
            None => uuid,
        },
        ctime: match input.ctime {
            Some(t) => t,
            None => ctime,
        },
        tags: crate::tags::normalize_spec(input.tags),
        data: input.data,
    }
}

/// Relies on uuid::Uuid::new_v4: a fresh random version-4 UUID; nothing is
/// assumed of its value.
#[verifier::external_body]
fn fresh_note_id() -> u128 {
    uuid::Uuid::new_v4().as_u128()
}

/// Relies on chrono::Utc::now: the current wall-clock time in seconds since
/// the Unix epoch; nothing is assumed of its value.
#[verifier::external_body]
fn now_timestamp() -> i64 {
    chrono::Utc::now().timestamp()
}

impl InputNote {
    /// Validates a draft note and builds the stored form, using the given
    /// identity and creation time wherever the draft has none: tags are
    /// normalized, and a flashcard with fewer than two segments is rejected
    /// before anything can be stored.
    pub fn to_db_note_with(&self, uuid: u128, ctime: i64) -> (r: Result<DbNote, NoteParseError>)
        ensures
            r is Ok <==> valid_note_data(self@.data),
            r is Ok ==> r->Ok_0@ == db_note_of(self@, uuid, ctime as int),
            r is Err ==> r->Err_0 == NoteParseError::InvalidCard,
    {
        if !self.data.is_valid() {
            return Err(NoteParseError::InvalidCard);
        }
        let id = match self.uuid {
            Some(u) => u,
            None => uuid,
        };
        let created = match self.ctime {
            Some(t) => t,
            None => ctime,
        };
        let note = DbNote {
            uuid: id,
            ctime: created,
            tags: crate::tags::normalize_tags(self.tags.as_str()),
            data: self.data.duplicate(),
        };
        proof {
            assert(note@ =~= db_note_of(self@, uuid, ctime as int));
        }
        Ok(note)
    }

    /// Validates a draft note and builds the stored form, drawing a fresh
    /// random note id and the current time for absent fields.  Exactly the
    /// flashcards with fewer than two segments are rejected; whatever
    /// identity or creation time the draft carries is kept.
    pub fn to_db_note(&self) -> (r: Result<DbNote, NoteParseError>)
        ensures
            r is Ok <==> valid_note_data(self@.data),
            r is Ok ==> draft_to_note_rel(self@, r->Ok_0@),
            r is Err ==> r->Err_0 == NoteParseError::InvalidCard,
    {
        let uuid = fresh_note_id();
        let ctime = now_timestamp();
        self.to_db_note_with(uuid, ctime)
    }
}

/// How a stored note relates to the draft it came from: tags normalized,
/// payload kept, and identity and creation time kept wherever the draft
/// carried them.
pub open spec fn draft_to_note_rel(input: InputNoteView, out: DbNoteView) -> bool {
    &&& out.tags == crate::tags::normalize_spec(input.tags)
    &&& out.data == input.data
    &&& (input.uuid is Some ==> out.uuid == input.uuid->0)
    &&& (input.ctime is Some ==> out.ctime == input.ctime->0)
}

/// The structural errors of a draft batch, in batch order: one per
/// malformed record.
pub open spec fn collect_errors(batch: Seq<InputNoteView>) -> Seq<NoteParseError>
    decreases batch.len(),
{
    if batch.len() == 0 {
        Seq::empty()
    } else {
        collect_errors(batch.drop_last()) + (if valid_note_data(batch.last().data) {
            Seq::empty()
        } else {
            seq![NoteParseError::InvalidCard]
        })
    }
}

/// A batch has no structural error exactly when every record is valid.
pub proof fn lemma_collect_errors_empty(batch: Seq<InputNoteView>)
    ensures
        collect_errors(batch).len() == 0 <==> (forall|i: int|
            0 <= i < batch.len() ==> valid_note_data(#[trigger] batch[i].data)),
    decreases batch.len(),
{
    if batch.len() > 0 {
        lemma_collect_errors_empty(batch.drop_last());
        assert forall|i: int| 0 <= i < batch.len() - 1 implies batch.drop_last()[i] == batch[i] by {}
        if collect_errors(batch).len() == 0 {
            assert(valid_note_data(batch.last().data));
            assert forall|i: int| 0 <= i < batch.len() implies valid_note_data(
                #[trigger] batch[i].data,
            ) by {
                if i < batch.len() - 1 {
                    assert(valid_note_data(batch.drop_last()[i].data));
                }
            }
        }
    }
}

/// Validates a whole draft batch before anything reaches the store: every
/// record's structural errors are collected — so one edit-and-resubmit
/// cycle can fix them all — and only a batch with none of them turns into
/// stored notes, in batch order.
pub fn transform_notes(notes: &Vec<InputNote>) -> (r: Result<Vec<DbNote>, Vec<NoteParseError>>)
    ensures
        r is Ok <==> collect_errors(notes.deep_view()).len() == 0,
        r is Ok ==> {
            let out = r->Ok_0.deep_view();
            &&& out.len() == notes.deep_view().len()
            &&& forall|i: int|
                0 <= i < out.len() ==> draft_to_note_rel(notes.deep_view()[i], #[trigger] out[i])
        },
        r is Err ==> r->Err_0@ == collect_errors(notes.deep_view()),
{
    let ghost batch = notes.deep_view();
    let mut res: Vec<DbNote> = Vec::new();
    let mut errs: Vec<NoteParseError> = Vec::new();
    proof {
        assert(batch.take(0) =~= Seq::<InputNoteView>::empty());
        assert(res.deep_view() =~= Seq::<DbNoteView>::empty());
    }
    let mut i: usize = 0;
    while i < notes.len()
        invariant
            i <= notes.len(),
            batch == notes.deep_view(),
            batch.len() == notes@.len(),
            errs@ == collect_errors(batch.take(i as int)),
            errs@.len() == 0 ==> res.deep_view().len() == i && forall|j: int|
                0 <= j < i ==> draft_to_note_rel(batch[j], #[trigger] res.deep_view()[j]),
        decreases notes.len() - i,
    {
        let ghost errs0 = errs@;
        let ghost res0 = res.deep_view();
        proof {
            assert(batch.take(i + 1).drop_last() =~= batch.take(i as int));
            assert(batch.take(i + 1).last() == batch[i as int]);
        }
        match notes[i].to_db_note() {
            Ok(n) => {
                res.push(n);
                proof {
                    assert(res.deep_view() =~= res0.push(n@));
                    assert(errs@ + Seq::<NoteParseError>::empty() =~= errs@);
                }
            },
            Err(e) => {
                errs.push(e);
                proof {
                    assert(errs@ =~= errs0 + seq![NoteParseError::InvalidCard]);
                }
            },
        }
        i += 1;
    }
    proof {
        assert(batch.take(batch.len() as int) =~= batch);
    }
    if errs.is_empty() {
        Ok(res)
    } else {
        Err(errs)
    }
}

} // verus!
