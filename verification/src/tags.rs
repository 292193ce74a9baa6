//! Canonical tag normalization.
//!
//! A raw tag string is a comma-separated list.  Its canonical form — the one
//! stored, hashed and compared — is obtained by splitting on commas, trimming
//! and lower-casing each piece, sorting the pieces, dropping duplicates and
//! joining them with a newline.  Canonical form makes tag-set equality plain
//! string equality.

use vstd::prelude::*;

verus! {

/// What `str::trim` returns, as a function of the characters alone.
pub uninterp spec fn trim_of(s: Seq<char>) -> Seq<char>;

/// What `str::to_lowercase` returns, as a function of the characters alone.
pub uninterp spec fn lower_of(s: Seq<char>) -> Seq<char>;

/// Relies on str::trim: strips leading and trailing whitespace and
/// depends on the characters of its input alone.
#[verifier::external_body]
fn trim_str(s: &str) -> (r: String)
    ensures
        r@ == trim_of(s@),
{
    s.trim().to_owned()
}

/// Relies on str::to_lowercase: the result depends on the characters of
/// its input alone.
#[verifier::external_body]
fn lowercase_str(s: &str) -> (r: String)
    ensures
        r@ == lower_of(s@),
{
    s.to_lowercase()
}

/// One trimmed, lower-cased tag.
pub open spec fn canon_tag(p: Seq<char>) -> Seq<char> {
    lower_of(trim_of(p))
}

/// Splitting on commas, with `cur` the piece accumulated so far.
pub open spec fn split_acc(s: Seq<char>, cur: Seq<char>) -> Seq<Seq<char>>
    decreases s.len(),
{
    if s.len() == 0 {
        seq![cur]
    } else if s[0] == ',' {
        seq![cur] + split_acc(s.drop_first(), Seq::empty())
    } else {
        split_acc(s.drop_first(), cur.push(s[0]))
    }
}

/// The comma-separated pieces of a raw tag string.  An input with no comma
/// is a single piece; every comma ends a piece, so `"a,,b"` has an empty
/// middle piece and `""` is one empty piece.
pub open spec fn split_on_comma(s: Seq<char>) -> Seq<Seq<char>> {
    split_acc(s, Seq::empty())
}

/// Lexicographic order on character sequences, by scalar value.
pub open spec fn lex_le(a: Seq<char>, b: Seq<char>) -> bool
    decreases a.len(),
{
    if a.len() == 0 {
        true
    } else if b.len() == 0 {
        false
    } else if (a[0] as u32) < (b[0] as u32) {
        true
    } else if (a[0] as u32) > (b[0] as u32) {
        false
    } else {
        lex_le(a.drop_first(), b.drop_first())
    }
}

/// Inserts `x` in front of the first element of `s` that is not below it.
pub open spec fn insert_sorted(x: Seq<char>, s: Seq<Seq<char>>) -> Seq<Seq<char>>
    decreases s.len(),
{
    if s.len() == 0 {
        seq![x]
    } else if lex_le(x, s[0]) {
        seq![x] + s
    } else {
        seq![s[0]] + insert_sorted(x, s.drop_first())
    }
}

/// Insertion sort over tag pieces, in lexicographic order.
pub open spec fn sort_tags(s: Seq<Seq<char>>) -> Seq<Seq<char>>
    decreases s.len(),
{
    if s.len() == 0 {
        Seq::empty()
    } else {
        insert_sorted(s.last(), sort_tags(s.drop_last()))
    }
}

/// Drops adjacent duplicates; on sorted input this keeps one copy of each tag.
pub open spec fn dedup_sorted(s: Seq<Seq<char>>) -> Seq<Seq<char>>
    decreases s.len(),
{
    if s.len() == 0 {
        Seq::empty()
    } else {
        let rest = dedup_sorted(s.drop_last());
        if rest.len() > 0 && rest.last() == s.last() {
            rest
        } else {
            rest.push(s.last())
        }
    }
}

/// Joins tag pieces with a newline.
pub open spec fn join_tags(s: Seq<Seq<char>>) -> Seq<char>
    decreases s.len(),
{
    if s.len() == 0 {
        Seq::empty()
    } else if s.len() == 1 {
        s[0]
    } else {
        join_tags(s.drop_last()) + seq!['\n'] + s.last()
    }
}

/// The canonical form of a raw comma-separated tag string.
pub open spec fn normalize_spec(s: Seq<char>) -> Seq<char> {
    join_tags(dedup_sorted(sort_tags(split_on_comma(s).map_values(|p: Seq<char>| canon_tag(p)))))
}

/// Compares two strings in the lexicographic order of their characters.
fn str_le(a: &str, b: &str) -> (r: bool)
    ensures
        r == lex_le(a@, b@),
{
    let na = a.unicode_len();
    let nb = b.unicode_len();
    let mut i: usize = 0;
    proof {
        assert(a@.skip(0) =~= a@);
        assert(b@.skip(0) =~= b@);
    }
    loop
        invariant
            i <= na,
            i <= nb,
            na == a@.len(),
            nb == b@.len(),
            lex_le(a@, b@) == lex_le(a@.skip(i as int), b@.skip(i as int)),
        decreases na - i,
    {
        if i >= na {
            assert(a@.skip(i as int).len() == 0);
            return true;
        }
        if i >= nb {
            assert(b@.skip(i as int).len() == 0);
            assert(a@.skip(i as int).len() > 0);
            return false;
        }
        let ca = a.get_char(i);
        let cb = b.get_char(i);
        assert(a@.skip(i as int)[0] == a@[i as int]);
        assert(b@.skip(i as int)[0] == b@[i as int]);
        if (ca as u32) < (cb as u32) {
            return true;
        }
        if (ca as u32) > (cb as u32) {
            return false;
        }
        assert(a@.skip(i as int).drop_first() =~= a@.skip(i + 1));
        assert(b@.skip(i as int).drop_first() =~= b@.skip(i + 1));
        i += 1;
    }
}

/// Splits a raw tag string into its comma-separated pieces.
fn split_commas(s: &str) -> (pieces: Vec<String>)
    ensures
        pieces.deep_view() == split_on_comma(s@),
{
    let n = s.unicode_len();
    let mut pieces: Vec<String> = Vec::new();
    let mut start: usize = 0;
    let mut i: usize = 0;
    proof {
        assert(s@.skip(0) =~= s@);
        assert(s@.subrange(0, 0) =~= Seq::<char>::empty());
        assert(pieces.deep_view() =~= Seq::<Seq<char>>::empty());
        assert(pieces.deep_view() + split_acc(s@, Seq::empty()) =~= split_acc(s@, Seq::empty()));
    }
    while i < n
        invariant
            start <= i <= n,
            n == s@.len(),
            split_on_comma(s@) == pieces.deep_view() + split_acc(
                s@.skip(i as int),
                s@.subrange(start as int, i as int),
            ),
        decreases n - i,
    {
        let ghost p0 = pieces.deep_view();
        let ghost curv = s@.subrange(start as int, i as int);
        let c = s.get_char(i);
        proof {
            assert(s@.skip(i as int)[0] == s@[i as int]);
            assert(s@.skip(i as int).drop_first() =~= s@.skip(i + 1));
        }
        if c == ',' {
            let piece = s.substring_char(start, i);
            pieces.push(String::from_str(piece));
            proof {
                let rest = split_acc(s@.skip(i + 1), Seq::empty());
                assert(s@.subrange(i + 1, i + 1) =~= Seq::<char>::empty());
                assert(pieces.deep_view() =~= p0.push(curv));
                assert(p0 + (seq![curv] + rest) =~= p0.push(curv) + rest);
            }
            start = i + 1;
        } else {
            proof {
                assert(curv.push(s@[i as int]) =~= s@.subrange(start as int, i + 1));
            }
        }
        i += 1;
    }
    let ghost p0 = pieces.deep_view();
    let ghost curv = s@.subrange(start as int, n as int);
    let piece = s.substring_char(start, n);
    pieces.push(String::from_str(piece));
    proof {
        assert(s@.skip(n as int).len() == 0);
        assert(pieces.deep_view() =~= p0.push(curv));
        assert(p0 + seq![curv] =~= p0.push(curv));
    }
    pieces
}

/// Inserting before the first element that is not below `x` is what
/// [`insert_sorted`] computes.
proof fn lemma_insert_sorted_at(x: Seq<char>, r: Seq<Seq<char>>, idx: int)
    requires
        0 <= idx <= r.len(),
        forall|j: int| 0 <= j < idx ==> !lex_le(x, #[trigger] r[j]),
        idx < r.len() ==> lex_le(x, r[idx]),
    ensures
        insert_sorted(x, r) == r.subrange(0, idx) + seq![x] + r.subrange(idx, r.len() as int),
    decreases idx,
{
    if idx == 0 {
        if r.len() == 0 {
            assert(r.subrange(0, 0) + seq![x] + r.subrange(0, 0) =~= seq![x]);
        } else {
            assert(lex_le(x, r[0]));
            assert(r.subrange(0, 0) + seq![x] + r.subrange(0, r.len() as int) =~= seq![x] + r);
        }
    } else {
        let rd = r.drop_first();
        assert(!lex_le(x, r[0]));
        assert forall|j: int| 0 <= j < idx - 1 implies !lex_le(x, #[trigger] rd[j]) by {
            assert(rd[j] == r[j + 1]);
        }
        assert(idx - 1 < rd.len() ==> lex_le(x, rd[idx - 1]));
        lemma_insert_sorted_at(x, rd, idx - 1);
        assert(seq![r[0]] + (rd.subrange(0, idx - 1) + seq![x] + rd.subrange(
            idx - 1,
            rd.len() as int,
        )) =~= r.subrange(0, idx) + seq![x] + r.subrange(idx, r.len() as int));
    }
}

/// The index at which `x` belongs in the sorted list `out`.
fn find_insert_pos(out: &Vec<String>, x: &str) -> (j: usize)
    ensures
        j <= out.len(),
        forall|k: int| 0 <= k < j ==> !lex_le(x@, #[trigger] out.deep_view()[k]),
        j < out.len() ==> lex_le(x@, out.deep_view()[j as int]),
{
    let mut j: usize = 0;
    loop
        invariant
            j <= out.len(),
            forall|k: int| 0 <= k < j ==> !lex_le(x@, #[trigger] out.deep_view()[k]),
        decreases out.len() - j,
    {
        if j >= out.len() {
            return j;
        }
        if str_le(x, out[j].as_str()) {
            return j;
        }
        j += 1;
    }
}

/// Sorts tag pieces in lexicographic order.
fn sort_pieces(pieces: &Vec<String>) -> (r: Vec<String>)
    ensures
        r.deep_view() == sort_tags(pieces.deep_view()),
{
    let mut out: Vec<String> = Vec::new();
    proof {
        assert(pieces.deep_view().take(0) =~= Seq::<Seq<char>>::empty());
        assert(out.deep_view() =~= Seq::<Seq<char>>::empty());
    }
    let mut i: usize = 0;
    while i < pieces.len()
        invariant
            i <= pieces.len(),
            out.deep_view() == sort_tags(pieces.deep_view().take(i as int)),
        decreases pieces.len() - i,
    {
        let ghost d0 = out.deep_view();
        let x = pieces[i].clone();
        let j = find_insert_pos(&out, x.as_str());
        proof {
            lemma_insert_sorted_at(x@, d0, j as int);
        }
        out.insert(j, x);
        proof {
            assert(out.deep_view() =~= d0.subrange(0, j as int) + seq![x@] + d0.subrange(
                j as int,
                d0.len() as int,
            ));
            assert(pieces.deep_view().take(i + 1).drop_last() =~= pieces.deep_view().take(
                i as int,
            ));
            assert(pieces.deep_view().take(i + 1).last() == pieces.deep_view()[i as int]);
        }
        i += 1;
    }
    proof {
        assert(pieces.deep_view().take(pieces.deep_view().len() as int) =~= pieces.deep_view());
    }
    out
}

/// Drops adjacent duplicates from a sorted list of tag pieces.
fn dedup_pieces(sorted: &Vec<String>) -> (r: Vec<String>)
    ensures
        r.deep_view() == dedup_sorted(sorted.deep_view()),
{
    let mut out: Vec<String> = Vec::new();
    proof {
        assert(sorted.deep_view().take(0) =~= Seq::<Seq<char>>::empty());
        assert(out.deep_view() =~= Seq::<Seq<char>>::empty());
    }
    let mut i: usize = 0;
    while i < sorted.len()
        invariant
            i <= sorted.len(),
            out.deep_view() == dedup_sorted(sorted.deep_view().take(i as int)),
        decreases sorted.len() - i,
    {
        let ghost d0 = out.deep_view();
        proof {
            assert(sorted.deep_view().take(i + 1).drop_last() =~= sorted.deep_view().take(
                i as int,
            ));
            assert(sorted.deep_view().take(i + 1).last() == sorted.deep_view()[i as int]);
        }
        let repeat = out.len() > 0 && out[out.len() - 1] == sorted[i];
        if !repeat {
            out.push(sorted[i].clone());
            proof {
                assert(out.deep_view() =~= d0.push(sorted.deep_view()[i as int]));
            }
        }
        i += 1;
    }
    proof {
        assert(sorted.deep_view().take(sorted.deep_view().len() as int) =~= sorted.deep_view());
    }
    out
}

/// Joins tag pieces with a newline separator.
fn join_pieces(pieces: &Vec<String>) -> (r: String)
    ensures
        r@ == join_tags(pieces.deep_view()),
{
    let mut out = String::new();
    let mut i: usize = 0;
    proof {
        assert(pieces.deep_view().take(0) =~= Seq::<Seq<char>>::empty());
    }
    while i < pieces.len()
        invariant
            i <= pieces.len(),
            out@ == join_tags(pieces.deep_view().take(i as int)),
        decreases pieces.len() - i,
    {
        proof {
            assert(pieces.deep_view().take(i + 1).drop_last() =~= pieces.deep_view().take(
                i as int,
            ));
            assert(pieces.deep_view().take(i + 1).last() == pieces.deep_view()[i as int]);
        }
        if i > 0 {
            let ghost before = out@;
            out.append("\n");
            proof {
                reveal_strlit("\n");
                assert("\n"@ =~= seq!['\n']);
                assert(out@ == before + seq!['\n']);
            }
        }
        out.append(pieces[i].as_str());
        i += 1;
    }
    proof {
        assert(pieces.deep_view().take(pieces.deep_view().len() as int) =~= pieces.deep_view());
    }
    out
}

/// Normalizes a raw comma-separated tag string into its canonical form:
/// split on commas, trim and lower-case each piece, sort, drop duplicates,
/// join with newlines.
pub fn normalize_tags(s: &str) -> (r: String)
    ensures
        r@ == normalize_spec(s@),
{
    let raw = split_commas(s);
    let mut canon: Vec<String> = Vec::new();
    let mut i: usize = 0;
    while i < raw.len()
        invariant
            i <= raw.len(),
            canon.deep_view().len() == i,
            forall|j: int| 0 <= j < i ==> canon.deep_view()[j] == canon_tag(
                #[trigger] raw.deep_view()[j],
            ),
        decreases raw.len() - i,
    {
        let trimmed = trim_str(raw[i].as_str());
        let lowered = lowercase_str(trimmed.as_str());
        canon.push(lowered);
        i += 1;
    }
    proof {
        assert(canon.deep_view() =~= raw.deep_view().map_values(|p: Seq<char>| canon_tag(p)));
    }
    let sorted = sort_pieces(&canon);
    let deduped = dedup_pieces(&sorted);
    join_pieces(&deduped)
}

} // verus!
