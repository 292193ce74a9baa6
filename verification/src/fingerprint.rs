//! Content fingerprints.
//!
//! A note version is addressed by a fingerprint of its tags and payload
//! alone: the two are serialized into one canonical byte string — every
//! variable-length part framed by its 64-bit little-endian length and the
//! payload kind marked by an explicit discriminant byte — which is fed to an
//! extendable-output cryptographic hash, truncated to 128 bits and written
//! as lowercase hex.  Identity, timestamps and status take no part in it, so
//! equal content always collapses onto the same fingerprint.

use vstd::prelude::*;
use vstd::utf8::encode_utf8;

use crate::note::{DbNoteView, NoteData, NoteDataView};

verus! {

/// The `k` little-endian bytes of `n`.
pub open spec fn le_bytes(n: nat, k: nat) -> Seq<u8>
    decreases k,
{
    if k == 0 {
        Seq::empty()
    } else {
        seq![(n % 256) as u8] + le_bytes(n / 256, (k - 1) as nat)
    }
}

/// A string's UTF-8 bytes, framed by their 64-bit little-endian length.
pub open spec fn framed_str(s: Seq<char>) -> Seq<u8> {
    le_bytes(encode_utf8(s).len(), 8) + encode_utf8(s)
}

/// The flashcard segments, one framed string after another.
pub open spec fn card_items_bytes(items: Seq<Seq<char>>) -> Seq<u8>
    decreases items.len(),
{
    if items.len() == 0 {
        Seq::empty()
    } else {
        card_items_bytes(items.drop_last()) + framed_str(items.last())
    }
}

/// The canonical byte encoding of a payload: a discriminant byte (0 for
/// text, 1 for a flashcard), then the framed content.
pub open spec fn payload_bytes(d: NoteDataView) -> Seq<u8> {
    match d {
        NoteDataView::Text(s) => seq![0u8] + framed_str(s),
        NoteDataView::Card(items) => seq![1u8] + le_bytes(items.len(), 8) + card_items_bytes(
            items,
        ),
    }
}

/// The full hash input: framed tag bytes, then the payload encoding.
pub open spec fn fingerprint_input(tags: Seq<char>, d: NoteDataView) -> Seq<u8> {
    framed_str(tags) + payload_bytes(d)
}

/// The first 16 bytes of the SHAKE128 output stream on `input`, as a
/// function of the input alone.
pub uninterp spec fn shake128(input: Seq<u8>) -> Seq<u8>;

/// Relies on sha3::Shake128 (an extendable-output digest): the output
/// stream, and so its first 16 bytes, depends on the absorbed bytes alone.
#[verifier::external_body]
fn shake128_16(input: &[u8]) -> (r: Vec<u8>)
    ensures
        r@ == shake128(input@),
        r@.len() == 16,
{
    let mut hasher = sha3::Shake128::default();
    sha3::digest::Update::update(&mut hasher, input);
    let mut reader = sha3::digest::ExtendableOutput::finalize_xof(hasher);
    let mut hash = [0u8; 16];
    sha3::digest::XofReader::read(&mut reader, &mut hash);
    hash.to_vec()
}

/// The lowercase hex digit for a nibble value.
pub open spec fn hex_digit(n: u8) -> char {
    if n == 0 {
        '0'
    } else if n == 1 {
        '1'
    } else if n == 2 {
        '2'
    } else if n == 3 {
        '3'
    } else if n == 4 {
        '4'
    } else if n == 5 {
        '5'
    } else if n == 6 {
        '6'
    } else if n == 7 {
        '7'
    } else if n == 8 {
        '8'
    } else if n == 9 {
        '9'
    } else if n == 10 {
        'a'
    } else if n == 11 {
        'b'
    } else if n == 12 {
        'c'
    } else if n == 13 {
        'd'
    } else if n == 14 {
        'e'
    } else {
        'f'
    }
}

/// Lowercase hex: two digits per byte, high nibble first.
pub open spec fn hex_of(bytes: Seq<u8>) -> Seq<char> {
    Seq::new(
        bytes.len() * 2,
        |i: int|
            if i % 2 == 0 {
                hex_digit(bytes[i / 2] / 16)
            } else {
                hex_digit(bytes[i / 2] % 16)
            },
    )
}

/// Relies on hex::encode: two lowercase hex digits per byte, high nibble
/// first.
#[verifier::external_body]
fn hex_encode(bytes: &[u8]) -> (r: String)
    ensures
        r@ == hex_of(bytes@),
{
    hex::encode(bytes)
}

/// The fingerprint of a note's content: 32 lowercase hex characters.
pub open spec fn fingerprint_spec(tags: Seq<char>, d: NoteDataView) -> Seq<char> {
    hex_of(shake128(fingerprint_input(tags, d)))
}

/// 256 to the power `k`: the number of values `k` bytes can carry.
pub open spec fn pow256(k: nat) -> nat
    decreases k,
{
    if k == 0 {
        1
    } else {
        256 * pow256((k - 1) as nat)
    }
}

/// A length frame is as many bytes as asked for.
pub proof fn lemma_le_bytes_len(n: nat, k: nat)
    ensures
        le_bytes(n, k).len() == k,
    decreases k,
{
    if k > 0 {
        lemma_le_bytes_len(n / 256, (k - 1) as nat);
    }
}

/// Below `256^k`, a number is determined by its `k` little-endian bytes.
pub proof fn lemma_le_bytes_injective(n1: nat, n2: nat, k: nat)
    requires
        n1 < pow256(k),
        n2 < pow256(k),
        le_bytes(n1, k) == le_bytes(n2, k),
    ensures
        n1 == n2,
    decreases k,
{
    if k > 0 {
        assert(le_bytes(n1, k)[0] == (n1 % 256) as u8);
        assert(le_bytes(n2, k)[0] == (n2 % 256) as u8);
        assert(n1 % 256 == n2 % 256);
        assert(le_bytes(n1, k).drop_first() =~= le_bytes(n1 / 256, (k - 1) as nat)) by {
            lemma_le_bytes_len(n1 / 256, (k - 1) as nat);
        }
        assert(le_bytes(n2, k).drop_first() =~= le_bytes(n2 / 256, (k - 1) as nat)) by {
            lemma_le_bytes_len(n2 / 256, (k - 1) as nat);
        }
        assert(n1 / 256 < pow256((k - 1) as nat)) by (nonlinear_arith)
            requires
                n1 < 256 * pow256((k - 1) as nat),
        ;
        assert(n2 / 256 < pow256((k - 1) as nat)) by (nonlinear_arith)
            requires
                n2 < 256 * pow256((k - 1) as nat),
        ;
        lemma_le_bytes_injective(n1 / 256, n2 / 256, (k - 1) as nat);
        assert(n1 == 256 * (n1 / 256) + n1 % 256) by (nonlinear_arith);
        assert(n2 == 256 * (n2 / 256) + n2 % 256) by (nonlinear_arith);
    }
}

/// Two equal concatenations with equally long front parts have equal parts.
proof fn lemma_concat_parts<T>(a: Seq<T>, b: Seq<T>, c: Seq<T>, d: Seq<T>)
    requires
        a + b == c + d,
        a.len() == c.len(),
    ensures
        a == c,
        b == d,
{
    assert forall|i: int| 0 <= i < a.len() implies a[i] == c[i] by {
        assert((a + b)[i] == a[i]);
        assert((c + d)[i] == c[i]);
    }
    assert(a =~= c);
    assert((a + b).len() == a.len() + b.len());
    assert((c + d).len() == c.len() + d.len());
    assert(b.len() == d.len());
    assert forall|i: int| 0 <= i < b.len() implies b[i] == d[i] by {
        assert((a + b)[i + a.len()] == b[i]);
        assert((c + d)[i + c.len()] == d[i]);
    }
    assert(b =~= d);
}

/// A framed string determines the string: the frame fixes where it ends,
/// and UTF-8 decodes back to the characters.
pub proof fn lemma_framed_str_injective(s1: Seq<char>, s2: Seq<char>)
    requires
        framed_str(s1) == framed_str(s2),
        encode_utf8(s1).len() < pow256(8),
        encode_utf8(s2).len() < pow256(8),
    ensures
        s1 == s2,
{
    lemma_le_bytes_len(encode_utf8(s1).len(), 8);
    lemma_le_bytes_len(encode_utf8(s2).len(), 8);
    lemma_concat_parts(
        le_bytes(encode_utf8(s1).len(), 8),
        encode_utf8(s1),
        le_bytes(encode_utf8(s2).len(), 8),
        encode_utf8(s2),
    );
    vstd::utf8::encode_utf8_decode_utf8(s1);
    vstd::utf8::encode_utf8_decode_utf8(s2);
}

/// The segment encoding read from the left: first segment, then the rest.
proof fn lemma_card_items_left(items: Seq<Seq<char>>)
    requires
        items.len() > 0,
    ensures
        card_items_bytes(items) == framed_str(items[0]) + card_items_bytes(items.drop_first()),
    decreases items.len(),
{
    if items.len() == 1 {
        assert(card_items_bytes(items.drop_last()).len() == 0);
        assert(card_items_bytes(items.drop_last()) + framed_str(items.last()) =~= framed_str(
            items[0],
        ));
        assert(items.drop_first().len() == 0);
        assert(framed_str(items[0]) + card_items_bytes(items.drop_first()) =~= framed_str(
            items[0],
        ));
    } else {
        let front = items.drop_last();
        lemma_card_items_left(front);
        assert(front[0] == items[0]);
        assert(items.drop_first().drop_last() =~= front.drop_first());
        assert(items.drop_first().last() == items.last());
        assert(items.drop_first().len() > 0);
        assert(card_items_bytes(items.drop_first()) == card_items_bytes(front.drop_first())
            + framed_str(items.last()));
        assert((framed_str(items[0]) + card_items_bytes(front.drop_first())) + framed_str(
            items.last(),
        ) =~= framed_str(items[0]) + (card_items_bytes(front.drop_first()) + framed_str(
            items.last(),
        )));
    }
}

/// The first eight bytes of a left-unfolded segment encoding are the first
/// segment's length frame.
proof fn lemma_first_frame(x: Seq<u8>, s: Seq<char>, rest: Seq<u8>)
    requires
        x == framed_str(s) + rest,
    ensures
        x.len() >= 8,
        x.subrange(0, 8) == le_bytes(encode_utf8(s).len(), 8),
{
    lemma_le_bytes_len(encode_utf8(s).len(), 8);
    assert forall|t: int| 0 <= t < 8 implies x[t] == le_bytes(encode_utf8(s).len(), 8)[t] by {
        assert(x[t] == framed_str(s)[t]);
        assert(framed_str(s)[t] == (le_bytes(encode_utf8(s).len(), 8) + encode_utf8(s))[t]);
    }
    assert(x.subrange(0, 8) =~= le_bytes(encode_utf8(s).len(), 8));
}

/// Equal segment encodings of equally many segments are encodings of equal
/// segments.
proof fn lemma_card_items_injective(i1: Seq<Seq<char>>, i2: Seq<Seq<char>>)
    requires
        card_items_bytes(i1) == card_items_bytes(i2),
        i1.len() == i2.len(),
        forall|j: int| 0 <= j < i1.len() ==> encode_utf8(#[trigger] i1[j]).len() < pow256(8),
        forall|j: int| 0 <= j < i2.len() ==> encode_utf8(#[trigger] i2[j]).len() < pow256(8),
    ensures
        i1 == i2,
    decreases i1.len(),
{
    if i1.len() == 0 {
        assert(i1 =~= i2);
    } else {
        lemma_card_items_left(i1);
        lemma_card_items_left(i2);
        let x = card_items_bytes(i1);
        let a0 = i1[0];
        let b0 = i2[0];
        lemma_first_frame(x, a0, card_items_bytes(i1.drop_first()));
        lemma_first_frame(x, b0, card_items_bytes(i2.drop_first()));
        lemma_le_bytes_injective(encode_utf8(a0).len(), encode_utf8(b0).len(), 8);
        lemma_le_bytes_len(encode_utf8(a0).len(), 8);
        lemma_le_bytes_len(encode_utf8(b0).len(), 8);
        assert(framed_str(a0).len() == framed_str(b0).len());
        lemma_concat_parts(
            framed_str(a0),
            card_items_bytes(i1.drop_first()),
            framed_str(b0),
            card_items_bytes(i2.drop_first()),
        );
        lemma_framed_str_injective(a0, b0);
        assert forall|j: int| 0 <= j < i1.drop_first().len() implies encode_utf8(
            #[trigger] i1.drop_first()[j],
        ).len() < pow256(8) by {
            assert(i1.drop_first()[j] == i1[j + 1]);
        }
        assert forall|j: int| 0 <= j < i2.drop_first().len() implies encode_utf8(
            #[trigger] i2.drop_first()[j],
        ).len() < pow256(8) by {
            assert(i2.drop_first()[j] == i2[j + 1]);
        }
        lemma_card_items_injective(i1.drop_first(), i2.drop_first());
        assert forall|j: int| 0 <= j < i1.len() implies i1[j] == i2[j] by {
            if j > 0 {
                assert(i1.drop_first()[j - 1] == i1[j]);
                assert(i2.drop_first()[j - 1] == i2[j]);
            }
        }
        assert(i1 =~= i2);
    }
}

/// A payload small enough for its length frames: every framed part shorter
/// than `256^8` bytes, which everything that fits in memory is.
pub open spec fn bounded_payload(d: NoteDataView) -> bool {
    match d {
        NoteDataView::Text(s) => encode_utf8(s).len() < pow256(8),
        NoteDataView::Card(items) => items.len() < pow256(8) && forall|j: int|
            0 <= j < items.len() ==> encode_utf8(#[trigger] items[j]).len() < pow256(8),
    }
}

/// Content small enough for its length frames, tags included.
pub open spec fn bounded_content(tags: Seq<char>, d: NoteDataView) -> bool {
    &&& encode_utf8(tags).len() < pow256(8)
    &&& bounded_payload(d)
}

/// The payload encoding determines the payload: the discriminant byte fixes
/// the kind and the frames fix every segment.
pub proof fn lemma_payload_bytes_injective(d1: NoteDataView, d2: NoteDataView)
    requires
        payload_bytes(d1) == payload_bytes(d2),
        bounded_payload(d1),
        bounded_payload(d2),
    ensures
        d1 == d2,
{
    match (d1, d2) {
        (NoteDataView::Text(s1), NoteDataView::Text(s2)) => {
            lemma_concat_parts(seq![0u8], framed_str(s1), seq![0u8], framed_str(s2));
            lemma_framed_str_injective(s1, s2);
        },
        (NoteDataView::Card(a), NoteDataView::Card(b)) => {
            lemma_le_bytes_len(a.len(), 8);
            lemma_le_bytes_len(b.len(), 8);
            lemma_concat_parts(
                seq![1u8] + le_bytes(a.len(), 8),
                card_items_bytes(a),
                seq![1u8] + le_bytes(b.len(), 8),
                card_items_bytes(b),
            );
            lemma_concat_parts(seq![1u8], le_bytes(a.len(), 8), seq![1u8], le_bytes(b.len(), 8));
            lemma_le_bytes_injective(a.len(), b.len(), 8);
            lemma_card_items_injective(a, b);
        },
        (NoteDataView::Text(s1), NoteDataView::Card(b)) => {
            assert(payload_bytes(d1)[0] == 0);
            assert(payload_bytes(d2)[0] == 1);
        },
        (NoteDataView::Card(a), NoteDataView::Text(s2)) => {
            assert(payload_bytes(d1)[0] == 1);
            assert(payload_bytes(d2)[0] == 0);
        },
    }
}

/// The hash input determines tags and payload: distinct content never
/// collides before the hash, so a fingerprint collision would need a
/// SHAKE128 collision itself.
pub proof fn lemma_fingerprint_input_injective(
    t1: Seq<char>,
    d1: NoteDataView,
    t2: Seq<char>,
    d2: NoteDataView,
)
    requires
        fingerprint_input(t1, d1) == fingerprint_input(t2, d2),
        bounded_content(t1, d1),
        bounded_content(t2, d2),
    ensures
        t1 == t2,
        d1 == d2,
{
    let x = fingerprint_input(t1, d1);
    lemma_first_frame(x, t1, payload_bytes(d1));
    lemma_first_frame(x, t2, payload_bytes(d2));
    lemma_le_bytes_injective(encode_utf8(t1).len(), encode_utf8(t2).len(), 8);
    lemma_le_bytes_len(encode_utf8(t1).len(), 8);
    lemma_le_bytes_len(encode_utf8(t2).len(), 8);
    assert(framed_str(t1).len() == framed_str(t2).len());
    lemma_concat_parts(framed_str(t1), payload_bytes(d1), framed_str(t2), payload_bytes(d2));
    lemma_framed_str_injective(t1, t2);
    lemma_payload_bytes_injective(d1, d2);
}

/// Hex writing is injective: the bytes can be read back off the digits.
pub proof fn lemma_hex_of_injective(b1: Seq<u8>, b2: Seq<u8>)
    requires
        hex_of(b1) == hex_of(b2),
    ensures
        b1 == b2,
{
    assert(hex_of(b1).len() == b1.len() * 2);
    assert(hex_of(b2).len() == b2.len() * 2);
    assert(b1.len() == b2.len());
    assert forall|i: int| 0 <= i < b1.len() implies b1[i] == b2[i] by {
        assert(hex_of(b1)[2 * i] == hex_digit(b1[i] / 16));
        assert(hex_of(b1)[2 * i + 1] == hex_digit(b1[i] % 16));
        assert(hex_of(b2)[2 * i] == hex_digit(b2[i] / 16));
        assert(hex_of(b2)[2 * i + 1] == hex_digit(b2[i] % 16));
        assert(b1[i] / 16 == b2[i] / 16);
        assert(b1[i] % 16 == b2[i] % 16);
    }
    assert(b1 =~= b2);
}

/// Two notes of distinct bounded content whose fingerprints come out equal
/// exhibit a SHAKE128 collision on distinct inputs: the encoding and the
/// hex writing cannot be where the collision happened.
pub proof fn lemma_fingerprint_collision_is_hash_collision(
    t1: Seq<char>,
    d1: NoteDataView,
    t2: Seq<char>,
    d2: NoteDataView,
)
    requires
        fingerprint_spec(t1, d1) == fingerprint_spec(t2, d2),
        bounded_content(t1, d1),
        bounded_content(t2, d2),
        !(t1 == t2 && d1 == d2),
    ensures
        fingerprint_input(t1, d1) != fingerprint_input(t2, d2),
        shake128(fingerprint_input(t1, d1)) == shake128(fingerprint_input(t2, d2)),
{
    lemma_hex_of_injective(
        shake128(fingerprint_input(t1, d1)),
        shake128(fingerprint_input(t2, d2)),
    );
    if fingerprint_input(t1, d1) == fingerprint_input(t2, d2) {
        lemma_fingerprint_input_injective(t1, d1, t2, d2);
    }
}

/// Hash purity: the fingerprint is a function of tags and payload alone.
/// Two note versions with equal tags and payload have equal fingerprints,
/// whatever their identity or creation time and in whatever order they are
/// inserted.
pub proof fn lemma_fingerprint_content_only(a: DbNoteView, b: DbNoteView)
    requires
        a.tags == b.tags,
        a.data == b.data,
    ensures
        fingerprint_spec(a.tags, a.data) == fingerprint_spec(b.tags, b.data),
{
}

/// Appends the 8 little-endian bytes of `n`.
fn push_le8(out: &mut Vec<u8>, n: u64)
    ensures
        final(out)@ == old(out)@ + le_bytes(n as nat, 8),
{
    let mut m = n;
    let mut k: usize = 0;
    proof {
        assert(out@ + le_bytes(n as nat, 8) =~= old(out)@ + le_bytes(n as nat, 8));
    }
    while k < 8
        invariant
            k <= 8,
            out@ + le_bytes(m as nat, (8 - k) as nat) == old(out)@ + le_bytes(n as nat, 8),
        decreases 8 - k,
    {
        let ghost v0 = out@;
        let b = (m % 256) as u8;
        out.push(b);
        proof {
            assert(le_bytes(m as nat, (8 - k) as nat) == seq![b] + le_bytes(
                m as nat / 256,
                (8 - (k + 1)) as nat,
            ));
            assert(out@ + le_bytes(m as nat / 256, (8 - (k + 1)) as nat) =~= v0 + le_bytes(
                m as nat,
                (8 - k) as nat,
            ));
        }
        m = m / 256;
        k += 1;
    }
    proof {
        assert(le_bytes(m as nat, 0).len() == 0);
        assert(out@ + le_bytes(m as nat, 0) =~= out@);
    }
}

/// Appends a string's UTF-8 bytes, framed by their length.
fn push_framed_str(out: &mut Vec<u8>, s: &str)
    ensures
        final(out)@ == old(out)@ + framed_str(s@),
{
    let bytes = s.as_bytes_vec();
    push_le8(out, bytes.len() as u64);
    out.extend_from_slice(bytes.as_slice());
    proof {
        assert(out@ =~= old(out)@ + framed_str(s@));
    }
}

/// Computes the content fingerprint of a note: its canonical tag string and
/// payload, canonically encoded, hashed with SHAKE128 and truncated to 128
/// bits of lowercase hex.
pub fn fingerprint(tags: &str, data: &NoteData) -> (r: String)
    ensures
        r@ == fingerprint_spec(tags@, data@),
{
    let mut input: Vec<u8> = Vec::new();
    push_framed_str(&mut input, tags);
    proof {
        assert(input@ =~= framed_str(tags@));
    }
    match data {
        NoteData::Text(s) => {
            let ghost base = input@;
            input.push(0u8);
            push_framed_str(&mut input, s.as_str());
            proof {
                assert(input@ =~= base + (seq![0u8] + framed_str(s@)));
            }
        },
        NoteData::Card(items) => {
            let ghost base = input@;
            input.push(1u8);
            push_le8(&mut input, items.len() as u64);
            let ghost head = base + seq![1u8] + le_bytes(items.deep_view().len(), 8);
            proof {
                assert(input@ =~= head + card_items_bytes(items.deep_view().take(0)));
            }
            let mut j: usize = 0;
            while j < items.len()
                invariant
                    j <= items.len(),
                    input@ == head + card_items_bytes(items.deep_view().take(j as int)),
                    head == base + seq![1u8] + le_bytes(items.deep_view().len(), 8),
                    items.deep_view().len() == items@.len(),
                decreases items.len() - j,
            {
                let ghost v0 = input@;
                push_framed_str(&mut input, items[j].as_str());
                proof {
                    assert(items.deep_view().take(j + 1).drop_last() =~= items.deep_view().take(
                        j as int,
                    ));
                    assert(items.deep_view().take(j + 1).last() == items.deep_view()[j as int]);
                    assert(input@ =~= head + card_items_bytes(items.deep_view().take(j + 1)));
                }
                j += 1;
            }
            proof {
                assert(items.deep_view().take(items.deep_view().len() as int) =~= items.deep_view());
                assert(input@ =~= base + payload_bytes(data@));
            }
        },
    }
    proof {
        assert(input@ =~= fingerprint_input(tags@, data@));
    }
    let digest = shake128_16(input.as_slice());
    hex_encode(digest.as_slice())
}

} // verus!
