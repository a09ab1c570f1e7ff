//! Substrings, in characters and in UTF-8 bytes.

use crate::text;
use vstd::prelude::*;
use vstd::utf8;

verus! {

/// `needle` occurs in `hay`.
pub open spec fn occurs<T>(needle: Seq<T>, hay: Seq<T>) -> bool {
    exists|k: int|
        0 <= k && k + needle.len() <= hay.len() && #[trigger] hay.subrange(k, k + needle.len())
            == needle
}

/// The encoding of two texts behind each other.
proof fn lemma_encode_concat(a: Seq<char>, b: Seq<char>)
    ensures
        utf8::encode_utf8(a + b) == utf8::encode_utf8(a) + utf8::encode_utf8(b),
    decreases a.len(),
{
    if a.len() == 0 {
        assert(a + b =~= b);
        assert(utf8::encode_utf8(a) + utf8::encode_utf8(b) =~= utf8::encode_utf8(b));
    } else {
        assert((a + b).drop_first() =~= a.drop_first() + b);
        lemma_encode_concat(a.drop_first(), b);
        let first = utf8::encode_scalar(a[0] as u32);
        assert(first + (utf8::encode_utf8(a.drop_first()) + utf8::encode_utf8(b)) =~= (first
            + utf8::encode_utf8(a.drop_first())) + utf8::encode_utf8(b));
    }
}

/// A text occurs in another if and only if its bytes occur in the other's bytes.
pub proof fn lemma_occurs_bytes(needle: Seq<char>, hay: Seq<char>)
    ensures
        occurs(utf8::encode_utf8(needle), utf8::encode_utf8(hay)) <==> occurs(needle, hay),
{
    let nb = utf8::encode_utf8(needle);
    let hb = utf8::encode_utf8(hay);
    if needle.len() == 0 {
        assert(hay.subrange(0, 0) =~= needle);
        assert(hay.subrange(0, 0int + needle.len()) == needle);
        assert(hb.subrange(0, 0int + nb.len()) =~= nb);
    } else {
        if occurs(needle, hay) {
            let k = choose|k: int|
                0 <= k && k + needle.len() <= hay.len() && #[trigger] hay.subrange(
                    k,
                    k + needle.len(),
                ) == needle;
            let front = hay.take(k);
            let back = hay.skip(k + needle.len());
            assert(hay =~= front + needle + back);
            lemma_encode_concat(front + needle, back);
            lemma_encode_concat(front, needle);
            let p = utf8::encode_utf8(front).len() as int;
            assert(hb.subrange(p, p + nb.len()) =~= nb);
        }
        if occurs(nb, hb) {
            let k = choose|k: int|
                0 <= k && k + nb.len() <= hb.len() && #[trigger] hb.subrange(k, k + nb.len()) == nb;
            lemma_bytes_to_text(needle, hay, k);
        }
    }
}

/// Bytes of a text at a place in the bytes of another: the text stands there.
proof fn lemma_bytes_to_text(needle: Seq<char>, hay: Seq<char>, k: int)
    requires
        needle.len() > 0,
        0 <= k,
        k + utf8::encode_utf8(needle).len() <= utf8::encode_utf8(hay).len(),
        utf8::encode_utf8(hay).subrange(k, k + utf8::encode_utf8(needle).len())
            == utf8::encode_utf8(needle),
    ensures
        occurs(needle, hay),
{
    let nb = utf8::encode_utf8(needle);
    let hb = utf8::encode_utf8(hay);
    utf8::encode_utf8_valid_utf8(needle);
    utf8::encode_utf8_valid_utf8(hay);
    utf8::encode_utf8_first_scalar(needle);
    assert(nb.len() > 0);
    utf8::is_char_boundary_start_end_of_seq(nb);
    utf8::is_char_boundary_iff_not_is_continuation_byte(nb, 0);
    assert(hb[k] == hb.subrange(k, k + nb.len())[0]);
    utf8::is_char_boundary_iff_not_is_continuation_byte(hb, k);
    utf8::valid_utf8_split(hb, k);
    utf8::decode_utf8_split(hb, k);
    utf8::encode_utf8_decode_utf8(hay);
    let front = utf8::decode_utf8(hb.subrange(0, k));
    let tail = hb.subrange(k, hb.len() as int);
    assert(tail.subrange(0, nb.len() as int) =~= nb);
    let rest = tail.subrange(nb.len() as int, tail.len() as int);
    if !utf8::valid_utf8(rest) {
        utf8::partial_valid_partial_invalid_utf8(tail, nb.len() as int);
    }
    let back = utf8::decode_utf8(rest);
    utf8::decode_utf8_encode_utf8(rest);
    lemma_encode_concat(needle, back);
    assert(tail =~= nb + rest);
    utf8::encode_utf8_decode_utf8(needle + back);
    assert(hay =~= front + (needle + back));
    assert(hay.subrange(front.len() as int, front.len() as int + needle.len()) =~= needle);
}

/// Where a text begins or ends with another, the other occurs in it.
pub proof fn lemma_ends_occur(needle: Seq<char>, hay: Seq<char>)
    ensures
        text::begins(hay, needle) ==> occurs(needle, hay),
        text::ends(hay, needle) ==> occurs(needle, hay),
{
    if text::begins(hay, needle) {
        assert(hay.subrange(0, 0int + needle.len()) =~= needle);
    }
    if text::ends(hay, needle) {
        let k = hay.len() - needle.len();
        assert(hay.subrange(k, k + needle.len()) =~= needle);
    }
}

/// A text that occurs in another occurs in it without regard to case.
pub proof fn lemma_occurs_lower(needle: Seq<char>, hay: Seq<char>)
    requires
        occurs(needle, hay),
    ensures
        occurs(text::ascii_lower(needle), text::ascii_lower(hay)),
        text::ascii_lower(text::ascii_lower(hay)) == text::ascii_lower(hay),
{
    let k = choose|k: int|
        0 <= k && k + needle.len() <= hay.len() && #[trigger] hay.subrange(k, k + needle.len())
            == needle;
    let low = text::ascii_lower(needle);
    assert(text::ascii_lower(hay).subrange(k, k + low.len()) =~= low) by {
        assert forall|i: int| 0 <= i < low.len() implies text::ascii_lower(hay)[k + i]
            == low[i] by {
            assert(hay.subrange(k, k + needle.len())[i] == hay[k + i]);
        }
    }
    assert(text::ascii_lower(text::ascii_lower(hay)) =~= text::ascii_lower(hay));
}

} // verus!
