//! Byte-level helpers for UTF-8 text.
//!
//! The segmenter works on the UTF-8 bytes of its input. Words are byte
//! ranges that start and end on character boundaries, so everything here
//! is built around `vstd::utf8`'s model of validity and boundaries.

use vstd::prelude::*;
use vstd::utf8::*;

verus! {

/// The next character boundary strictly after `i` (or the end of the text).
pub open spec fn spec_next_boundary(s: Seq<u8>, i: int) -> int
    decreases s.len() - i
        when 0 <= i && i < s.len()
{
    if i + 1 >= s.len() {
        s.len() as int
    } else if !is_continuation_byte(s[i + 1]) {
        i + 1
    } else {
        spec_next_boundary(s, i + 1)
    }
}

pub proof fn lemma_next_boundary(s: Seq<u8>, i: int)
    requires
        0 <= i < s.len(),
    ensures
        i < spec_next_boundary(s, i) <= s.len(),
        spec_next_boundary(s, i) < s.len() ==> !is_continuation_byte(
            s[spec_next_boundary(s, i)],
        ),
        forall|k: int|
            i < k < spec_next_boundary(s, i) ==> is_continuation_byte(#[trigger] s[k]),
    decreases s.len() - i,
{
    if i + 1 >= s.len() {
    } else if !is_continuation_byte(s[i + 1]) {
    } else {
        lemma_next_boundary(s, i + 1);
    }
}

/// The number of encoded characters in a byte sequence: one per byte that
/// does not continue an earlier character.
pub open spec fn char_count(s: Seq<u8>) -> nat
    decreases s.len(),
{
    if s.len() == 0 {
        0
    } else {
        char_count(s.drop_last()) + if is_continuation_byte(s.last()) {
            0nat
        } else {
            1nat
        }
    }
}

pub proof fn lemma_char_count_concat(a: Seq<u8>, b: Seq<u8>)
    ensures
        char_count(a + b) == char_count(a) + char_count(b),
    decreases b.len(),
{
    if b.len() == 0 {
        assert(a + b =~= a);
    } else {
        lemma_char_count_concat(a, b.drop_last());
        assert((a + b).drop_last() =~= a + b.drop_last());
        assert((a + b).last() == b.last());
    }
}

/// Counts the characters encoded in `text[from..to]`.
pub fn count_chars_range(text: &Vec<u8>, from: usize, to: usize) -> (n: usize)
    requires
        from <= to <= text@.len(),
    ensures
        n == char_count(text@.subrange(from as int, to as int)),
{
    let mut n: usize = 0;
    let mut i: usize = from;
    while i < to
        invariant
            from <= i <= to <= text@.len(),
            n == char_count(text@.subrange(from as int, i as int)),
            n <= i - from,
        decreases to - i,
    {
        let b = text[i];
        proof {
            let pre = text@.subrange(from as int, i as int);
            let post = text@.subrange(from as int, i + 1 as int);
            assert(post.drop_last() =~= pre);
            assert(post.last() == text@[i as int]);
        }
        if b < 0x80 || b >= 0xC0 {
            n = n + 1;
        }
        i = i + 1;
    }
    n
}

/// Copies the byte range `[a, b)` of `text` into a fresh vector.
pub fn copy_range(text: &Vec<u8>, a: usize, b: usize) -> (r: Vec<u8>)
    requires
        a <= b <= text@.len(),
    ensures
        r@ == text@.subrange(a as int, b as int),
{
    let mut r: Vec<u8> = Vec::new();
    let mut i: usize = a;
    while i < b
        invariant
            a <= i <= b <= text@.len(),
            r@ == text@.subrange(a as int, i as int),
        decreases b - i,
    {
        r.push(text[i]);
        proof {
            assert(text@.subrange(a as int, i + 1 as int) =~= text@.subrange(
                a as int,
                i as int,
            ).push(text@[i as int]));
        }
        i = i + 1;
    }
    r
}

/// Finds the next character boundary strictly after `i`.
pub fn next_boundary(text: &Vec<u8>, i: usize) -> (r: usize)
    requires
        i < text@.len(),
    ensures
        r == spec_next_boundary(text@, i as int),
        i < r <= text@.len(),
{
    proof {
        lemma_next_boundary(text@, i as int);
    }
    let n = text.len();
    let mut j: usize = i + 1;
    while j < n
        invariant
            i < j <= n == text@.len(),
            spec_next_boundary(text@, i as int) == spec_next_boundary(text@, j - 1),
            forall|k: int| i < k < j ==> is_continuation_byte(#[trigger] text@[k]),
        decreases n - j,
    {
        let b = text[j];
        if b < 0x80 || b >= 0xC0 {
            return j;
        }
        j = j + 1;
    }
    n
}

/// Decodes the scalar value whose encoding starts at byte `i`.
pub fn cp_at(text: &Vec<u8>, i: usize) -> (cp: u32)
    requires
        valid_utf8(text@),
        is_char_boundary(text@, i as int),
        i < text@.len(),
    ensures
        cp == decode_first_scalar(text@.subrange(i as int, text@.len() as int)),
        is_scalar(cp),
{
    proof {
        broadcast use vstd::utf8::group_utf8_lib;

    }
    let ghost suffix = text@.subrange(i as int, text@.len() as int);
    proof {
        assert(valid_utf8(suffix));
        assert(valid_first_scalar(suffix));
        assert(suffix[0] == text@[i as int]);
    }
    let n = text.len();
    let b0 = text[i];
    if b0 < 0x80 {
        proof {
            assert(is_leading_byte_width_1(suffix[0]));
            assert(decode_first_scalar(suffix) == codepoint_width_1(suffix[0]));
            assert(b0 & 0x7F == b0) by (bit_vector)
                requires
                    b0 < 0x80,
            ;
        }
        b0 as u32
    } else if b0 < 0xE0 {
        proof {
            assert(!is_continuation_byte(suffix[0]));
            assert(is_leading_byte_width_2(suffix[0]));
            assert(suffix.len() >= 2);
            assert(suffix[1] == text@[i + 1]);
        }
        let b1 = text[i + 1];
        let cp = (((b0 & 0x1F) as u32) << 6u32) | ((b1 & 0x3F) as u32);
        proof {
            assert(cp == codepoint_width_2(suffix[0], suffix[1]));
            assert(cp < 0x800) by (bit_vector)
                requires
                    cp == (((b0 & 0x1F) as u32) << 6u32) | ((b1 & 0x3F) as u32),
            ;
            assert(not_surrogate(cp) && not_overlong_encoding(cp, 2));
            assert(has_width_2_encoding(cp));
        }
        cp
    } else if b0 < 0xF0 {
        proof {
            assert(!is_continuation_byte(suffix[0]));
            assert(is_leading_byte_width_3(suffix[0]));
            assert(suffix.len() >= 3);
            assert(suffix[1] == text@[i + 1]);
            assert(suffix[2] == text@[i + 2]);
        }
        let b1 = text[i + 1];
        let b2 = text[i + 2];
        let cp = (((b0 & 0x0F) as u32) << 12u32) | (((b1 & 0x3F) as u32) << 6u32) | ((b2
            & 0x3F) as u32);
        proof {
            assert(cp == codepoint_width_3(suffix[0], suffix[1], suffix[2]));
            assert(not_surrogate(cp) && not_overlong_encoding(cp, 3));
            assert(cp <= 0xFFFF) by (bit_vector)
                requires
                    cp == (((b0 & 0x0F) as u32) << 12u32) | (((b1 & 0x3F) as u32) << 6u32) | ((
                    b2 & 0x3F) as u32),
            ;
        }
        cp
    } else {
        proof {
            assert(!is_continuation_byte(suffix[0]));
            assert(is_leading_byte_width_4(suffix[0]));
            assert(suffix.len() >= 4);
            assert(suffix[1] == text@[i + 1]);
            assert(suffix[2] == text@[i + 2]);
            assert(suffix[3] == text@[i + 3]);
        }
        let b1 = text[i + 1];
        let b2 = text[i + 2];
        let b3 = text[i + 3];
        let cp = (((b0 & 0x07) as u32) << 18u32) | (((b1 & 0x3F) as u32) << 12u32) | (((b2
            & 0x3F) as u32) << 6u32) | ((b3 & 0x3F) as u32);
        proof {
            assert(cp == codepoint_width_4(suffix[0], suffix[1], suffix[2], suffix[3]));
            assert(not_overlong_encoding(cp, 4));
            assert(0x10000 <= cp <= 0x10FFFF);
        }
        cp
    }
}

/// The concatenation of a sequence of byte strings.
pub open spec fn concat_all(ws: Seq<Seq<u8>>) -> Seq<u8>
    decreases ws.len(),
{
    if ws.len() == 0 {
        Seq::empty()
    } else {
        concat_all(ws.drop_last()) + ws.last()
    }
}

pub proof fn lemma_concat_all_push(ws: Seq<Seq<u8>>, w: Seq<u8>)
    ensures
        concat_all(ws.push(w)) == concat_all(ws) + w,
{
    assert(ws.push(w).drop_last() =~= ws);
    assert(ws.push(w).last() == w);
}

pub proof fn lemma_concat_all_add(a: Seq<Seq<u8>>, b: Seq<Seq<u8>>)
    ensures
        concat_all(a + b) == concat_all(a) + concat_all(b),
    decreases b.len(),
{
    if b.len() == 0 {
        assert(a + b =~= a);
        assert(concat_all(a) + concat_all(b) =~= concat_all(a));
    } else {
        lemma_concat_all_add(a, b.drop_last());
        assert((a + b).drop_last() =~= a + b.drop_last());
        assert((a + b).last() == b.last());
        assert(concat_all(a) + concat_all(b.drop_last()) + b.last() =~= concat_all(a) + (
        concat_all(b.drop_last()) + b.last()));
    }
}

/// `spec_next_boundary`, clamped into `(i, s.len()]` so that recursive
/// definitions can use it as a step; the clamp never binds (see
/// `lemma_step_boundary`).
pub open spec fn step_boundary(s: Seq<u8>, i: int) -> int {
    let j = spec_next_boundary(s, i);
    if j <= i {
        i + 1
    } else if j > s.len() {
        s.len() as int
    } else {
        j
    }
}

pub proof fn lemma_step_boundary(s: Seq<u8>, i: int)
    requires
        0 <= i < s.len(),
    ensures
        step_boundary(s, i) == spec_next_boundary(s, i),
        i < step_boundary(s, i) <= s.len(),
        step_boundary(s, i) < s.len() ==> !vstd::utf8::is_continuation_byte(
            s[step_boundary(s, i)],
        ),
        forall|k: int|
            i < k < step_boundary(s, i) ==> vstd::utf8::is_continuation_byte(#[trigger] s[k]),
{
    lemma_next_boundary(s, i);
}

/// Relies on `String::from_utf8`: on valid UTF-8 it returns the string
/// over exactly the given bytes, whose characters are their decoding.
#[verifier::external_body]
pub fn bytes_to_string(v: Vec<u8>) -> (r: String)
    requires
        valid_utf8(v@),
    ensures
        r@ == decode_utf8(v@),
{
    String::from_utf8(v).unwrap()
}

pub proof fn lemma_char_count_le_len(s: Seq<u8>)
    ensures
        char_count(s) <= s.len(),
    decreases s.len(),
{
    if s.len() > 0 {
        lemma_char_count_le_len(s.drop_last());
    }
}

} // verus!
