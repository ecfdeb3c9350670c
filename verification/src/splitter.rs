//! Splitting input into Han-like blocks and the gaps between them.
//!
//! A Han-like block is a maximal run of characters accepted by the mode's
//! character class; it is segmented with the dictionary. Everything between
//! two blocks passes through almost verbatim: in default mode each gap
//! character becomes its own word, except that a carriage return and a
//! newline stay together; in cut-all mode runs of ASCII word characters
//! stay together and every other character stands alone.

use crate::text::concat_all;
use crate::text::copy_range;
use crate::text::cp_at;
use crate::text::next_boundary;
use crate::text::spec_next_boundary;
use crate::text::step_boundary;
use crate::text::lemma_step_boundary;
use vstd::prelude::*;
use vstd::utf8::*;

verus! {

/// The CJK ranges shared by both modes.
pub open spec fn is_cjk(cp: u32) -> bool {
    ||| (0x3400 <= cp <= 0x4DBF)
    ||| (0x4E00 <= cp <= 0x9FFF)
    ||| (0xF900 <= cp <= 0xFAFF)
    ||| (0x20000 <= cp <= 0x2A6DF)
    ||| (0x2A700 <= cp <= 0x2B73F)
    ||| (0x2B740 <= cp <= 0x2B81F)
    ||| (0x2B820 <= cp <= 0x2CEAF)
    ||| (0x2CEB0 <= cp <= 0x2EBEF)
    ||| (0x2F800 <= cp <= 0x2FA1F)
}

pub open spec fn is_ascii_alnum_cp(cp: u32) -> bool {
    (0x30 <= cp <= 0x39) || (0x41 <= cp <= 0x5A) || (0x61 <= cp <= 0x7A)
}

/// Default mode accepts CJK, ASCII alphanumerics and `+ # & . _ %`.
pub open spec fn is_han_default(cp: u32) -> bool {
    ||| is_cjk(cp)
    ||| is_ascii_alnum_cp(cp)
    ||| cp == 0x2B
    ||| cp == 0x23
    ||| cp == 0x26
    ||| cp == 0x2E
    ||| cp == 0x5F
    ||| cp == 0x25
}

/// The block class of the given mode.
pub open spec fn is_han(cp: u32, cut_all: bool) -> bool {
    if cut_all {
        is_cjk(cp)
    } else {
        is_han_default(cp)
    }
}

/// The ASCII run class of the cut-all gap splitter.
pub open spec fn is_cutall_keep(cp: u32) -> bool {
    is_ascii_alnum_cp(cp) || cp == 0x2B || cp == 0x23 || cp == 0x0A
}

fn is_cjk_x(cp: u32) -> (r: bool)
    ensures
        r == is_cjk(cp),
{
    (0x3400 <= cp && cp <= 0x4DBF) || (0x4E00 <= cp && cp <= 0x9FFF) || (0xF900 <= cp && cp
        <= 0xFAFF) || (0x20000 <= cp && cp <= 0x2A6DF) || (0x2A700 <= cp && cp <= 0x2B73F) || (
    0x2B740 <= cp && cp <= 0x2B81F) || (0x2B820 <= cp && cp <= 0x2CEAF) || (0x2CEB0 <= cp && cp
        <= 0x2EBEF) || (0x2F800 <= cp && cp <= 0x2FA1F)
}

fn is_ascii_alnum_cp_x(cp: u32) -> (r: bool)
    ensures
        r == is_ascii_alnum_cp(cp),
{
    (0x30 <= cp && cp <= 0x39) || (0x41 <= cp && cp <= 0x5A) || (0x61 <= cp && cp <= 0x7A)
}

pub fn is_han_x(cp: u32, cut_all: bool) -> (r: bool)
    ensures
        r == is_han(cp, cut_all),
{
    if cut_all {
        is_cjk_x(cp)
    } else {
        is_cjk_x(cp) || is_ascii_alnum_cp_x(cp) || cp == 0x2B || cp == 0x23 || cp == 0x26 || cp
            == 0x2E || cp == 0x5F || cp == 0x25
    }
}

fn is_cutall_keep_x(cp: u32) -> (r: bool)
    ensures
        r == is_cutall_keep(cp),
{
    is_ascii_alnum_cp_x(cp) || cp == 0x2B || cp == 0x23 || cp == 0x0A
}

/// The character starting at boundary `i`.
pub open spec fn cp_of(s: Seq<u8>, i: int) -> u32 {
    decode_first_scalar(s.subrange(i, s.len() as int))
}

/// The end of the run of characters whose block class equals `han`,
/// starting at boundary `i`.
pub open spec fn run_end(s: Seq<u8>, i: int, cut_all: bool, han: bool) -> int
    decreases s.len() - i
        when 0 <= i <= s.len()
{
    if i >= s.len() {
        s.len() as int
    } else if is_han(cp_of(s, i), cut_all) != han {
        i
    } else {
        run_end(s, step_boundary(s, i), cut_all, han)
    }
}

pub proof fn lemma_run_end(s: Seq<u8>, i: int, cut_all: bool, han: bool)
    requires
        0 <= i <= s.len(),
    ensures
        i <= run_end(s, i, cut_all, han) <= s.len(),
    decreases s.len() - i,
{
    if i < s.len() && is_han(cp_of(s, i), cut_all) == han {
        lemma_step_boundary(s, i);
        lemma_run_end(s, step_boundary(s, i), cut_all, han);
    }
}

/// Finds the end of the current run.
pub fn run_end_x(text: &Vec<u8>, i: usize, cut_all: bool, han: bool) -> (r: usize)
    requires
        valid_utf8(text@),
        i <= text@.len(),
        i < text@.len() ==> is_char_boundary(text@, i as int),
    ensures
        r == run_end(text@, i as int, cut_all, han),
        i <= r <= text@.len(),
        r < text@.len() ==> is_char_boundary(text@, r as int),
    decreases text@.len() - i,
{
    proof {
        lemma_run_end(text@, i as int, cut_all, han);
    }
    if i >= text.len() {
        return i;
    }
    let cp = cp_at(text, i);
    if is_han_x(cp, cut_all) != han {
        return i;
    }
    let j = next_boundary(text, i);
    proof {
        lemma_step_boundary(text@, i as int);
        broadcast use vstd::utf8::group_utf8_lib;

        if j < text.len() {
            assert(is_char_boundary(text@, j as int));
        }
    }
    run_end_x(text, j, cut_all, han)
}

/// The words a gap block contributes, scanned from boundary `i`.
pub open spec fn spec_unmatched(u: Seq<u8>, i: int, cut_all: bool) -> Seq<Seq<u8>>
    decreases u.len() - i
        when 0 <= i <= u.len()
{
    if i >= u.len() {
        Seq::empty()
    } else if !cut_all && i + 1 < u.len() && u[i] == 0x0D && u[i + 1] == 0x0A {
        // a carriage return and newline stay one word
        seq![u.subrange(i, i + 2)] + spec_unmatched(u, i + 2, cut_all)
    } else if cut_all && is_cutall_keep(cp_of(u, i)) {
        let e = run_end_keep(u, i);
        let e2 = if e <= i {
            i + 1
        } else if e > u.len() {
            u.len() as int
        } else {
            e
        };
        seq![u.subrange(i, e2)] + spec_unmatched(u, e2, cut_all)
    } else {
        let e = step_boundary(u, i);
        seq![u.subrange(i, e)] + spec_unmatched(u, e, cut_all)
    }
}

/// The end of a run of kept ASCII characters in a cut-all gap.
pub open spec fn run_end_keep(s: Seq<u8>, i: int) -> int
    decreases s.len() - i
        when 0 <= i <= s.len()
{
    if i >= s.len() {
        s.len() as int
    } else if !is_cutall_keep(cp_of(s, i)) {
        i
    } else {
        run_end_keep(s, step_boundary(s, i))
    }
}

pub proof fn lemma_run_end_keep(s: Seq<u8>, i: int)
    requires
        0 <= i <= s.len(),
    ensures
        i <= run_end_keep(s, i) <= s.len(),
    decreases s.len() - i,
{
    if i < s.len() && is_cutall_keep(cp_of(s, i)) {
        lemma_step_boundary(s, i);
        lemma_run_end_keep(s, step_boundary(s, i));
    }
}

fn run_end_keep_x(text: &Vec<u8>, i: usize) -> (r: usize)
    requires
        valid_utf8(text@),
        i <= text@.len(),
        i < text@.len() ==> is_char_boundary(text@, i as int),
    ensures
        r == run_end_keep(text@, i as int),
        i <= r <= text@.len(),
        r < text@.len() ==> is_char_boundary(text@, r as int),
    decreases text@.len() - i,
{
    proof {
        lemma_run_end_keep(text@, i as int);
    }
    if i >= text.len() {
        return i;
    }
    let cp = cp_at(text, i);
    if !is_cutall_keep_x(cp) {
        return i;
    }
    let j = next_boundary(text, i);
    proof {
        lemma_step_boundary(text@, i as int);
        broadcast use vstd::utf8::group_utf8_lib;

        if j < text.len() {
            assert(is_char_boundary(text@, j as int));
        }
    }
    run_end_keep_x(text, j)
}

/// The gap words concatenate back to the gap; each is a short, non-empty,
/// valid slice.
pub proof fn lemma_unmatched_words(u: Seq<u8>, i: int, cut_all: bool)
    requires
        valid_utf8(u),
        0 <= i <= u.len(),
        i < u.len() ==> is_char_boundary(u, i),
    ensures
        concat_all(spec_unmatched(u, i, cut_all)) == u.subrange(i, u.len() as int),
        forall|k: int|
            0 <= k < spec_unmatched(u, i, cut_all).len() ==> (#[trigger] spec_unmatched(
                u,
                i,
                cut_all,
            )[k]).len() > 0 && valid_utf8(spec_unmatched(u, i, cut_all)[k]),
    decreases u.len() - i,
{
    broadcast use vstd::utf8::group_utf8_lib;

    let ws = spec_unmatched(u, i, cut_all);
    if i >= u.len() {
        assert(u.subrange(i, u.len() as int) =~= Seq::<u8>::empty());
    } else {
        let sfx = u.subrange(i, u.len() as int);
        assert(valid_utf8(sfx));
        assert(sfx[0] == u[i]);
        let e: int = if !cut_all && i + 1 < u.len() && u[i] == 0x0D && u[i + 1] == 0x0A {
            i + 2
        } else if cut_all && is_cutall_keep(cp_of(u, i)) {
            let e0 = run_end_keep(u, i);
            proof_run_keep_bounds(u, i);
            if e0 <= i {
                i + 1
            } else if e0 > u.len() {
                u.len() as int
            } else {
                e0
            }
        } else {
            lemma_step_boundary(u, i);
            step_boundary(u, i)
        };
        assert(i < e <= u.len()) by {
            if !cut_all && i + 1 < u.len() && u[i] == 0x0D && u[i + 1] == 0x0A {
            } else if cut_all && is_cutall_keep(cp_of(u, i)) {
                proof_run_keep_bounds(u, i);
            } else {
                lemma_step_boundary(u, i);
            }
        }
        assert(e < u.len() ==> is_char_boundary(u, e)) by {
            if !cut_all && i + 1 < u.len() && u[i] == 0x0D && u[i + 1] == 0x0A {
                crate::dict::lemma_after_ascii(u, i);
                crate::dict::lemma_after_ascii(u, i + 1);
            } else if cut_all && is_cutall_keep(cp_of(u, i)) {
                proof_run_keep_bounds(u, i);
            } else {
                lemma_step_boundary(u, i);
            }
        }
        lemma_unmatched_words(u, e, cut_all);
        let w = u.subrange(i, e);
        assert(valid_utf8(w)) by {
            assert(is_char_boundary(u, i));
            if e < u.len() {
                assert(is_char_boundary(u, e));
            }
            crate::dict::lemma_valid_slice_b(u, i, e);
        }
        assert(ws == seq![w] + spec_unmatched(u, e, cut_all));
        assert(concat_all(seq![w] + spec_unmatched(u, e, cut_all)) == concat_all(seq![w])
            + concat_all(spec_unmatched(u, e, cut_all))) by {
            crate::text::lemma_concat_all_add(seq![w], spec_unmatched(u, e, cut_all));
        }
        assert(concat_all(seq![w]) =~= w) by {
            assert(seq![w].drop_last() =~= Seq::<Seq<u8>>::empty());
            assert(seq![w].last() == w);
            assert(concat_all(seq![w]) == concat_all(Seq::<Seq<u8>>::empty()) + w);
            assert(concat_all(Seq::<Seq<u8>>::empty()) + w =~= w);
        }
        assert(w + u.subrange(e, u.len() as int) =~= u.subrange(i, u.len() as int));
        assert(forall|k: int| 0 <= k < ws.len() ==> (#[trigger] ws[k]).len() > 0 && valid_utf8(
            ws[k],
        )) by {
            assert(ws[0] == w);
            assert(forall|k: int|
                1 <= k < ws.len() ==> ws[k] == #[trigger] spec_unmatched(u, e, cut_all)[k - 1]);
        }
    }
}

/// The carriage-return pair splits on a character boundary.
proof fn proof_run_keep_bounds(s: Seq<u8>, i: int)
    requires
        valid_utf8(s),
        0 <= i < s.len(),
        is_char_boundary(s, i),
        is_cutall_keep(cp_of(s, i)),
    ensures
        i < run_end_keep(s, i) <= s.len(),
        run_end_keep(s, i) < s.len() ==> is_char_boundary(s, run_end_keep(s, i)),
    decreases s.len() - i,
{
    broadcast use vstd::utf8::group_utf8_lib;

    lemma_step_boundary(s, i);
    let j = step_boundary(s, i);
    lemma_run_end_keep(s, j);
    if j < s.len() {
        assert(is_char_boundary(s, j));
        if is_cutall_keep(cp_of(s, j)) {
            proof_run_keep_bounds(s, j);
        }
    }
}

/// Emits the words of one gap block.
pub fn emit_unmatched(u: &Vec<u8>, cut_all: bool, out: &mut Vec<Vec<u8>>)
    requires
        valid_utf8(u@),
    ensures
        final(out).deep_view() == old(out).deep_view() + spec_unmatched(u@, 0, cut_all),
{
    let n = u.len();
    let mut i: usize = 0;
    let ghost base = old(out).deep_view();
    proof {
        broadcast use vstd::utf8::group_utf8_lib;

        assert(base + spec_unmatched(u@, 0, cut_all) == base + spec_unmatched(
            u@,
            0,
            cut_all,
        ));
    }
    while i < n
        invariant
            valid_utf8(u@),
            n == u@.len(),
            0 <= i <= n,
            i < n ==> is_char_boundary(u@, i as int),
            base + spec_unmatched(u@, 0, cut_all) == out.deep_view() + spec_unmatched(
                u@,
                i as int,
                cut_all,
            ),
        decreases n - i,
    {
        proof {
            broadcast use vstd::utf8::group_utf8_lib;

        }
        let ghost pre = spec_unmatched(u@, i as int, cut_all);
        let e: usize;
        if !cut_all && i + 1 < n && u[i] == 0x0D && u[i + 1] == 0x0A {
            e = i + 2;
            proof {
                crate::dict::lemma_after_ascii(u@, i as int);
                crate::dict::lemma_after_ascii(u@, i + 1);
                if e < n {
                    assert(is_char_boundary(u@, e as int));
                }
                assert(pre == seq![u@.subrange(i as int, e as int)] + spec_unmatched(
                    u@,
                    e as int,
                    cut_all,
                ));
            }
        } else if cut_all && {
            let cp = cp_at(u, i);
            is_cutall_keep_x(cp)
        } {
            e = run_end_keep_x(u, i);
            proof {
                proof_run_keep_bounds(u@, i as int);
                assert(pre == seq![u@.subrange(i as int, e as int)] + spec_unmatched(
                    u@,
                    e as int,
                    cut_all,
                ));
            }
        } else {
            e = next_boundary(u, i);
            proof {
                lemma_step_boundary(u@, i as int);
                if e < n {
                    assert(is_char_boundary(u@, e as int));
                }
                assert(pre == seq![u@.subrange(i as int, e as int)] + spec_unmatched(
                    u@,
                    e as int,
                    cut_all,
                ));
            }
        }
        let w = copy_range(u, i, e);
        let ghost dv0 = out.deep_view();
        out.push(w);
        proof {
            let wseq = u@.subrange(i as int, e as int);
            assert(out.deep_view() =~~= dv0.push(wseq));
            assert(dv0 + (seq![wseq] + spec_unmatched(u@, e as int, cut_all)) =~= dv0.push(wseq)
                + spec_unmatched(u@, e as int, cut_all));
        }
        i = e;
    }
    proof {
        assert(spec_unmatched(u@, i as int, cut_all) =~= Seq::<Seq<u8>>::empty());
        assert(out.deep_view() + Seq::<Seq<u8>>::empty() =~= out.deep_view());
        assert(base + spec_unmatched(u@, 0, cut_all) =~= out.deep_view());
    }
}

/// A run starting at a boundary ends past its first character, on a
/// boundary.
pub proof fn lemma_run_end_b(s: Seq<u8>, i: int, cut_all: bool, han: bool)
    requires
        valid_utf8(s),
        0 <= i <= s.len(),
        i < s.len() ==> is_char_boundary(s, i),
    ensures
        i <= run_end(s, i, cut_all, han) <= s.len(),
        run_end(s, i, cut_all, han) == s.len() || is_char_boundary(
            s,
            run_end(s, i, cut_all, han),
        ),
        i < s.len() && is_han(cp_of(s, i), cut_all) == han ==> i < run_end(s, i, cut_all, han),
    decreases s.len() - i,
{
    broadcast use vstd::utf8::group_utf8_lib;

    lemma_run_end(s, i, cut_all, han);
    if i < s.len() && is_han(cp_of(s, i), cut_all) == han {
        lemma_step_boundary(s, i);
        let j = step_boundary(s, i);
        if j < s.len() {
            assert(is_char_boundary(s, j));
        }
        lemma_run_end_b(s, j, cut_all, han);
    }
}

} // verus!
