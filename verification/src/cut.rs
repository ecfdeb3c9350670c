//! The segmentation walks over one block and over whole input.
//!
//! A Han-like block is walked along its route. Single-character steps are
//! collected into a pending span: without the tagger the span only collects
//! ASCII alphanumerics and is flushed as one word; with the tagger it
//! collects every single character and is flushed through the dictionary
//! or, for unknown runs, the hidden Markov tagger. Gap blocks pass through
//! the gap splitter.

use crate::hmm::spec_hmm_cut;
use crate::jieba::Jieba;
use crate::splitter::cp_of;
use crate::splitter::is_han;
use crate::splitter::is_han_x;
use crate::splitter::run_end;
use crate::splitter::run_end_x;
use crate::splitter::spec_unmatched;
use crate::text::concat_all;
use crate::text::copy_range;
use crate::text::count_chars_range;
use crate::text::char_count;
use crate::text::next_boundary;
use crate::text::step_boundary;
use vstd::prelude::*;
use vstd::utf8::*;

verus! {

/// An ASCII letter or digit.
pub open spec fn is_alnum_byte(b: u8) -> bool {
    (0x30 <= b <= 0x39) || (0x41 <= b <= 0x5A) || (0x61 <= b <= 0x7A)
}

/// Clamped route step; the route bounds show the clamp never binds.
pub open spec fn route_step(j: Jieba, b: Seq<u8>, x: int) -> int {
    let y = j.spec_route(b, x).1;
    if y <= x {
        x + 1
    } else if y > b.len() {
        b.len() as int
    } else {
        y
    }
}

impl Jieba {
    /// One character per word.
    pub open spec fn chars_split(self, w: Seq<u8>, i: int) -> Seq<Seq<u8>>
        decreases w.len() - i
            when 0 <= i <= w.len()
    {
        if i >= w.len() {
            Seq::empty()
        } else {
            let e = step_boundary(w, i);
            seq![w.subrange(i, e)] + self.chars_split(w, e)
        }
    }

    /// A flushed span of single-character steps: itself when it is one
    /// character, the tagger's segmentation when it is out of vocabulary,
    /// else one word per character.
    pub open spec fn hmm_piece(self, w: Seq<u8>) -> Seq<Seq<u8>> {
        if char_count(w) == 1 {
            seq![w]
        } else if self.spec_contains(w) is None {
            spec_hmm_cut(w)
        } else {
            self.chars_split(w, 0)
        }
    }

    /// The route walk without the tagger: `left` is the start of the
    /// pending span of single ASCII alphanumerics.
    pub open spec fn walk_nohmm(self, b: Seq<u8>, x: int, left: Option<int>) -> Seq<Seq<u8>>
        decreases b.len() - x
            when 0 <= x <= b.len()
    {
        if x >= b.len() {
            match left {
                Some(st) => seq![b.subrange(st, b.len() as int)],
                None => Seq::empty(),
            }
        } else {
            let y = route_step(self, b, x);
            if y == x + 1 && is_alnum_byte(b[x]) {
                self.walk_nohmm(
                    b,
                    y,
                    Some(
                        match left {
                            Some(st) => st,
                            None => x,
                        },
                    ),
                )
            } else {
                (match left {
                    Some(st) => seq![b.subrange(st, x)],
                    None => Seq::empty(),
                }) + seq![b.subrange(x, y)] + self.walk_nohmm(b, y, None)
            }
        }
    }

    /// The route walk with the tagger: `left` collects every
    /// single-character step and is flushed through `hmm_piece`.
    pub open spec fn walk_hmm(self, b: Seq<u8>, x: int, left: Option<int>) -> Seq<Seq<u8>>
        decreases b.len() - x
            when 0 <= x <= b.len()
    {
        if x >= b.len() {
            match left {
                Some(st) => self.hmm_piece(b.subrange(st, b.len() as int)),
                None => Seq::empty(),
            }
        } else {
            let y = route_step(self, b, x);
            if y == step_boundary(b, x) {
                self.walk_hmm(
                    b,
                    y,
                    Some(
                        match left {
                            Some(st) => st,
                            None => x,
                        },
                    ),
                )
            } else {
                (match left {
                    Some(st) => self.hmm_piece(b.subrange(st, x)),
                    None => Seq::empty(),
                }) + seq![b.subrange(x, y)] + self.walk_hmm(b, y, None)
            }
        }
    }

    /// Every dictionary span of the block, outer starts ascending, inner
    /// ends ascending.
    pub open spec fn spec_cut_all_block(self, b: Seq<u8>, i: int) -> Seq<Seq<u8>>
        decreases b.len() - i
            when 0 <= i <= b.len()
    {
        if i >= b.len() {
            Seq::empty()
        } else {
            let words = self.spec_dag_ends(b, i).map_values(|e: int| b.subrange(i, e));
            words + self.spec_cut_all_block(b, step_boundary(b, i))
        }
    }

    /// The words of the whole input from byte `i` on: alternating Han-like
    /// blocks, segmented, and gap blocks, passed through.
    pub open spec fn spec_cut_from(self, s: Seq<u8>, i: int, cut_all: bool, hmm: bool) -> Seq<
        Seq<u8>,
    >
        decreases s.len() - i
            when 0 <= i <= s.len()
    {
        if i >= s.len() {
            Seq::empty()
        } else {
            let han = is_han(cp_of(s, i), cut_all);
            let e0 = run_end(s, i, cut_all, han);
            // the clamp only guards termination; the run lemmas show it
            // never binds
            let e = if e0 <= i {
                i + 1
            } else if e0 > s.len() {
                s.len() as int
            } else {
                e0
            };
            let blk = s.subrange(i, e);
            let ws = if !han {
                spec_unmatched(blk, 0, cut_all)
            } else if cut_all {
                self.spec_cut_all_block(blk, 0)
            } else if hmm {
                self.walk_hmm(blk, 0, None)
            } else {
                self.walk_nohmm(blk, 0, None)
            };
            ws + self.spec_cut_from(s, e, cut_all, hmm)
        }
    }

    /// The full segmentation of the input bytes.
    pub open spec fn spec_cut(self, s: Seq<u8>, cut_all: bool, hmm: bool) -> Seq<Seq<u8>> {
        self.spec_cut_from(s, 0, cut_all, hmm)
    }
}

/// Extends `lemma_scan_bound`: a chosen step is a dictionary word.
proof fn lemma_scan_word(j: Jieba, b: Seq<u8>, i: int, e: int)
    requires
        0 <= i,
        e <= b.len(),
    ensures
        j.scan_best(b, i, e) matches Some(p) ==> i < p.1 <= e && j.has_word(
            b.subrange(i, p.1),
        ),
    decreases e - i,
{
    if e > i {
        lemma_scan_word(j, b, i, e - 1);
    }
}

/// The byte a route step ends at is a character boundary.
pub(crate) proof fn lemma_route_next_boundary(j: Jieba, b: Seq<u8>, x: int)
    requires
        j.wf(),
        valid_utf8(b),
        is_char_boundary(b, x),
        0 <= x < b.len(),
    ensures
        x < j.spec_route(b, x).1 <= b.len(),
        is_char_boundary(b, j.spec_route(b, x).1),
        route_step(j, b, x) == j.spec_route(b, x).1,
{
    broadcast use vstd::utf8::group_utf8_lib;

    crate::route::lemma_route_bound(j, b, x);
    match j.scan_best(b, x, b.len() as int) {
        Some(p) => {
            lemma_scan_word(j, b, x, b.len() as int);
            let wi = choose|wi: int|
                0 <= wi < j.words().len() && j.words()[wi] == b.subrange(x, p.1);
            assert(valid_utf8(b.subrange(x, p.1)));
            crate::route::lemma_prefix_boundary(b, x, p.1);
        },
        None => {
            crate::text::lemma_step_boundary(b, x);
            let nb = step_boundary(b, x);
            if nb < b.len() {
                assert(!is_continuation_byte(b[nb]));
            }
        },
    }
}

/// One word per character: the words concatenate back and are valid.
pub proof fn lemma_chars_split_words(j: Jieba, w: Seq<u8>, i: int)
    requires
        valid_utf8(w),
        0 <= i <= w.len(),
        is_char_boundary(w, i),
    ensures
        concat_all(j.chars_split(w, i)) == w.subrange(i, w.len() as int),
        forall|k: int|
            0 <= k < j.chars_split(w, i).len() ==> (#[trigger] j.chars_split(w, i)[k]).len() > 0
                && valid_utf8(j.chars_split(w, i)[k]),
    decreases w.len() - i,
{
    broadcast use vstd::utf8::group_utf8_lib;

    let ws = j.chars_split(w, i);
    if i >= w.len() {
        assert(w.subrange(i, w.len() as int) =~= Seq::<u8>::empty());
    } else {
        crate::text::lemma_step_boundary(w, i);
        let e = step_boundary(w, i);
        assert(e < w.len() ==> !is_continuation_byte(w[e]));
        assert(e == w.len() || is_char_boundary(w, e));
        lemma_chars_split_words(j, w, e);
        let piece = w.subrange(i, e);
        assert(valid_utf8(piece)) by {
            crate::dict::lemma_valid_slice_b(w, i, e);
        }
        crate::text::lemma_concat_all_add(seq![piece], j.chars_split(w, e));
        assert(concat_all(seq![piece]) =~= piece) by {
            assert(seq![piece].drop_last() =~= Seq::<Seq<u8>>::empty());
            assert(seq![piece].last() == piece);
            assert(concat_all(seq![piece]) == concat_all(Seq::<Seq<u8>>::empty()) + piece);
            assert(concat_all(Seq::<Seq<u8>>::empty()) + piece =~= piece);
        }
        assert(piece + w.subrange(e, w.len() as int) =~= w.subrange(i, w.len() as int));
        assert(forall|k: int|
            1 <= k < ws.len() ==> ws[k] == #[trigger] j.chars_split(w, e)[k - 1]);
        assert(ws[0] == piece);
    }
}

/// The tagger's words for a run concatenate back and are valid.
pub proof fn lemma_hmm_cut_words(s: Seq<u8>)
    requires
        valid_utf8(s),
        s.len() > 0,
    ensures
        concat_all(spec_hmm_cut(s)) == s,
        forall|k: int|
            0 <= k < spec_hmm_cut(s).len() ==> (#[trigger] spec_hmm_cut(s)[k]).len() > 0
                && valid_utf8(spec_hmm_cut(s)[k]),
{
    broadcast use vstd::utf8::group_utf8_lib;

    let offs = crate::hmm::offs_list(s, 0);
    let cps = crate::hmm::spec_cps(s);
    let path = Seq::new(cps.len(), |x: int| crate::hmm::path_at(cps, x));
    crate::hmm::lemma_offs_list_len(s, 0);
    assert(offs[0] == 0) by {
        assert(valid_first_scalar(s));
        assert(!is_continuation_byte(s[0]));
    }
    crate::hmm::lemma_emit_words_concat(s, offs, path, 0, 0);
    assert(s.subrange(offs[0], s.len() as int) =~= s);
    lemma_emit_valid(s, offs, path, 0, 0);
}

/// Each word the tagger emits is a valid slice.
proof fn lemma_emit_valid(
    s: Seq<u8>,
    offs: Seq<int>,
    path: Seq<crate::hmm::Status>,
    t: int,
    seg: int,
)
    requires
        valid_utf8(s),
        offs.len() == path.len() + 1,
        0 <= seg <= t <= path.len(),
        offs[path.len() as int] == s.len(),
        forall|k: int|
            0 <= k < offs.len() - 1 ==> 0 <= #[trigger] offs[k] < s.len()
                && !is_continuation_byte(s[offs[k]]),
        forall|k: int| 0 <= k < offs.len() ==> 0 <= #[trigger] offs[k] <= s.len(),
        forall|k1: int, k2: int| 0 <= k1 < k2 < offs.len() ==> #[trigger] offs[k1]
            < #[trigger] offs[k2],
    ensures
        forall|k: int|
            0 <= k < crate::hmm::emit_words(s, offs, path, t, seg).len() ==> valid_utf8(
                #[trigger] crate::hmm::emit_words(s, offs, path, t, seg)[k],
            ),
    decreases path.len() - t,
{
    broadcast use vstd::utf8::group_utf8_lib;

    let n = path.len() as int;
    let ws = crate::hmm::emit_words(s, offs, path, t, seg);
    if t >= n {
        if seg < n {
            assert(offs[seg] < offs[n]);
            vstd::utf8::is_char_boundary_iff_not_is_continuation_byte(s, offs[seg]);
            crate::dict::lemma_valid_slice_b(s, offs[seg], offs[n]);
            assert(ws[0] == s.subrange(offs[seg], offs[n]));
        }
    } else if path[t] == crate::hmm::Status::E || path[t] == crate::hmm::Status::S {
        lemma_emit_valid(s, offs, path, t + 1, t + 1);
        assert(offs[seg] < offs[t + 1]);
        vstd::utf8::is_char_boundary_iff_not_is_continuation_byte(s, offs[seg]);
        if offs[t + 1] < s.len() {
            vstd::utf8::is_char_boundary_iff_not_is_continuation_byte(s, offs[t + 1]);
        }
        crate::dict::lemma_valid_slice_b(s, offs[seg], offs[t + 1]);
        let rest = crate::hmm::emit_words(s, offs, path, t + 1, t + 1);
        let w0 = s.subrange(offs[seg], offs[t + 1]);
        assert(ws =~= seq![w0] + rest);
        assert forall|k: int| 0 <= k < ws.len() implies valid_utf8(ws[k]) by {
            if k == 0 {
                assert(ws[k] == w0);
            } else {
                assert(ws[k] == rest[k - 1]);
            }
        }
    } else {
        lemma_emit_valid(s, offs, path, t + 1, seg);
        assert(ws == crate::hmm::emit_words(s, offs, path, t + 1, seg));
    }
}

/// A flushed span's words concatenate back to the span and are valid.
pub proof fn lemma_hmm_piece_words(j: Jieba, w: Seq<u8>)
    requires
        valid_utf8(w),
        w.len() > 0,
    ensures
        concat_all(j.hmm_piece(w)) == w,
        forall|k: int|
            0 <= k < j.hmm_piece(w).len() ==> (#[trigger] j.hmm_piece(w)[k]).len() > 0
                && valid_utf8(j.hmm_piece(w)[k]),
{
    if char_count(w) == 1 {
        let ws = seq![w];
        assert(ws.drop_last() =~= Seq::<Seq<u8>>::empty());
        assert(ws.last() == w);
        assert(concat_all(ws) == concat_all(Seq::<Seq<u8>>::empty()) + w);
        assert(concat_all(Seq::<Seq<u8>>::empty()) + w =~= w);
        assert(ws[0] == w);
    } else if j.spec_contains(w) is None {
        lemma_hmm_cut_words(w);
    } else {
        broadcast use vstd::utf8::group_utf8_lib;

        lemma_chars_split_words(j, w, 0);
        assert(w.subrange(0, w.len() as int) =~= w);
    }
}

/// The walk without the tagger covers the block from the pending span's
/// start, with valid, non-empty words.
pub(crate) proof fn lemma_walk_nohmm_words(j: Jieba, b: Seq<u8>, x: int, left: Option<int>)
    requires
        j.wf(),
        valid_utf8(b),
        0 <= x <= b.len(),
        x == b.len() || is_char_boundary(b, x),
        left matches Some(st) ==> 0 <= st < x && is_char_boundary(b, st),
    ensures
        concat_all(j.walk_nohmm(b, x, left)) == b.subrange(
            match left {
                Some(st) => st,
                None => x,
            },
            b.len() as int,
        ),
        forall|k: int|
            0 <= k < j.walk_nohmm(b, x, left).len() ==> (#[trigger] j.walk_nohmm(b, x, left)[
            k]).len() > 0 && valid_utf8(j.walk_nohmm(b, x, left)[k]),
    decreases b.len() - x,
{
    broadcast use vstd::utf8::group_utf8_lib;

    let ws = j.walk_nohmm(b, x, left);
    let a: int = match left {
        Some(st) => st,
        None => x,
    };
    if x >= b.len() {
        match left {
            Some(st) => {
                crate::dict::lemma_valid_slice_b(b, st, b.len() as int);
                assert(ws.drop_last() =~= Seq::<Seq<u8>>::empty());
                assert(ws.last() == b.subrange(st, b.len() as int));
                assert(concat_all(ws) == concat_all(Seq::<Seq<u8>>::empty()) + b.subrange(
                    st,
                    b.len() as int,
                ));
                assert(concat_all(Seq::<Seq<u8>>::empty()) + b.subrange(st, b.len() as int)
                    =~= b.subrange(st, b.len() as int));
                assert(ws[0] == b.subrange(st, b.len() as int));
            },
            None => {
                assert(b.subrange(x, b.len() as int) =~= Seq::<u8>::empty());
            },
        }
    } else {
        lemma_route_next_boundary(j, b, x);
        let y = route_step(j, b, x);
        if y == x + 1 && is_alnum_byte(b[x]) {
            lemma_walk_nohmm_words(
                j,
                b,
                y,
                Some(
                    match left {
                        Some(st) => st,
                        None => x,
                    },
                ),
            );
        } else {
            lemma_walk_nohmm_words(j, b, y, None);
            let flush: Seq<Seq<u8>> = match left {
                Some(st) => seq![b.subrange(st, x)],
                None => Seq::empty(),
            };
            let step = seq![b.subrange(x, y)];
            crate::text::lemma_concat_all_add(flush + step, j.walk_nohmm(b, y, None));
            crate::text::lemma_concat_all_add(flush, step);
            assert(ws == (flush + step) + j.walk_nohmm(b, y, None));
            assert(concat_all(step) =~= b.subrange(x, y)) by {
                assert(step.drop_last() =~= Seq::<Seq<u8>>::empty());
                assert(step.last() == b.subrange(x, y));
                assert(concat_all(step) == concat_all(Seq::<Seq<u8>>::empty()) + b.subrange(
                    x,
                    y,
                ));
                assert(concat_all(Seq::<Seq<u8>>::empty()) + b.subrange(x, y) =~= b.subrange(
                    x,
                    y,
                ));
            }
            crate::dict::lemma_valid_slice_b(b, x, y);
            match left {
                Some(st) => {
                    crate::dict::lemma_valid_slice_b(b, st, x);
                    assert(concat_all(flush) =~= b.subrange(st, x)) by {
                        assert(flush.drop_last() =~= Seq::<Seq<u8>>::empty());
                        assert(flush.last() == b.subrange(st, x));
                        assert(concat_all(flush) == concat_all(Seq::<Seq<u8>>::empty())
                            + b.subrange(st, x));
                        assert(concat_all(Seq::<Seq<u8>>::empty()) + b.subrange(st, x)
                            =~= b.subrange(st, x));
                    }
                    assert(b.subrange(st, x) + b.subrange(x, y) + b.subrange(y, b.len() as int)
                        =~= b.subrange(st, b.len() as int));
                },
                None => {
                    assert(concat_all(flush) =~= Seq::<u8>::empty());
                    assert(Seq::<u8>::empty() + b.subrange(x, y) =~= b.subrange(x, y));
                    assert(b.subrange(x, y) + b.subrange(y, b.len() as int) =~= b.subrange(
                        x,
                        b.len() as int,
                    ));
                },
            }
            assert(forall|k: int|
                0 <= k < flush.len() + step.len() ==> (flush + step)[k] == if k < flush.len() {
                    flush[k]
                } else {
                    #[trigger] step[k - flush.len()]
                });
        }
    }
}

/// The walk with the tagger covers the block from the pending span's start,
/// with valid, non-empty words.
pub(crate) proof fn lemma_walk_hmm_words(j: Jieba, b: Seq<u8>, x: int, left: Option<int>)
    requires
        j.wf(),
        valid_utf8(b),
        0 <= x <= b.len(),
        x == b.len() || is_char_boundary(b, x),
        left matches Some(st) ==> 0 <= st < x && is_char_boundary(b, st),
    ensures
        concat_all(j.walk_hmm(b, x, left)) == b.subrange(
            match left {
                Some(st) => st,
                None => x,
            },
            b.len() as int,
        ),
        forall|k: int|
            0 <= k < j.walk_hmm(b, x, left).len() ==> (#[trigger] j.walk_hmm(b, x, left)[
            k]).len() > 0 && valid_utf8(j.walk_hmm(b, x, left)[k]),
    decreases b.len() - x,
{
    broadcast use vstd::utf8::group_utf8_lib;

    let ws = j.walk_hmm(b, x, left);
    if x >= b.len() {
        match left {
            Some(st) => {
                crate::dict::lemma_valid_slice_b(b, st, b.len() as int);
                lemma_hmm_piece_words(j, b.subrange(st, b.len() as int));
            },
            None => {
                assert(b.subrange(x, b.len() as int) =~= Seq::<u8>::empty());
            },
        }
    } else {
        lemma_route_next_boundary(j, b, x);
        crate::text::lemma_step_boundary(b, x);
        let y = route_step(j, b, x);
        if y == step_boundary(b, x) {
            lemma_walk_hmm_words(
                j,
                b,
                y,
                Some(
                    match left {
                        Some(st) => st,
                        None => x,
                    },
                ),
            );
        } else {
            lemma_walk_hmm_words(j, b, y, None);
            let flush: Seq<Seq<u8>> = match left {
                Some(st) => j.hmm_piece(b.subrange(st, x)),
                None => Seq::empty(),
            };
            let step = seq![b.subrange(x, y)];
            crate::text::lemma_concat_all_add(flush + step, j.walk_hmm(b, y, None));
            crate::text::lemma_concat_all_add(flush, step);
            assert(ws == (flush + step) + j.walk_hmm(b, y, None));
            assert(concat_all(step) =~= b.subrange(x, y)) by {
                assert(step.drop_last() =~= Seq::<Seq<u8>>::empty());
                assert(step.last() == b.subrange(x, y));
                assert(concat_all(step) == concat_all(Seq::<Seq<u8>>::empty()) + b.subrange(
                    x,
                    y,
                ));
                assert(concat_all(Seq::<Seq<u8>>::empty()) + b.subrange(x, y) =~= b.subrange(
                    x,
                    y,
                ));
            }
            crate::dict::lemma_valid_slice_b(b, x, y);
            match left {
                Some(st) => {
                    crate::dict::lemma_valid_slice_b(b, st, x);
                    lemma_hmm_piece_words(j, b.subrange(st, x));
                    assert(b.subrange(st, x) + b.subrange(x, y) + b.subrange(y, b.len() as int)
                        =~= b.subrange(st, b.len() as int));
                },
                None => {
                    assert(concat_all(flush) =~= Seq::<u8>::empty());
                    assert(Seq::<u8>::empty() + b.subrange(x, y) =~= b.subrange(x, y));
                    assert(b.subrange(x, y) + b.subrange(y, b.len() as int) =~= b.subrange(
                        x,
                        b.len() as int,
                    ));
                },
            }
            assert(forall|k: int|
                0 <= k < flush.len() + step.len() ==> (flush + step)[k] == if k < flush.len() {
                    flush[k]
                } else {
                    #[trigger] step[k - flush.len()]
                });
        }
    }
}

fn is_alnum_byte_x(b: u8) -> (r: bool)
    ensures
        r == is_alnum_byte(b),
{
    (0x30 <= b && b <= 0x39) || (0x41 <= b && b <= 0x5A) || (0x61 <= b && b <= 0x7A)
}

/// Every span the lattice enumeration emits is a valid, non-empty word.
pub(crate) proof fn lemma_cut_all_words(j: Jieba, b: Seq<u8>, i: int)
    requires
        j.wf(),
        valid_utf8(b),
        0 <= i <= b.len(),
    ensures
        forall|k: int|
            0 <= k < j.spec_cut_all_block(b, i).len() ==> (#[trigger] j.spec_cut_all_block(
                b,
                i,
            )[k]).len() > 0 && valid_utf8(j.spec_cut_all_block(b, i)[k]),
    decreases b.len() - i,
{
    if i < b.len() {
        lemma_cut_all_words(j, b, step_boundary(b, i));
        crate::dag::lemma_dag_ends_upto(j, b, i, b.len() as int);
        let ends = j.spec_dag_ends(b, i);
        let words = ends.map_values(|e: int| b.subrange(i, e));
        let ws = j.spec_cut_all_block(b, i);
        assert forall|k: int| 0 <= k < ws.len() implies (#[trigger] ws[k]).len() > 0
            && valid_utf8(ws[k]) by {
            if k < words.len() {
                assert(ws[k] == words[k]);
                let e = ends[k];
                assert(ends.contains(e));
                assert(j.has_word(b.subrange(i, e)));
                let wi = choose|wi: int|
                    0 <= wi < j.words().len() && j.words()[wi] == b.subrange(i, e);
                assert(valid_utf8(j.words()[wi]));
                assert(j.words()[wi].len() > 0);
            } else {
                assert(ws[k] == #[trigger] j.spec_cut_all_block(b, step_boundary(b, i))[k
                    - words.len()]);
            }
        }
    }
}

/// A Han-like run's words cover it exactly; a gap block's words likewise;
/// so the whole segmentation, outside the lattice mode, covers the input.
pub(crate) proof fn lemma_cut_from_words(j: Jieba, s: Seq<u8>, i: int, cut_all: bool, hmm: bool)
    requires
        j.wf(),
        valid_utf8(s),
        0 <= i <= s.len(),
        i == s.len() || is_char_boundary(s, i),
    ensures
        !cut_all ==> concat_all(j.spec_cut_from(s, i, cut_all, hmm)) == s.subrange(
            i,
            s.len() as int,
        ),
        forall|k: int|
            0 <= k < j.spec_cut_from(s, i, cut_all, hmm).len() ==> (#[trigger] j.spec_cut_from(
                s,
                i,
                cut_all,
                hmm,
            )[k]).len() > 0 && valid_utf8(j.spec_cut_from(s, i, cut_all, hmm)[k]),
    decreases s.len() - i,
{
    broadcast use vstd::utf8::group_utf8_lib;

    if i >= s.len() {
        assert(s.subrange(i, s.len() as int) =~= Seq::<u8>::empty());
    } else {
        let han = is_han(cp_of(s, i), cut_all);
        crate::splitter::lemma_run_end_b(s, i, cut_all, han);
        let e = run_end(s, i, cut_all, han);
        assert(i < e <= s.len());
        let blk = s.subrange(i, e);
        crate::dict::lemma_valid_slice_b(s, i, e);
        assert(blk.len() > 0);
        assert(is_char_boundary(blk, 0));
        let ws = if !han {
            spec_unmatched(blk, 0, cut_all)
        } else if cut_all {
            j.spec_cut_all_block(blk, 0)
        } else if hmm {
            j.walk_hmm(blk, 0, None)
        } else {
            j.walk_nohmm(blk, 0, None)
        };
        if !han {
            crate::splitter::lemma_unmatched_words(blk, 0, cut_all);
        } else if cut_all {
            lemma_cut_all_words(j, blk, 0);
        } else if hmm {
            lemma_walk_hmm_words(j, blk, 0, None);
        } else {
            lemma_walk_nohmm_words(j, blk, 0, None);
        }
        lemma_cut_from_words(j, s, e, cut_all, hmm);
        let rest = j.spec_cut_from(s, e, cut_all, hmm);
        assert(j.spec_cut_from(s, i, cut_all, hmm) == ws + rest);
        if !cut_all {
            crate::text::lemma_concat_all_add(ws, rest);
            assert(concat_all(ws) == blk) by {
                assert(blk.subrange(0, blk.len() as int) =~= blk);
            }
            assert(blk + s.subrange(e, s.len() as int) =~= s.subrange(i, s.len() as int));
        }
        assert forall|k: int|
            0 <= k < (ws + rest).len() implies (#[trigger] (ws + rest)[k]).len() > 0
            && valid_utf8((ws + rest)[k]) by {
            if k < ws.len() {
                assert((ws + rest)[k] == ws[k]);
            } else {
                assert((ws + rest)[k] == rest[k - ws.len()]);
            }
        }
    }
}

impl Jieba {
    /// Flushes one collected span of single-character steps.
    pub(crate) fn emit_piece(&self, blk: &Vec<u8>, st: usize, x: usize, out: &mut Vec<Vec<u8>>)
        requires
            valid_utf8(blk@),
            st < x <= blk@.len(),
            is_char_boundary(blk@, st as int),
            x as int == blk@.len() || is_char_boundary(blk@, x as int),
        ensures
            final(out).deep_view() == old(out).deep_view() + self.hmm_piece(
                blk@.subrange(st as int, x as int),
            ),
    {
        broadcast use vstd::utf8::group_utf8_lib;

        proof {
            crate::dict::lemma_valid_slice_b(blk@, st as int, x as int);
        }
        let w = copy_range(blk, st, x);
        let ghost piece = self.hmm_piece(w@);
        let ghost base = out.deep_view();
        let cnt = count_chars_range(&w, 0, w.len());
        proof {
            assert(w@.subrange(0, w@.len() as int) =~= w@);
        }
        if cnt == 1 {
            let ghost dv0 = out.deep_view();
            out.push(w);
            proof {
                assert(out.deep_view() =~~= dv0.push(blk@.subrange(st as int, x as int)));
                assert(dv0.push(blk@.subrange(st as int, x as int)) =~= dv0 + piece);
            }
        } else if self.match_id(&w).is_none() {
            let ws = crate::hmm::hmm_cut(&w);
            let ghost wsg = ws.deep_view();
            let mut k: usize = 0;
            while k < ws.len()
                invariant
                    0 <= k <= ws@.len(),
                    wsg == ws.deep_view(),
                    wsg.len() == ws@.len(),
                    out.deep_view() == base + wsg.subrange(0, k as int),
                decreases ws@.len() - k,
            {
                let piece_w = copy_range(&ws[k], 0, ws[k].len());
                let ghost dv0 = out.deep_view();
                out.push(piece_w);
                proof {
                    assert(piece_w@ =~= ws@[k as int]@);
                    assert(ws@[k as int]@ == wsg[k as int]) by {
                        assert(wsg[k as int] == ws@[k as int].deep_view());
                        assert(ws@[k as int].deep_view() =~= ws@[k as int]@);
                    }
                    assert(out.deep_view() =~~= dv0.push(wsg[k as int]));
                    assert(wsg.subrange(0, k + 1 as int) =~= wsg.subrange(0, k as int).push(
                        wsg[k as int],
                    ));
                    assert(base + wsg.subrange(0, k as int).push(wsg[k as int]) =~= (base
                        + wsg.subrange(0, k as int)).push(wsg[k as int]));
                }
                k = k + 1;
            }
            proof {
                assert(wsg.subrange(0, wsg.len() as int) =~= wsg);
                assert(out.deep_view() == base + piece);
            }
        } else {
            // a known span is emitted one character per word
            let n = w.len();
            let mut i2: usize = 0;
            proof {
                assert(self.chars_split(w@, 0) == Seq::<Seq<u8>>::empty() + self.chars_split(
                    w@,
                    0,
                )) by {
                    assert(Seq::<Seq<u8>>::empty() + self.chars_split(w@, 0)
                        =~= self.chars_split(w@, 0));
                }
                assert(base + Seq::<Seq<u8>>::empty() =~= base);
            }
            while i2 < n
                invariant
                    valid_utf8(w@),
                    n == w@.len(),
                    0 <= i2 <= n,
                    i2 < n ==> is_char_boundary(w@, i2 as int),
                    base + self.chars_split(w@, 0) == out.deep_view() + self.chars_split(
                        w@,
                        i2 as int,
                    ),
                decreases n - i2,
            {
                let e2 = next_boundary(&w, i2);
                proof {
                    crate::text::lemma_step_boundary(w@, i2 as int);
                    if e2 < n {
                        vstd::utf8::is_char_boundary_iff_not_is_continuation_byte(
                            w@,
                            e2 as int,
                        );
                        assert(is_char_boundary(w@, e2 as int));
                    }
                    assert(self.chars_split(w@, i2 as int) == seq![
                        w@.subrange(i2 as int, e2 as int),
                    ] + self.chars_split(w@, e2 as int));
                }
                let cw = copy_range(&w, i2, e2);
                let ghost dv0 = out.deep_view();
                out.push(cw);
                proof {
                    let cws = w@.subrange(i2 as int, e2 as int);
                    assert(out.deep_view() =~~= dv0.push(cws));
                    assert(dv0 + (seq![cws] + self.chars_split(w@, e2 as int)) =~= dv0.push(
                        cws,
                    ) + self.chars_split(w@, e2 as int));
                }
                i2 = e2;
            }
            proof {
                assert(self.chars_split(w@, i2 as int) =~= Seq::<Seq<u8>>::empty());
                assert(out.deep_view() + Seq::<Seq<u8>>::empty() =~= out.deep_view());
                assert(out.deep_view() == base + piece);
            }
        }
        proof {
            assert(blk@.subrange(st as int, x as int) == w@);
        }
    }

    /// Walks one Han-like block along its route.
    #[verifier::rlimit(100)]
    fn cut_block(&self, blk: &Vec<u8>, hmm: bool, out: &mut Vec<Vec<u8>>)
        requires
            valid_utf8(blk@),
        ensures
            final(out).deep_view() == old(out).deep_view() + if hmm {
                self.walk_hmm(blk@, 0, None)
            } else {
                self.walk_nohmm(blk@, 0, None)
            },
    {
        broadcast use vstd::utf8::group_utf8_lib;

        let d = self.dag(blk);
        let route = self.calc(blk, &d);
        let n = blk.len();
        let ghost base = out.deep_view();
        let ghost spec_all: Seq<Seq<u8>> = if hmm {
            self.walk_hmm(blk@, 0, None)
        } else {
            self.walk_nohmm(blk@, 0, None)
        };
        let mut x: usize = 0;
        let mut left: Option<usize> = None;
        proof {
            assert(base + spec_all =~= out.deep_view() + spec_all);
        }
        while x < n
            invariant
                valid_utf8(blk@),
                n == blk@.len(),
                0 <= x <= n,
                x < n ==> is_char_boundary(blk@, x as int),
                route@.len() == n + 1,
                forall|i: int|
                    0 <= i <= n && (i == n || is_char_boundary(blk@, i)) ==> (#[trigger] route@[
                    i]).0 == self.spec_route(blk@, i).0 && route@[i].1 as int
                        == self.spec_route(blk@, i).1,
                left matches Some(st) ==> 0 <= st < x && is_char_boundary(blk@, st as int),
                spec_all == if hmm {
                    self.walk_hmm(blk@, 0, None)
                } else {
                    self.walk_nohmm(blk@, 0, None)
                },
                base + spec_all == out.deep_view() + if hmm {
                    self.walk_hmm(
                        blk@,
                        x as int,
                        match left {
                            Some(st) => Some(st as int),
                            None => None,
                        },
                    )
                } else {
                    self.walk_nohmm(
                        blk@,
                        x as int,
                        match left {
                            Some(st) => Some(st as int),
                            None => None,
                        },
                    )
                },
            decreases n - x,
        {
            proof {
                use_type_invariant(self);
                lemma_route_next_boundary(*self, blk@, x as int);
            }
            let y = route[x].1;
            let ghost gleft: Option<int> = match left {
                Some(st) => Some(st as int),
                None => None,
            };
            proof {
                assert(y as int == self.spec_route(blk@, x as int).1);
                assert(route_step(*self, blk@, x as int) == y as int);
                assert(x < y <= n);
                assert(is_char_boundary(blk@, y as int));
            }
            let single: bool = if hmm {
                let nb = next_boundary(blk, x);
                proof {
                    crate::text::lemma_step_boundary(blk@, x as int);
                }
                y == nb
            } else {
                y == x + 1 && is_alnum_byte_x(blk[x])
            };
            if single {
                proof {
                    if hmm {
                        assert(self.walk_hmm(blk@, x as int, gleft) == self.walk_hmm(
                            blk@,
                            y as int,
                            Some(
                                match gleft {
                                    Some(st) => st,
                                    None => x as int,
                                },
                            ),
                        ));
                    } else {
                        assert(self.walk_nohmm(blk@, x as int, gleft) == self.walk_nohmm(
                            blk@,
                            y as int,
                            Some(
                                match gleft {
                                    Some(st) => st,
                                    None => x as int,
                                },
                            ),
                        ));
                    }
                }
                left = match left {
                    Some(st) => Some(st),
                    None => Some(x),
                };
            } else {
                let ghost pre: Seq<Seq<u8>> = if hmm {
                    self.walk_hmm(blk@, x as int, gleft)
                } else {
                    self.walk_nohmm(blk@, x as int, gleft)
                };
                let ghost flush: Seq<Seq<u8>> = match gleft {
                    Some(st) => if hmm {
                        self.hmm_piece(blk@.subrange(st, x as int))
                    } else {
                        seq![blk@.subrange(st, x as int)]
                    },
                    None => Seq::empty(),
                };
                let ghost dv0 = out.deep_view();
                match left {
                    Some(st) => {
                        if hmm {
                            self.emit_piece(blk, st, x, out);
                        } else {
                            let fw = copy_range(blk, st, x);
                            out.push(fw);
                        }
                    },
                    None => {},
                }
                proof {
                    assert(out.deep_view() =~~= dv0 + flush);
                }
                let sw = copy_range(blk, x, y);
                let ghost dv1 = out.deep_view();
                out.push(sw);
                proof {
                    let sws = blk@.subrange(x as int, y as int);
                    let rest: Seq<Seq<u8>> = if hmm {
                        self.walk_hmm(blk@, y as int, None)
                    } else {
                        self.walk_nohmm(blk@, y as int, None)
                    };
                    assert(pre == flush + seq![sws] + rest);
                    assert(out.deep_view() =~~= dv1.push(sws));
                    assert(dv0 + (flush + seq![sws] + rest) =~= ((dv0 + flush).push(sws))
                        + rest);
                }
                left = None;
            }
            x = y;
        }
        if let Some(st) = left {
            let ghost dv0 = out.deep_view();
            if hmm {
                self.emit_piece(blk, st, n, out);
                proof {
                    assert(self.walk_hmm(blk@, n as int, Some(st as int)) == self.hmm_piece(
                        blk@.subrange(st as int, n as int),
                    ));
                    assert(dv0 + self.walk_hmm(blk@, n as int, Some(st as int))
                        =~= out.deep_view());
                }
            } else {
                let fw = copy_range(blk, st, n);
                out.push(fw);
                proof {
                    let fws = blk@.subrange(st as int, n as int);
                    assert(self.walk_nohmm(blk@, n as int, Some(st as int)) == seq![fws]);
                    assert(out.deep_view() =~~= dv0.push(fws));
                    assert(dv0 + seq![fws] =~= dv0.push(fws));
                }
            }
        } else {
            proof {
                if hmm {
                    assert(self.walk_hmm(blk@, n as int, None) =~= Seq::<Seq<u8>>::empty());
                } else {
                    assert(self.walk_nohmm(blk@, n as int, None) =~= Seq::<Seq<u8>>::empty());
                }
                assert(out.deep_view() + Seq::<Seq<u8>>::empty() =~= out.deep_view());
            }
        }
    }

    /// Emits every dictionary span of one block.
    fn cut_all_block(&self, blk: &Vec<u8>, out: &mut Vec<Vec<u8>>)
        requires
            valid_utf8(blk@),
        ensures
            final(out).deep_view() == old(out).deep_view() + self.spec_cut_all_block(blk@, 0),
    {
        broadcast use vstd::utf8::group_utf8_lib;

        let d = self.dag(blk);
        let n = blk.len();
        let ghost base = out.deep_view();
        let mut i: usize = 0;
        proof {
            assert(base + self.spec_cut_all_block(blk@, 0) =~= out.deep_view()
                + self.spec_cut_all_block(blk@, 0));
        }
        while i < n
            invariant
                valid_utf8(blk@),
                n == blk@.len(),
                0 <= i <= n,
                i < n ==> is_char_boundary(blk@, i as int),
                d@.len() == n,
                forall|p: int|
                    0 <= p < d@.len() ==> crate::dag::ends_view(#[trigger] d@[p]@)
                        == self.spec_dag_ends(blk@, p),
                base + self.spec_cut_all_block(blk@, 0) == out.deep_view()
                    + self.spec_cut_all_block(blk@, i as int),
            decreases n - i,
        {
            let ghost ends = self.spec_dag_ends(blk@, i as int);
            let ghost words = ends.map_values(|e: int| blk@.subrange(i as int, e));
            proof {
                crate::dag::lemma_dag_ends_upto(*self, blk@, i as int, n as int);
            }
            let bin_len = d[i].len();
            let mut k: usize = 0;
            let ghost mid = out.deep_view();
            while k < bin_len
                invariant
                    valid_utf8(blk@),
                    n == blk@.len(),
                    0 <= i < n,
                    d@.len() == n,
                    bin_len == d@[i as int]@.len(),
                    ends == self.spec_dag_ends(blk@, i as int),
                    crate::dag::ends_view(d@[i as int]@) == ends,
                    words == ends.map_values(|e: int| blk@.subrange(i as int, e)),
                    forall|k2: int| 0 <= k2 < ends.len() ==> i < #[trigger] ends[k2] <= n,
                    0 <= k <= bin_len,
                    out.deep_view() == mid + words.subrange(0, k as int),
                decreases bin_len - k,
            {
                let e = d[i][k];
                proof {
                    assert(ends[k as int] == e as int);
                }
                let wv = copy_range(blk, i, e);
                let ghost dv0 = out.deep_view();
                out.push(wv);
                proof {
                    assert(words[k as int] == blk@.subrange(i as int, e as int));
                    assert(out.deep_view() =~~= dv0.push(words[k as int]));
                    assert(words.subrange(0, k + 1 as int) =~= words.subrange(0, k as int).push(
                        words[k as int],
                    ));
                    assert(mid + words.subrange(0, k as int).push(words[k as int]) =~= (mid
                        + words.subrange(0, k as int)).push(words[k as int]));
                }
                k = k + 1;
            }
            let j2 = next_boundary(blk, i);
            proof {
                crate::text::lemma_step_boundary(blk@, i as int);
                if j2 < n {
                    vstd::utf8::is_char_boundary_iff_not_is_continuation_byte(
                        blk@,
                        j2 as int,
                    );
                    assert(is_char_boundary(blk@, j2 as int));
                }
                assert(words.subrange(0, bin_len as int) =~= words);
                assert(self.spec_cut_all_block(blk@, i as int) == words
                    + self.spec_cut_all_block(blk@, j2 as int));
                assert(mid + (words + self.spec_cut_all_block(blk@, j2 as int)) =~= (mid
                    + words) + self.spec_cut_all_block(blk@, j2 as int));
            }
            i = j2;
        }
        proof {
            assert(self.spec_cut_all_block(blk@, i as int) =~= Seq::<Seq<u8>>::empty());
            assert(out.deep_view() + Seq::<Seq<u8>>::empty() =~= out.deep_view());
        }
    }

    /// Segments input bytes into words, as byte strings.
    pub(crate) fn cut_bytes(&self, text: &Vec<u8>, cut_all: bool, hmm: bool) -> (out: Vec<Vec<u8>>)
        requires
            valid_utf8(text@),
        ensures
            out.deep_view() == self.spec_cut(text@, cut_all, hmm),
    {
        broadcast use vstd::utf8::group_utf8_lib;

        let n = text.len();
        let mut out: Vec<Vec<u8>> = Vec::new();
        let mut i: usize = 0;
        proof {
            assert(out.deep_view() =~~= Seq::<Seq<u8>>::empty());
            assert(Seq::<Seq<u8>>::empty() + self.spec_cut_from(text@, 0, cut_all, hmm)
                =~= self.spec_cut_from(text@, 0, cut_all, hmm));
        }
        while i < n
            invariant
                valid_utf8(text@),
                n == text@.len(),
                0 <= i <= n,
                i < n ==> is_char_boundary(text@, i as int),
                self.spec_cut(text@, cut_all, hmm) == out.deep_view() + self.spec_cut_from(
                    text@,
                    i as int,
                    cut_all,
                    hmm,
                ),
            decreases n - i,
        {
            let cp = crate::text::cp_at(text, i);
            let han = is_han_x(cp, cut_all);
            let e = run_end_x(text, i, cut_all, han);
            proof {
                crate::splitter::lemma_run_end_b(text@, i as int, cut_all, han);
                assert(i < e);
                crate::dict::lemma_valid_slice_b(text@, i as int, e as int);
            }
            let blk = copy_range(text, i, e);
            let ghost blks = text@.subrange(i as int, e as int);
            let ghost ws: Seq<Seq<u8>> = if !han {
                spec_unmatched(blks, 0, cut_all)
            } else if cut_all {
                self.spec_cut_all_block(blks, 0)
            } else if hmm {
                self.walk_hmm(blks, 0, None)
            } else {
                self.walk_nohmm(blks, 0, None)
            };
            let ghost dv0 = out.deep_view();
            if !han {
                crate::splitter::emit_unmatched(&blk, cut_all, &mut out);
            } else if cut_all {
                self.cut_all_block(&blk, &mut out);
            } else {
                self.cut_block(&blk, hmm, &mut out);
            }
            proof {
                assert(out.deep_view() == dv0 + ws);
                assert(self.spec_cut_from(text@, i as int, cut_all, hmm) == ws
                    + self.spec_cut_from(text@, e as int, cut_all, hmm));
                assert(dv0 + (ws + self.spec_cut_from(text@, e as int, cut_all, hmm)) =~= (dv0
                    + ws) + self.spec_cut_from(text@, e as int, cut_all, hmm));
            }
            i = e;
        }
        proof {
            assert(self.spec_cut_from(text@, i as int, cut_all, hmm) =~= Seq::<Seq<u8>>::empty());
            assert(out.deep_view() + Seq::<Seq<u8>>::empty() =~= out.deep_view());
        }
        out
    }
}

/// The decoded characters of each byte word.
pub open spec fn decode_words(ws: Seq<Seq<u8>>) -> Seq<Seq<char>> {
    ws.map_values(|w: Seq<u8>| decode_utf8(w))
}

impl Jieba {
    /// Converts segmented byte words into strings.
    fn words_to_strings(&self, ws: Vec<Vec<u8>>) -> (r: Vec<String>)
        requires
            forall|k: int|
                0 <= k < ws.deep_view().len() ==> valid_utf8(#[trigger] ws.deep_view()[k]),
        ensures
            r.deep_view() == decode_words(ws.deep_view()),
    {
        let ghost wsg = ws.deep_view();
        let mut r: Vec<String> = Vec::new();
        let mut k: usize = 0;
        proof {
            assert(r.deep_view() =~~= decode_words(wsg).subrange(0, 0));
        }
        while k < ws.len()
            invariant
                0 <= k <= ws@.len(),
                wsg == ws.deep_view(),
                wsg.len() == ws@.len(),
                forall|k2: int| 0 <= k2 < wsg.len() ==> valid_utf8(#[trigger] wsg[k2]),
                r.deep_view() == decode_words(wsg).subrange(0, k as int),
            decreases ws@.len() - k,
        {
            let wv = copy_range(&ws[k], 0, ws[k].len());
            proof {
                assert(wv@ =~= ws@[k as int]@);
                assert(ws@[k as int]@ == wsg[k as int]) by {
                    assert(wsg[k as int] == ws@[k as int].deep_view());
                    assert(ws@[k as int].deep_view() =~= ws@[k as int]@);
                }
            }
            let sw = crate::text::bytes_to_string(wv);
            let ghost dv0 = r.deep_view();
            r.push(sw);
            proof {
                assert(r.deep_view() =~~= dv0.push(decode_utf8(wsg[k as int])));
                assert(decode_words(wsg)[k as int] == decode_utf8(wsg[k as int]));
                assert(decode_words(wsg).subrange(0, k + 1 as int) =~= decode_words(
                    wsg,
                ).subrange(0, k as int).push(decode_words(wsg)[k as int]));
            }
            k = k + 1;
        }
        proof {
            assert(decode_words(wsg).subrange(0, k as int) =~= decode_words(wsg));
        }
        r
    }

    /// Cuts the input into words; `hmm` turns the tagger for unknown runs
    /// on. The words concatenate back to the input.
    pub fn cut(&self, sentence: &str, hmm: bool) -> (r: Vec<String>)
        ensures
            r.deep_view() == decode_words(
                self.spec_cut(encode_utf8(sentence@), false, hmm),
            ),
            concat_all(self.spec_cut(encode_utf8(sentence@), false, hmm)) == encode_utf8(
                sentence@,
            ),
    {
        broadcast use vstd::utf8::group_utf8_lib;

        let bytes = vstd::string::StrSliceExecFns::as_bytes_vec(sentence);
        let ws = self.cut_bytes(&bytes, false, hmm);
        proof {
            use_type_invariant(self);
            lemma_cut_from_words(*self, bytes@, 0, false, hmm);
            assert(bytes@.subrange(0, bytes@.len() as int) =~= bytes@);
        }
        self.words_to_strings(ws)
    }

    /// Emits every dictionary span of every Han-like block, and passes the
    /// gaps through.
    pub fn cut_all(&self, sentence: &str) -> (r: Vec<String>)
        ensures
            r.deep_view() == decode_words(
                self.spec_cut(encode_utf8(sentence@), true, false),
            ),
    {
        broadcast use vstd::utf8::group_utf8_lib;

        let bytes = vstd::string::StrSliceExecFns::as_bytes_vec(sentence);
        let ws = self.cut_bytes(&bytes, true, false);
        proof {
            use_type_invariant(self);
            lemma_cut_from_words(*self, bytes@, 0, true, false);
        }
        self.words_to_strings(ws)
    }
}

} // verus!
