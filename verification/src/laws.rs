//! Properties of the segmentation, stated and proved once over the
//! specification functions that the public contracts use.

use crate::api::spec_tags;
use crate::cut::decode_words;
use crate::jieba::Jieba;
use crate::text::char_count;
use crate::text::concat_all;
use crate::text::step_boundary;
use vstd::prelude::*;
use vstd::utf8::*;

verus! {

/// Default-mode tokens are one per word, in order, each spanning exactly
/// its word's characters from the running position.
pub proof fn lemma_tokens_structure(j: Jieba, ws: Seq<Seq<u8>>, k: int, start: int)
    requires
        0 <= k <= ws.len(),
    ensures
        ({
            let ts = j.spec_tokens(ws, k, start, false);
            &&& ts.len() == ws.len() - k
            &&& forall|t: int|
                0 <= t < ts.len() ==> (#[trigger] ts[t]).0 == ws[k + t]
            &&& forall|t: int|
                0 <= t < ts.len() ==> (#[trigger] ts[t]).2 == ts[t].1 + char_count(ws[k + t])
            &&& (ts.len() > 0 ==> ts[0].1 == start)
            &&& forall|t: int|
                0 <= t < ts.len() - 1 ==> (#[trigger] ts[t]).2 == ts[t + 1].1
            &&& ts.len() > 0 ==> ts.last().2 == start + char_count(
                concat_all(ws.subrange(k, ws.len() as int)),
            )
            &&& ts.len() == 0 ==> char_count(concat_all(ws.subrange(k, ws.len() as int))) == 0
        }),
    decreases ws.len() - k,
{
    let ts = j.spec_tokens(ws, k, start, false);
    if k >= ws.len() {
        assert(ws.subrange(k, ws.len() as int) =~= Seq::<Seq<u8>>::empty());
    } else {
        let w = ws[k];
        let width = char_count(w) as int;
        lemma_tokens_structure(j, ws, k + 1, start + width);
        let tail = j.spec_tokens(ws, k + 1, start + width, false);
        assert(ts =~= seq![(w, start, start + width)] + tail);
        assert(ws.subrange(k, ws.len() as int) =~= seq![w] + ws.subrange(
            k + 1,
            ws.len() as int,
        ));
        crate::text::lemma_concat_all_add(seq![w], ws.subrange(k + 1, ws.len() as int));
        assert(concat_all(seq![w]) =~= w) by {
            assert(seq![w].drop_last() =~= Seq::<Seq<u8>>::empty());
            assert(seq![w].last() == w);
            assert(concat_all(seq![w]) == concat_all(Seq::<Seq<u8>>::empty()) + w);
            assert(concat_all(Seq::<Seq<u8>>::empty()) + w =~= w);
        }
        crate::text::lemma_char_count_concat(w, concat_all(ws.subrange(k + 1, ws.len() as int)));
        assert(forall|t: int| 1 <= t < ts.len() ==> ts[t] == #[trigger] tail[t - 1]);
    }
}

/// Default-mode tokens tile the whole input: the first starts at character
/// 0, each ends where the next begins, and the last ends at the input's
/// character count. The hypothesis is what `cut` itself ensures.
pub proof fn lemma_default_tokens_cover(j: Jieba, txt: Seq<u8>, hmm: bool)
    requires
        concat_all(j.spec_cut(txt, false, hmm)) == txt,
    ensures
        ({
            let ts = j.spec_tokens(j.spec_cut(txt, false, hmm), 0, 0, false);
            &&& (ts.len() > 0 ==> ts[0].1 == 0 && ts.last().2 == char_count(txt))
            &&& forall|t: int|
                0 <= t < ts.len() - 1 ==> (#[trigger] ts[t]).2 == ts[t + 1].1
            &&& forall|t: int|
                0 <= t < ts.len() ==> (#[trigger] ts[t]).2 == ts[t].1 + char_count(ts[t].0)
        }),
{
    let ws = j.spec_cut(txt, false, hmm);
    lemma_tokens_structure(j, ws, 0, 0);
    assert(ws.subrange(0, ws.len() as int) =~= ws);
}

/// Every extra gram a search-mode token list reports passes the exact
/// membership test; all other tokens are words of the cut itself.
pub proof fn lemma_search_grams_known(j: Jieba, ws: Seq<Seq<u8>>, k: int, start: int)
    requires
        0 <= k <= ws.len(),
    ensures
        forall|t: int|
            0 <= t < j.spec_tokens(ws, k, start, true).len() ==> ws.contains(
                (#[trigger] j.spec_tokens(ws, k, start, true)[t]).0,
            ) || j.spec_contains(j.spec_tokens(ws, k, start, true)[t].0) is Some,
    decreases ws.len() - k,
{
    let ts = j.spec_tokens(ws, k, start, true);
    if k < ws.len() {
        let w = ws[k];
        let width = char_count(w) as int;
        lemma_search_grams_known(j, ws, k + 1, start + width);
        let grams: Seq<(Seq<u8>, int, int)> = if width > 2 {
            j.gram_tokens(w, 2, 0, start) + if width > 3 {
                j.gram_tokens(w, 3, 0, start)
            } else {
                Seq::empty()
            }
        } else {
            Seq::empty()
        };
        if width > 2 {
            lemma_grams_known(j, w, 2, 0, start);
            if width > 3 {
                lemma_grams_known(j, w, 3, 0, start);
            }
        }
        let tail = j.spec_tokens(ws, k + 1, start + width, true);
        assert(ts =~= grams + seq![(w, start, start + width)] + tail);
        assert(ws.contains(w)) by {
            assert(ws[k] == w);
        }
        assert forall|t: int| 0 <= t < ts.len() implies ws.contains((#[trigger] ts[t]).0)
            || j.spec_contains(ts[t].0) is Some by {
            if t < grams.len() {
                assert(ts[t] == grams[t]);
                if width > 2 {
                    let g2 = j.gram_tokens(w, 2, 0, start);
                    if t < g2.len() {
                        assert(grams[t] == g2[t]);
                    } else {
                        assert(grams[t] == j.gram_tokens(w, 3, 0, start)[t - g2.len()]);
                    }
                }
            } else if t == grams.len() {
                assert(ts[t].0 == w);
            } else {
                assert(ts[t] == tail[t - grams.len() - 1]);
            }
        }
    }
}

proof fn lemma_grams_known(j: Jieba, w: Seq<u8>, glen: int, i: int, start: int)
    requires
        0 <= i,
        glen >= 1,
    ensures
        forall|t: int|
            0 <= t < j.gram_tokens(w, glen, i, start).len() ==> j.spec_contains(
                (#[trigger] j.gram_tokens(w, glen, i, start)[t]).0,
            ) is Some,
    decreases char_count(w) + 1 - i,
{
    let ts = j.gram_tokens(w, glen, i, start);
    let cc = char_count(w) as int;
    if i + glen <= cc {
        lemma_grams_known(j, w, glen, i + 1, start);
        let offs = crate::hmm::offs_list(w, 0);
        let g = w.subrange(offs[i], offs[i + glen]);
        let head: Seq<(Seq<u8>, int, int)> = if j.spec_contains(g) is Some {
            seq![(g, start + i, start + i + glen)]
        } else {
            Seq::empty()
        };
        assert(ts =~= head + j.gram_tokens(w, glen, i + 1, start));
        assert(forall|t: int|
            head.len() <= t < ts.len() ==> ts[t] == #[trigger] j.gram_tokens(
                w,
                glen,
                i + 1,
                start,
            )[t - head.len()]);
    }
}

/// The tag list carries exactly the cut's word sequence.
pub proof fn lemma_tag_words_match_cut(j: Jieba, ws: Seq<Seq<u8>>)
    ensures
        spec_tags(j, ws).len() == decode_words(ws).len(),
        forall|k: int|
            0 <= k < ws.len() ==> (#[trigger] spec_tags(j, ws)[k]).0 == decode_words(ws)[k],
{
}

/// Segmentation is a function of the dictionary, the input, and the mode:
/// any two results that `cut` can return for the same arguments are equal.
pub proof fn lemma_cut_deterministic(
    j: Jieba,
    s: Seq<char>,
    hmm: bool,
    r1: Seq<Seq<char>>,
    r2: Seq<Seq<char>>,
)
    requires
        r1 == decode_words(j.spec_cut(encode_utf8(s), false, hmm)),
        r2 == decode_words(j.spec_cut(encode_utf8(s), false, hmm)),
    ensures
        r1 == r2,
{
}

/// Every span the lattice enumeration of a Han-like block emits is a
/// dictionary word; the lattice overlaps, so unlike `cut` its words do not
/// concatenate back to the block.
pub proof fn lemma_cut_all_spans_are_words(j: Jieba, b: Seq<u8>, i: int)
    requires
        0 <= i <= b.len(),
    ensures
        forall|k: int|
            0 <= k < j.spec_cut_all_block(b, i).len() ==> j.has_word(
                #[trigger] j.spec_cut_all_block(b, i)[k],
            ),
    decreases b.len() - i,
{
    if i < b.len() {
        lemma_cut_all_spans_are_words(j, b, crate::text::step_boundary(b, i));
        crate::dag::lemma_dag_ends_upto(j, b, i, b.len() as int);
        let ends = j.spec_dag_ends(b, i);
        let words = ends.map_values(|e: int| b.subrange(i, e));
        let ws = j.spec_cut_all_block(b, i);
        assert forall|k: int| 0 <= k < ws.len() implies j.has_word(#[trigger] ws[k]) by {
            if k < words.len() {
                assert(ws[k] == words[k]);
                assert(ends.contains(ends[k]));
            } else {
                assert(ws[k] == #[trigger] j.spec_cut_all_block(
                    b,
                    crate::text::step_boundary(b, i),
                )[k - words.len()]);
            }
        }
    }
}

/// Per-block coverage in the lattice mode: when every character of a
/// Han-like block begins at least one dictionary word — as under a lexicon
/// that lists every single character — the spans the block emits jointly
/// cover every byte of the block. A character that occurs in no dictionary
/// word is emitted by nothing, so such blocks are excluded by the last
/// hypothesis.
/// Byte `p` of the block lies inside some span the lattice emits.
pub open spec fn covered_by_cut_all(j: Jieba, b: Seq<u8>, i: int, p: int) -> bool {
    exists|st: int, e: int|
        st <= p < e && j.spec_cut_all_block(b, i).contains(#[trigger] b.subrange(st, e))
}

pub proof fn lemma_cut_all_covers(j: Jieba, b: Seq<u8>, i: int)
    requires
        valid_utf8(b),
        0 <= i <= b.len(),
        i == b.len() || is_char_boundary(b, i),
        forall|wi: int| 0 <= wi < j.words().len() ==> valid_utf8(#[trigger] j.words()[wi]),
        forall|p: int|
            i <= p < b.len() && !is_continuation_byte(#[trigger] b[p]) ==> j.spec_dag_ends(
                b,
                p,
            ).len() > 0,
    ensures
        forall|p: int| i <= p < b.len() ==> #[trigger] covered_by_cut_all(j, b, i, p),
    decreases b.len() - i,
{
    broadcast use vstd::utf8::group_utf8_lib;

    if i < b.len() {
        crate::text::lemma_step_boundary(b, i);
        let nb = step_boundary(b, i);
        assert(nb == b.len() || is_char_boundary(b, nb));
        lemma_cut_all_covers(j, b, nb);
        crate::dag::lemma_dag_ends_upto(j, b, i, b.len() as int);
        let ends = j.spec_dag_ends(b, i);
        assert(!is_continuation_byte(b[i]));
        assert(ends.len() > 0);
        let e0 = ends[0];
        assert(ends.contains(e0));
        assert(i < e0 <= b.len() && j.has_word(b.subrange(i, e0)));
        // the first span reaches past this whole character
        assert(e0 >= nb) by {
            let wi = choose|wi: int|
                0 <= wi < j.words().len() && j.words()[wi] == b.subrange(i, e0);
            assert(valid_utf8(b.subrange(i, e0)));
            crate::route::lemma_prefix_boundary(b, i, e0);
            if e0 < nb {
                assert(is_continuation_byte(b[e0]));
            }
        }
        let words = ends.map_values(|e: int| b.subrange(i, e));
        let ws = j.spec_cut_all_block(b, i);
        assert(ws == words + j.spec_cut_all_block(b, nb));
        assert(ws.contains(b.subrange(i, e0))) by {
            assert(ws[0] == words[0]);
            assert(words[0] == b.subrange(i, e0));
        }
        assert forall|p: int| i <= p < b.len() implies #[trigger] covered_by_cut_all(
            j,
            b,
            i,
            p,
        ) by {
            if p < nb {
                assert(i <= p < e0 && ws.contains(b.subrange(i, e0)));
            } else {
                assert(covered_by_cut_all(j, b, nb, p));
                let (st, e) = choose|st: int, e: int|
                    st <= p < e && j.spec_cut_all_block(b, nb).contains(
                        #[trigger] b.subrange(st, e),
                    );
                assert(ws.contains(b.subrange(st, e))) by {
                    let k = choose|k: int|
                        0 <= k < j.spec_cut_all_block(b, nb).len() && j.spec_cut_all_block(
                            b,
                            nb,
                        )[k] == b.subrange(st, e);
                    assert(ws[words.len() + k] == b.subrange(st, e));
                }
            }
        }
    }
}

} // verus!
