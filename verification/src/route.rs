//! The maximum-probability route through a block.
//!
//! Scanning backward from the end of the block, each character start gets
//! the best `(score, next)` step: the dictionary word (or, failing that,
//! the single character) that maximizes the word's score plus the score of
//! the rest. Equal scores go to the later end, as a scan in ascending end
//! order that moves on ties leaves it.

use crate::dag::ends_view;
use crate::hmm::offs_list;
use crate::jieba::Jieba;
use crate::score::spec_score;
use crate::score::step_score;
use crate::text::next_boundary;
use crate::text::spec_next_boundary;
use crate::text::step_boundary;
use vstd::prelude::*;
use vstd::utf8::*;

verus! {

impl Jieba {
    /// The frequency charged to a span: its dictionary frequency when the
    /// exact-match search accepts it, 1 otherwise.
    pub open spec fn spec_freq(self, w: Seq<u8>) -> u64 {
        match self.spec_contains(w) {
            Some(id) => if id < self.recs().len() {
                self.recs()[id as int].1
            } else {
                1
            },
            None => 1,
        }
    }

    /// The score of stepping over `b[i..e]`.
    pub open spec fn edge_score(self, b: Seq<u8>, i: int, e: int) -> int {
        spec_score(self.spec_freq(b.subrange(i, e)), self.spec_total())
    }

    /// The best `(score, end)` among dictionary steps from `i` that end in
    /// `(i, e]`; later ends win ties.
    pub open spec fn scan_best(self, b: Seq<u8>, i: int, e: int) -> Option<(int, int)>
        decreases b.len() - i, 0int, e
            when 0 <= i && e <= b.len()
    {
        if e <= i {
            None
        } else {
            let rest = self.scan_best(b, i, e - 1);
            if self.has_word(b.subrange(i, e)) {
                let cur = (self.edge_score(b, i, e) + self.spec_route(b, e).0, e);
                match rest {
                    None => Some(cur),
                    Some(r) => if r.0 > cur.0 {
                        Some(r)
                    } else {
                        Some(cur)
                    },
                }
            } else {
                rest
            }
        }
    }

    /// The best step from byte `i`: its score and the byte it ends at.
    /// With no dictionary step available, a single character with
    /// frequency 1 is taken.
    pub open spec fn spec_route(self, b: Seq<u8>, i: int) -> (int, int)
        decreases b.len() - i, 1int, 0int
            when 0 <= i <= b.len()
    {
        if i >= b.len() {
            (0, b.len() as int)
        } else {
            match self.scan_best(b, i, b.len() as int) {
                Some(p) => p,
                None => {
                    let nb = step_boundary(b, i);
                    (spec_score(1, self.spec_total()) + self.spec_route(b, nb).0, nb)
                },
            }
        }
    }
}

/// Bounds on the route values and steps; per-step scores are bounded, so a
/// route's score grows at most linearly in the bytes it covers.
pub proof fn lemma_route_bound(j: Jieba, b: Seq<u8>, i: int)
    requires
        0 <= i <= b.len(),
    ensures
        -(b.len() - i) * 0x10000000000000 <= j.spec_route(b, i).0 <= (b.len() - i)
            * 0x10000000000000,
        i <= j.spec_route(b, i).1 <= b.len(),
        i < b.len() ==> i < j.spec_route(b, i).1,
    decreases b.len() - i, 1int,
{
    if i < b.len() {
        lemma_scan_bound(j, b, i, b.len() as int);
        match j.scan_best(b, i, b.len() as int) {
            Some(p) => {},
            None => {
                let nb = step_boundary(b, i);
                lemma_route_bound(j, b, nb);
                crate::score::lemma_score_bound(1, j.spec_total());
            },
        }
    }
}

proof fn lemma_scan_bound(j: Jieba, b: Seq<u8>, i: int, e: int)
    requires
        0 <= i,
        e <= b.len(),
    ensures
        j.scan_best(b, i, e) matches Some(p) ==> i < p.1 <= e && -(b.len() - i)
            * 0x10000000000000 <= p.0 <= (b.len() - i) * 0x10000000000000,
    decreases b.len() - i, 0int, e,
{
    if e > i {
        lemma_scan_bound(j, b, i, e - 1);
        if j.has_word(b.subrange(i, e)) {
            lemma_route_bound(j, b, e);
            crate::score::lemma_score_bound(j.spec_freq(b.subrange(i, e)), j.spec_total());
        }
    }
}

/// A scan over ends that hold no dictionary step does not move the best.
proof fn lemma_scan_skip(j: Jieba, b: Seq<u8>, i: int, e1: int, e2: int)
    requires
        0 <= i <= e1 <= e2 <= b.len(),
        forall|x: int| e1 < x <= e2 ==> !j.has_word(b.subrange(i, x)),
    ensures
        j.scan_best(b, i, e2) == j.scan_best(b, i, e1),
    decreases e2 - e1,
{
    if e1 < e2 {
        lemma_scan_skip(j, b, i, e1, e2 - 1);
    }
}

/// In valid text, a valid prefix read from a character boundary ends on a
/// character boundary.
pub proof fn lemma_prefix_boundary(b: Seq<u8>, i: int, e: int)
    requires
        valid_utf8(b),
        0 <= i <= e <= b.len(),
        is_char_boundary(b, i),
        valid_utf8(b.subrange(i, e)),
    ensures
        is_char_boundary(b, e),
    decreases e - i,
{
    broadcast use vstd::utf8::group_utf8_lib;

    if e == i {
    } else {
        let w = b.subrange(i, e);
        let sfx = b.subrange(i, b.len() as int);
        assert(valid_first_scalar(w));
        assert(w[0] == b[i] && sfx[0] == b[i]);
        assert(valid_utf8(sfx));
        assert(valid_first_scalar(sfx));
        let k = length_of_first_scalar(w);
        assert(k == length_of_first_scalar(sfx)) by {
            if w.len() >= 2 {
                assert(w[1] == b[i + 1] && sfx[1] == b[i + 1]);
            }
        }
        assert(1 <= k <= w.len());
        assert(pop_first_scalar(sfx) =~= b.subrange(i + k, b.len() as int));
        assert(valid_utf8(b.subrange(i + k, b.len() as int)));
        assert(is_char_boundary(b, i + k)) by {
            if i + k < b.len() {
                assert(b.subrange(i + k, b.len() as int)[0] == b[i + k]);
                assert(valid_first_scalar(b.subrange(i + k, b.len() as int)));
                assert(!is_continuation_byte(b[i + k]));
            }
        }
        assert(pop_first_scalar(w) =~= b.subrange(i + k, e));
        assert(valid_utf8(b.subrange(i + k, e)));
        lemma_prefix_boundary(b, i + k, e);
    }
}

/// Consecutive entries of the offset list step by one character.
pub proof fn lemma_offs_adjacent(s: Seq<u8>, k: int)
    requires
        0 <= k < offs_list(s, 0).len() - 1,
    ensures
        offs_list(s, 0)[k + 1] == spec_next_boundary(s, offs_list(s, 0)[k]),
{
    crate::hmm::lemma_offs_list_len(s, 0);
    let offs = offs_list(s, 0);
    let p = offs[k];
    crate::text::lemma_next_boundary(s, p);
    let q = spec_next_boundary(s, p);
    // the next entry is at least the next boundary, and cannot pass it
    assert(offs[k + 1] > p);
    if offs[k + 1] < q {
        assert(is_continuation_byte(s[offs[k + 1]]));
    }
    if offs[k + 1] > q {
        lemma_offs_mem(s, 0, q);
        let kk = choose|kk: int| 0 <= kk < offs.len() && offs[kk] == q;
        if kk <= k {
            assert(offs[kk] <= offs[k]);
        }
        if kk >= k + 1 {
            assert(offs[k + 1] <= offs[kk]);
        }
    }
}

/// Every non-continuation position appears in the offset list.
pub proof fn lemma_offs_mem(s: Seq<u8>, i: int, p: int)
    requires
        0 <= i <= p <= s.len(),
        p == s.len() || !is_continuation_byte(s[p]),
    ensures
        offs_list(s, i).contains(p),
    decreases p - i,
{
    if i >= s.len() {
        assert(offs_list(s, i)[0] == s.len() as int);
    } else if p == i {
        assert(offs_list(s, i)[0] == i);
    } else {
        lemma_offs_mem(s, i + 1, p);
        let tail = offs_list(s, i + 1);
        let k = choose|k: int| 0 <= k < tail.len() && tail[k] == p;
        if !is_continuation_byte(s[i]) {
            assert(offs_list(s, i) == seq![i] + tail);
            assert(offs_list(s, i)[k + 1] == p);
        } else {
            assert(offs_list(s, i) == tail);
        }
    }
}

impl Jieba {
    /// Computes the route of one block from its DAG: entry `i` holds, for
    /// each character start, the best step's score and end.
    #[verifier::rlimit(100)]
    pub(crate) fn calc(&self, block: &Vec<u8>, d: &Vec<Vec<usize>>) -> (route: Vec<(i128, usize)>)
        requires
            valid_utf8(block@),
            d@.len() == block@.len(),
            forall|i: int|
                0 <= i < d@.len() ==> ends_view(#[trigger] d@[i]@) == self.spec_dag_ends(
                    block@,
                    i,
                ),
        ensures
            route@.len() == block@.len() + 1,
            forall|i: int|
                0 <= i <= block@.len() && (i == block@.len() || is_char_boundary(block@, i))
                    ==> (#[trigger] route@[i]).0 == self.spec_route(block@, i).0 && route@[
                i].1 as int == self.spec_route(block@, i).1,
    {
        broadcast use vstd::utf8::group_utf8_lib;

        let n = block.len();
        let nrec = self.records.len();
        proof {
            use_type_invariant(self);
            crate::jieba::lemma_recs(*self);
            crate::hmm::lemma_offs_list_len(block@, 0);
        }
        let ghost offsg = offs_list(block@, 0);
        // the character starts, ascending, with the block end last
        let mut offs: Vec<usize> = Vec::new();
        let mut p: usize = 0;
        while p < n
            invariant
                valid_utf8(block@),
                n == block@.len(),
                0 <= p <= n,
                p < n ==> !is_continuation_byte(block@[p as int]),
                offsg == offs_list(block@, 0),
                offsg == offs@.map_values(|x: usize| x as int) + offs_list(block@, p as int),
            decreases n - p,
        {
            proof {
                vstd::utf8::is_char_boundary_iff_not_is_continuation_byte(block@, p as int);
                assert(is_char_boundary(block@, p as int));
            }
            offs.push(p);
            let q = next_boundary(block, p);
            proof {
                crate::text::lemma_next_boundary(block@, p as int);
                if q < n {
                    assert(!is_continuation_byte(block@[q as int]));
                }
                crate::hmm::lemma_offs_list_step(block@, p as int, q as int);
                let m0 = offs@.drop_last().map_values(|x: usize| x as int);
                assert(offs@.map_values(|x: usize| x as int) =~= m0.push(p as int));
                assert(m0 + (seq![p as int] + offs_list(block@, q as int)) =~= m0.push(
                    p as int,
                ) + offs_list(block@, q as int));
            }
            p = q;
        }
        offs.push(n);
        proof {
            let m0 = offs@.drop_last().map_values(|x: usize| x as int);
            assert(offs@.map_values(|x: usize| x as int) =~= m0.push(n as int));
            assert(offs_list(block@, n as int) == seq![n as int]);
            assert(m0 + seq![n as int] =~= m0.push(n as int));
            assert(offsg == offs@.map_values(|x: usize| x as int));
            crate::hmm::lemma_offs_list_len(block@, 0);
            assert forall|k1: int, k2: int|
                0 <= k1 < k2 < offs@.len() implies #[trigger] offs@[k1] < #[trigger] offs@[
            k2] by {
                assert(offsg[k1] < offsg[k2]);
            }
            assert forall|k: int| 0 <= k < offs@.len() implies #[trigger] offs@[k] <= n by {
                if k < offs@.len() - 1 {
                    assert(offsg[k] < offsg[offs@.len() - 1]);
                }
            }
        }
        let c = offs.len() - 1;
        let mut route: Vec<(i128, usize)> = Vec::new();
        while route.len() <= n
            invariant
                route@.len() <= n + 1,
                forall|i: int|
                    0 <= i < route@.len() ==> (#[trigger] route@[i]).0 == 0 && route@[i].1 == n,
            decreases n + 1 - route@.len(),
        {
            route.push((0, n));
        }
        proof {
            assert(self.spec_route(block@, n as int) == (0int, n as int));
        }
        let mut u: usize = c;
        while u > 0
            invariant
                0 <= u <= c,
                n == block@.len(),
                valid_utf8(block@),
                nrec == self.recs().len(),
                self.wf(),
                d@.len() == n,
                forall|i: int|
                    0 <= i < d@.len() ==> ends_view(#[trigger] d@[i]@) == self.spec_dag_ends(
                        block@,
                        i,
                    ),
                offsg == offs_list(block@, 0),
                offsg == offs@.map_values(|x: usize| x as int),
                offs@.len() == c + 1,
                offs@[c as int] == n,
                self.recs() == crate::dict::recs_view(self.records@),
                self.spec_total() == self.total,
                forall|k1: int, k2: int|
                    0 <= k1 < k2 < offs@.len() ==> #[trigger] offs@[k1] < #[trigger] offs@[k2],
                forall|k: int| 0 <= k < offs@.len() ==> #[trigger] offs@[k] <= n,
                route@.len() == n + 1,
                forall|k: int|
                    u <= k <= c ==> (#[trigger] route@[offs@[k] as int]).0 == self.spec_route(
                        block@,
                        offs@[k] as int,
                    ).0 && route@[offs@[k] as int].1 as int == self.spec_route(
                        block@,
                        offs@[k] as int,
                    ).1,
            decreases u,
        {
            u = u - 1;
            let i = offs[u];
            proof {
                crate::hmm::lemma_offs_list_len(block@, 0);
                assert(offsg[u as int] < offsg[c as int]);
                assert(i < n);
                assert(!is_continuation_byte(block@[i as int]));
                vstd::utf8::is_char_boundary_iff_not_is_continuation_byte(block@, i as int);
                assert(is_char_boundary(block@, i as int));
            }
            let bin_len = d[i].len();
            if bin_len == 0 {
                // no dictionary step: one character with frequency 1
                let nb = next_boundary(block, i);
                proof {
                    crate::text::lemma_next_boundary(block@, i as int);
                    lemma_offs_adjacent(block@, u as int);
                    assert(offsg[u + 1] == nb as int);
                    assert(route@[nb as int].0 == self.spec_route(block@, nb as int).0);
                    lemma_route_bound(*self, block@, nb as int);
                    crate::score::lemma_score_bound(1, self.spec_total());
                    lemma_dag_ends_none(*self, block@, i as int);
                }
                let sc = step_score(1, self.total);
                let prev = route[nb];
                let val: i128 = (sc as i128) + prev.0;
                route[i] = (val, nb);
                proof {
                    assert(self.scan_best(block@, i as int, n as int) is None);
                    assert(self.spec_route(block@, i as int) == (
                        spec_score(1, self.spec_total()) + self.spec_route(block@, nb as int).0,
                        nb as int,
                    ));
                }
            } else {
                let ghost ends = self.spec_dag_ends(block@, i as int);
                proof {
                    crate::dag::lemma_dag_ends_upto(*self, block@, i as int, n as int);
                }
                let mut best_val: i128 = 0;
                let mut best_end: usize = 0;
                let mut j: usize = 0;
                while j < bin_len
                    invariant
                        n == block@.len(),
                        valid_utf8(block@),
                        nrec == self.recs().len(),
                        self.wf(),
                        d@.len() == n,
                        0 <= (i as int) < n,
                        is_char_boundary(block@, i as int),
                        bin_len == d@[i as int]@.len(),
                        ends == self.spec_dag_ends(block@, i as int),
                        ends_view(d@[i as int]@) == ends,
                        forall|k1: int, k2: int|
                            0 <= k1 < k2 < ends.len() ==> #[trigger] ends[k1] < #[trigger] ends[k2],
                        forall|k: int|
                            0 <= k < ends.len() ==> i < #[trigger] ends[k] <= n,
                        forall|x: int|
                            ends.contains(x) <==> (i < x <= n && self.has_word(
                                block@.subrange(i as int, x),
                            )),
                        offsg == offs_list(block@, 0),
                        offsg == offs@.map_values(|x: usize| x as int),
                        offs@.len() == c + 1,
                        offs@[c as int] == n,
                        offs@[u as int] == i,
                        u <= c,
                        self.recs() == crate::dict::recs_view(self.records@),
                        self.spec_total() == self.total,
                        forall|k1: int, k2: int|
                            0 <= k1 < k2 < offs@.len() ==> #[trigger] offs@[k1] < #[trigger] offs@[
                            k2],
                        forall|k: int| 0 <= k < offs@.len() ==> #[trigger] offs@[k] <= n,
                        route@.len() == n + 1,
                        forall|k: int|
                            u < k <= c ==> (#[trigger] route@[offs@[k] as int]).0
                                == self.spec_route(block@, offs@[k] as int).0 && route@[offs@[
                            k] as int].1 as int == self.spec_route(block@, offs@[k] as int).1,
                        0 <= j <= bin_len,
                        j > 0 ==> Some((best_val as int, best_end as int)) == self.scan_best(
                            block@,
                            i as int,
                            ends[j - 1],
                        ),
                        j > 0 ==> ends.contains(best_end as int),
                    decreases bin_len - j,
                {
                    let e = d[i][j];
                    proof {
                        assert(ends[j as int] == e as int);
                        assert(ends.contains(e as int));
                        assert(self.has_word(block@.subrange(i as int, e as int)));
                    }
                    let wfrag = crate::text::copy_range(block, i, e);
                    let fid = self.match_id(&wfrag);
                    let freq: u64 = match fid {
                        Some(id) => self.records[id].freq,
                        None => 1,
                    };
                    proof {
                        assert(freq == self.spec_freq(block@.subrange(i as int, e as int)));
                        // a dictionary word read from a boundary ends on one
                        let wi = choose|wi: int|
                            0 <= wi < self.words().len() && self.words()[wi] == block@.subrange(
                                i as int,
                                e as int,
                            );
                        assert(valid_utf8(block@.subrange(i as int, e as int)));
                        lemma_prefix_boundary(block@, i as int, e as int);
                        if (e as int) < n as int {
                            vstd::utf8::is_char_boundary_iff_not_is_continuation_byte(
                                block@,
                                e as int,
                            );
                        }
                        lemma_offs_mem(block@, 0, e as int);
                        let kk = choose|kk: int|
                            0 <= kk < offsg.len() && offsg[kk] == e as int;
                        assert(u < kk <= c) by {
                            if kk <= u as int {
                                assert(offsg[kk] <= offsg[u as int]);
                            }
                            if kk > c {
                                assert(false);
                            }
                        }
                        assert(route@[e as int].0 == self.spec_route(block@, e as int).0);
                        assert(route@[e as int].1 as int == self.spec_route(
                            block@,
                            e as int,
                        ).1);
                        lemma_route_bound(*self, block@, e as int);
                        crate::score::lemma_score_bound(freq, self.spec_total());
                    }
                    let sc = step_score(freq, self.total);
                    let prev = route[e];
                    let cand: i128 = (sc as i128) + prev.0;
                    let ghost eprev: int = if j > 0 {
                        ends[j - 1]
                    } else {
                        i as int
                    };
                    let ghost rest = self.scan_best(block@, i as int, e - 1);
                    proof {
                        assert forall|x: int| eprev < x <= e - 1 implies !self.has_word(
                            block@.subrange(i as int, x),
                        ) by {
                            if self.has_word(block@.subrange(i as int, x)) {
                                assert(ends.contains(x));
                                let kx = choose|kx: int|
                                    0 <= kx < ends.len() && ends[kx] == x;
                                if kx <= j - 1 {
                                    assert(ends[kx] <= eprev);
                                }
                                if kx >= j {
                                    assert(ends[j as int] <= ends[kx]);
                                }
                            }
                        }
                        lemma_scan_skip(*self, block@, i as int, eprev, e - 1);
                        if j == 0 {
                            assert(self.scan_best(block@, i as int, i as int) is None);
                            assert(rest is None);
                        } else {
                            assert(rest == Some((best_val as int, best_end as int)));
                        }
                        assert(cand as int == self.edge_score(block@, i as int, e as int)
                            + self.spec_route(block@, e as int).0);
                    }
                    if j == 0 || cand >= best_val {
                        best_val = cand;
                        best_end = e;
                    }
                    proof {
                        assert(Some((best_val as int, best_end as int)) == self.scan_best(
                            block@,
                            i as int,
                            e as int,
                        ));
                    }
                    j = j + 1;
                }
                proof {
                    let laste = ends[bin_len - 1];
                    assert forall|x: int| laste < x <= n implies !self.has_word(
                        block@.subrange(i as int, x),
                    ) by {
                        if self.has_word(block@.subrange(i as int, x)) {
                            assert(ends.contains(x));
                            let kx = choose|kx: int| 0 <= kx < ends.len() && ends[kx] == x;
                            assert(ends[kx] <= laste);
                        }
                    }
                    lemma_scan_skip(*self, block@, i as int, laste, n as int);
                    assert(self.scan_best(block@, i as int, n as int) == Some((
                        best_val as int,
                        best_end as int,
                    )));
                    assert(self.spec_route(block@, i as int) == (
                        best_val as int,
                        best_end as int,
                    ));
                }
                route[i] = (best_val, best_end);
            }
            proof {
                assert forall|k: int|
                    u <= k <= c implies (#[trigger] route@[offs@[k] as int]).0
                    == self.spec_route(block@, offs@[k] as int).0 && route@[offs@[
                k] as int].1 as int == self.spec_route(block@, offs@[k] as int).1 by {
                    if k > u as int {
                        assert(offs@[k] > offs@[u as int]);
                    }
                }
            }
        }
        proof {
            assert forall|i: int|
                0 <= i <= block@.len() && (i == block@.len() || is_char_boundary(block@, i))
                implies (#[trigger] route@[i]).0 == self.spec_route(block@, i).0 && route@[
            i].1 as int == self.spec_route(block@, i).1 by {
                if i < block@.len() {
                    assert(!is_continuation_byte(block@[i]));
                }
                lemma_offs_mem(block@, 0, i);
                let k = choose|k: int| 0 <= k < offsg.len() && offsg[k] == i;
                assert(offs@[k] as int == i);
            }
        }
        route
    }
}

/// An empty DAG bin means no dictionary step starts there.
proof fn lemma_dag_ends_none(j: Jieba, b: Seq<u8>, i: int)
    requires
        j.spec_dag_ends(b, i).len() == 0,
        0 <= i <= b.len(),
    ensures
        j.scan_best(b, i, b.len() as int) is None,
{
    crate::dag::lemma_dag_ends_upto(j, b, i, b.len() as int);
    assert forall|x: int| i < x <= b.len() implies !j.has_word(b.subrange(i, x)) by {
        if j.has_word(b.subrange(i, x)) {
            assert(j.spec_dag_ends(b, i).contains(x));
        }
    }
    lemma_scan_skip_pub(j, b, i, i, b.len() as int);
}

proof fn lemma_scan_skip_pub(j: Jieba, b: Seq<u8>, i: int, e1: int, e2: int)
    requires
        0 <= i <= e1 <= e2 <= b.len(),
        forall|x: int| e1 < x <= e2 ==> !j.has_word(b.subrange(i, x)),
    ensures
        j.scan_best(b, i, e2) == j.scan_best(b, i, e1),
{
    lemma_scan_skip(j, b, i, e1, e2);
}

} // verus!
