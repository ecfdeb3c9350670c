//! The per-block DAG of candidate word spans.
//!
//! For each byte position of a block, the DAG records, in ascending order,
//! every byte position at which a dictionary word starting there ends. It
//! is built from one overlapping scan of the block.

use crate::jieba::Jieba;
use crate::matcher::ac_overlapping;
use crate::matcher::ac_words;
use crate::matcher::find_overlapping;
use crate::matcher::occurs_at;
use vstd::prelude::*;

verus! {

/// A bin of byte ends, as mathematical integers.
pub open spec fn ends_view(v: Seq<usize>) -> Seq<int> {
    v.map_values(|x: usize| x as int)
}

impl Jieba {
    /// Some dictionary word equals `w`.
    pub open spec fn has_word(self, w: Seq<u8>) -> bool {
        exists|i: int| 0 <= i < self.words().len() && self.words()[i] == w
    }

    /// The word ends in `(i, e]` for a word starting at `i`, ascending.
    pub open spec fn spec_dag_ends_upto(self, b: Seq<u8>, i: int, e: int) -> Seq<int>
        decreases e - i,
    {
        if e <= i {
            Seq::empty()
        } else if self.has_word(b.subrange(i, e)) {
            self.spec_dag_ends_upto(b, i, e - 1) + seq![e]
        } else {
            self.spec_dag_ends_upto(b, i, e - 1)
        }
    }

    /// All word ends for a word starting at byte `i` of the block.
    pub open spec fn spec_dag_ends(self, b: Seq<u8>, i: int) -> Seq<int> {
        self.spec_dag_ends_upto(b, i, b.len() as int)
    }
}

pub proof fn lemma_dag_ends_upto(j: Jieba, b: Seq<u8>, i: int, e: int)
    ensures
        forall|k1: int, k2: int|
            0 <= k1 < k2 < j.spec_dag_ends_upto(b, i, e).len() ==> #[trigger] j.spec_dag_ends_upto(
                b,
                i,
                e,
            )[k1] < #[trigger] j.spec_dag_ends_upto(b, i, e)[k2],
        forall|k: int|
            0 <= k < j.spec_dag_ends_upto(b, i, e).len() ==> i < #[trigger] j.spec_dag_ends_upto(
                b,
                i,
                e,
            )[k] <= e,
        forall|x: int|
            j.spec_dag_ends_upto(b, i, e).contains(x) <==> (i < x <= e && j.has_word(
                b.subrange(i, x),
            )),
    decreases e - i,
{
    if e <= i {
        assert forall|x: int| j.spec_dag_ends_upto(b, i, e).contains(x) implies false by {
            let k = choose|k: int|
                0 <= k < j.spec_dag_ends_upto(b, i, e).len() && j.spec_dag_ends_upto(b, i, e)[k]
                    == x;
        }
    } else {
        lemma_dag_ends_upto(j, b, i, e - 1);
        let pre = j.spec_dag_ends_upto(b, i, e - 1);
        let cur = j.spec_dag_ends_upto(b, i, e);
        if j.has_word(b.subrange(i, e)) {
            assert(cur == pre + seq![e]);
            assert forall|x: int| cur.contains(x) implies (i < x <= e && j.has_word(
                b.subrange(i, x),
            )) by {
                let k = choose|k: int| 0 <= k < cur.len() && cur[k] == x;
                if k < pre.len() {
                    assert(pre.contains(x));
                } else {
                    assert(x == e);
                }
            }
            assert forall|x: int| (i < x <= e && j.has_word(b.subrange(i, x))) implies
                cur.contains(x) by {
                if x == e {
                    assert(cur[cur.len() - 1] == e);
                } else {
                    assert(pre.contains(x));
                    let k = choose|k: int| 0 <= k < pre.len() && pre[k] == x;
                    assert(cur[k] == x);
                }
            }
        } else {
            assert(cur == pre);
            assert forall|x: int| cur.contains(x) implies (i < x <= e && j.has_word(
                b.subrange(i, x),
            )) by {}
            assert forall|x: int| (i < x <= e && j.has_word(b.subrange(i, x))) implies
                cur.contains(x) by {
                if x == e {
                } else {
                    assert(pre.contains(x));
                }
            }
        }
    }
}

/// Two strictly increasing integer sequences with the same members are the
/// same sequence.
pub proof fn lemma_strictly_sorted_eq(u: Seq<int>, v: Seq<int>)
    requires
        forall|k1: int, k2: int| 0 <= k1 < k2 < u.len() ==> #[trigger] u[k1] < #[trigger] u[k2],
        forall|k1: int, k2: int| 0 <= k1 < k2 < v.len() ==> #[trigger] v[k1] < #[trigger] v[k2],
        forall|x: int| u.contains(x) <==> v.contains(x),
    ensures
        u == v,
    decreases u.len(),
{
    if u.len() == 0 {
        if v.len() > 0 {
            assert(v.contains(v[0]));
            assert(u.contains(v[0]));
        }
        assert(u =~= v);
    } else {
        assert(u.contains(u[0]));
        assert(v.contains(u[0]));
        if v.len() == 0 {
            assert(!v.contains(u[0]));
        }
        assert(v.contains(v[0]));
        assert(u.contains(v[0]));
        let kv = choose|k: int| 0 <= k < v.len() && v[k] == u[0];
        let ku = choose|k: int| 0 <= k < u.len() && u[k] == v[0];
        assert(v[0] <= v[kv]);
        assert(u[0] <= u[ku]);
        assert(u[0] == v[0]);
        let ut = u.drop_first();
        let vt = v.drop_first();
        assert forall|x: int| ut.contains(x) <==> vt.contains(x) by {
            assert(ut.contains(x) <==> (u.contains(x) && x > u[0])) by {
                if ut.contains(x) {
                    let k = choose|k: int| 0 <= k < ut.len() && ut[k] == x;
                    assert(u[k + 1] == x);
                    assert(u[0] < u[k + 1]);
                }
                if u.contains(x) && x > u[0] {
                    let k = choose|k: int| 0 <= k < u.len() && u[k] == x;
                    assert(k > 0);
                    assert(ut[k - 1] == x);
                }
            }
            assert(vt.contains(x) <==> (v.contains(x) && x > v[0])) by {
                if vt.contains(x) {
                    let k = choose|k: int| 0 <= k < vt.len() && vt[k] == x;
                    assert(v[k + 1] == x);
                    assert(v[0] < v[k + 1]);
                }
                if v.contains(x) && x > v[0] {
                    let k = choose|k: int| 0 <= k < v.len() && v[k] == x;
                    assert(k > 0);
                    assert(vt[k - 1] == x);
                }
            }
        }
        lemma_strictly_sorted_eq(ut, vt);
        assert(u.len() == v.len());
        assert forall|i: int| 0 <= i < u.len() implies u[i] == v[i] by {
            if i > 0 {
                assert(u[i] == ut[i - 1]);
                assert(v[i] == vt[i - 1]);
            }
        }
        assert(u =~= v);
    }
}

impl Jieba {
    /// Builds the DAG of one block: for every byte position, the ascending
    /// ends of the dictionary words that start there.
    #[verifier::rlimit(100)]
    pub fn dag(&self, block: &Vec<u8>) -> (d: Vec<Vec<usize>>)
        ensures
            d@.len() == block@.len(),
            forall|i: int|
                0 <= i < d@.len() ==> ends_view(#[trigger] d@[i]@) == self.spec_dag_ends(
                    block@,
                    i,
                ),
    {
        let n = block.len();
        let nrec = self.records.len();
        proof {
            use_type_invariant(self);
            crate::jieba::lemma_recs(*self);
            assert(self.words().len() == nrec);
        }
        let ms = find_overlapping(&self.ac_std, block);
        let ghost words = self.words();
        let mut d: Vec<Vec<usize>> = Vec::new();
        while d.len() < n
            invariant
                d@.len() <= n,
                forall|i: int| 0 <= i < d@.len() ==> (#[trigger] d@[i])@.len() == 0,
            decreases n - d@.len(),
        {
            d.push(Vec::new());
        }
        let mut m: usize = 0;
        while m < ms.len()
            invariant
                0 <= m <= ms@.len(),
                d@.len() == n == block@.len(),
                words == self.words(),
                words.len() == nrec,
                forall|k: int|
                    0 <= k < ms@.len() ==> occurs_at(words, block@, #[trigger] ms@[k]),
                forall|k1: int, k2: int|
                    0 <= k1 < k2 < ms@.len() ==> (#[trigger] ms@[k1]).1 <= (#[trigger] ms@[
                    k2]).1,
                forall|mt: (usize, usize, usize)|
                    occurs_at(words, block@, mt) ==> ms@.contains(mt),
                forall|i: int| 0 <= i < words.len() ==> (#[trigger] words[i]).len() > 0,
                forall|i: int, k: int|
                    0 <= i < n && 0 <= k < d@[i]@.len() ==> i < #[trigger] d@[i]@[k] <= n
                        && self.has_word(block@.subrange(i, d@[i]@[k] as int)),
                forall|i: int, k: int|
                    0 <= i < n && 0 <= k < d@[i]@.len() ==> m > 0 && #[trigger] d@[i]@[k]
                        <= ms@[m - 1].1,
                forall|i: int, k1: int, k2: int|
                    0 <= i < n && 0 <= k1 < k2 < d@[i]@.len() ==> #[trigger] d@[i]@[k1]
                        < #[trigger] d@[i]@[k2],
                forall|mm: int|
                    0 <= mm < m ==> d@[(#[trigger] ms@[mm]).0 as int]@.contains(ms@[mm].1),
            decreases ms@.len() - m,
        {
            let (s, e, id) = ms[m];
            proof {
                assert(occurs_at(words, block@, ms@[m as int]));
                assert(words[id as int].len() > 0);
                assert(block@.subrange(s as int, e as int).len() > 0);
                assert(s < e <= n);
                assert(words[id as int] == block@.subrange(s as int, e as int));
                assert(self.has_word(block@.subrange(s as int, e as int)));
            }
            let bin_len = d[s].len();
            let ghost dold = d@;
            if bin_len == 0 || d[s][bin_len - 1] < e {
                d[s].push(e);
                proof {
                    assert(d@[s as int]@ =~= dold[s as int]@.push(e));
                    assert(forall|i: int| 0 <= i < n && i != s as int ==> d@[i] == dold[i]);
                    assert forall|mm: int|
                        0 <= mm < m + 1 implies d@[(#[trigger] ms@[mm]).0 as int]@.contains(
                        ms@[mm].1,
                    ) by {
                        if mm < m {
                            let bi = ms@[mm].0 as int;
                            assert(dold[bi]@.contains(ms@[mm].1));
                            let k = choose|k: int|
                                0 <= k < dold[bi]@.len() && dold[bi]@[k] == ms@[mm].1;
                            assert(d@[bi]@[k] == ms@[mm].1);
                        } else {
                            assert(d@[s as int]@[d@[s as int]@.len() - 1] == e);
                        }
                    }
                }
            } else {
                proof {
                    // the bin's last entry is this very end: earlier matches
                    // never end later
                    let lk = bin_len - 1;
                    let last = dold[s as int]@[lk];
                    assert(last <= ms@[m - 1].1);
                    assert(ms@[m - 1].1 <= ms@[m as int].1);
                    assert(last == e);
                    assert forall|mm: int|
                        0 <= mm < m + 1 implies d@[(#[trigger] ms@[mm]).0 as int]@.contains(
                        ms@[mm].1,
                    ) by {
                        if mm == m {
                            assert(d@[s as int]@[lk] == e);
                        }
                    }
                }
            }
            m = m + 1;
        }
        proof {
            assert forall|i: int|
                0 <= i < d@.len() implies ends_view(#[trigger] d@[i]@) == self.spec_dag_ends(
                block@,
                i,
            ) by {
                let u = ends_view(d@[i]@);
                let v = self.spec_dag_ends(block@, i);
                lemma_dag_ends_upto(*self, block@, i, block@.len() as int);
                assert forall|x: int| u.contains(x) <==> v.contains(x) by {
                    if u.contains(x) {
                        let k = choose|k: int| 0 <= k < u.len() && u[k] == x;
                        assert(d@[i]@[k] as int == x);
                        assert(i < x <= n && self.has_word(block@.subrange(i, x)));
                        assert(v.contains(x));
                    }
                    if v.contains(x) {
                        assert(i < x <= block@.len() && self.has_word(block@.subrange(i, x)));
                        let wi = choose|wi: int|
                            0 <= wi < words.len() && words[wi] == block@.subrange(i, x);
                        let mt = (i as usize, x as usize, wi as usize);
                        assert(occurs_at(words, block@, mt));
                        assert(ms@.contains(mt));
                        let mm = choose|mm: int| 0 <= mm < ms@.len() && ms@[mm] == mt;
                        assert(d@[i]@.contains(mt.1));
                        let k = choose|k: int| 0 <= k < d@[i]@.len() && d@[i]@[k] == mt.1;
                        assert(u[k] == x);
                        assert(u.contains(x));
                    }
                }
                assert forall|k1: int, k2: int|
                    0 <= k1 < k2 < u.len() implies #[trigger] u[k1] < #[trigger] u[k2] by {
                    assert(d@[i]@[k1] < d@[i]@[k2]);
                }
                lemma_strictly_sorted_eq(u, v);
            }
        }
        d
    }
}

} // verus!
