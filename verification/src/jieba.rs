//! The dictionary-backed segmenter and its exact-match lookup.

use crate::dict::spec_bom_skip;
use crate::dict::spec_parse;
use crate::dict::DictErrorReason;
use crate::dict::DictionaryError;
use crate::dict::recs_view;
use crate::dict::Record;
use crate::matcher::ac_builds_leftmost;
use crate::matcher::ac_builds_overlapping;
use crate::matcher::ac_leftmost;
use crate::matcher::ac_overlapping;
use crate::matcher::ac_words;
use crate::matcher::build_leftmost_longest;
use crate::matcher::build_overlapping;
use crate::matcher::find_leftmost;
use crate::matcher::occurs_at;
use crate::text::copy_range;
use aho_corasick::AhoCorasick;
use vstd::prelude::*;
use vstd::string::StringSliceAdditionalSpecFns;
use vstd::string::StrSliceExecFns;
use vstd::utf8::*;

verus! {

/// The word of each record.
pub open spec fn words_of(rs: Seq<(Seq<u8>, u64, Seq<u8>)>) -> Seq<Seq<u8>> {
    rs.map_values(|t: (Seq<u8>, u64, Seq<u8>)| t.0)
}

/// The sum of the record frequencies.
pub open spec fn sum_freq(rs: Seq<(Seq<u8>, u64, Seq<u8>)>) -> int
    decreases rs.len(),
{
    if rs.len() == 0 {
        0
    } else {
        sum_freq(rs.drop_last()) + rs.last().1
    }
}

/// The segmenter: dictionary records, two pattern automata over the word
/// list, and the cached frequency total.
#[derive(Debug)]
pub struct Jieba {
    pub(crate) records: Vec<Record>,
    pub(crate) ac_std: AhoCorasick,
    pub(crate) ac_ll: AhoCorasick,
    pub(crate) total: u64,
}

impl Jieba {
    /// The dictionary's records as `(word, frequency, tag)` triples.
    pub closed spec fn recs(self) -> Seq<(Seq<u8>, u64, Seq<u8>)> {
        recs_view(self.records@)
    }

    /// The dictionary's word list.
    pub open spec fn words(self) -> Seq<Seq<u8>> {
        words_of(self.recs())
    }

    /// The cached sum of all frequencies.
    pub closed spec fn spec_total(self) -> u64 {
        self.total
    }

    #[verifier::type_invariant]
    pub(crate) open spec fn wf(self) -> bool {
        &&& ac_words(self.ac_std) == self.words()
        &&& ac_overlapping(self.ac_std)
        &&& ac_words(self.ac_ll) == self.words()
        &&& !ac_overlapping(self.ac_ll)
        &&& self.total as int == sum_freq(self.recs())
        &&& forall|i: int|
            0 <= i < self.recs().len() ==> (#[trigger] self.recs()[i]).0.len() > 0 && valid_utf8(
                self.recs()[i].0,
            ) && valid_utf8(self.recs()[i].2)
    }

    /// Builds a segmenter from lexicon text: lines of whitespace-separated
    /// `word [freq [tag]]` fields. Fails on a malformed frequency field, on
    /// a frequency total past 64 bits, or when the automata cannot be built
    /// over the word list.
    pub fn new(dict: &str) -> (r: Result<Jieba, DictionaryError>)
        ensures
            ({
                let parsed = spec_parse(
                    encode_utf8(dict@),
                    spec_bom_skip(encode_utf8(dict@)),
                    1,
                );
                match r {
                    Ok(j) => parsed == Ok::<_, int>(j.recs()) && j.spec_total() as int
                        == sum_freq(j.recs()),
                    Err(e) => match e.reason {
                        DictErrorReason::InvalidFrequency => parsed == Err::<
                            Seq<(Seq<u8>, u64, Seq<u8>)>,
                            int,
                        >(e.line_number as int),
                        DictErrorReason::TotalOverflow => parsed matches Ok(rs) && sum_freq(rs)
                            > u64::MAX,
                        DictErrorReason::AutomatonBuild => parsed matches Ok(rs) && sum_freq(
                            rs,
                        ) <= u64::MAX && (!ac_builds_overlapping(words_of(rs))
                            || !ac_builds_leftmost(words_of(rs))),
                    },
                }
            }),
    {
        broadcast use vstd::utf8::group_utf8_lib;

        let bytes = dict.as_bytes_vec();
        let records = match crate::dict::parse_records(&bytes) {
            Ok(rs) => rs,
            Err(e) => {
                return Err(e);
            },
        };
        let ghost rv = recs_view(records@);
        proof {
            assert(bytes@ == encode_utf8(dict@));
            assert(spec_parse(bytes@, spec_bom_skip(bytes@), 1) == Ok::<_, int>(rv));
        }
        // total frequency, refused when it cannot be cached exactly
        let mut total: u64 = 0;
        let mut k: usize = 0;
        while k < records.len()
            invariant
                0 <= k <= records@.len(),
                rv == recs_view(records@),
                total as int == sum_freq(rv.subrange(0, k as int)),
                spec_parse(encode_utf8(dict@), spec_bom_skip(encode_utf8(dict@)), 1) == Ok::<
                    _,
                    int,
                >(rv),
            decreases records@.len() - k,
        {
            let f = records[k].freq;
            proof {
                assert(rv[k as int] == records@[k as int]@);
                assert(rv.subrange(0, k + 1 as int).drop_last() =~= rv.subrange(0, k as int));
                assert(rv.subrange(0, k + 1 as int).last() == rv[k as int]);
                assert(sum_freq(rv.subrange(0, k + 1 as int)) == total + f);
            }
            if f > u64::MAX - total {
                proof {
                    lemma_sum_freq_mono(rv, k + 1 as int);
                    assert(rv.subrange(0, rv.len() as int) =~= rv);
                    assert(sum_freq(rv) >= total + f);
                    assert(sum_freq(rv) > u64::MAX);
                    assert(spec_parse(encode_utf8(dict@), spec_bom_skip(encode_utf8(dict@)), 1)
                        == Ok::<_, int>(rv));
                }
                return Err(
                    DictionaryError { line_number: 0, reason: DictErrorReason::TotalOverflow },
                );
            }
            total = total + f;
            k = k + 1;
        }
        proof {
            assert(rv.subrange(0, rv.len() as int) =~= rv);
        }
        // the automata share the word list
        let mut patterns: Vec<Vec<u8>> = Vec::new();
        let mut k2: usize = 0;
        while k2 < records.len()
            invariant
                0 <= k2 <= records@.len(),
                rv == recs_view(records@),
                forall|i: int|
                    0 <= i < records@.len() ==> (#[trigger] records@[i]).word@.len() > 0
                        && valid_utf8(records@[i].word@) && valid_utf8(records@[i].tag@),
                patterns.deep_view() == words_of(rv).subrange(
                    0,
                    k2 as int,
                ),
            decreases records@.len() - k2,
        {
            let w = copy_range(&records[k2].word, 0, records[k2].word.len());
            let ghost dv0 = patterns.deep_view();
            patterns.push(w);
            proof {
                let ws = words_of(rv);
                assert(patterns.deep_view() =~~= dv0.push(w@));
                assert(ws.subrange(0, k2 + 1 as int) =~= ws.subrange(0, k2 as int).push(
                    ws[k2 as int],
                ));
                assert(w@ =~= records@[k2 as int].word@);
            }
            k2 = k2 + 1;
        }
        proof {
            let ws = words_of(rv);
            assert(ws.subrange(0, ws.len() as int) =~= ws);
            assert(forall|i: int|
                0 <= i < patterns.deep_view().len() ==> (#[trigger] patterns.deep_view()[
                i]).len() > 0);
        }
        proof {
            assert(patterns.deep_view() == words_of(rv));
            assert(total as int == sum_freq(rv));
        }
        let ac_std = match build_overlapping(&patterns) {
            Some(ac) => ac,
            None => {
                proof {
                    assert(!ac_builds_overlapping(words_of(rv)));
                }
                return Err(
                    DictionaryError { line_number: 0, reason: DictErrorReason::AutomatonBuild },
                );
            },
        };
        let ac_ll = match build_leftmost_longest(&patterns) {
            Some(ac) => ac,
            None => {
                proof {
                    assert(!ac_builds_leftmost(words_of(rv)));
                }
                return Err(
                    DictionaryError { line_number: 0, reason: DictErrorReason::AutomatonBuild },
                );
            },
        };
        let j = Jieba { records, ac_std, ac_ll, total };
        proof {
            assert(j.recs() == rv);
            assert(j.words() =~= patterns.deep_view());
        }
        Ok(j)
    }

    /// The id the leftmost-longest search gives a query: its match must
    /// span to the end of the query.
    pub closed spec fn spec_contains(self, w: Seq<u8>) -> Option<usize> {
        match ac_leftmost(self.ac_ll, w) {
            Some(m) => if m.1 == w.len() {
                Some(m.2)
            } else {
                None
            },
            None => None,
        }
    }

    /// Exact-match lookup over the dictionary bytes.
    pub(crate) fn match_id(&self, w: &Vec<u8>) -> (r: Option<usize>)
        ensures
            r == self.spec_contains(w@),
            r matches Some(id) ==> 0 <= id < self.words().len(),
            (exists|i: int| 0 <= i < self.words().len() && self.words()[i] == w@) ==> (
            r matches Some(id) && self.words()[id as int] == w@),
            r is None ==> forall|i: int|
                0 <= i < self.words().len() ==> #[trigger] self.words()[i] != w@,
    {
        proof {
            use_type_invariant(self);
        }
        let wlen = w.len();
        let nrec = self.records.len();
        proof {
            assert(self.words().len() == nrec);
        }
        let m = find_leftmost(&self.ac_ll, w);
        let r = match m {
            Some((s, e, id)) => {
                if e == w.len() {
                    Some(id)
                } else {
                    None
                }
            },
            None => None,
        };
        proof {
            let ws = self.words();
            if exists|i: int| 0 <= i < ws.len() && ws[i] == w@ {
                let i = choose|i: int| 0 <= i < ws.len() && ws[i] == w@;
                assert(w@.subrange(0, w@.len() as int) =~= w@);
                assert(occurs_at(ws, w@, (0usize, w@.len() as usize, i as usize)));
                let mm = m->Some_0;
                assert(mm.0 == 0 && mm.1 == w@.len());
                assert(ws[mm.2 as int] == w@.subrange(0, w@.len() as int));
            }
            if r is None {
                assert forall|i: int| 0 <= i < ws.len() implies #[trigger] ws[i] != w@ by {
                    if ws[i] == w@ {
                        assert(w@.subrange(0, w@.len() as int) =~= w@);
                        assert(occurs_at(ws, w@, (0usize, w@.len() as usize, i as usize)));
                    }
                }
            }
        }
        r
    }

    /// Exact membership: the id of the dictionary word equal to `word`,
    /// when there is one. A query that merely ends in a dictionary word
    /// reports that word's id, as the leftmost-longest search finds it.
    pub fn contains(&self, word: &str) -> (r: Option<usize>)
        ensures
            r == self.spec_contains(word.spec_bytes()),
            (exists|i: int|
                0 <= i < self.words().len() && self.words()[i] == word.spec_bytes()) ==> (
            r matches Some(id) && self.words()[id as int] == word.spec_bytes()),
            r is None ==> forall|i: int|
                0 <= i < self.words().len() ==> #[trigger] self.words()[i] != word.spec_bytes(),
    {
        let bytes = word.as_bytes_vec();
        self.match_id(&bytes)
    }
}

/// How the record view relates to the stored records; for the crate's own
/// proofs.
pub(crate) proof fn lemma_recs(j: Jieba)
    ensures
        j.recs() == recs_view(j.records@),
        j.spec_total() == j.total,
{
}

pub proof fn lemma_sum_freq_mono(rs: Seq<(Seq<u8>, u64, Seq<u8>)>, k: int)
    requires
        0 <= k <= rs.len(),
    ensures
        sum_freq(rs.subrange(0, k)) <= sum_freq(rs),
    decreases rs.len() - k,
{
    if k < rs.len() {
        lemma_sum_freq_mono(rs, k + 1);
        assert(rs.subrange(0, k + 1).drop_last() =~= rs.subrange(0, k));
        assert(rs.subrange(0, k + 1).last() == rs[k]);
    } else {
        assert(rs.subrange(0, k) =~= rs);
    }
}

} // verus!
