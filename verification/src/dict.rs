//! Dictionary records and lexicon parsing.
//!
//! A lexicon is newline-delimited text. Each line holds whitespace-separated
//! fields `word [freq [tag]]`; blank lines are skipped, a missing frequency
//! defaults to 0 and a missing tag to the empty string. A leading byte-order
//! mark is tolerated. A frequency field that is not a decimal integer fitting
//! an unsigned 64-bit word fails parsing with the line's number.

use vstd::prelude::*;
use vstd::utf8::*;

verus! {

/// One dictionary entry: a word, its frequency, and its part-of-speech tag.
#[derive(Debug, Clone)]
pub struct Record {
    pub word: Vec<u8>,
    pub freq: u64,
    pub tag: Vec<u8>,
}

impl View for Record {
    type V = (Seq<u8>, u64, Seq<u8>);

    open spec fn view(&self) -> (Seq<u8>, u64, Seq<u8>) {
        (self.word@, self.freq, self.tag@)
    }
}

/// Why dictionary construction failed.
#[derive(Clone, Copy, Debug, PartialEq, Eq, Structural)]
pub enum DictErrorReason {
    /// A frequency field is not a decimal integer that fits 64 bits.
    InvalidFrequency,
    /// The frequencies sum past the largest 64-bit value.
    TotalOverflow,
    /// The pattern automata could not be built over the word list.
    AutomatonBuild,
}

/// A malformed lexicon, with the number of the offending line (counted from
/// 1; 0 when no single line is at fault).
#[derive(Clone, Copy, Debug, PartialEq, Eq, Structural)]
pub struct DictionaryError {
    pub line_number: usize,
    pub reason: DictErrorReason,
}

/// Bytes that separate fields and may surround them.
pub open spec fn is_ws(b: u8) -> bool {
    b == 0x09 || b == 0x0A || b == 0x0B || b == 0x0C || b == 0x0D || b == 0x20
}

/// Where parsing starts: past a UTF-8 byte-order mark if one leads.
pub open spec fn spec_bom_skip(s: Seq<u8>) -> int {
    if s.len() >= 3 && s[0] == 0xEF && s[1] == 0xBB && s[2] == 0xBF {
        3
    } else {
        0
    }
}

/// The first newline at or after `i`, or the end of the text.
pub open spec fn spec_next_nl(s: Seq<u8>, i: int) -> int
    decreases s.len() - i,
{
    if i < 0 || i >= s.len() {
        s.len() as int
    } else if s[i] == 0x0A {
        i
    } else {
        spec_next_nl(s, i + 1)
    }
}

pub proof fn lemma_next_nl(s: Seq<u8>, i: int)
    requires
        0 <= i <= s.len(),
    ensures
        i <= spec_next_nl(s, i) <= s.len(),
        spec_next_nl(s, i) < s.len() ==> s[spec_next_nl(s, i)] == 0x0A,
        forall|k: int| i <= k < spec_next_nl(s, i) ==> s[k] != 0x0A,
    decreases s.len() - i,
{
    if i < s.len() && s[i] != 0x0A {
        lemma_next_nl(s, i + 1);
    }
}

/// The first non-whitespace position in `[a, b)`, or `b`.
pub open spec fn spec_skip_ws(s: Seq<u8>, a: int, b: int) -> int
    decreases b - a,
{
    if a < 0 || a >= b || b > s.len() {
        b
    } else if is_ws(s[a]) {
        spec_skip_ws(s, a + 1, b)
    } else {
        a
    }
}

pub proof fn lemma_skip_ws(s: Seq<u8>, a: int, b: int)
    requires
        0 <= a <= b <= s.len(),
    ensures
        a <= spec_skip_ws(s, a, b) <= b,
        spec_skip_ws(s, a, b) < b ==> !is_ws(s[spec_skip_ws(s, a, b)]),
        forall|k: int| a <= k < spec_skip_ws(s, a, b) ==> is_ws(s[k]),
    decreases b - a,
{
    if a < b && is_ws(s[a]) {
        lemma_skip_ws(s, a + 1, b);
    }
}

/// The first whitespace position at or after `a` in `[a, b)`, or `b`.
pub open spec fn spec_field_end(s: Seq<u8>, a: int, b: int) -> int
    decreases b - a,
{
    if a < 0 || a >= b || b > s.len() {
        b
    } else if !is_ws(s[a]) {
        spec_field_end(s, a + 1, b)
    } else {
        a
    }
}

pub proof fn lemma_field_end(s: Seq<u8>, a: int, b: int)
    requires
        0 <= a <= b <= s.len(),
    ensures
        a <= spec_field_end(s, a, b) <= b,
        spec_field_end(s, a, b) < b ==> is_ws(s[spec_field_end(s, a, b)]),
        forall|k: int| a <= k < spec_field_end(s, a, b) ==> !is_ws(s[k]),
    decreases b - a,
{
    if a < b && !is_ws(s[a]) {
        lemma_field_end(s, a + 1, b);
    }
}

/// The whitespace-separated fields of `s[a, b)`, as index pairs.
pub open spec fn spec_fields(s: Seq<u8>, a: int, b: int) -> Seq<(int, int)>
    decreases b - a
        when 0 <= a <= b <= s.len()
{
    // the clamps only guard termination; the scan lemmas show they never bind
    let st0 = spec_skip_ws(s, a, b);
    let st = if st0 < a {
        a
    } else {
        st0
    };
    if st >= b {
        Seq::empty()
    } else {
        let e0 = spec_field_end(s, st + 1, b);
        let e = if e0 < st + 1 {
            st + 1
        } else if e0 > b {
            b
        } else {
            e0
        };
        seq![(st, e)] + spec_fields(s, e, b)
    }
}

pub proof fn lemma_fields_skip(s: Seq<u8>, a: int, b: int)
    requires
        0 <= a <= b <= s.len(),
    ensures
        spec_fields(s, a, b).len() == 0 <==> spec_skip_ws(s, a, b) == b,
{
    lemma_skip_ws(s, a, b);
}

/// Digit-string value, most significant digit first.
pub open spec fn spec_digits_val(w: Seq<u8>) -> int
    decreases w.len(),
{
    if w.len() == 0 {
        0
    } else {
        spec_digits_val(w.drop_last()) * 10 + (w.last() - 0x30)
    }
}

pub open spec fn spec_all_digits(w: Seq<u8>) -> bool {
    forall|k: int| 0 <= k < w.len() ==> 0x30 <= #[trigger] w[k] <= 0x39
}

/// The frequency a field denotes, if it is a well-formed decimal integer.
pub open spec fn spec_parse_u64(w: Seq<u8>) -> Option<u64> {
    if w.len() > 0 && spec_all_digits(w) && spec_digits_val(w) <= u64::MAX {
        Some(spec_digits_val(w) as u64)
    } else {
        None
    }
}

/// The records of the lexicon from position `i` on, line by line, or the
/// number of the first line whose frequency field is malformed.
pub open spec fn spec_parse(s: Seq<u8>, i: int, ln: int) -> Result<Seq<(Seq<u8>, u64, Seq<u8>)>, int>
    decreases s.len() - i
        when 0 <= i <= s.len()
{
    if i >= s.len() {
        Ok(Seq::empty())
    } else {
        let b0 = spec_next_nl(s, i);
        // the clamp only guards termination; the scan lemma shows it never binds
        let b = if b0 < i {
            i
        } else if b0 > s.len() {
            s.len() as int
        } else {
            b0
        };
        let next = if b < s.len() {
            b + 1
        } else {
            b
        };
        let tail = spec_parse(s, next, ln + 1);
        let fs = spec_fields(s, i, b);
        if fs.len() == 0 {
            tail
        } else {
            let word = s.subrange(fs[0].0, fs[0].1);
            let freq = if fs.len() >= 2 {
                spec_parse_u64(s.subrange(fs[1].0, fs[1].1))
            } else {
                Some(0u64)
            };
            let tag = if fs.len() >= 3 {
                s.subrange(fs[2].0, fs[2].1)
            } else {
                Seq::<u8>::empty()
            };
            match freq {
                None => Err(ln),
                Some(f) => match tail {
                    Err(l) => Err(l),
                    Ok(t) => Ok(seq![(word, f, tag)] + t),
                },
            }
        }
    }
}

/// The records of a vector, as `(word, frequency, tag)` triples.
pub open spec fn recs_view(rs: Seq<Record>) -> Seq<(Seq<u8>, u64, Seq<u8>)> {
    rs.map_values(|r: Record| r@)
}

/// Joins already-parsed records with the outcome for the rest of the text.
pub open spec fn spec_parse_join(
    acc: Seq<(Seq<u8>, u64, Seq<u8>)>,
    rest: Result<Seq<(Seq<u8>, u64, Seq<u8>)>, int>,
) -> Result<Seq<(Seq<u8>, u64, Seq<u8>)>, int> {
    match rest {
        Ok(t) => Ok(acc + t),
        Err(l) => Err(l),
    }
}

/// In valid text, the position after a one-byte character never continues a
/// longer character's encoding.
pub proof fn lemma_after_ascii(s: Seq<u8>, p: int)
    requires
        valid_utf8(s),
        0 <= p < s.len(),
        s[p] < 0x80,
        !is_continuation_byte(s[p]),
    ensures
        p + 1 == s.len() || !is_continuation_byte(s[p + 1]),
{
    broadcast use vstd::utf8::group_utf8_lib;

    assert(is_char_boundary(s, p));
    let suf = s.subrange(p, s.len() as int);
    assert(valid_utf8(suf));
    assert(suf[0] == s[p]);
    assert(valid_first_scalar(suf));
    assert(is_leading_byte_width_1(suf[0]));
    assert(length_of_first_scalar(suf) == 1);
    if p + 1 < s.len() {
        let rest = pop_first_scalar(suf);
        assert(valid_utf8(rest));
        assert(rest.len() > 0);
        assert(rest[0] == s[p + 1]);
        assert(valid_first_scalar(rest));
        assert(!is_continuation_byte(rest[0]));
    }
}

/// A subrange of valid text between two non-continuation positions is
/// itself valid.
pub proof fn lemma_valid_slice(s: Seq<u8>, a: int, b: int)
    requires
        valid_utf8(s),
        0 <= a <= b <= s.len(),
        a == s.len() || !is_continuation_byte(s[a]),
        b == s.len() || !is_continuation_byte(s[b]),
    ensures
        valid_utf8(s.subrange(a, b)),
    decreases s.len(),
{
    broadcast use vstd::utf8::group_utf8_lib;

    assert(is_char_boundary(s, a));
    let suf = s.subrange(a, s.len() as int);
    assert(valid_utf8(suf));
    if b < s.len() {
        assert(suf[b - a] == s[b]);
        assert(is_char_boundary(suf, b - a));
    } else {
        assert(is_char_boundary(suf, b - a));
    }
    assert(valid_utf8(suf.subrange(0, b - a)));
    assert(suf.subrange(0, b - a) =~= s.subrange(a, b));
}

/// In valid text that starts with a byte-order mark, the fourth byte never
/// continues a character.
pub proof fn lemma_after_bom(s: Seq<u8>)
    requires
        valid_utf8(s),
        s.len() >= 3,
        s[0] == 0xEF,
        s[1] == 0xBB,
        s[2] == 0xBF,
    ensures
        s.len() == 3 || !is_continuation_byte(s[3]),
{
    assert(valid_first_scalar(s));
    assert(is_leading_byte_width_3(s[0]));
    assert(length_of_first_scalar(s) == 3);
    if s.len() > 3 {
        let rest = pop_first_scalar(s);
        assert(valid_utf8(rest));
        assert(rest.len() > 0);
        assert(rest[0] == s[3]);
        assert(valid_first_scalar(rest));
        assert(!is_continuation_byte(rest[0]));
    }
}

/// Scans for the next newline at or after `i`.
fn find_nl(s: &Vec<u8>, i: usize) -> (r: usize)
    requires
        i <= s@.len(),
    ensures
        r == spec_next_nl(s@, i as int),
        i <= r <= s@.len(),
{
    proof {
        lemma_next_nl(s@, i as int);
    }
    let n = s.len();
    let mut j = i;
    while j < n
        invariant
            i <= j <= n == s@.len(),
            spec_next_nl(s@, i as int) == spec_next_nl(s@, j as int),
        decreases n - j,
    {
        if s[j] == 0x0A {
            return j;
        }
        j = j + 1;
    }
    j
}

fn is_ws_x(b: u8) -> (r: bool)
    ensures
        r == is_ws(b),
{
    b == 0x09 || b == 0x0A || b == 0x0B || b == 0x0C || b == 0x0D || b == 0x20
}

/// Scans past whitespace in `[a, b)`.
fn skip_ws_x(s: &Vec<u8>, a: usize, b: usize) -> (r: usize)
    requires
        a <= b <= s@.len(),
    ensures
        r == spec_skip_ws(s@, a as int, b as int),
        a <= r <= b,
    decreases b - a,
{
    proof {
        lemma_skip_ws(s@, a as int, b as int);
    }
    if a < b && is_ws_x(s[a]) {
        skip_ws_x(s, a + 1, b)
    } else {
        a
    }
}

/// Scans to the end of the field that starts before `a`.
fn field_end_x(s: &Vec<u8>, a: usize, b: usize) -> (r: usize)
    requires
        a <= b <= s@.len(),
    ensures
        r == spec_field_end(s@, a as int, b as int),
        a <= r <= b,
    decreases b - a,
{
    proof {
        lemma_field_end(s@, a as int, b as int);
    }
    if a < b && !is_ws_x(s[a]) {
        field_end_x(s, a + 1, b)
    } else {
        a
    }
}

/// Parses the decimal integer in `s[a, b)`, if it is one.
fn parse_u64_x(s: &Vec<u8>, a: usize, b: usize) -> (r: Option<u64>)
    requires
        a <= b <= s@.len(),
    ensures
        r == spec_parse_u64(s@.subrange(a as int, b as int)),
{
    let ghost w = s@.subrange(a as int, b as int);
    if a == b {
        return None;
    }
    let mut v: u64 = 0;
    let mut over: bool = false;
    let mut i = a;
    while i < b
        invariant
            a <= i <= b <= s@.len(),
            w == s@.subrange(a as int, b as int),
            spec_all_digits(s@.subrange(a as int, i as int)),
            !over ==> v == spec_digits_val(s@.subrange(a as int, i as int)),
            over ==> spec_digits_val(s@.subrange(a as int, i as int)) > u64::MAX,
        decreases b - i,
    {
        let d = s[i];
        if d < 0x30 || d > 0x39 {
            proof {
                assert(w[i - a] == s@[i as int]);
                assert(!spec_all_digits(w));
            }
            return None;
        }
        let dd = (d - 0x30) as u64;
        proof {
            let pre = s@.subrange(a as int, i as int);
            let post = s@.subrange(a as int, i + 1 as int);
            assert(post.drop_last() =~= pre);
            assert(post.last() == s@[i as int]);
            assert(spec_digits_val(post) == spec_digits_val(pre) * 10 + dd);
            vstd::arithmetic::div_mod::lemma_fundamental_div_mod(
                (u64::MAX - dd) as int,
                10,
            );
        }
        if over || v > (u64::MAX - dd) / 10 {
            over = true;
        } else {
            v = v * 10 + dd;
        }
        i = i + 1;
    }
    proof {
        assert(s@.subrange(a as int, i as int) =~= w);
    }
    if over {
        None
    } else {
        Some(v)
    }
}

/// Parses a whole lexicon into its records, or reports the first line
/// whose frequency field is malformed.
pub fn parse_records(s: &Vec<u8>) -> (r: Result<Vec<Record>, DictionaryError>)
    requires
        valid_utf8(s@),
    ensures
        r matches Ok(recs) ==> spec_parse(s@, spec_bom_skip(s@), 1) == Ok::<_, int>(
            recs_view(recs@),
        ),
        r matches Ok(recs) ==> forall|k: int|
            0 <= k < recs@.len() ==> (#[trigger] recs@[k]).word@.len() > 0 && valid_utf8(
                recs@[k].word@,
            ) && valid_utf8(recs@[k].tag@),
        r matches Err(e) ==> spec_parse(s@, spec_bom_skip(s@), 1) == Err::<
            Seq<(Seq<u8>, u64, Seq<u8>)>,
            _,
        >(e.line_number as int) && e.reason == DictErrorReason::InvalidFrequency,
{
    let n = s.len();
    let start: usize = if n >= 3 && s[0] == 0xEF && s[1] == 0xBB && s[2] == 0xBF {
        proof {
            lemma_after_bom(s@);
        }
        3
    } else {
        0
    };
    let mut recs: Vec<Record> = Vec::new();
    let mut i: usize = start;
    let mut ln: usize = 1;
    let ghost whole = spec_parse(s@, spec_bom_skip(s@), 1);
    while i < n
        invariant
            valid_utf8(s@),
            n == s@.len(),
            start as int == spec_bom_skip(s@),
            start <= i <= n,
            1 <= ln <= i + 1,
            i < n ==> ln <= n,
            whole == spec_parse(s@, spec_bom_skip(s@), 1),
            whole == spec_parse_join(
                recs_view(recs@),
                spec_parse(s@, i as int, ln as int),
            ),
            i < n ==> !is_continuation_byte(s@[i as int]),
            forall|k: int|
                0 <= k < recs@.len() ==> (#[trigger] recs@[k]).word@.len() > 0 && valid_utf8(
                    recs@[k].word@,
                ) && valid_utf8(recs@[k].tag@),
        decreases n - i,
    {
        let ghost rv0 = recs_view(recs@);
        let b = find_nl(s, i);
        proof {
            lemma_next_nl(s@, i as int);
        }
        let ghost fs = spec_fields(s@, i as int, b as int);
        let f0 = skip_ws_x(s, i, b);
        proof {
            lemma_skip_ws(s@, i as int, b as int);
        }
        if f0 < b {
            let e0 = field_end_x(s, f0 + 1, b);
            let f1 = skip_ws_x(s, e0, b);
            proof {
                lemma_field_end(s@, f0 + 1 as int, b as int);
                lemma_skip_ws(s@, e0 as int, b as int);
                assert(fs == seq![(f0 as int, e0 as int)] + spec_fields(s@, e0 as int, b as int));
                if f0 > i {
                    assert(is_ws(s@[f0 - 1]));
                    lemma_after_ascii(s@, f0 - 1);
                }
                assert(!is_continuation_byte(s@[f0 as int]));
                if e0 < n {
                    if e0 < b {
                        assert(is_ws(s@[e0 as int]));
                    } else {
                        assert(s@[e0 as int] == 0x0A);
                    }
                    assert(!is_continuation_byte(s@[e0 as int]));
                }
                lemma_valid_slice(s@, f0 as int, e0 as int);
            }
            let word = crate::text::copy_range(s, f0, e0);
            let mut freq: u64 = 0;
            let mut tag: Vec<u8> = Vec::new();
            if f1 < b {
                let e1 = field_end_x(s, f1 + 1, b);
                let f2 = skip_ws_x(s, e1, b);
                proof {
                    lemma_field_end(s@, f1 + 1 as int, b as int);
                    lemma_skip_ws(s@, e1 as int, b as int);
                    assert(spec_fields(s@, e0 as int, b as int) == seq![(f1 as int, e1 as int)]
                        + spec_fields(s@, e1 as int, b as int));
                    assert(fs.len() >= 2 && fs[0] == (f0 as int, e0 as int) && fs[1] == (
                    f1 as int,
                    e1 as int,
                    ));
                }
                match parse_u64_x(s, f1, e1) {
                    Some(v) => {
                        freq = v;
                    },
                    None => {
                        proof {
                            assert(spec_parse(s@, i as int, ln as int) == Err::<
                                Seq<(Seq<u8>, u64, Seq<u8>)>,
                                int,
                            >(ln as int));
                        }
                        return Err(
                            DictionaryError {
                                line_number: ln,
                                reason: DictErrorReason::InvalidFrequency,
                            },
                        );
                    },
                }
                if f2 < b {
                    let e2 = field_end_x(s, f2 + 1, b);
                    proof {
                        lemma_field_end(s@, f2 + 1 as int, b as int);
                        assert(spec_fields(s@, e1 as int, b as int) == seq![
                            (f2 as int, e2 as int),
                        ] + spec_fields(s@, e2 as int, b as int));
                        assert(fs.len() >= 3 && fs[2] == (f2 as int, e2 as int));
                        assert(is_ws(s@[f2 - 1]));
                        lemma_after_ascii(s@, f2 - 1);
                        assert(!is_continuation_byte(s@[f2 as int]));
                        if e2 < n {
                            if e2 < b {
                                assert(is_ws(s@[e2 as int]));
                            } else {
                                assert(s@[e2 as int] == 0x0A);
                            }
                            assert(!is_continuation_byte(s@[e2 as int]));
                        }
                        lemma_valid_slice(s@, f2 as int, e2 as int);
                    }
                    tag = crate::text::copy_range(s, f2, e2);
                } else {
                    proof {
                        lemma_fields_skip(s@, e1 as int, b as int);
                        assert(fs.len() == 3 - 1);
                    }
                }
            } else {
                proof {
                    lemma_fields_skip(s@, e0 as int, b as int);
                    assert(fs.len() == 1 && fs[0] == (f0 as int, e0 as int));
                }
            }
            let rec = Record { word, freq, tag };
            recs.push(rec);
            proof {
                let rv1 = recs_view(recs@);
                assert(rv1 =~= rv0.push(rec@));
                let nxt: int = if (b as int) < n as int {
                    b + 1
                } else {
                    b as int
                };
                let tail = spec_parse(s@, nxt, ln + 1 as int);
                assert(spec_parse(s@, i as int, ln as int) == match tail {
                    Err(l) => Err::<Seq<(Seq<u8>, u64, Seq<u8>)>, int>(l),
                    Ok(tl) => Ok(seq![rec@] + tl),
                });
                if tail is Ok {
                    assert(rv0 + (seq![rec@] + tail->Ok_0) =~= rv1 + tail->Ok_0);
                }
            }
        } else {
            proof {
                lemma_fields_skip(s@, i as int, b as int);
                assert(fs.len() == 0);
            }
        }
        proof {
            if (b as int) < n as int {
                assert(s@[b as int] == 0x0A);
                lemma_after_ascii(s@, b as int);
            }
        }
        let ghost lnold = ln as int;
        i = if b < n {
            b + 1
        } else {
            b
        };
        if i < n {
            ln = ln + 1;
        } else {
            proof {
                assert(spec_parse(s@, i as int, lnold + 1) == Ok::<
                    Seq<(Seq<u8>, u64, Seq<u8>)>,
                    int,
                >(Seq::empty()));
                assert(spec_parse(s@, i as int, ln as int) == Ok::<
                    Seq<(Seq<u8>, u64, Seq<u8>)>,
                    int,
                >(Seq::empty()));
            }
        }
    }
    proof {
        assert(spec_parse(s@, i as int, ln as int) == Ok::<Seq<(Seq<u8>, u64, Seq<u8>)>, int>(
            Seq::empty(),
        ));
        let rv = recs_view(recs@);
        assert(rv + Seq::<(Seq<u8>, u64, Seq<u8>)>::empty() =~= rv);
    }
    Ok(recs)
}

/// A subrange of valid text between two character boundaries is valid.
pub proof fn lemma_valid_slice_b(s: Seq<u8>, a: int, b: int)
    requires
        valid_utf8(s),
        0 <= a <= b <= s.len(),
        a == s.len() || is_char_boundary(s, a),
        b == s.len() || is_char_boundary(s, b),
    ensures
        valid_utf8(s.subrange(a, b)),
{
    broadcast use vstd::utf8::group_utf8_lib;

    if a < s.len() {
        if b < s.len() {
            lemma_valid_slice(s, a, b);
        } else {
            lemma_valid_slice(s, a, b);
        }
    } else {
        assert(s.subrange(a, b) =~= Seq::<u8>::empty());
    }
}

} // verus!
