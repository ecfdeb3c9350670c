//! Tokens, part-of-speech tags, and search-mode segmentation.

use crate::cut::decode_words;
use crate::cut::is_alnum_byte;
use crate::hmm::offs_list;
use crate::jieba::Jieba;
use crate::text::bytes_to_string;
use crate::text::char_count;
use crate::text::concat_all;
use crate::text::copy_range;
use vstd::prelude::*;
use vstd::utf8::*;

verus! {

/// How `tokenize` reports words.
#[derive(Debug, Clone, Copy, PartialEq, Eq)]
pub enum TokenizeMode {
    /// One token per word of the cut.
    Default,
    /// Additionally, dictionary-present 2- and 3-grams inside each word,
    /// before the word itself.
    Search,
}

/// A word with its character positions over the whole input.
#[derive(Debug, Clone, PartialEq, Eq, Hash)]
pub struct Token {
    pub word: String,
    pub start: usize,
    pub end: usize,
}

/// A word with its part-of-speech tag.
#[derive(Debug, Clone, PartialEq, Eq, Hash)]
pub struct Tag {
    pub word: String,
    pub tag: String,
}

/// ASCII decimal digit.
pub open spec fn is_digit_byte(b: u8) -> bool {
    0x30 <= b <= 0x39
}

pub open spec fn count_alnum(w: Seq<u8>) -> int
    decreases w.len(),
{
    if w.len() == 0 {
        0
    } else {
        count_alnum(w.drop_last()) + if is_alnum_byte(w.last()) {
            1int
        } else {
            0int
        }
    }
}

pub open spec fn count_digit(w: Seq<u8>) -> int
    decreases w.len(),
{
    if w.len() == 0 {
        0
    } else {
        count_digit(w.drop_last()) + if is_digit_byte(w.last()) {
            1int
        } else {
            0int
        }
    }
}

impl Jieba {
    /// The tag a word gets: its dictionary tag when the exact-match search
    /// accepts it; otherwise `x` for no ASCII alphanumerics, `m` when every
    /// ASCII alphanumeric is a digit, `eng` otherwise.
    pub open spec fn spec_tag_of(self, w: Seq<u8>) -> Seq<u8> {
        match self.spec_contains(w) {
            Some(id) => if id < self.recs().len() {
                self.recs()[id as int].2
            } else {
                seq![0x78u8]
            },
            None => if count_alnum(w) == 0 {
                seq![0x78u8]
            } else if count_alnum(w) == count_digit(w) {
                seq![0x6Du8]
            } else {
                seq![0x65u8, 0x6Eu8, 0x67u8]
            },
        }
    }

    /// The dictionary-present `glen`-grams of `w` from character `i` on,
    /// with their character positions relative to `start`.
    pub open spec fn gram_tokens(self, w: Seq<u8>, glen: int, i: int, start: int) -> Seq<
        (Seq<u8>, int, int),
    >
        decreases char_count(w) + 1 - i
            when 0 <= i && glen >= 1
    {
        let cc = char_count(w) as int;
        if i + glen > cc {
            Seq::empty()
        } else {
            let offs = offs_list(w, 0);
            let g = w.subrange(offs[i], offs[i + glen]);
            (if self.spec_contains(g) is Some {
                seq![(g, start + i, start + i + glen)]
            } else {
                Seq::empty()
            }) + self.gram_tokens(w, glen, i + 1, start)
        }
    }

    /// The token list over cut words `ws`, starting at character position
    /// `start`. In search mode each word of more than two characters is
    /// preceded by its dictionary-present 2-grams and, past three
    /// characters, 3-grams.
    pub open spec fn spec_tokens(
        self,
        ws: Seq<Seq<u8>>,
        k: int,
        start: int,
        search: bool,
    ) -> Seq<(Seq<u8>, int, int)>
        decreases ws.len() - k
            when 0 <= k
    {
        if k >= ws.len() {
            Seq::empty()
        } else {
            let w = ws[k];
            let width = char_count(w) as int;
            let grams: Seq<(Seq<u8>, int, int)> = if search && width > 2 {
                self.gram_tokens(w, 2, 0, start) + if width > 3 {
                    self.gram_tokens(w, 3, 0, start)
                } else {
                    Seq::empty()
                }
            } else {
                Seq::empty()
            };
            grams + seq![(w, start, start + width)] + self.spec_tokens(
                ws,
                k + 1,
                start + width,
                search,
            )
        }
    }

    /// The search-mode word list: the words of each token of the
    /// search-mode token list.
    pub open spec fn spec_search_words(self, ws: Seq<Seq<u8>>) -> Seq<Seq<u8>> {
        word_parts(self.spec_tokens(ws, 0, 0, true))
    }
}

/// The word of each token.
pub open spec fn word_parts(ts: Seq<(Seq<u8>, int, int)>) -> Seq<Seq<u8>> {
    ts.map_values(|t: (Seq<u8>, int, int)| t.0)
}

/// Byte tokens decoded into characters.
pub open spec fn decode_tokens(ts: Seq<(Seq<u8>, int, int)>) -> Seq<(Seq<char>, int, int)> {
    ts.map_values(|t: (Seq<u8>, int, int)| (decode_utf8(t.0), t.1, t.2))
}

/// The view of a token list.
pub open spec fn token_views(ts: Seq<Token>) -> Seq<(Seq<char>, int, int)> {
    ts.map_values(|t: Token| (t.word@, t.start as int, t.end as int))
}

/// The view of a tag list.
pub open spec fn tag_views(ts: Seq<Tag>) -> Seq<(Seq<char>, Seq<char>)> {
    ts.map_values(|t: Tag| (t.word@, t.tag@))
}

fn is_digit_byte_x(b: u8) -> (r: bool)
    ensures
        r == is_digit_byte(b),
{
    0x30 <= b && b <= 0x39
}

fn is_alnum_byte_x2(b: u8) -> (r: bool)
    ensures
        r == is_alnum_byte(b),
{
    (0x30 <= b && b <= 0x39) || (0x41 <= b && b <= 0x5A) || (0x61 <= b && b <= 0x7A)
}

/// A sequence of plain ASCII bytes is valid text.
proof fn lemma_ascii_valid(s: Seq<u8>)
    requires
        forall|k: int| 0 <= k < s.len() ==> #[trigger] s[k] < 0x80,
    ensures
        valid_utf8(s),
{
    broadcast use vstd::utf8::group_utf8_lib;

    assert(partial_valid_utf8(s, 0)) by {
        assert(s.subrange(0, 0) =~= Seq::<u8>::empty());
    }
    assert forall|k: int| 0 <= k < s.len() implies #[trigger] is_leading_byte_width_1(s[k]) by {}
    vstd::utf8::partial_valid_utf8_extend_ascii_block(s, 0, s.len() as int);
    assert(s.subrange(0, s.len() as int) =~= s);
}

/// The tags each word of a cut gets.
pub open spec fn spec_tags(j: Jieba, ws: Seq<Seq<u8>>) -> Seq<(Seq<char>, Seq<char>)> {
    ws.map_values(|w: Seq<u8>| (decode_utf8(w), decode_utf8(j.spec_tag_of(w))))
}

impl Jieba {
    /// Emits the dictionary-present grams of one word.
    #[verifier::rlimit(100)]
    fn emit_grams(
        &self,
        w: &Vec<u8>,
        offs: &Vec<usize>,
        width: usize,
        glen: usize,
        start: usize,
        bound: usize,
        out: &mut Vec<Token>,
    ) -> (g: Ghost<Seq<(Seq<u8>, int, int)>>)
        requires
            valid_utf8(w@),
            offs@.map_values(|x: usize| x as int) == offs_list(w@, 0),
            offs@.len() == width + 1,
            width as int == char_count(w@),
            1 <= glen <= width,
            start + width <= bound,
        ensures
            g@ == self.gram_tokens(w@, glen as int, 0, start as int),
            token_views(final(out)@) == token_views(old(out)@) + decode_tokens(g@),
    {
        broadcast use vstd::utf8::group_utf8_lib;

        proof {
            crate::hmm::lemma_offs_list_len(w@, 0);
        }
        let ghost whole = self.gram_tokens(w@, glen as int, 0, start as int);
        let ghost base = token_views(out@);
        let mut i: usize = 0;
        proof {
            assert(base + decode_tokens(whole) =~= token_views(out@) + decode_tokens(whole));
        }
        while i <= width - glen
            invariant
                valid_utf8(w@),
                offs@.map_values(|x: usize| x as int) == offs_list(w@, 0),
                offs@.len() == width + 1,
                width as int == char_count(w@),
                1 <= glen <= width,
                start + width <= bound,
                0 <= i,
                i + glen <= width + 1,
                whole == self.gram_tokens(w@, glen as int, 0, start as int),
                base + decode_tokens(whole) == token_views(out@) + decode_tokens(
                    self.gram_tokens(w@, glen as int, i as int, start as int),
                ),
            decreases width - i,
        {
            let ghost pre = self.gram_tokens(w@, glen as int, i as int, start as int);
            let a = offs[i];
            let b2 = offs[i + glen];
            proof {
                crate::hmm::lemma_offs_list_len(w@, 0);
                assert(offs@[i as int] as int == offs_list(w@, 0)[i as int]);
                assert(offs@[i + glen] as int == offs_list(w@, 0)[i + glen]);
                assert(a <= b2 <= w@.len()) by {
                    assert(offs_list(w@, 0)[i as int] < offs_list(w@, 0)[i + glen]);
                    assert(offs_list(w@, 0).last() == w@.len() as int);
                    if i + glen < offs@.len() - 1 {
                        assert(offs_list(w@, 0)[i + glen] < offs_list(w@, 0)[
                        offs@.len() - 1]);
                    }
                }
                if (a as int) < w@.len() {
                    vstd::utf8::is_char_boundary_iff_not_is_continuation_byte(w@, a as int);
                }
                if (b2 as int) < w@.len() {
                    vstd::utf8::is_char_boundary_iff_not_is_continuation_byte(w@, b2 as int);
                }
                crate::dict::lemma_valid_slice_b(w@, a as int, b2 as int);
            }
            let gbytes = copy_range(w, a, b2);
            let found = self.match_id(&gbytes);
            let ghost gs = w@.subrange(a as int, b2 as int);
            let ghost item: Seq<(Seq<u8>, int, int)> = if self.spec_contains(gs) is Some {
                seq![(gs, start + i as int, start + i + glen as int)]
            } else {
                Seq::empty()
            };
            proof {
                assert(pre == item + self.gram_tokens(
                    w@,
                    glen as int,
                    i + 1 as int,
                    start as int,
                ));
            }
            if found.is_some() {
                let tok = Token {
                    word: bytes_to_string(gbytes),
                    start: start + i,
                    end: start + i + glen,
                };
                let ghost tv0 = token_views(out@);
                out.push(tok);
                proof {
                    assert(token_views(out@) =~= tv0.push(
                        (decode_utf8(gs), start + i as int, start + i + glen as int),
                    ));
                    assert(decode_tokens(item) =~= seq![
                        (decode_utf8(gs), start + i as int, start + i + glen as int),
                    ]);
                    assert(decode_tokens(item + self.gram_tokens(
                        w@,
                        glen as int,
                        i + 1 as int,
                        start as int,
                    )) =~= decode_tokens(item) + decode_tokens(
                        self.gram_tokens(w@, glen as int, i + 1 as int, start as int),
                    ));
                    assert(tv0 + (decode_tokens(item) + decode_tokens(
                        self.gram_tokens(w@, glen as int, i + 1 as int, start as int),
                    )) =~= tv0.push(
                        (decode_utf8(gs), start + i as int, start + i + glen as int),
                    ) + decode_tokens(
                        self.gram_tokens(w@, glen as int, i + 1 as int, start as int),
                    ));
                }
            } else {
                proof {
                    assert(item =~= Seq::<(Seq<u8>, int, int)>::empty());
                    assert(decode_tokens(pre) =~= decode_tokens(
                        self.gram_tokens(w@, glen as int, i + 1 as int, start as int),
                    ));
                }
            }
            i = i + 1;
        }
        proof {
            assert(self.gram_tokens(w@, glen as int, i as int, start as int) =~= Seq::<
                (Seq<u8>, int, int),
            >::empty());
            assert(decode_tokens(Seq::<(Seq<u8>, int, int)>::empty()) =~= Seq::<
                (Seq<char>, int, int),
            >::empty());
            assert(token_views(out@) + Seq::<(Seq<char>, int, int)>::empty() =~= token_views(
                out@,
            ));
        }
        Ghost(whole)
    }

    /// Tokenizes the input: each word of the cut with its character span;
    /// search mode also reports dictionary-present 2- and 3-grams inside
    /// longer words, before the word.
    #[verifier::rlimit(100)]
    pub fn tokenize(&self, sentence: &str, mode: TokenizeMode, hmm: bool) -> (r: Vec<Token>)
        ensures
            token_views(r@) == decode_tokens(
                self.spec_tokens(
                    self.spec_cut(encode_utf8(sentence@), false, hmm),
                    0,
                    0,
                    mode is Search,
                ),
            ),
    {
        broadcast use vstd::utf8::group_utf8_lib;

        let search = match mode {
            TokenizeMode::Search => true,
            TokenizeMode::Default => false,
        };
        let bytes = vstd::string::StrSliceExecFns::as_bytes_vec(sentence);
        let n = bytes.len();
        let ws = self.cut_bytes(&bytes, false, hmm);
        let ghost wsg = ws.deep_view();
        proof {
            use_type_invariant(self);
            crate::cut::lemma_cut_from_words(*self, bytes@, 0, false, hmm);
            assert(bytes@.subrange(0, bytes@.len() as int) =~= bytes@);
            crate::text::lemma_char_count_le_len(bytes@);
        }
        let ghost spec_all = self.spec_tokens(wsg, 0, 0, search);
        let mut r: Vec<Token> = Vec::new();
        let mut start: usize = 0;
        let mut k: usize = 0;
        proof {
            assert(token_views(r@) =~= Seq::<(Seq<char>, int, int)>::empty());
            assert(Seq::<(Seq<char>, int, int)>::empty() + decode_tokens(spec_all)
                =~= decode_tokens(spec_all));
            assert(char_count(concat_all(wsg.subrange(0, 0))) == 0) by {
                assert(wsg.subrange(0, 0) =~= Seq::<Seq<u8>>::empty());
            }
        }
        while k < ws.len()
            invariant
                self.wf(),
                n == bytes@.len(),
                wsg == ws.deep_view(),
                wsg.len() == ws@.len(),
                concat_all(wsg) == bytes@,
                char_count(bytes@) <= n,
                forall|k2: int|
                    0 <= k2 < wsg.len() ==> (#[trigger] wsg[k2]).len() > 0 && valid_utf8(
                        wsg[k2],
                    ),
                0 <= k <= wsg.len(),
                spec_all == self.spec_tokens(wsg, 0, 0, search),
                start as int == char_count(concat_all(wsg.subrange(0, k as int))),
                start <= n,
                decode_tokens(spec_all) == token_views(r@) + decode_tokens(
                    self.spec_tokens(wsg, k as int, start as int, search),
                ),
            decreases wsg.len() - k,
        {
            let w = copy_range(&ws[k], 0, ws[k].len());
            proof {
                assert(w@ =~= ws@[k as int]@);
                assert(ws@[k as int]@ == wsg[k as int]) by {
                    assert(wsg[k as int] == ws@[k as int].deep_view());
                    assert(ws@[k as int].deep_view() =~= ws@[k as int]@);
                }
            }
            let width = crate::text::count_chars_range(&w, 0, w.len());
            proof {
                assert(w@.subrange(0, w@.len() as int) =~= w@);
                // the next word keeps the running position within the text
                assert(wsg.subrange(0, k + 1 as int) =~= wsg.subrange(0, k as int).push(
                    wsg[k as int],
                ));
                crate::text::lemma_concat_all_push(wsg.subrange(0, k as int), wsg[k as int]);
                crate::text::lemma_char_count_concat(
                    concat_all(wsg.subrange(0, k as int)),
                    wsg[k as int],
                );
                assert(wsg =~= wsg.subrange(0, k + 1 as int) + wsg.subrange(
                    k + 1 as int,
                    wsg.len() as int,
                ));
                crate::text::lemma_concat_all_add(
                    wsg.subrange(0, k + 1 as int),
                    wsg.subrange(k + 1 as int, wsg.len() as int),
                );
                crate::text::lemma_char_count_concat(
                    concat_all(wsg.subrange(0, k + 1 as int)),
                    concat_all(wsg.subrange(k + 1 as int, wsg.len() as int)),
                );
            }
            let ghost pre = self.spec_tokens(wsg, k as int, start as int, search);
            let ghost grams: Seq<(Seq<u8>, int, int)> = if search && width > 2 {
                self.gram_tokens(w@, 2, 0, start as int) + if width > 3 {
                    self.gram_tokens(w@, 3, 0, start as int)
                } else {
                    Seq::empty()
                }
            } else {
                Seq::<(Seq<u8>, int, int)>::empty()
            };
            let ghost tail = self.spec_tokens(wsg, k + 1 as int, start + width as int, search);
            proof {
                assert(pre == grams + seq![(w@, start as int, start + width as int)] + tail);
            }
            let ghost tvb = token_views(r@);
            if search && width > 2 {
                let (offs, _cps) = crate::hmm::decode_run(&w);
                proof {
                    crate::hmm::lemma_offs_list_len(w@, 0);
                }
                let Ghost(g2) = self.emit_grams(&w, &offs, width, 2, start, n, &mut r);
                let ghost tw2 = token_views(r@);
                if width > 3 {
                    let Ghost(g3) = self.emit_grams(&w, &offs, width, 3, start, n, &mut r);
                    proof {
                        assert(grams =~= g2 + g3);
                        assert(decode_tokens(g2 + g3) =~= decode_tokens(g2) + decode_tokens(
                            g3,
                        ));
                        assert(token_views(r@) =~= tvb + decode_tokens(grams));
                    }
                } else {
                    proof {
                        assert(grams =~= g2 + Seq::<(Seq<u8>, int, int)>::empty());
                        assert(decode_tokens(grams) =~= decode_tokens(g2));
                        assert(token_views(r@) =~= tvb + decode_tokens(grams));
                    }
                }
            } else {
                proof {
                    assert(decode_tokens(grams) =~= Seq::<(Seq<char>, int, int)>::empty());
                    assert(token_views(r@) =~= tvb + decode_tokens(grams));
                }
            }
            let ghost tv1 = token_views(r@);
            let tok = Token { word: bytes_to_string(w), start, end: start + width };
            r.push(tok);
            proof {
                let item = (decode_utf8(wsg[k as int]), start as int, start + width as int);
                assert(token_views(r@) =~= tv1.push(item));
                assert(decode_tokens(pre) =~= decode_tokens(grams) + (seq![item]
                    + decode_tokens(tail)));
                assert(tvb + (decode_tokens(grams) + (seq![item] + decode_tokens(tail)))
                    =~= ((tvb + decode_tokens(grams)).push(item)) + decode_tokens(tail));
            }
            start = start + width;
            k = k + 1;
        }
        proof {
            assert(self.spec_tokens(wsg, k as int, start as int, search) =~= Seq::<
                (Seq<u8>, int, int),
            >::empty());
            assert(decode_tokens(Seq::<(Seq<u8>, int, int)>::empty()) =~= Seq::<
                (Seq<char>, int, int),
            >::empty());
            assert(token_views(r@) + Seq::<(Seq<char>, int, int)>::empty() =~= token_views(
                r@,
            ));
        }
        r
    }

    /// Search-mode cut: each word of the default cut preceded by its
    /// dictionary-present 2- and 3-grams.
    pub fn cut_for_search(&self, sentence: &str, hmm: bool) -> (r: Vec<String>)
        ensures
            r.deep_view() == decode_words(
                self.spec_search_words(self.spec_cut(encode_utf8(sentence@), false, hmm)),
            ),
    {
        let toks = self.tokenize(sentence, TokenizeMode::Search, hmm);
        let ghost wsg = self.spec_cut(encode_utf8(sentence@), false, hmm);
        let mut r: Vec<String> = Vec::new();
        let mut k: usize = 0;
        let ghost target = decode_words(self.spec_search_words(wsg));
        proof {
            assert(target.len() == toks@.len()) by {
                assert(token_views(toks@).len() == toks@.len());
            }
            assert(r.deep_view() =~= target.subrange(0, 0));
        }
        while k < toks.len()
            invariant
                0 <= k <= toks@.len(),
                target == decode_words(self.spec_search_words(wsg)),
                target.len() == toks@.len(),
                token_views(toks@) == decode_tokens(self.spec_tokens(wsg, 0, 0, true)),
                r.deep_view() == target.subrange(0, k as int),
            decreases toks@.len() - k,
        {
            let s = toks[k].word.clone();
            let ghost dv0 = r.deep_view();
            r.push(s);
            proof {
                let ts = self.spec_tokens(wsg, 0, 0, true);
                assert(token_views(toks@)[k as int] == decode_tokens(ts)[k as int]);
                assert(toks@[k as int].word@ == decode_utf8(ts[k as int].0));
                assert(target[k as int] == decode_utf8(word_parts(ts)[k as int]));
                assert(word_parts(ts)[k as int] == ts[k as int].0);
                assert(r.deep_view() =~~= dv0.push(target[k as int]));
                assert(target.subrange(0, k + 1 as int) =~= target.subrange(0, k as int).push(
                    target[k as int],
                ));
            }
            k = k + 1;
        }
        proof {
            assert(target.subrange(0, k as int) =~= target);
        }
        r
    }

    /// Tags each word of the cut: the dictionary tag when the word is
    /// known, else a class read off its ASCII content.
    pub fn tag(&self, sentence: &str, hmm: bool) -> (r: Vec<Tag>)
        ensures
            tag_views(r@) == spec_tags(
                *self,
                self.spec_cut(encode_utf8(sentence@), false, hmm),
            ),
    {
        broadcast use vstd::utf8::group_utf8_lib;

        let bytes = vstd::string::StrSliceExecFns::as_bytes_vec(sentence);
        let ws = self.cut_bytes(&bytes, false, hmm);
        let nrec = self.records.len();
        let ghost wsg = ws.deep_view();
        proof {
            use_type_invariant(self);
            crate::jieba::lemma_recs(*self);
            crate::cut::lemma_cut_from_words(*self, bytes@, 0, false, hmm);
        }
        let ghost target = spec_tags(*self, wsg);
        let mut r: Vec<Tag> = Vec::new();
        let mut k: usize = 0;
        proof {
            assert(tag_views(r@) =~= target.subrange(0, 0));
        }
        while k < ws.len()
            invariant
                self.wf(),
                self.recs() == crate::dict::recs_view(self.records@),
                nrec == self.records@.len(),
                wsg == ws.deep_view(),
                wsg.len() == ws@.len(),
                forall|k2: int|
                    0 <= k2 < wsg.len() ==> (#[trigger] wsg[k2]).len() > 0 && valid_utf8(
                        wsg[k2],
                    ),
                0 <= k <= wsg.len(),
                target == spec_tags(*self, wsg),
                tag_views(r@) == target.subrange(0, k as int),
            decreases wsg.len() - k,
        {
            let w = copy_range(&ws[k], 0, ws[k].len());
            proof {
                assert(w@ =~= ws@[k as int]@);
                assert(ws@[k as int]@ == wsg[k as int]) by {
                    assert(wsg[k as int] == ws@[k as int].deep_view());
                    assert(ws@[k as int].deep_view() =~= ws@[k as int]@);
                }
            }
            let found = self.match_id(&w);
            let tagv: Vec<u8> = match found {
                Some(id) => {
                    proof {
                        assert(id < nrec);
                        assert(self.recs()[id as int] == self.records@[id as int]@);
                        assert(valid_utf8(self.recs()[id as int].2));
                    }
                    copy_range(&self.records[id].tag, 0, self.records[id].tag.len())
                },
                None => {
                    // classify the word by its ASCII content
                    let mut eng: usize = 0;
                    let mut m: usize = 0;
                    let mut i2: usize = 0;
                    let wn = w.len();
                    while i2 < wn
                        invariant
                            wn == w@.len(),
                            0 <= i2 <= wn,
                            eng as int == count_alnum(w@.subrange(0, i2 as int)),
                            m as int == count_digit(w@.subrange(0, i2 as int)),
                            eng <= i2 && m <= i2,
                        decreases wn - i2,
                    {
                        let b = w[i2];
                        proof {
                            assert(w@.subrange(0, i2 + 1 as int).drop_last() =~= w@.subrange(
                                0,
                                i2 as int,
                            ));
                            assert(w@.subrange(0, i2 + 1 as int).last() == w@[i2 as int]);
                        }
                        if is_alnum_byte_x2(b) {
                            eng = eng + 1;
                        }
                        if is_digit_byte_x(b) {
                            m = m + 1;
                        }
                        i2 = i2 + 1;
                    }
                    proof {
                        assert(w@.subrange(0, wn as int) =~= w@);
                    }
                    let mut tv: Vec<u8> = Vec::new();
                    if eng == 0 {
                        tv.push(0x78);
                        proof {
                            assert(tv@ =~= seq![0x78u8]);
                        }
                    } else if eng == m {
                        tv.push(0x6D);
                        proof {
                            assert(tv@ =~= seq![0x6Du8]);
                        }
                    } else {
                        tv.push(0x65);
                        tv.push(0x6E);
                        tv.push(0x67);
                        proof {
                            assert(tv@ =~= seq![0x65u8, 0x6Eu8, 0x67u8]);
                        }
                    }
                    proof {
                        assert(forall|k2: int| 0 <= k2 < tv@.len() ==> #[trigger] tv@[k2]
                            < 0x80);
                        lemma_ascii_valid(tv@);
                    }
                    tv
                },
            };
            proof {
                assert(tagv@ == self.spec_tag_of(wsg[k as int]));
            }
            let tg = Tag { word: bytes_to_string(w), tag: bytes_to_string(tagv) };
            let ghost tv0 = tag_views(r@);
            r.push(tg);
            proof {
                let item = (decode_utf8(wsg[k as int]), decode_utf8(
                    self.spec_tag_of(wsg[k as int]),
                ));
                assert(tag_views(r@) =~= tv0.push(item));
                assert(target[k as int] == item);
                assert(target.subrange(0, k + 1 as int) =~= target.subrange(0, k as int).push(
                    target[k as int],
                ));
            }
            k = k + 1;
        }
        proof {
            assert(target.subrange(0, k as int) =~= target);
        }
        r
    }
}

} // verus!
