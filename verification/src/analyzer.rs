//! Named analyzers: a tokenizer followed by token filters.

use vstd::prelude::*;
use crate::term::{Term, Token};
use crate::ngram::{Edge, NGramTokenizer, token_matches, word_position};
use crate::unicode::{words_of, unicode_words, lowercase, lower_of, nfd, nfd_of,
    is_combining_mark, combining_mark, chars_vec, string_from_chars, graphemes};

verus! {

/// How a field's text is split into tokens.
#[derive(Debug, Clone, PartialEq)]
pub enum TokenizerSpec {
    /// One token per Unicode word, positions from one.
    Standard,
    /// The n-grams of every Unicode word, at the word's position.
    NGram { min_size: usize, max_size: usize, edge: Edge },
}

/// A rewrite of a token stream.
#[derive(Debug, Clone, PartialEq)]
pub enum FilterSpec {
    /// Case-fold every string term.
    Lowercase,
    /// Decompose and strip combining marks; a term with no all-ASCII fold
    /// passes through unchanged.
    ASCIIFolding,
    /// Expand each string term into its n-grams at the term's position.
    NGram { min_size: usize, max_size: usize, edge: Edge },
    /// Drop every term among the stop words.
    Stop { words: Vec<String> },
}

/// A tokenizer followed by an ordered list of filters.
#[derive(Debug, Clone, PartialEq)]
pub struct AnalyzerSpec {
    pub tokenizer: TokenizerSpec,
    pub filters: Vec<FilterSpec>,
}

/// The characters left when combining marks are stripped.
pub open spec fn strip_marks(s: Seq<char>) -> Seq<char>
    decreases s.len(),
{
    if s.len() == 0 {
        Seq::empty()
    } else if combining_mark(s.last()) {
        strip_marks(s.drop_last())
    } else {
        strip_marks(s.drop_last()).push(s.last())
    }
}

/// Every character is ASCII.
pub open spec fn all_ascii(s: Seq<char>) -> bool {
    forall|i: int| 0 <= i < s.len() ==> (#[trigger] s[i]) as u32 <= 127
}

/// The ASCII fold of a string: its canonical decomposition with combining
/// marks stripped, kept only when everything left is ASCII; otherwise the
/// string passes through unchanged.
pub open spec fn fold_of(s: Seq<char>) -> Seq<char> {
    if all_ascii(strip_marks(nfd_of(s))) {
        strip_marks(nfd_of(s))
    } else {
        s
    }
}

/// One string token per word: token `i` carries the word itself.
pub open spec fn tokens_are_words(toks: Seq<Token>, words: Seq<Seq<char>>) -> bool {
    &&& toks.len() == words.len()
    &&& forall|i: int|
        0 <= i < toks.len() ==> #[trigger] toks[i].position == word_position(i) && (toks[i].term
            matches Term::Str(t) && t@ == words[i])
}

/// One string token per word: token `i` carries the case-folded word.
pub open spec fn tokens_are_lower(toks: Seq<Token>, words: Seq<Seq<char>>) -> bool {
    &&& toks.len() == words.len()
    &&& forall|i: int|
        0 <= i < toks.len() ==> #[trigger] toks[i].position == word_position(i) && (toks[i].term
            matches Term::Str(t) && t@ == lower_of(words[i]))
}

/// One string token per word: token `i` carries the case-folded word,
/// folded to ASCII where a full fold exists — the standard analyzer's
/// output.
pub open spec fn tokens_are_folded(toks: Seq<Token>, words: Seq<Seq<char>>) -> bool {
    &&& toks.len() == words.len()
    &&& forall|i: int|
        0 <= i < toks.len() ==> #[trigger] toks[i].position == word_position(i) && (toks[i].term
            matches Term::Str(t) && t@ == fold_of(lower_of(words[i])))
}

/// Introduction form of `tokens_are_words`: its two conjuncts.
proof fn lemma_words_intro(toks: Seq<Token>, words: Seq<Seq<char>>)
    requires
        toks.len() == words.len(),
        forall|i: int|
            0 <= i < toks.len() ==> #[trigger] toks[i].position == word_position(i) && (
            toks[i].term matches Term::Str(t) && t@ == words[i]),
    ensures
        tokens_are_words(toks, words),
{
}

/// Introduction form of `tokens_are_lower`: its two conjuncts.
proof fn lemma_lower_intro(toks: Seq<Token>, words: Seq<Seq<char>>)
    requires
        toks.len() == words.len(),
        forall|i: int|
            0 <= i < toks.len() ==> #[trigger] toks[i].position == word_position(i) && (
            toks[i].term matches Term::Str(t) && t@ == lower_of(words[i])),
    ensures
        tokens_are_lower(toks, words),
{
}

/// Introduction form of `tokens_are_folded`: its two conjuncts.
proof fn lemma_folded_intro(toks: Seq<Token>, words: Seq<Seq<char>>)
    requires
        toks.len() == words.len(),
        forall|i: int|
            0 <= i < toks.len() ==> #[trigger] toks[i].position == word_position(i) && (
            toks[i].term matches Term::Str(t) && t@ == fold_of(lower_of(words[i]))),
    ensures
        tokens_are_folded(toks, words),
{
}

/// Splits into Unicode words, one token each, positions from one.
pub fn tokenize_standard(input: &String) -> (r: Vec<Token>)
    ensures
        r@.len() == words_of(input@).len(),
        forall|i: int|
            0 <= i < r@.len() ==> token_matches(
                #[trigger] r@[i],
                (words_of(input@)[i], word_position(i)),
            ),
{
    let words = unicode_words(input);
    let mut r: Vec<Token> = Vec::new();
    let mut i: usize = 0;
    while i < words.len()
        invariant
            0 <= i <= words@.len(),
            words@.len() == words_of(input@).len(),
            forall|x: int| 0 <= x < words@.len() ==> #[trigger] words@[x]@ == words_of(input@)[x],
            r@.len() == i,
            forall|x: int|
                0 <= x < i ==> token_matches(
                    #[trigger] r@[x],
                    (words_of(input@)[x], word_position(x)),
                ),
        decreases words@.len() - i,
    {
        let w = words[i].clone();
        let position: u32 = if i >= 0xffff_ffff {
            0xffff_ffff
        } else {
            (i + 1) as u32
        };
        r.push(Token { term: Term::Str(w), position });
        i = i + 1;
    }
    r
}

/// Case-folds every string term, keeping positions.
fn filter_lowercase(tokens: Vec<Token>) -> (r: Vec<Token>)
    ensures
        r@.len() == tokens@.len(),
        forall|i: int| 0 <= i < r@.len() ==> #[trigger] r@[i].position == tokens@[i].position,
        forall|i: int|
            0 <= i < r@.len() ==> (match tokens@[i].term {
                Term::Str(s) => #[trigger] r@[i].term matches Term::Str(t) && t@ == lower_of(s@),
                _ => r@[i].term == tokens@[i].term,
            }),
{
    let ghost pre = tokens@;
    let mut r: Vec<Token> = Vec::new();
    let mut ts = tokens;
    while ts.len() > 0
        invariant
            r@.len() + ts@.len() == pre.len(),
            ts@ =~= pre.skip(r@.len() as int),
            forall|i: int| 0 <= i < r@.len() ==> #[trigger] r@[i].position == pre[i].position,
            forall|i: int|
                0 <= i < r@.len() ==> (match pre[i].term {
                    Term::Str(s) => #[trigger] r@[i].term matches Term::Str(t) && t@ == lower_of(
                        s@,
                    ),
                    _ => r@[i].term == pre[i].term,
                }),
        decreases ts@.len(),
    {
        let tok = ts.remove(0);
        proof {
            assert(tok == pre[r@.len() as int]);
        }
        let out = match tok.term {
            Term::Str(s) => Token { term: Term::Str(lowercase(&s)), position: tok.position },
            other => Token { term: other, position: tok.position },
        };
        r.push(out);
        proof {
            assert(ts@ =~= pre.skip(r@.len() as int));
        }
    }
    r
}

/// Folds one string to ASCII: canonical decomposition with combining marks
/// stripped, kept only when everything left is ASCII.
fn ascii_fold(s: &String) -> (r: String)
    ensures
        r@ == fold_of(s@),
{
    let decomposed = nfd(s);
    let cs = chars_vec(&decomposed);
    let mut kept: Vec<char> = Vec::new();
    let mut ascii_only = true;
    let mut i: usize = 0;
    proof {
        assert(cs@.take(0) =~= Seq::<char>::empty());
        assert(kept@ =~= strip_marks(cs@.take(0)));
    }
    while i < cs.len()
        invariant
            0 <= i <= cs@.len(),
            cs@ == nfd_of(s@),
            kept@ == strip_marks(cs@.take(i as int)),
            ascii_only == all_ascii(kept@),
        decreases cs@.len() - i,
    {
        let c = cs[i];
        let ghost kpre = kept@;
        proof {
            assert(cs@.take(i as int + 1).drop_last() =~= cs@.take(i as int));
            assert(cs@.take(i as int + 1).last() == cs@[i as int]);
        }
        if !is_combining_mark(c) {
            kept.push(c);
            if c as u32 > 127 {
                ascii_only = false;
                proof {
                    assert(kept@[kept@.len() - 1] as u32 > 127);
                }
            } else {
                proof {
                    if all_ascii(kpre) {
                        assert forall|j: int| 0 <= j < kept@.len() implies (#[trigger] kept@[j])
                            as u32 <= 127 by {
                            if j < kpre.len() {
                                assert(kpre[j] as u32 <= 127);
                            }
                        }
                    } else {
                        let j = choose|j: int| 0 <= j < kpre.len() && (#[trigger] kpre[j]) as u32
                            > 127;
                        assert(kept@[j] as u32 > 127);
                    }
                }
            }
        }
        i = i + 1;
    }
    proof {
        assert(cs@.take(i as int) =~= cs@);
        assert(kept@ == strip_marks(nfd_of(s@)));
    }
    if ascii_only {
        string_from_chars(&kept)
    } else {
        s.clone()
    }
}

/// Folds every string term to ASCII where a full fold exists, keeping
/// positions.
fn filter_ascii_folding(tokens: Vec<Token>) -> (r: Vec<Token>)
    ensures
        r@.len() == tokens@.len(),
        forall|i: int| 0 <= i < r@.len() ==> #[trigger] r@[i].position == tokens@[i].position,
        forall|i: int|
            0 <= i < r@.len() ==> (match tokens@[i].term {
                Term::Str(sv) => #[trigger] r@[i].term matches Term::Str(t) && t@ == fold_of(sv@),
                _ => r@[i].term == tokens@[i].term,
            }),
{
    let ghost pre = tokens@;
    let mut r: Vec<Token> = Vec::new();
    let mut ts = tokens;
    while ts.len() > 0
        invariant
            r@.len() + ts@.len() == pre.len(),
            ts@ =~= pre.skip(r@.len() as int),
            forall|i: int| 0 <= i < r@.len() ==> #[trigger] r@[i].position == pre[i].position,
            forall|i: int|
                0 <= i < r@.len() ==> (match pre[i].term {
                    Term::Str(sv) => #[trigger] r@[i].term matches Term::Str(t) && t@ == fold_of(
                        sv@,
                    ),
                    _ => r@[i].term == pre[i].term,
                }),
        decreases ts@.len(),
    {
        let tok = ts.remove(0);
        proof {
            assert(tok == pre[r@.len() as int]);
        }
        let out = match tok.term {
            Term::Str(s) => Token { term: Term::Str(ascii_fold(&s)), position: tok.position },
            other => Token { term: other, position: tok.position },
        };
        r.push(out);
        proof {
            assert(ts@ =~= pre.skip(r@.len() as int));
        }
    }
    r
}

/// Expands every string term into its n-grams, all at the term's position.
fn filter_ngram(tokens: Vec<Token>, min_size: usize, max_size: usize, edge: Edge) -> (r: Vec<
    Token,
>)
    ensures
        forall|i: int|
            #![trigger r@[i]]
            0 <= i < r@.len() ==> exists|j: int|
                0 <= j < tokens@.len() && r@[i].position == tokens@[j].position,
{
    let ghost pre = tokens@;
    let mut r: Vec<Token> = Vec::new();
    let mut ts = tokens;
    let ghost mut consumed: int = 0;
    while ts.len() > 0
        invariant
            consumed + ts@.len() == pre.len(),
            0 <= consumed,
            ts@ =~= pre.skip(consumed),
            forall|i: int|
                #![trigger r@[i]]
                0 <= i < r@.len() ==> exists|j: int|
                    0 <= j < pre.len() && r@[i].position == pre[j].position,
        decreases ts@.len(),
    {
        let tok = ts.remove(0);
        proof {
            assert(tok == pre[consumed]);
        }
        match tok.term {
            Term::Str(s) => {
                let gs = graphemes(&s);
                let grams = crate::ngram::word_grams_exec(&gs, min_size, max_size, edge);
                let mut gi: usize = 0;
                while gi < grams.len()
                    invariant
                        0 <= consumed < pre.len(),
                        tok.position == pre[consumed].position,
                        forall|i: int|
                            #![trigger r@[i]]
                            0 <= i < r@.len() ==> exists|j: int|
                                0 <= j < pre.len() && r@[i].position == pre[j].position,
                    decreases grams@.len() - gi,
                {
                    let g = grams[gi].clone();
                    r.push(Token { term: Term::Str(g), position: tok.position });
                    gi = gi + 1;
                }
            },
            other => {
                r.push(Token { term: other, position: tok.position });
            },
        }
        proof {
            consumed = consumed + 1;
            assert(ts@ =~= pre.skip(consumed));
        }
    }
    proof {
        assert forall|i: int|
            #![trigger r@[i]]
            0 <= i < r@.len() implies exists|j: int|
            0 <= j < tokens@.len() && r@[i].position == tokens@[j].position by {
            let j = choose|j: int| 0 <= j < pre.len() && r@[i].position == pre[j].position;
            assert(0 <= j < tokens@.len() && r@[i].position == tokens@[j].position);
        }
    }
    r
}

/// Drops every token whose string term is a stop word.
fn filter_stop(tokens: Vec<Token>, words: &Vec<String>) -> (r: Vec<Token>)
    ensures
        r@.len() <= tokens@.len(),
{
    let ghost pre = tokens@;
    let mut r: Vec<Token> = Vec::new();
    let mut ts = tokens;
    let ghost mut consumed: int = 0;
    while ts.len() > 0
        invariant
            pre == tokens@,
            consumed + ts@.len() == pre.len(),
            0 <= consumed,
            ts@ =~= pre.skip(consumed),
            r@.len() <= consumed,
        decreases ts@.len(),
    {
        let tok = ts.remove(0);
        proof {
            assert(tok == pre[consumed]);
        }
        let stopped = match &tok.term {
            Term::Str(s) => {
                let mut hit = false;
                let mut i: usize = 0;
                while i < words.len()
                    decreases words@.len() - i,
                {
                    if *s == words[i] {
                        hit = true;
                    }
                    i = i + 1;
                }
                hit
            },
            _ => false,
        };
        if !stopped {
            r.push(tok);
        }
        proof {
            consumed = consumed + 1;
            assert(ts@ =~= pre.skip(consumed));
        }
    }
    r
}

/// The filter rewrites terms one for one: it neither drops, adds nor
/// repositions tokens, and keeps string terms string terms.
pub open spec fn length_preserving(f: FilterSpec) -> bool {
    f is Lowercase || f is ASCIIFolding
}

/// One string token per word of a stream of `n` words, at word positions
/// from one.
pub open spec fn standard_shape(toks: Seq<Token>, n: nat) -> bool {
    &&& toks.len() == n
    &&& forall|i: int|
        0 <= i < toks.len() ==> #[trigger] toks[i].position == word_position(i) && toks[i].term
            is Str
}

impl AnalyzerSpec {
    /// The standard analyzer: Unicode words, case-folded, ASCII-folded.
    pub fn standard() -> (r: AnalyzerSpec)
        ensures
            r.tokenizer == TokenizerSpec::Standard,
            r.filters@ == seq![FilterSpec::Lowercase, FilterSpec::ASCIIFolding],
    {
        let r = AnalyzerSpec {
            tokenizer: TokenizerSpec::Standard,
            filters: vec![FilterSpec::Lowercase, FilterSpec::ASCIIFolding],
        };
        proof {
            assert(r.filters@ =~= seq![FilterSpec::Lowercase, FilterSpec::ASCIIFolding]);
        }
        r
    }

    /// The edge n-gram analyzer: the standard analyzer, then left-anchored
    /// n-grams of two to fifteen clusters.
    pub fn edgengram() -> (r: AnalyzerSpec)
        ensures
            r.tokenizer == TokenizerSpec::Standard,
            r.filters@ == seq![
                FilterSpec::Lowercase,
                FilterSpec::ASCIIFolding,
                FilterSpec::NGram { min_size: 2, max_size: 15, edge: Edge::Left },
            ],
    {
        let r = AnalyzerSpec {
            tokenizer: TokenizerSpec::Standard,
            filters: vec![
                FilterSpec::Lowercase,
                FilterSpec::ASCIIFolding,
                FilterSpec::NGram { min_size: 2, max_size: 15, edge: Edge::Left },
            ],
        };
        proof {
            assert(r.filters@ =~= seq![
                FilterSpec::Lowercase,
                FilterSpec::ASCIIFolding,
                FilterSpec::NGram { min_size: 2, max_size: 15, edge: Edge::Left },
            ]);
        }
        r
    }

    /// Runs the tokenizer, then each filter in order. Under the standard
    /// tokenizer and filters that rewrite terms one for one — the standard
    /// analyzer's shape — the stream has one string token per Unicode word
    /// of the input, at word positions from one; under the standard
    /// analyzer's very filter chain, token `i` carries exactly the folded,
    /// case-folded `i`-th word.
    pub fn analyze(&self, input: &String) -> (r: Vec<Token>)
        ensures
            (self.tokenizer is Standard && (forall|i: int|
                0 <= i < self.filters@.len() ==> length_preserving(#[trigger] self.filters@[i])))
                ==> standard_shape(r@, words_of(input@).len()),
            (self.tokenizer is Standard && self.filters@ == seq![
                FilterSpec::Lowercase,
                FilterSpec::ASCIIFolding,
            ]) ==> tokens_are_folded(r@, words_of(input@)),
    {
        let ghost shaped = self.tokenizer is Standard && (forall|i: int|
            0 <= i < self.filters@.len() ==> length_preserving(#[trigger] self.filters@[i]));
        let ghost exact_std = self.tokenizer is Standard && self.filters@ == seq![
            FilterSpec::Lowercase,
            FilterSpec::ASCIIFolding,
        ];
        let mut tokens = match &self.tokenizer {
            TokenizerSpec::Standard => tokenize_standard(input),
            TokenizerSpec::NGram { min_size, max_size, edge } => {
                let mut tk = NGramTokenizer::new(input, *min_size, *max_size, *edge);
                tk.collect_all()
            },
        };
        proof {
            if shaped || exact_std {
                assert forall|i: int| 0 <= i < tokens@.len() implies #[trigger] tokens@[i].position
                    == word_position(i) && tokens@[i].term is Str by {
                    assert(token_matches(tokens@[i], (words_of(input@)[i], word_position(i))));
                }
            }
            if exact_std {
                assert forall|i: int| 0 <= i < tokens@.len() implies #[trigger] tokens@[i].position
                    == word_position(i) && (tokens@[i].term matches Term::Str(t) && t@
                    == words_of(input@)[i]) by {
                    assert(token_matches(tokens@[i], (words_of(input@)[i], word_position(i))));
                }
                lemma_words_intro(tokens@, words_of(input@));
            }
        }
        let mut fi: usize = 0;
        while fi < self.filters.len()
            invariant
                0 <= fi <= self.filters@.len(),
                shaped == (self.tokenizer is Standard && (forall|i: int|
                    0 <= i < self.filters@.len() ==> length_preserving(
                        #[trigger] self.filters@[i],
                    ))),
                shaped ==> standard_shape(tokens@, words_of(input@).len()),
                exact_std == (self.tokenizer is Standard && self.filters@ == seq![
                    FilterSpec::Lowercase,
                    FilterSpec::ASCIIFolding,
                ]),
                exact_std && fi == 0 ==> tokens_are_words(tokens@, words_of(input@)),
                exact_std && fi == 1 ==> tokens_are_lower(tokens@, words_of(input@)),
                exact_std && fi >= 2 ==> tokens_are_folded(tokens@, words_of(input@)),
            decreases self.filters@.len() - fi,
        {
            let ghost tpre = tokens@;
            let f = &self.filters[fi];
            proof {
                assert(*f == self.filters@[fi as int]);
            }
            match f {
                FilterSpec::Lowercase => {
                    tokens = filter_lowercase(tokens);
                    proof {
                        if shaped {
                            assert(tpre.len() == words_of(input@).len());
                            assert(tokens@.len() == tpre.len());
                            assert forall|i: int| 0 <= i < tokens@.len() implies #[trigger] tokens@[
                                i
                            ].position == word_position(i) && tokens@[i].term is Str by {
                                assert(tpre[i].position == word_position(i));
                                assert(tpre[i].term is Str);
                            }
                        }
                        if exact_std {
                            assert(self.filters@[fi as int] == FilterSpec::Lowercase);
                            assert(fi == 0) by {
                                if fi == 1 {
                                    assert(self.filters@[1] == FilterSpec::ASCIIFolding);
                                }
                            }
                            assert forall|i: int| 0 <= i < tokens@.len() implies #[trigger] tokens@[
                                i
                            ].position == word_position(i) && (tokens@[i].term matches Term::Str(t)
                                && t@ == lower_of(words_of(input@)[i])) by {
                                assert(tpre[i].position == word_position(i));
                                assert(tpre[i].term matches Term::Str(t0) && t0@ == words_of(
                                    input@,
                                )[i]);
                            }
                            assert(tpre.len() == words_of(input@).len());
                            assert(tokens@.len() == words_of(input@).len());
                            lemma_lower_intro(tokens@, words_of(input@));
                        }
                    }
                },
                FilterSpec::ASCIIFolding => {
                    tokens = filter_ascii_folding(tokens);
                    proof {
                        if shaped {
                            assert(tpre.len() == words_of(input@).len());
                            assert(tokens@.len() == tpre.len());
                            assert forall|i: int| 0 <= i < tokens@.len() implies #[trigger] tokens@[
                                i
                            ].position == word_position(i) && tokens@[i].term is Str by {
                                assert(tpre[i].position == word_position(i));
                                assert(tpre[i].term is Str);
                            }
                        }
                        if exact_std {
                            assert(self.filters@[fi as int] == FilterSpec::ASCIIFolding);
                            assert(fi == 1) by {
                                if fi == 0 {
                                    assert(self.filters@[0] == FilterSpec::Lowercase);
                                }
                            }
                            assert forall|i: int| 0 <= i < tokens@.len() implies #[trigger] tokens@[
                                i
                            ].position == word_position(i) && (tokens@[i].term matches Term::Str(t)
                                && t@ == fold_of(lower_of(words_of(input@)[i]))) by {
                                assert(tpre[i].position == word_position(i));
                                assert(tpre[i].term matches Term::Str(t0) && t0@ == lower_of(
                                    words_of(input@)[i],
                                ));
                            }
                            assert(tpre.len() == words_of(input@).len());
                            assert(tokens@.len() == words_of(input@).len());
                            lemma_folded_intro(tokens@, words_of(input@));
                        }
                    }
                },
                FilterSpec::NGram { min_size, max_size, edge } => {
                    proof {
                        if shaped {
                            assert(length_preserving(self.filters@[fi as int]));
                            assert(self.filters@[fi as int] is NGram);
                            assert(false);
                        }
                        if exact_std {
                            assert(self.filters@[fi as int] is NGram);
                            assert(self.filters@[0] == FilterSpec::Lowercase);
                            assert(self.filters@[1] == FilterSpec::ASCIIFolding);
                            assert(false);
                        }
                    }
                    tokens = filter_ngram(tokens, *min_size, *max_size, *edge);
                },
                FilterSpec::Stop { words } => {
                    proof {
                        if shaped {
                            assert(length_preserving(self.filters@[fi as int]));
                            assert(self.filters@[fi as int] is Stop);
                            assert(false);
                        }
                        if exact_std {
                            assert(self.filters@[fi as int] is Stop);
                            assert(self.filters@[0] == FilterSpec::Lowercase);
                            assert(self.filters@[1] == FilterSpec::ASCIIFolding);
                            assert(false);
                        }
                    }
                    tokens = filter_stop(tokens, words);
                },
            }
            proof {
                if shaped {
                    assert(tokens@.len() == words_of(input@).len());
                    assert forall|i: int|
                        0 <= i < tokens@.len() implies #[trigger] tokens@[i].position
                        == word_position(i) && tokens@[i].term is Str by {
                    }
                    assert(standard_shape(tokens@, words_of(input@).len()));
                }
            }
            fi = fi + 1;
        }
        proof {
            if exact_std {
                assert(self.filters@ == seq![FilterSpec::Lowercase, FilterSpec::ASCIIFolding]);
                assert(self.filters@.len() == 2);
                assert(fi >= 2);
                assert(tokens_are_folded(tokens@, words_of(input@)));
            }
        }
        tokens
    }
}

} // verus!
