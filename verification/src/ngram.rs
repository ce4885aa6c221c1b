//! N-gram generation and the n-gram tokenizer.
//!
//! A word is split into grapheme clusters; an n-gram is the concatenation of
//! a contiguous run of clusters. The tokenizer emits, for every Unicode word
//! of the input, the n-grams the edge mode asks for, all at the word's
//! position; positions start at 1.

use vstd::prelude::*;
use crate::term::{Term, Token};
use crate::unicode::{words_of, graphemes_of, unicode_words, graphemes};
use vstd::string::StringExecFns;

verus! {

/// Which ends of a word n-grams are anchored to: all substrings, only those
/// starting the word, or only those ending it.
#[derive(Debug, Clone, Copy, PartialEq, Eq, Structural)]
pub enum Edge {
    Neither,
    Left,
    Right,
}

/// The concatenation of a run of grapheme clusters.
pub open spec fn join(gs: Seq<Seq<char>>) -> Seq<char>
    decreases gs.len(),
{
    if gs.len() == 0 {
        Seq::empty()
    } else {
        join(gs.drop_last()) + gs.last()
    }
}

/// The n-gram of `l` clusters starting at cluster `i`.
pub open spec fn gram(gs: Seq<Seq<char>>, i: int, l: int) -> Seq<char> {
    join(gs.subrange(i, i + l))
}

/// The n-grams at start `i` of each length `lo..=hi` that fits, ascending.
pub open spec fn grams_from(gs: Seq<Seq<char>>, i: int, lo: int, hi: int) -> Seq<Seq<char>>
    decreases hi + 1 - lo,
{
    if i < 0 || lo < 0 || lo > hi || i + lo > gs.len() {
        Seq::empty()
    } else {
        seq![gram(gs, i, lo)] + grams_from(gs, i, lo + 1, hi)
    }
}

/// The n-grams of every start position in left-to-right order, each start's
/// lengths ascending before the next start.
pub open spec fn grams_all(gs: Seq<Seq<char>>, i: int, lo: int, hi: int) -> Seq<Seq<char>>
    decreases gs.len() - i,
{
    if i < 0 || i >= gs.len() {
        Seq::empty()
    } else {
        grams_from(gs, i, lo, hi) + grams_all(gs, i + 1, lo, hi)
    }
}

/// The n-grams ending at the word's last cluster, lengths ascending.
pub open spec fn grams_right(gs: Seq<Seq<char>>, lo: int, hi: int) -> Seq<Seq<char>>
    decreases hi + 1 - lo,
{
    if lo < 0 || lo > hi || lo > gs.len() {
        Seq::empty()
    } else {
        seq![gram(gs, gs.len() - lo, lo)] + grams_right(gs, lo + 1, hi)
    }
}

/// The n-grams of one word's clusters under an edge mode: exactly the
/// substrings of the word whose length in clusters lies in `min..=max`,
/// anchored as the mode asks.
pub open spec fn word_grams(gs: Seq<Seq<char>>, min: int, max: int, edge: Edge) -> Seq<Seq<char>> {
    match edge {
        Edge::Neither => grams_all(gs, 0, min, max),
        Edge::Left => grams_from(gs, 0, min, max),
        Edge::Right => grams_right(gs, min, max),
    }
}

/// The position of the word at index `wi`: one-based, saturating.
pub open spec fn word_position(wi: int) -> u32 {
    if wi + 1 > u32::MAX {
        u32::MAX
    } else {
        (wi + 1) as u32
    }
}

/// The token stream of words `wi..`: each word's n-grams at the word's
/// position.
pub open spec fn tokens_from_word(ws: Seq<Seq<char>>, wi: int, min: int, max: int, edge: Edge) -> Seq<
    (Seq<char>, u32),
>
    decreases ws.len() - wi,
{
    if wi < 0 || wi >= ws.len() {
        Seq::empty()
    } else {
        word_grams(graphemes_of(ws[wi]), min, max, edge).map_values(
            |g: Seq<char>| (g, word_position(wi)),
        ) + tokens_from_word(ws, wi + 1, min, max, edge)
    }
}

/// The full token stream of an input: for every Unicode word of the input,
/// its n-grams under the edge mode, at word positions starting at 1.
pub open spec fn ngram_tokens(s: Seq<char>, min: int, max: int, edge: Edge) -> Seq<(Seq<char>, u32)> {
    tokens_from_word(words_of(s), 0, min, max, edge)
}

/// The token is this term at this position: a string term with exactly
/// these characters.
pub open spec fn token_matches(t: Token, p: (Seq<char>, u32)) -> bool {
    match t.term {
        Term::Str(s) => s@ == p.0 && t.position == p.1,
        _ => false,
    }
}

/// The character views of a list of strings.
pub open spec fn views_of(gs: Seq<String>) -> Seq<Seq<char>> {
    gs.map_values(|g: String| g@)
}

/// Concatenates the clusters `i..i+l`.
fn gram_exec(gs: &Vec<String>, i: usize, l: usize) -> (r: String)
    requires
        i + l <= gs@.len(),
    ensures
        r@ == gram(views_of(gs@), i as int, l as int),
{
    let ghost gsv = views_of(gs@);
    let n = gs.len();
    let mut out = String::new();
    let mut j: usize = 0;
    proof {
        assert(gsv.subrange(i as int, i as int) =~= Seq::<Seq<char>>::empty());
    }
    while j < l
        invariant
            0 <= j <= l,
            i + l <= n,
            n == gs@.len(),
            gsv == views_of(gs@),
            out@ == join(gsv.subrange(i as int, i + j)),
        decreases l - j,
    {
        out.append(gs[i + j].as_str());
        j = j + 1;
        proof {
            assert(gsv.subrange(i as int, i + j).drop_last() =~= gsv.subrange(
                i as int,
                i + j - 1,
            ));
            assert(gsv.subrange(i as int, i + j).last() == gsv[i + j - 1]);
            assert(gsv[i + j - 1] == gs@[i + j - 1]@);
        }
    }
    proof {
        assert(gsv.subrange(i as int, i + l) == gsv.subrange(i as int, i as int + l as int));
    }
    out
}

/// The n-grams at one start, lengths `lo..=hi` ascending.
fn grams_from_exec(gs: &Vec<String>, i: usize, lo: usize, hi: usize) -> (r: Vec<String>)
    requires
        i <= gs@.len(),
    ensures
        views_of(r@) == grams_from(views_of(gs@), i as int, lo as int, hi as int),
{
    let ghost gsv = views_of(gs@);
    let ghost total = grams_from(gsv, i as int, lo as int, hi as int);
    let n = gs.len();
    let mut r: Vec<String> = Vec::new();
    let mut l = lo;
    proof {
        assert(views_of(r@) =~= Seq::<Seq<char>>::empty());
    }
    loop
        invariant_except_break
            lo <= l,
            i <= n,
            n == gs@.len(),
            gsv == views_of(gs@),
            total == grams_from(gsv, i as int, lo as int, hi as int),
            views_of(r@) + grams_from(gsv, i as int, l as int, hi as int) =~= total,
        ensures
            views_of(r@) =~= total,
        decreases hi + 1 - l,
    {
        if l > hi || l > n - i {
            proof {
                assert(grams_from(gsv, i as int, l as int, hi as int) =~= Seq::<Seq<char>>::empty());
            }
            break;
        }
        let g = gram_exec(gs, i, l);
        let ghost rpre = r@;
        r.push(g);
        proof {
            assert(views_of(r@) =~= views_of(rpre).push(gram(gsv, i as int, l as int)));
            assert(grams_from(gsv, i as int, l as int, hi as int) == seq![
                gram(gsv, i as int, l as int),
            ] + grams_from(gsv, i as int, l as int + 1, hi as int));
            assert(views_of(r@) + grams_from(gsv, i as int, l as int + 1, hi as int) =~= total);
        }
        if l >= hi {
            proof {
                assert(grams_from(gsv, i as int, l as int + 1, hi as int) =~= Seq::<
                    Seq<char>,
                >::empty());
            }
            break;
        }
        l = l + 1;
    }
    proof {
        assert(views_of(r@) == total);
    }
    r
}

/// The n-grams ending at the word's last cluster, lengths ascending.
fn grams_right_exec(gs: &Vec<String>, lo: usize, hi: usize) -> (r: Vec<String>)
    ensures
        views_of(r@) == grams_right(views_of(gs@), lo as int, hi as int),
{
    let ghost gsv = views_of(gs@);
    let ghost total = grams_right(gsv, lo as int, hi as int);
    let n = gs.len();
    let mut r: Vec<String> = Vec::new();
    let mut l = lo;
    proof {
        assert(views_of(r@) =~= Seq::<Seq<char>>::empty());
    }
    loop
        invariant_except_break
            lo <= l,
            n == gs@.len(),
            gsv == views_of(gs@),
            total == grams_right(gsv, lo as int, hi as int),
            views_of(r@) + grams_right(gsv, l as int, hi as int) =~= total,
        ensures
            views_of(r@) =~= total,
        decreases hi + 1 - l,
    {
        if l > hi || l > n {
            proof {
                assert(grams_right(gsv, l as int, hi as int) =~= Seq::<Seq<char>>::empty());
            }
            break;
        }
        let g = gram_exec(gs, n - l, l);
        let ghost rpre = r@;
        r.push(g);
        proof {
            assert(views_of(r@) =~= views_of(rpre).push(gram(gsv, gsv.len() - l, l as int)));
            assert(grams_right(gsv, l as int, hi as int) == seq![
                gram(gsv, gsv.len() - l, l as int),
            ] + grams_right(gsv, l as int + 1, hi as int));
            assert(views_of(r@) + grams_right(gsv, l as int + 1, hi as int) =~= total);
        }
        if l >= hi {
            proof {
                assert(grams_right(gsv, l as int + 1, hi as int) =~= Seq::<Seq<char>>::empty());
            }
            break;
        }
        l = l + 1;
    }
    proof {
        assert(views_of(r@) == total);
    }
    r
}

/// The n-grams of one word's clusters under an edge mode.
pub(crate) fn word_grams_exec(gs: &Vec<String>, min: usize, max: usize, edge: Edge) -> (r: Vec<String>)
    ensures
        views_of(r@) == word_grams(views_of(gs@), min as int, max as int, edge),
{
    let ghost gsv = views_of(gs@);
    match edge {
        Edge::Left => grams_from_exec(gs, 0, min, max),
        Edge::Right => grams_right_exec(gs, min, max),
        Edge::Neither => {
            let ghost total = grams_all(gsv, 0, min as int, max as int);
            let mut r: Vec<String> = Vec::new();
            let mut i: usize = 0;
            proof {
                assert(views_of(r@) =~= Seq::<Seq<char>>::empty());
            }
            while i < gs.len()
                invariant
                    0 <= i <= gs@.len(),
                    gsv == views_of(gs@),
                    total == grams_all(gsv, 0, min as int, max as int),
                    views_of(r@) + grams_all(gsv, i as int, min as int, max as int) =~= total,
                decreases gs@.len() - i,
            {
                let mut chunk = grams_from_exec(gs, i, min, max);
                let ghost rpre = r@;
                let ghost chunkv = chunk@;
                r.append(&mut chunk);
                proof {
                    assert(views_of(r@) =~= views_of(rpre) + views_of(chunkv));
                    assert(grams_all(gsv, i as int, min as int, max as int) == grams_from(
                        gsv,
                        i as int,
                        min as int,
                        max as int,
                    ) + grams_all(gsv, i as int + 1, min as int, max as int));
                    assert(views_of(r@) + grams_all(gsv, i as int + 1, min as int, max as int)
                        =~= total);
                }
                i = i + 1;
            }
            proof {
                assert(grams_all(gsv, i as int, min as int, max as int) =~= Seq::<
                    Seq<char>,
                >::empty());
                assert(views_of(r@) =~= total);
            }
            r
        },
    }
}

/// An n-gram tokenizer: the token stream of an input, handed out in order.
pub struct NGramTokenizer {
    tokens: Vec<Token>,
}

impl View for NGramTokenizer {
    type V = Seq<Token>;

    closed spec fn view(&self) -> Seq<Token> {
        self.tokens@
    }
}

impl NGramTokenizer {
    /// Analyzes the whole input: for every Unicode word, the n-grams of its
    /// grapheme clusters with lengths in `min_size..=max_size`, anchored as
    /// `edge` asks, each at its word's one-based position.
    pub fn new(input: &String, min_size: usize, max_size: usize, edge: Edge) -> (r: NGramTokenizer)
        ensures
            r@.len() == ngram_tokens(input@, min_size as int, max_size as int, edge).len(),
            forall|k: int|
                0 <= k < r@.len() ==> token_matches(
                    #[trigger] r@[k],
                    ngram_tokens(input@, min_size as int, max_size as int, edge)[k],
                ),
    {
        let ghost total = ngram_tokens(input@, min_size as int, max_size as int, edge);
        let words = unicode_words(input);
        let ghost wsv = words_of(input@);
        let mut tokens: Vec<Token> = Vec::new();
        let ghost mut done: Seq<(Seq<char>, u32)> = Seq::empty();
        let mut wi: usize = 0;
        proof {
            assert(done + tokens_from_word(wsv, 0, min_size as int, max_size as int, edge)
                =~= total);
        }
        while wi < words.len()
            invariant
                0 <= wi <= words@.len(),
                words@.len() == wsv.len(),
                forall|x: int| 0 <= x < words@.len() ==> #[trigger] words@[x]@ == wsv[x],
                total == ngram_tokens(input@, min_size as int, max_size as int, edge),
                done.len() == tokens@.len(),
                forall|k: int| 0 <= k < tokens@.len() ==> token_matches(
                    #[trigger] tokens@[k],
                    done[k],
                ),
                done + tokens_from_word(wsv, wi as int, min_size as int, max_size as int, edge)
                    =~= total,
            decreases words@.len() - wi,
        {
            let gs = graphemes(&words[wi]);
            proof {
                assert(views_of(gs@) =~= graphemes_of(wsv[wi as int]));
            }
            let grams = word_grams_exec(&gs, min_size, max_size, edge);
            let ghost gramsv = views_of(grams@);
            let ghost wtoks = word_grams(
                graphemes_of(wsv[wi as int]),
                min_size as int,
                max_size as int,
                edge,
            ).map_values(|g: Seq<char>| (g, word_position(wi as int)));
            let position: u32 = if wi >= 0xffff_ffff {
                0xffff_ffff
            } else {
                (wi + 1) as u32
            };
            proof {
                assert(position == word_position(wi as int));
                assert(tokens_from_word(wsv, wi as int, min_size as int, max_size as int, edge)
                    == wtoks + tokens_from_word(
                    wsv,
                    wi as int + 1,
                    min_size as int,
                    max_size as int,
                    edge,
                ));
                assert(wtoks.len() == gramsv.len());
                assert(wtoks.skip(0) =~= wtoks);
            }
            let mut gi: usize = 0;
            while gi < grams.len()
                invariant
                    0 <= gi <= grams@.len(),
                    gramsv == views_of(grams@),
                    gramsv.len() == grams@.len(),
                    forall|x: int| 0 <= x < grams@.len() ==> #[trigger] grams@[x]@ == gramsv[x],
                    position == word_position(wi as int),
                    wtoks.len() == gramsv.len(),
                    forall|x: int| 0 <= x < wtoks.len() ==> #[trigger] wtoks[x] == (
                        gramsv[x],
                        position,
                    ),
                    done.len() == tokens@.len(),
                    forall|k: int| 0 <= k < tokens@.len() ==> token_matches(
                        #[trigger] tokens@[k],
                        done[k],
                    ),
                    done + wtoks.skip(gi as int) + tokens_from_word(
                        wsv,
                        wi as int + 1,
                        min_size as int,
                        max_size as int,
                        edge,
                    ) =~= total,
                decreases grams@.len() - gi,
            {
                let g = grams[gi].clone();
                let ghost tpre = tokens@;
                tokens.push(Token { term: Term::Str(g), position });
                proof {
                    assert(g@ == gramsv[gi as int]);
                    done = done.push(wtoks[gi as int]);
                    assert(token_matches(tokens@[tpre.len() as int], wtoks[gi as int]));
                    assert(wtoks.skip(gi as int) =~= seq![wtoks[gi as int]] + wtoks.skip(
                        gi as int + 1,
                    ));
                    assert(done + wtoks.skip(gi as int + 1) + tokens_from_word(
                        wsv,
                        wi as int + 1,
                        min_size as int,
                        max_size as int,
                        edge,
                    ) =~= total);
                }
                gi = gi + 1;
            }
            proof {
                assert(wtoks.skip(gi as int) =~= Seq::<(Seq<char>, u32)>::empty());
                assert(done + tokens_from_word(
                    wsv,
                    wi as int + 1,
                    min_size as int,
                    max_size as int,
                    edge,
                ) =~= total);
            }
            wi = wi + 1;
        }
        proof {
            assert(tokens_from_word(wsv, wi as int, min_size as int, max_size as int, edge)
                =~= Seq::<(Seq<char>, u32)>::empty());
            assert(done =~= total);
            assert forall|k: int| 0 <= k < tokens@.len() implies token_matches(
                #[trigger] tokens@[k],
                total[k],
            ) by {
                assert(token_matches(tokens@[k], done[k]));
            }
        }
        NGramTokenizer { tokens }
    }

    /// Hands out the next token of the stream, front first.
    pub fn next(&mut self) -> (r: Option<Token>)
        ensures
            old(self)@.len() == 0 ==> r is None && final(self)@ == old(self)@,
            old(self)@.len() > 0 ==> r == Some(old(self)@[0]) && final(self)@ == old(self)@.skip(1),
    {
        if self.tokens.len() == 0 {
            None
        } else {
            let t = self.tokens.remove(0);
            proof {
                assert(self.tokens@ =~= old(self)@.skip(1));
            }
            Some(t)
        }
    }

    /// Hands out every remaining token at once.
    pub fn collect_all(&mut self) -> (r: Vec<Token>)
        ensures
            r@ == old(self)@,
            final(self)@.len() == 0,
    {
        let mut out: Vec<Token> = Vec::new();
        core::mem::swap(&mut out, &mut self.tokens);
        out
    }
}

} // verus!
