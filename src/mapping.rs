use vstd::prelude::*;
use vstd::string::StringExecFns;
use crate::model::{tokens_view, FromSymbol, Node, ToSymbol, Token, TokenView};
use crate::words::{split_words, words};

verus! {

/// A codebook: the source and target tables, and the forest of code trees
/// over them (a single tree once built).
pub struct Mapping {
    pub tree: Vec<Node>,
    pub from: Vec<FromSymbol>,
    pub to: Vec<ToSymbol>,
}

/// `i` is the first position of `texts` that holds `w`.
pub open spec fn is_first_match(texts: Seq<Seq<char>>, w: Seq<char>, i: int) -> bool {
    &&& 0 <= i < texts.len()
    &&& texts[i] == w
    &&& forall|j: int| 0 <= j < i ==> texts[j] != w
}

/// Some position of `texts` holds `w`.
pub open spec fn has_match(texts: Seq<Seq<char>>, w: Seq<char>) -> bool {
    exists|i: int| is_first_match(texts, w, i)
}

/// The first position of `texts` that holds `w` (meaningful under `has_match`).
pub open spec fn first_match(texts: Seq<Seq<char>>, w: Seq<char>) -> nat {
    (choose|i: int| is_first_match(texts, w, i)) as nat
}

/// The words joined with single spaces.
pub open spec fn join(ws: Seq<Seq<char>>) -> Seq<char>
    decreases ws.len(),
{
    if ws.len() == 0 {
        seq![]
    } else if ws.len() == 1 {
        ws[0]
    } else {
        join(ws.drop_last()) + seq![' '] + ws.last()
    }
}

impl Mapping {
    /// The texts of the source table.
    pub open spec fn from_texts(&self) -> Seq<Seq<char>> {
        self.from@.map_values(|s: FromSymbol| s.text@)
    }

    /// The texts of the target table.
    pub open spec fn to_texts(&self) -> Seq<Seq<char>> {
        self.to@.map_values(|s: ToSymbol| s.text@)
    }

    /// The frequency a token carries: that of its source entry, else zero.
    pub open spec fn freq_of(&self, t: TokenView) -> nat {
        match t {
            TokenView::From(i) => self.from@[i as int].frequency as nat,
            _ => 0,
        }
    }

    /// A token's index lies within the table it refers to.
    pub open spec fn in_tables(&self, t: TokenView) -> bool {
        match t {
            TokenView::From(i) => i < self.from@.len(),
            TokenView::To(i) => i < self.to@.len(),
            TokenView::Literal(_) => true,
        }
    }

    /// The text a token renders to.
    pub open spec fn text_of(&self, t: TokenView) -> Seq<char> {
        match t {
            TokenView::Literal(s) => s,
            TokenView::From(i) => self.from_texts()[i as int],
            TokenView::To(i) => self.to_texts()[i as int],
        }
    }

    /// A word tokenized against the source table.
    pub open spec fn source_token(&self, w: Seq<char>) -> TokenView {
        if has_match(self.from_texts(), w) {
            TokenView::From(first_match(self.from_texts(), w))
        } else {
            TokenView::Literal(w)
        }
    }

    /// A text tokenized against the source table, word by word.
    pub open spec fn source_tokens(&self, text: Seq<char>) -> Seq<TokenView> {
        words(text).map_values(|w: Seq<char>| self.source_token(w))
    }

    /// A text tokenized against the target table, word by word.
    pub open spec fn target_tokens(&self, text: Seq<char>) -> Seq<TokenView> {
        words(text).map_values(|w: Seq<char>| self.target_token(w))
    }

    /// A word tokenized against the target table.
    pub open spec fn target_token(&self, w: Seq<char>) -> TokenView {
        if has_match(self.to_texts(), w) {
            TokenView::To(first_match(self.to_texts(), w))
        } else {
            TokenView::Literal(w)
        }
    }

    /// The frequency of a source token; zero for any other token.
    pub fn freq(&self, token: &Token) -> (r: usize)
        requires
            self.in_tables(token@),
        ensures
            r == self.freq_of(token@),
    {
        match token {
            Token::From(index) => self.from[*index].frequency,
            _ => 0,
        }
    }

    /// The text of a token: a literal's own text, or its table entry's text.
    pub fn to_text(&self, token: &Token) -> (r: String)
        requires
            self.in_tables(token@),
        ensures
            r@ == self.text_of(token@),
    {
        match token {
            Token::Literal(string) => string.clone(),
            Token::From(index) => self.from[*index].text.clone(),
            Token::To(index) => self.to[*index].text.clone(),
        }
    }

    /// Splits text on ASCII whitespace and tokenizes each word against the
    /// source table: the first entry with that exact text, else a literal.
    pub fn from_text(&self, text: String) -> (r: Vec<Token>)
        ensures
            tokens_view(r@) == self.source_tokens(text@),
    {
        let ws = split_words(text.as_str());
        let ghost wv = ws@.map_values(|w: String| w@);
        let mut r: Vec<Token> = Vec::new();
        let mut k: usize = 0;
        while k < ws.len()
            invariant
                k <= ws@.len(),
                wv == ws@.map_values(|w: String| w@),
                wv == words(text@),
                tokens_view(r@) == wv.take(k as int).map_values(|w: Seq<char>| self.source_token(w)),
            decreases ws.len() - k,
        {
            let word = &ws[k];
            let found = self.find_source(word);
            let t = match found {
                Some(i) => Token::From(i),
                None => Token::Literal(word.clone()),
            };
            let ghost old_r = r@;
            r.push(t);
            proof {
                assert(wv[k as int] == word@);
                assert(wv.take(k + 1) =~= wv.take(k as int).push(word@));
                assert(tokens_view(r@) =~= tokens_view(old_r).push(t@));
                assert(tokens_view(r@) =~= wv.take(k + 1).map_values(|w: Seq<char>| self.source_token(w)));
            }
            k += 1;
        }
        proof {
            assert(wv.take(k as int) =~= wv);
        }
        r
    }

    /// Splits text on ASCII whitespace and tokenizes each word against the
    /// target table: the first entry with that exact text, else a literal.
    pub fn from_text_reverse(&self, text: String) -> (r: Vec<Token>)
        ensures
            tokens_view(r@) == self.target_tokens(text@),
    {
        let ws = split_words(text.as_str());
        let ghost wv = ws@.map_values(|w: String| w@);
        let mut r: Vec<Token> = Vec::new();
        let mut k: usize = 0;
        while k < ws.len()
            invariant
                k <= ws@.len(),
                wv == ws@.map_values(|w: String| w@),
                wv == words(text@),
                tokens_view(r@) == wv.take(k as int).map_values(|w: Seq<char>| self.target_token(w)),
            decreases ws.len() - k,
        {
            let word = &ws[k];
            let found = self.find_target(word);
            let t = match found {
                Some(i) => Token::To(i),
                None => Token::Literal(word.clone()),
            };
            let ghost old_r = r@;
            r.push(t);
            proof {
                assert(wv[k as int] == word@);
                assert(wv.take(k + 1) =~= wv.take(k as int).push(word@));
                assert(tokens_view(r@) =~= tokens_view(old_r).push(t@));
                assert(tokens_view(r@) =~= wv.take(k + 1).map_values(|w: Seq<char>| self.target_token(w)));
            }
            k += 1;
        }
        proof {
            assert(wv.take(k as int) =~= wv);
        }
        r
    }

    /// Renders each token to its text and joins them with single spaces.
    pub fn into_text(&self, tokens: &[Token]) -> (r: String)
        requires
            forall|i: int| 0 <= i < tokens@.len() ==> self.in_tables(#[trigger] tokens@[i]@),
        ensures
            r@ == join(tokens_view(tokens@).map_values(|t: TokenView| self.text_of(t))),
    {
        let ghost texts = tokens_view(tokens@).map_values(|t: TokenView| self.text_of(t));
        let mut r = String::new();
        let mut k: usize = 0;
        while k < tokens.len()
            invariant
                k <= tokens@.len(),
                forall|i: int| 0 <= i < tokens@.len() ==> self.in_tables(#[trigger] tokens@[i]@),
                texts == tokens_view(tokens@).map_values(|t: TokenView| self.text_of(t)),
                r@ == join(texts.take(k as int)),
            decreases tokens.len() - k,
        {
            let piece = self.to_text(&tokens[k]);
            proof {
                assert(texts.take(k + 1).drop_last() =~= texts.take(k as int));
                assert(texts[k as int] == piece@);
            }
            if k > 0 {
                proof {
                    reveal_strlit(" ");
                }
                r.append(" ");
            }
            r.append(piece.as_str());
            proof {
                if k == 0 {
                    assert(r@ =~= join(texts.take(1)));
                } else {
                    assert(r@ =~= join(texts.take(k + 1)));
                }
            }
            k += 1;
        }
        proof {
            assert(texts.take(k as int) =~= texts);
        }
        r
    }

    fn find_source(&self, word: &String) -> (r: Option<usize>)
        ensures
            r is Some <==> has_match(self.from_texts(), word@),
            r is Some ==> r->0 == first_match(self.from_texts(), word@),
    {
        let mut index: usize = 0;
        while index < self.from.len()
            invariant
                index <= self.from@.len(),
                forall|j: int| 0 <= j < index ==> self.from_texts()[j] != word@,
            decreases self.from.len() - index,
        {
            if self.from[index].text.eq(word) {
                proof {
                    self.lemma_lookup(self.from_texts(), word@, Some(index), index as int);
                }
                return Some(index);
            }
            index += 1;
        }
        proof {
            self.lemma_lookup(self.from_texts(), word@, None, index as int);
        }
        None
    }

    fn find_target(&self, word: &String) -> (r: Option<usize>)
        ensures
            r is Some <==> has_match(self.to_texts(), word@),
            r is Some ==> r->0 == first_match(self.to_texts(), word@),
    {
        let mut index: usize = 0;
        while index < self.to.len()
            invariant
                index <= self.to@.len(),
                forall|j: int| 0 <= j < index ==> self.to_texts()[j] != word@,
            decreases self.to.len() - index,
        {
            if self.to[index].text.eq(word) {
                proof {
                    self.lemma_lookup(self.to_texts(), word@, Some(index), index as int);
                }
                return Some(index);
            }
            index += 1;
        }
        proof {
            self.lemma_lookup(self.to_texts(), word@, None, index as int);
        }
        None
    }

    proof fn lemma_lookup(&self, texts: Seq<Seq<char>>, w: Seq<char>, found: Option<usize>, index: int)
        requires
            0 <= index <= texts.len(),
            forall|j: int| 0 <= j < index ==> texts[j] != w,
            found is Some ==> found->0 == index && index < texts.len() && texts[index] == w,
            found is None ==> index == texts.len(),
        ensures
            found is Some ==> has_match(texts, w) && first_match(texts, w) == index,
            found is None ==> !has_match(texts, w),
    {
        if found is Some {
            assert(is_first_match(texts, w, index));
            let c = choose|i: int| is_first_match(texts, w, i);
            if c < index {
                assert(texts[c] != w);
            } else if c > index {
                assert(texts[index] != w);
            }
        }
    }
}

} // verus!
