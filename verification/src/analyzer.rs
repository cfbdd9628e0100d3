//! Text analysis: tokenizers, token filters, and the analyzer compositions
//! the registry stores. Token streams are materialised eagerly: every
//! pipeline yields its tokens as one buffer walked by a cursor. Each
//! analyzer's output is pinned by a specification-level token function.

use vstd::prelude::*;
use vstd::string::StrSliceExecFns;
use vstd::string::StringExecFns;
use vstd::string::StringSliceAdditionalSpecFns;
use vstd::utf8::encode_utf8;
use crate::query_parser::{alnum, class_end};

verus! {

/// What a term's lowercase form is: the result of `str::to_lowercase`.
pub uninterp spec fn lower_of(s: Seq<char>) -> Seq<char>;

/// Relies on str::to_lowercase: the result depends on the characters alone.
#[verifier::external_body]
fn lowercase(s: &str) -> (r: String)
    ensures
        r@ == lower_of(s@),
{
    s.to_lowercase()
}

/// What a term's English stem is: the result of snowball stemming.
pub uninterp spec fn stem_of(s: Seq<char>) -> Seq<char>;

/// Relies on rust_stemmers::Stemmer::stem with the English algorithm: the
/// result depends on the input word alone.
#[verifier::external_body]
fn stem_en(word: &str) -> (r: String)
    ensures
        r@ == stem_of(word@),
{
    let stemmer = rust_stemmers::Stemmer::create(rust_stemmers::Algorithm::English);
    stemmer.stem(word).into_owned()
}

/// A token of the analysed text.
pub struct Token {
    /// Byte offset of the first character of the token.
    pub offset_from: usize,
    /// Byte offset one past the last character of the token.
    pub offset_to: usize,
    /// Position of the token, counted in tokens.
    pub position: usize,
    /// The text of the token.
    pub term: String,
}

impl Default for Token {
    fn default() -> (r: Token)
        ensures
            r.offset_from == 0,
            r.offset_to == 0,
            r.position == usize::MAX,
            r.term@ == Seq::<char>::empty(),
    {
        Token { offset_from: 0, offset_to: 0, position: usize::MAX, term: String::new() }
    }
}

/// The mathematical shape of a token.
pub struct TokenView {
    /// Byte offset of the first character.
    pub offset_from: int,
    /// Byte offset one past the last character.
    pub offset_to: int,
    /// Position in tokens.
    pub position: int,
    /// The token's text.
    pub term: Seq<char>,
}

pub open spec fn tview(t: Token) -> TokenView {
    TokenView {
        offset_from: t.offset_from as int,
        offset_to: t.offset_to as int,
        position: t.position as int,
        term: t.term@,
    }
}

pub open spec fn tviews(ts: Seq<Token>) -> Seq<TokenView> {
    Seq::new(ts.len(), |i: int| tview(ts[i]))
}

/// Byte offset of character index `i` within `text`, as the machine reports
/// it.
pub open spec fn byte_at(text: Seq<char>, i: int) -> int {
    (encode_utf8(text.take(i)).len() as usize) as int
}

/// Byte length of `text`, as the machine reports it.
pub open spec fn byte_len(text: Seq<char>) -> int {
    (encode_utf8(text).len() as usize) as int
}

/// A pull iterator of tokens.
pub trait TokenStream: Sized {
    /// Every token the stream yields, in order.
    spec fn stokens(&self) -> Seq<Token>;

    /// Cursor: `-1` before the first `advance`.
    spec fn scur(&self) -> int;

    /// Moves to the next token; `false` once the tokens are exhausted.
    fn advance(&mut self) -> (r: bool)
        requires
            -1 <= old(self).scur() <= old(self).stokens().len(),
            old(self).stokens().len() < usize::MAX,
        ensures
            final(self).stokens() == old(self).stokens(),
            final(self).scur() == if old(self).scur() < old(self).stokens().len() {
                old(self).scur() + 1
            } else {
                old(self).scur()
            },
            r == (final(self).scur() < final(self).stokens().len()),
    ;

    /// The current token.
    fn token(&self) -> (t: &Token)
        requires
            0 <= self.scur() < self.stokens().len(),
        ensures
            *t == self.stokens()[self.scur()],
    ;
}

/// A materialised token stream: the buffer and a cursor over it.
pub struct TokenBufferStream {
    tokens: Vec<Token>,
    cursor: usize,
}

impl TokenBufferStream {
    /// Wraps a token buffer, positioned before its first token.
    pub fn new(tokens: Vec<Token>) -> (r: TokenBufferStream)
        requires
            tokens@.len() < usize::MAX,
        ensures
            r.stokens() == tokens@,
            r.scur() == -1,
    {
        TokenBufferStream { tokens, cursor: 0 }
    }

    /// Hands the remaining buffer out.
    pub fn into_tokens(self) -> (r: Vec<Token>)
        ensures
            r@ == self.stokens(),
    {
        self.tokens
    }
}

impl TokenStream for TokenBufferStream {
    closed spec fn stokens(&self) -> Seq<Token> {
        self.tokens@
    }

    closed spec fn scur(&self) -> int {
        self.cursor - 1
    }

    fn advance(&mut self) -> (r: bool) {
        if self.cursor <= self.tokens.len() {
            self.cursor = self.cursor + 1;
        }
        self.cursor <= self.tokens.len()
    }

    fn token(&self) -> (t: &Token) {
        &self.tokens[self.cursor - 1]
    }
}

/// An analyzer: the composition of a tokenizer and its filters. `stokens_of`
/// is the analyzer's meaning: the tokens it produces for a text.
pub trait Analyzer: Sized + Clone {
    /// The stream type the analyzer produces.
    type TokenStreamImpl: TokenStream;

    /// The tokens this analyzer produces for `text`.
    spec fn stokens_of(&self, text: Seq<char>) -> Seq<TokenView>;

    /// Tokenises `text`: the stream yields exactly `stokens_of(text)`.
    fn token_stream(&self, text: &str) -> (r: Self::TokenStreamImpl)
        requires
            text@.len() < usize::MAX,
        ensures
            r.scur() == -1,
            r.stokens().len() < usize::MAX,
            tviews(r.stokens()) == self.stokens_of(text@),
    ;

    /// Chains a token filter onto this analyzer.
    fn filter<NewFilter: TokenFilterFactory<Self::TokenStreamImpl>>(self, new_filter: NewFilter)
        -> (r: ChainAnalyzer<NewFilter, Self>)
        ensures
            r == (ChainAnalyzer { head: new_filter, tail: self }),
    {
        ChainAnalyzer { head: new_filter, tail: self }
    }

    /// An independent copy with the same meaning.
    fn duplicate(&self) -> (r: Self)
        ensures
            forall|t: Seq<char>| #[trigger] r.stokens_of(t) == self.stokens_of(t),
    ;
}

/// Transforms one token stream into another: the filter side of a pipeline.
/// `stransform` is the filter's meaning on token sequences.
pub trait TokenFilterFactory<TailTokenStream: TokenStream>: Sized + Clone {
    /// The stream type the filter produces.
    type ResultTokenStream: TokenStream;

    /// The tokens this filter yields for the given input tokens.
    spec fn stransform(&self, tokens: Seq<TokenView>) -> Seq<TokenView>;

    /// Transforms the given stream: the result yields exactly
    /// `stransform` of the input's tokens.
    fn transform(&self, token_stream: TailTokenStream) -> (r: Self::ResultTokenStream)
        requires
            token_stream.scur() == -1,
            token_stream.stokens().len() < usize::MAX,
        ensures
            r.scur() == -1,
            r.stokens().len() < usize::MAX,
            tviews(r.stokens()) == self.stransform(tviews(token_stream.stokens())),
    ;

    /// An independent copy with the same meaning.
    fn duplicate(&self) -> (r: Self)
        ensures
            forall|ts: Seq<TokenView>| #[trigger] r.stransform(ts) == self.stransform(ts),
    ;
}

/// A filter chained in front of an analyzer.
#[derive(Clone)]
pub struct ChainAnalyzer<HeadTokenFilterFactory, TailAnalyzer> {
    /// The filter applied last.
    pub head: HeadTokenFilterFactory,
    /// The analyzer producing the filter's input.
    pub tail: TailAnalyzer,
}

impl<
    HeadTokenFilterFactory: TokenFilterFactory<TailAnalyzer::TokenStreamImpl>,
    TailAnalyzer: Analyzer,
> Analyzer for ChainAnalyzer<HeadTokenFilterFactory, TailAnalyzer> {
    type TokenStreamImpl = HeadTokenFilterFactory::ResultTokenStream;

    open spec fn stokens_of(&self, text: Seq<char>) -> Seq<TokenView> {
        self.head.stransform(self.tail.stokens_of(text))
    }

    fn token_stream(&self, text: &str) -> (r: Self::TokenStreamImpl) {
        let tail_token_stream = self.tail.token_stream(text);
        self.head.transform(tail_token_stream)
    }

    fn duplicate(&self) -> (r: Self) {
        ChainAnalyzer { head: self.head.duplicate(), tail: self.tail.duplicate() }
    }
}

/// Emits the whole text as a single token, unprocessed. Offsets are byte
/// offsets into the text.
#[derive(Clone)]
pub struct RawTokenizer;

/// The raw tokenizer's meaning: one token spanning the whole text.
pub open spec fn raw_tokens(text: Seq<char>) -> Seq<TokenView> {
    if text.len() == 0 {
        Seq::empty()
    } else {
        seq![
            TokenView { offset_from: 0, offset_to: byte_len(text), position: 0, term: text },
        ]
    }
}

impl Analyzer for RawTokenizer {
    type TokenStreamImpl = TokenBufferStream;

    open spec fn stokens_of(&self, text: Seq<char>) -> Seq<TokenView> {
        raw_tokens(text)
    }

    fn token_stream(&self, text: &str) -> (r: TokenBufferStream) {
        let mut tokens: Vec<Token> = Vec::new();
        let n = text.unicode_len();
        let byte_n = text.len();
        if n > 0 {
            tokens.push(
                Token {
                    offset_from: 0,
                    offset_to: byte_n,
                    position: 0,
                    term: String::from_str(text),
                },
            );
        }
        proof {
            if n > 0 {
                assert(tviews(tokens@) =~= raw_tokens(text@));
            } else {
                assert(text@ =~= Seq::<char>::empty());
                assert(tviews(tokens@) =~= raw_tokens(text@));
            }
        }
        TokenBufferStream::new(tokens)
    }

    fn duplicate(&self) -> (r: Self) {
        RawTokenizer
    }
}

/// Splits on non-alphanumeric characters: each maximal alphanumeric run is a
/// token, with byte offsets into the text.
#[derive(Clone)]
pub struct SimpleTokenizer;

/// The simple tokenizer's meaning: the maximal alphanumeric runs from
/// character `i` on, numbered from `pos`.
pub open spec fn simple_tokens(text: Seq<char>, i: int, pos: int) -> Seq<TokenView>
    decreases text.len() - i,
{
    if i < 0 || i >= text.len() {
        Seq::empty()
    } else if alnum(text[i]) {
        let e = class_end(text, i, false);
        if e <= i || e > text.len() {
            Seq::empty()
        } else {
            seq![
                TokenView {
                    offset_from: byte_at(text, i),
                    offset_to: byte_at(text, e),
                    position: pos,
                    term: text.subrange(i, e),
                },
            ] + simple_tokens(text, e, pos + 1)
        }
    } else {
        simple_tokens(text, i + 1, pos)
    }
}

impl Analyzer for SimpleTokenizer {
    type TokenStreamImpl = TokenBufferStream;

    open spec fn stokens_of(&self, text: Seq<char>) -> Seq<TokenView> {
        simple_tokens(text, 0, 0)
    }

    fn token_stream(&self, text: &str) -> (r: TokenBufferStream) {
        let ghost s = text@;
        let mut tokens: Vec<Token> = Vec::new();
        let n = text.unicode_len();
        let mut i: usize = 0;
        let mut position: usize = 0;
        proof {
            assert(tviews(tokens@) =~= Seq::<TokenView>::empty());
            assert(Seq::<TokenView>::empty() + simple_tokens(s, 0, 0) =~= simple_tokens(s, 0, 0));
        }
        while i < n
            invariant
                i <= n,
                n == s.len(),
                s == text@,
                n < usize::MAX,
                position <= tokens@.len(),
                tokens@.len() <= i,
                simple_tokens(s, 0, 0) == tviews(tokens@) + simple_tokens(
                    s,
                    i as int,
                    position as int,
                ),
            decreases n - i,
        {
            if text.get_char(i).is_alphanumeric() {
                let e = crate::query_parser::scan_word_end(text, i, n);
                proof {
                    assert(e > i);
                }
                let term_text = text.substring_char(i, e);
                let from_bytes = text.substring_char(0, i).len();
                let to_bytes = text.substring_char(0, e).len();
                let tok = Token {
                    offset_from: from_bytes,
                    offset_to: to_bytes,
                    position,
                    term: String::from_str(term_text),
                };
                proof {
                    assert(s.subrange(0, i as int) =~= s.take(i as int));
                    assert(s.subrange(0, e as int) =~= s.take(e as int));
                    let tv = TokenView {
                        offset_from: byte_at(s, i as int),
                        offset_to: byte_at(s, e as int),
                        position: position as int,
                        term: s.subrange(i as int, e as int),
                    };
                    assert(tview(tok) == tv);
                    lemma_tviews_push(tokens@, tok);
                    assert(simple_tokens(s, i as int, position as int) == seq![tv]
                        + simple_tokens(s, e as int, position + 1));
                    assert((tviews(tokens@) + seq![tv]) + simple_tokens(s, e as int, position + 1)
                        =~= tviews(tokens@) + (seq![tv] + simple_tokens(
                        s,
                        e as int,
                        position + 1,
                    )));
                }
                tokens.push(tok);
                position = position + 1;
                i = e;
            } else {
                proof {
                    assert(simple_tokens(s, i as int, position as int) == simple_tokens(
                        s,
                        i + 1,
                        position as int,
                    ));
                }
                i = i + 1;
            }
        }
        proof {
            assert(simple_tokens(s, n as int, position as int) =~= Seq::<TokenView>::empty());
            assert(tviews(tokens@) + Seq::<TokenView>::empty() =~= tviews(tokens@));
        }
        TokenBufferStream::new(tokens)
    }

    fn duplicate(&self) -> (r: Self) {
        SimpleTokenizer
    }
}

/// Emits one token per character that is not a space: a character-level
/// tokenizer for scripts written without separators. Byte offsets.
#[derive(Clone)]
pub struct JapaneseTokenizer;

/// The character tokenizer's meaning.
pub open spec fn char_tokens(text: Seq<char>, i: int, pos: int) -> Seq<TokenView>
    decreases text.len() - i,
{
    if i < 0 || i >= text.len() {
        Seq::empty()
    } else if text[i] == ' ' {
        char_tokens(text, i + 1, pos)
    } else {
        seq![
            TokenView {
                offset_from: byte_at(text, i),
                offset_to: byte_at(text, i + 1),
                position: pos,
                term: text.subrange(i, i + 1),
            },
        ] + char_tokens(text, i + 1, pos + 1)
    }
}

impl Analyzer for JapaneseTokenizer {
    type TokenStreamImpl = TokenBufferStream;

    open spec fn stokens_of(&self, text: Seq<char>) -> Seq<TokenView> {
        char_tokens(text, 0, 0)
    }

    fn token_stream(&self, text: &str) -> (r: TokenBufferStream) {
        let ghost s = text@;
        let mut tokens: Vec<Token> = Vec::new();
        let n = text.unicode_len();
        let mut i: usize = 0;
        let mut position: usize = 0;
        proof {
            assert(tviews(tokens@) =~= Seq::<TokenView>::empty());
            assert(Seq::<TokenView>::empty() + char_tokens(s, 0, 0) =~= char_tokens(s, 0, 0));
        }
        while i < n
            invariant
                i <= n,
                n == s.len(),
                s == text@,
                n < usize::MAX,
                position <= tokens@.len(),
                tokens@.len() <= i,
                char_tokens(s, 0, 0) == tviews(tokens@) + char_tokens(
                    s,
                    i as int,
                    position as int,
                ),
            decreases n - i,
        {
            let c = text.get_char(i);
            if c != ' ' {
                let term_text = text.substring_char(i, i + 1);
                let from_bytes = text.substring_char(0, i).len();
                let to_bytes = text.substring_char(0, i + 1).len();
                let tok = Token {
                    offset_from: from_bytes,
                    offset_to: to_bytes,
                    position,
                    term: String::from_str(term_text),
                };
                proof {
                    assert(s.subrange(0, i as int) =~= s.take(i as int));
                    assert(s.subrange(0, i + 1) =~= s.take(i + 1));
                    let tv = TokenView {
                        offset_from: byte_at(s, i as int),
                        offset_to: byte_at(s, i + 1),
                        position: position as int,
                        term: s.subrange(i as int, i + 1),
                    };
                    assert(tview(tok) == tv);
                    lemma_tviews_push(tokens@, tok);
                    assert((tviews(tokens@) + seq![tv]) + char_tokens(s, i + 1, position + 1)
                        =~= tviews(tokens@) + (seq![tv] + char_tokens(s, i + 1, position + 1)));
                }
                tokens.push(tok);
                position = position + 1;
            } else {
                proof {
                    assert(char_tokens(s, i as int, position as int) == char_tokens(
                        s,
                        i + 1,
                        position as int,
                    ));
                }
            }
            i = i + 1;
        }
        proof {
            assert(char_tokens(s, n as int, position as int) =~= Seq::<TokenView>::empty());
            assert(tviews(tokens@) + Seq::<TokenView>::empty() =~= tviews(tokens@));
        }
        TokenBufferStream::new(tokens)
    }

    fn duplicate(&self) -> (r: Self) {
        JapaneseTokenizer
    }
}

/// Filtering by pointwise-equal token predicates gives the same sequence.
pub proof fn lemma_filter_tokens_congruence(
    ts: Seq<TokenView>,
    p1: spec_fn(TokenView) -> bool,
    p2: spec_fn(TokenView) -> bool,
)
    requires
        forall|i: int| 0 <= i < ts.len() ==> (p1(#[trigger] ts[i]) == p2(ts[i])),
    ensures
        ts.filter(p1) == ts.filter(p2),
    decreases ts.len(),
{
    reveal(Seq::filter);
    if ts.len() > 0 {
        assert(forall|i: int|
            0 <= i < ts.drop_last().len() ==> (p1(#[trigger] ts.drop_last()[i]) == p2(
                ts.drop_last()[i],
            )));
        lemma_filter_tokens_congruence(ts.drop_last(), p1, p2);
        assert(p1(ts.last()) == p2(ts.last()));
    }
}

/// Appending a token appends its view.
proof fn lemma_tviews_push(ts: Seq<Token>, t: Token)
    ensures
        tviews(ts.push(t)) =~= tviews(ts) + seq![tview(t)],
{
}

} // verus!
// (continued: filters, and the storable analyzer interface)

verus! {

/// Drops tokens whose term is `limit` characters long or longer.
#[derive(Clone)]
pub struct RemoveLongFilter {
    limit: usize,
}

impl RemoveLongFilter {
    /// A filter keeping only terms shorter than `limit` characters.
    pub fn limit(limit: usize) -> (r: RemoveLongFilter)
        ensures
            r.slimit() == limit,
    {
        RemoveLongFilter { limit }
    }

    pub closed spec fn slimit(&self) -> int {
        self.limit as int
    }

    /// The configured length limit.
    pub fn limit_value(&self) -> (r: usize)
        ensures
            r == self.slimit(),
    {
        self.limit
    }
}

impl<TailTokenStream: TokenStream> TokenFilterFactory<TailTokenStream> for RemoveLongFilter {
    type ResultTokenStream = TokenBufferStream;

    open spec fn stransform(&self, tokens: Seq<TokenView>) -> Seq<TokenView> {
        tokens.filter(|t: TokenView| t.term.len() < self.slimit())
    }

    fn transform(&self, token_stream: TailTokenStream) -> (r: TokenBufferStream) {
        let ghost pred = |t: TokenView| t.term.len() < self.slimit();
        let mut kept: Vec<Token> = Vec::new();
        let mut ts = token_stream;
        let ghost its = tviews(ts.stokens());
        let ghost n0 = ts.stokens().len() as int;
        proof {
            assert(its.take(0) =~= Seq::<TokenView>::empty());
            reveal_with_fuel(Seq::filter, 2);
            assert(tviews(kept@) =~= its.take(0).filter(pred));
        }
        loop
            invariant_except_break
                ts.scur() < n0,
                tviews(kept@) == its.take(ts.scur() + 1).filter(pred),
            invariant
                -1 <= ts.scur() <= ts.stokens().len(),
                ts.stokens().len() == n0,
                its == tviews(ts.stokens()),
                pred == (|t: TokenView| t.term.len() < self.slimit()),
                n0 < usize::MAX,
                kept@.len() <= ts.scur() + 1,
                kept@.len() <= n0,
            ensures
                tviews(kept@) == its.filter(pred),
                kept@.len() <= n0,
            decreases ts.stokens().len() - ts.scur(),
        {
            let ghost c0 = ts.scur();
            if !ts.advance() {
                proof {
                    assert(its.take(c0 + 1) =~= its);
                }
                break;
            }
            let t = ts.token();
            proof {
                let c = ts.scur();
                assert(its.take(c + 1) =~= its.take(c) + seq![its[c]]);
                Seq::<TokenView>::filter_distributes_over_add(its.take(c), seq![its[c]], pred);
                reveal_with_fuel(Seq::filter, 3);
                assert(its[c] == tview(*t));
                if pred(its[c]) {
                    assert(seq![its[c]].filter(pred) =~= seq![its[c]]);
                } else {
                    assert(seq![its[c]].filter(pred) =~= Seq::<TokenView>::empty());
                    assert(its.take(c).filter(pred) + Seq::<TokenView>::empty() =~= its.take(
                        c,
                    ).filter(pred));
                }
            }
            if t.term.as_str().unicode_len() < self.limit {
                let copied = Token {
                    offset_from: t.offset_from,
                    offset_to: t.offset_to,
                    position: t.position,
                    term: t.term.clone(),
                };
                proof {
                    let ghost c = ts.scur();
                    lemma_tviews_push(kept@, copied);
                    assert(tview(copied) == its[c]);
                    assert(its[c].term == t.term@);
                    assert(pred(its[c]) == (its[c].term.len() < self.slimit()));
                    assert(pred(its[c]));
                    assert(tviews(kept@.push(copied)) =~= its.take(c + 1).filter(pred));
                }
                kept.push(copied);
            } else {
                proof {
                    let ghost c = ts.scur();
                    assert(its[c].term == t.term@);
                    assert(pred(its[c]) == (its[c].term.len() < self.slimit()));
                    assert(!pred(its[c]));
                }
            }
        }
        TokenBufferStream::new(kept)
    }

    fn duplicate(&self) -> (r: Self) {
        RemoveLongFilter { limit: self.limit }
    }
}

/// A token with its term mapped, offsets and position kept.
pub open spec fn with_term(t: TokenView, term: Seq<char>) -> TokenView {
    TokenView { offset_from: t.offset_from, offset_to: t.offset_to, position: t.position, term }
}

/// Lowercases every term.
#[derive(Clone)]
pub struct LowerCaser;

impl<TailTokenStream: TokenStream> TokenFilterFactory<TailTokenStream> for LowerCaser {
    type ResultTokenStream = TokenBufferStream;

    open spec fn stransform(&self, tokens: Seq<TokenView>) -> Seq<TokenView> {
        Seq::new(tokens.len(), |i: int| with_term(tokens[i], lower_of(tokens[i].term)))
    }

    fn transform(&self, token_stream: TailTokenStream) -> (r: TokenBufferStream) {
        let mut mapped: Vec<Token> = Vec::new();
        let mut ts = token_stream;
        let ghost its = tviews(ts.stokens());
        let ghost n0 = ts.stokens().len() as int;
        loop
            invariant_except_break
                ts.scur() < n0,
                mapped@.len() == ts.scur() + 1,
                tviews(mapped@) =~= Seq::new((ts.scur() + 1) as nat, |i: int| with_term(
                    its[i],
                    lower_of(its[i].term),
                )),
            invariant
                -1 <= ts.scur() <= ts.stokens().len(),
                ts.stokens().len() == n0,
                its == tviews(ts.stokens()),
                n0 < usize::MAX,
                mapped@.len() <= n0,
            ensures
                mapped@.len() <= n0,
                tviews(mapped@) =~= Seq::new(its.len(), |i: int| with_term(
                    its[i],
                    lower_of(its[i].term),
                )),
            decreases ts.stokens().len() - ts.scur(),
        {
            if !ts.advance() {
                break;
            }
            let t = ts.token();
            let lowered = lowercase(t.term.as_str());
            let tok = Token {
                offset_from: t.offset_from,
                offset_to: t.offset_to,
                position: t.position,
                term: lowered,
            };
            proof {
                lemma_tviews_push(mapped@, tok);
                assert(tview(tok) == with_term(its[ts.scur()], lower_of(its[ts.scur()].term)));
            }
            mapped.push(tok);
        }
        TokenBufferStream::new(mapped)
    }

    fn duplicate(&self) -> (r: Self) {
        LowerCaser
    }
}

/// Stems every term with the English snowball stemmer.
#[derive(Clone)]
pub struct Stemmer;

impl Stemmer {
    /// An English stemmer.
    pub fn new() -> (r: Stemmer) {
        Stemmer
    }
}

impl<TailTokenStream: TokenStream> TokenFilterFactory<TailTokenStream> for Stemmer {
    type ResultTokenStream = TokenBufferStream;

    open spec fn stransform(&self, tokens: Seq<TokenView>) -> Seq<TokenView> {
        Seq::new(tokens.len(), |i: int| with_term(tokens[i], stem_of(tokens[i].term)))
    }

    fn transform(&self, token_stream: TailTokenStream) -> (r: TokenBufferStream) {
        let mut mapped: Vec<Token> = Vec::new();
        let mut ts = token_stream;
        let ghost its = tviews(ts.stokens());
        let ghost n0 = ts.stokens().len() as int;
        loop
            invariant_except_break
                ts.scur() < n0,
                mapped@.len() == ts.scur() + 1,
                tviews(mapped@) =~= Seq::new((ts.scur() + 1) as nat, |i: int| with_term(
                    its[i],
                    stem_of(its[i].term),
                )),
            invariant
                -1 <= ts.scur() <= ts.stokens().len(),
                ts.stokens().len() == n0,
                its == tviews(ts.stokens()),
                n0 < usize::MAX,
                mapped@.len() <= n0,
            ensures
                mapped@.len() <= n0,
                tviews(mapped@) =~= Seq::new(its.len(), |i: int| with_term(
                    its[i],
                    stem_of(its[i].term),
                )),
            decreases ts.stokens().len() - ts.scur(),
        {
            if !ts.advance() {
                break;
            }
            let t = ts.token();
            let stemmed = stem_en(t.term.as_str());
            let tok = Token {
                offset_from: t.offset_from,
                offset_to: t.offset_to,
                position: t.position,
                term: stemmed,
            };
            proof {
                lemma_tviews_push(mapped@, tok);
                assert(tview(tok) == with_term(its[ts.scur()], stem_of(its[ts.scur()].term)));
            }
            mapped.push(tok);
        }
        TokenBufferStream::new(mapped)
    }

    fn duplicate(&self) -> (r: Self) {
        Stemmer
    }
}

/// Tokens with both offsets shifted by `off` bytes.
pub open spec fn shift_tokens(ts: Seq<TokenView>, off: int) -> Seq<TokenView> {
    Seq::new(
        ts.len(),
        |i: int| TokenView {
            offset_from: ts[i].offset_from + off,
            offset_to: ts[i].offset_to + off,
            position: ts[i].position,
            term: ts[i].term,
        },
    )
}

/// Every offset of every token lies within the machine's index range.
pub open spec fn tokens_in_range(ts: Seq<TokenView>) -> bool {
    forall|i: int|
        0 <= i < ts.len() ==> 0 <= (#[trigger] ts[i]).offset_from <= usize::MAX && 0
            <= ts[i].offset_to <= usize::MAX
}

/// The concatenation of per-text token streams from text `k` on, each text's
/// tokens shifted by the byte length of the texts before it.
pub open spec fn chained_tokens(
    f: spec_fn(Seq<char>) -> Seq<TokenView>,
    texts: Seq<Seq<char>>,
    k: int,
    off: int,
) -> Seq<TokenView>
    decreases texts.len() - k,
{
    if k < 0 || k >= texts.len() {
        Seq::empty()
    } else {
        shift_tokens(f(texts[k]), off) + chained_tokens(f, texts, k + 1, off + byte_len(texts[k]))
    }
}

/// The byte lengths of every text prefix stay within the machine's range.
pub open spec fn texts_fit(texts: Seq<Seq<char>>) -> bool
    decreases texts.len(),
{
    forall|k: int| 0 <= k <= texts.len() ==> 0 <= #[trigger] prefix_bytes(texts, k) <= usize::MAX
}

/// Total byte length of the first `k` texts.
pub open spec fn prefix_bytes(texts: Seq<Seq<char>>, k: int) -> int
    decreases k,
{
    if k <= 0 {
        0
    } else {
        prefix_bytes(texts, k - 1) + byte_len(texts[k - 1])
    }
}

/// The views of a string sequence.
pub open spec fn text_views(texts: Seq<String>) -> Seq<Seq<char>> {
    Seq::new(texts.len(), |i: int| texts[i]@)
}

/// An analyzer behind a uniform, storable interface: it yields materialised
/// token buffers whatever the pipeline's own stream type is. `stokens_of` is
/// the single-text meaning it inherits from the wrapped analyzer.
pub trait BoxedAnalyzer: Sized + Clone {
    /// The tokens produced for one text.
    spec fn stokens_of(&self, text: Seq<char>) -> Seq<TokenView>;

    /// Tokenises one text: exactly `stokens_of(text)`.
    fn token_stream(&self, text: &str) -> (r: TokenBufferStream)
        requires
            text@.len() < usize::MAX,
        ensures
            r.scur() == -1,
            tviews(r.stokens()) == self.stokens_of(text@),
    ;

    /// Tokenises several texts as one stream: the concatenation of the
    /// per-text streams, offsets shifted by the byte length of the texts
    /// before each — whenever those shifted offsets fit the machine's index
    /// range (they are clamped otherwise).
    fn token_stream_texts(&self, texts: &Vec<String>) -> (r: TokenBufferStream)
        requires
            forall|k: int| 0 <= k < texts@.len() ==> (#[trigger] texts@[k])@.len() < usize::MAX,
        ensures
            r.scur() == -1,
            texts_fit(text_views(texts@)) && tokens_in_range(
                chained_tokens(|t: Seq<char>| self.stokens_of(t), text_views(texts@), 0, 0),
            ) && chained_tokens(
                |t: Seq<char>| self.stokens_of(t),
                text_views(texts@),
                0,
                0,
            ).len() < usize::MAX ==> tviews(r.stokens()) == chained_tokens(
                |t: Seq<char>| self.stokens_of(t),
                text_views(texts@),
                0,
                0,
            ),
    ;

    /// An independent copy of the analyzer, with the same meaning.
    fn boxed_clone(&self) -> (r: Self)
        ensures
            forall|t: Seq<char>| #[trigger] r.stokens_of(t) == self.stokens_of(t),
    ;
}

/// The storable form of a statically typed analyzer.
#[derive(Clone)]
pub struct BoxableAnalyzer<A> {
    inner: A,
}

impl<A> BoxableAnalyzer<A> {
    /// The wrapped analyzer.
    pub closed spec fn sinner(&self) -> A {
        self.inner
    }

    /// A borrow of the wrapped analyzer.
    pub fn inner_ref(&self) -> (r: &A)
        ensures
            *r == self.sinner(),
    {
        &self.inner
    }
}

/// Wraps an analyzer for heterogeneous storage.
pub fn box_analyzer<A: Analyzer>(a: A) -> (r: BoxableAnalyzer<A>)
    ensures
        r.sinner() == a,
{
    BoxableAnalyzer { inner: a }
}

} // verus!
// (continued: duplication and the boxed implementation)

verus! {

/// Views of real tokens always lie within the machine's index range.
proof fn lemma_token_views_in_range(ts: Seq<Token>, off: int)
    requires
        0 <= off,
        forall|i: int|
            0 <= i < ts.len() ==> (#[trigger] ts[i]).offset_from + off <= usize::MAX && ts[i].offset_to
                + off <= usize::MAX,
    ensures
        tokens_in_range(shift_tokens(tviews(ts), off)),
{
}

/// Unshifted tokens are themselves.
proof fn lemma_shift_zero(ts: Seq<TokenView>)
    ensures
        shift_tokens(ts, 0) =~= ts,
{
}

/// Drains a stream into a buffer, offsets shifted by `offset` (clamped at the
/// machine's limit; no clamping occurs while the shifted offsets fit).
fn drain_stream<TS: TokenStream>(stream: TS, offset: usize, out: &mut Vec<Token>)
    requires
        stream.scur() == -1,
        stream.stokens().len() < usize::MAX,
    ensures
        tokens_in_range(shift_tokens(tviews(stream.stokens()), offset as int)) ==> tviews(
            final(out)@,
        ) == tviews(old(out)@) + shift_tokens(tviews(stream.stokens()), offset as int),
{
    let mut ts = stream;
    let ghost its = tviews(ts.stokens());
    let ghost n0 = ts.stokens().len() as int;
    let ghost shifted = shift_tokens(its, offset as int);
    proof {
        assert(shifted.take(0) =~= Seq::<TokenView>::empty());
        assert(tviews(old(out)@) + shifted.take(0) =~= tviews(old(out)@));
    }
    loop
        invariant_except_break
            ts.scur() < n0,
            tokens_in_range(shifted) ==> tviews(out@) == tviews(old(out)@) + shifted.take(
                ts.scur() + 1,
            ),
        invariant
            -1 <= ts.scur() <= ts.stokens().len(),
            ts.stokens().len() == n0,
            its == tviews(ts.stokens()),
            shifted == shift_tokens(its, offset as int),
            n0 < usize::MAX,
        ensures
            tokens_in_range(shifted) ==> tviews(out@) == tviews(old(out)@) + shifted,
        decreases ts.stokens().len() - ts.scur(),
    {
        let ghost c0 = ts.scur();
        if !ts.advance() {
            proof {
                assert(shifted.take(c0 + 1) =~= shifted);
            }
            break;
        }
        let t = ts.token();
        let from = if t.offset_from <= usize::MAX - offset {
            t.offset_from + offset
        } else {
            usize::MAX
        };
        let to = if t.offset_to <= usize::MAX - offset {
            t.offset_to + offset
        } else {
            usize::MAX
        };
        let tok = Token {
            offset_from: from,
            offset_to: to,
            position: t.position,
            term: t.term.clone(),
        };
        proof {
            let c = ts.scur();
            if tokens_in_range(shifted) {
                assert(shifted[c].offset_from <= usize::MAX && shifted[c].offset_to
                    <= usize::MAX);
                assert(tview(tok) == shifted[c]);
                lemma_tviews_push(out@, tok);
                assert(shifted.take(c + 1) =~= shifted.take(c).push(shifted[c]));
                assert(tviews(old(out)@) + shifted.take(c + 1) =~= (tviews(old(out)@)
                    + shifted.take(c)) + seq![shifted[c]]);
            }
        }
        out.push(tok);
    }
}

impl<A: Analyzer> BoxedAnalyzer for BoxableAnalyzer<A> {
    open spec fn stokens_of(&self, text: Seq<char>) -> Seq<TokenView> {
        self.sinner().stokens_of(text)
    }

    fn token_stream(&self, text: &str) -> (r: TokenBufferStream) {
        let stream = self.inner.token_stream(text);
        let ghost svs = tviews(stream.stokens());
        let mut out: Vec<Token> = Vec::new();
        proof {
            lemma_shift_zero(svs);
            lemma_token_views_in_range(stream.stokens(), 0);
        }
        drain_stream(stream, 0, &mut out);
        proof {
            assert(tviews(Seq::<Token>::empty()) =~= Seq::<TokenView>::empty());
            assert(Seq::<TokenView>::empty() + svs =~= svs);
            assert(out@.len() == svs.len()) by {
                assert(tviews(out@).len() == svs.len());
            }
        }
        TokenBufferStream::new(out)
    }

    fn token_stream_texts(&self, texts: &Vec<String>) -> (r: TokenBufferStream) {
        let ghost f = |t: Seq<char>| self.stokens_of(t);
        let ghost vtexts = text_views(texts@);
        let ghost fits = texts_fit(vtexts) && tokens_in_range(chained_tokens(f, vtexts, 0, 0))
            && chained_tokens(f, vtexts, 0, 0).len() < usize::MAX;
        let mut out: Vec<Token> = Vec::new();
        let mut total_offset: usize = 0;
        let mut k: usize = 0;
        let n = texts.len();
        proof {
            assert(tviews(out@) =~= Seq::<TokenView>::empty());
            if fits {
                assert(Seq::<TokenView>::empty() + chained_tokens(f, vtexts, 0, 0)
                    =~= chained_tokens(f, vtexts, 0, 0));
                assert(prefix_bytes(vtexts, 0) == 0);
            }
        }
        while k < n
            invariant
                k <= n,
                n == vtexts.len(),
                vtexts == text_views(texts@),
                f == |t: Seq<char>| self.stokens_of(t),
                fits == (texts_fit(vtexts) && tokens_in_range(chained_tokens(f, vtexts, 0, 0))
                    && chained_tokens(f, vtexts, 0, 0).len() < usize::MAX),
                forall|j: int| 0 <= j < texts@.len() ==> (#[trigger] texts@[j])@.len() < usize::MAX,
                fits ==> total_offset == prefix_bytes(vtexts, k as int) && chained_tokens(
                    f,
                    vtexts,
                    0,
                    0,
                ) == tviews(out@) + chained_tokens(f, vtexts, k as int, total_offset as int)
                    && tokens_in_range(
                    chained_tokens(f, vtexts, k as int, total_offset as int),
                ),
            decreases n - k,
        {
            let text = texts[k].as_str();
            let stream = self.inner.token_stream(text);
            let ghost seg = shift_tokens(f(vtexts[k as int]), total_offset as int);
            proof {
                if fits {
                    assert(chained_tokens(f, vtexts, k as int, total_offset as int) == seg
                        + chained_tokens(
                        f,
                        vtexts,
                        k + 1,
                        total_offset + byte_len(vtexts[k as int]),
                    ));
                    assert forall|i: int|
                        0 <= i < seg.len() implies 0 <= (#[trigger] seg[i]).offset_from
                        <= usize::MAX && 0 <= seg[i].offset_to <= usize::MAX by {
                        let whole = chained_tokens(f, vtexts, k as int, total_offset as int);
                        assert(whole[i] == seg[i]);
                    }
                    assert(tviews(stream.stokens()) == f(vtexts[k as int]));
                }
            }
            let ghost out0 = out@;
            drain_stream(stream, total_offset, &mut out);
            let tlen = text.len();
            proof {
                if fits {
                    assert(tviews(out@) == tviews(out0) + seg);
                    assert((tviews(out0) + seg) + chained_tokens(
                        f,
                        vtexts,
                        k + 1,
                        total_offset + byte_len(vtexts[k as int]),
                    ) =~= tviews(out0) + (seg + chained_tokens(
                        f,
                        vtexts,
                        k + 1,
                        total_offset + byte_len(vtexts[k as int]),
                    )));
                    assert(byte_len(vtexts[k as int]) == tlen);
                    assert(prefix_bytes(vtexts, k + 1) == prefix_bytes(vtexts, k as int)
                        + byte_len(vtexts[k as int]));
                    assert(0 <= prefix_bytes(vtexts, k + 1) <= usize::MAX);
                    assert forall|i: int|
                        0 <= i < chained_tokens(f, vtexts, k + 1, total_offset + tlen).len()
                        implies 0 <= (#[trigger] chained_tokens(
                        f,
                        vtexts,
                        k + 1,
                        total_offset + tlen,
                    )[i]).offset_from <= usize::MAX && 0 <= chained_tokens(
                        f,
                        vtexts,
                        k + 1,
                        total_offset + tlen,
                    )[i].offset_to <= usize::MAX by {
                        let whole = chained_tokens(f, vtexts, k as int, total_offset as int);
                        assert(whole[seg.len() + i] == chained_tokens(
                            f,
                            vtexts,
                            k + 1,
                            total_offset + tlen,
                        )[i]);
                    }
                }
            }
            total_offset = if total_offset <= usize::MAX - tlen {
                total_offset + tlen
            } else {
                usize::MAX
            };
            k = k + 1;
        }
        proof {
            if fits {
                assert(chained_tokens(f, vtexts, n as int, total_offset as int)
                    =~= Seq::<TokenView>::empty());
                assert(tviews(out@) + Seq::<TokenView>::empty() =~= tviews(out@));
            }
        }
        let m = out.len();
        if m == usize::MAX {
            // reachable only for inputs past the machine's limits, where the
            // concatenation contract does not apply; keeps the buffer within
            // the cursor's range
            proof {
                if fits {
                    assert(tviews(out@).len() == chained_tokens(f, vtexts, 0, 0).len());
                    assert(false);
                }
            }
            let _dropped = out.pop();
            TokenBufferStream::new(out)
        } else {
            TokenBufferStream::new(out)
        }
    }

    fn boxed_clone(&self) -> (r: Self) {
        BoxableAnalyzer { inner: self.inner.duplicate() }
    }
}

} // verus!
