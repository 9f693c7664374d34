//! The tokenizer: splits a text into runs of letters and digits, runs of
//! punctuation and single unrecognised characters, and drops whitespace.
//!
//! A text is modelled as its sequence of characters (`Seq<char>`), and every
//! offset in this module counts characters, not bytes.

use vstd::prelude::*;

verus! {

/// The lexical class of a token.
#[derive(Debug, Clone, Copy, PartialEq, Eq, Structural)]
pub enum Token {
    /// A maximal run of ASCII letters and digits.
    Text,
    /// A maximal run of characters out of `()[]{},.:;"'`.
    Punctuation,
    /// One character that is neither whitespace nor part of the two classes above.
    Error,
}

/// A token found in a text: its class and the half-open range of character
/// offsets that it covers.
#[derive(Debug, Clone, Copy, PartialEq, Eq, Structural)]
pub struct Lexeme {
    pub kind: Token,
    pub start: usize,
    pub end: usize,
}

/// ASCII letters and digits.
pub open spec fn is_text_char(c: char) -> bool {
    ('a' <= c && c <= 'z') || ('A' <= c && c <= 'Z') || ('0' <= c && c <= '9')
}

/// The punctuation set `()[]{},.:;"'`.
pub open spec fn is_punctuation_char(c: char) -> bool {
    c == '(' || c == ')' || c == '[' || c == ']' || c == '{' || c == '}' || c == ',' || c == '.'
        || c == ':' || c == ';' || c == '"' || c == '\''
}

/// Space, tab, line feed, carriage return and form feed.
pub open spec fn is_space_char(c: char) -> bool {
    c == ' ' || c == '\t' || c == '\n' || c == '\r' || c == '\x0c'
}

/// The class of the token that a character belongs to; `None` for whitespace,
/// which belongs to no token.
pub open spec fn kind_of(c: char) -> Option<Token> {
    if is_text_char(c) {
        Some(Token::Text)
    } else if is_punctuation_char(c) {
        Some(Token::Punctuation)
    } else if is_space_char(c) {
        None
    } else {
        Some(Token::Error)
    }
}

/// Whether the token `t` covers offset `k`.
pub open spec fn covers(t: Lexeme, k: int) -> bool {
    t.start <= k < t.end
}

/// Whether `t` is a token of the text `s`: a non-empty range of characters of
/// its class. A `Text` or `Punctuation` token cannot be extended to either
/// side; an `Error` token is exactly one character long.
pub open spec fn is_token_of(s: Seq<char>, t: Lexeme) -> bool {
    &&& t.start < t.end <= s.len()
    &&& forall|k: int| t.start <= k < t.end ==> kind_of(#[trigger] s[k]) == Some(t.kind)
    &&& t.kind == Token::Error ==> t.end == t.start + 1
    &&& t.kind != Token::Error && t.end < s.len() ==> kind_of(s[t.end as int]) != Some(t.kind)
    &&& t.kind != Token::Error && t.start > 0 ==> kind_of(s[t.start - 1]) != Some(t.kind)
}

/// Whether `tokens` is the tokenization of the text `s`: every entry is a token
/// of `s`, the entries come in text order without overlap, and every character
/// that is not whitespace lies in one of them.
pub open spec fn is_tokenization(s: Seq<char>, tokens: Seq<Lexeme>) -> bool {
    &&& forall|i: int| 0 <= i < tokens.len() ==> is_token_of(s, #[trigger] tokens[i])
    &&& forall|i: int, j: int|
        0 <= i < j < tokens.len() ==> (#[trigger] tokens[i]).end <= (#[trigger] tokens[j]).start
    &&& forall|k: int|
        0 <= k < s.len() && !is_space_char(#[trigger] s[k]) ==> exists|i: int|
            0 <= i < tokens.len() && covers(#[trigger] tokens[i], k)
}

/// Whether a token may start at offset `p` of `s`: `p` does not lie inside a
/// run of text or of punctuation.
pub open spec fn is_boundary(s: Seq<char>, p: int) -> bool {
    &&& 0 <= p <= s.len()
    &&& 0 < p < s.len() && kind_of(s[p]) != Some(Token::Error) ==> kind_of(s[p - 1]) != kind_of(
        s[p],
    ) || kind_of(s[p]) is None
}

/// Whether `c` is an ASCII letter or digit.
pub fn is_text(c: char) -> (r: bool)
    ensures
        r == is_text_char(c),
{
    ('a' <= c && c <= 'z') || ('A' <= c && c <= 'Z') || ('0' <= c && c <= '9')
}

/// Whether `c` is one of `()[]{},.:;"'`.
pub fn is_punctuation(c: char) -> (r: bool)
    ensures
        r == is_punctuation_char(c),
{
    c == '(' || c == ')' || c == '[' || c == ']' || c == '{' || c == '}' || c == ',' || c == '.'
        || c == ':' || c == ';' || c == '"' || c == '\''
}

/// Whether `c` is a space, a tab, a line feed, a carriage return or a form feed.
pub fn is_space(c: char) -> (r: bool)
    ensures
        r == is_space_char(c),
{
    c == ' ' || c == '\t' || c == '\n' || c == '\r' || c == '\x0c'
}

/// Classifies one character.
pub fn classify(c: char) -> (r: Option<Token>)
    ensures
        r == kind_of(c),
{
    if is_text(c) {
        Some(Token::Text)
    } else if is_punctuation(c) {
        Some(Token::Punctuation)
    } else if is_space(c) {
        None
    } else {
        Some(Token::Error)
    }
}

/// The standard library's `String::push`, taken on trust: after the call the
/// string holds the characters that it held before, followed by `ch`.
pub assume_specification[ String::push ](s: &mut String, ch: char)
    ensures
        final(s)@ == old(s)@.push(ch),
;

/// A cursor over a text that hands out its tokens one by one.
#[derive(Debug)]
pub struct Lexer {
    chars: Vec<char>,
    pos: usize,
}

impl Token {
    /// A lexer at the beginning of `text`.
    pub fn lexer(text: &str) -> (lexer: Lexer)
        ensures
            lexer.wf(),
            lexer.source() == text@,
            lexer.position() == 0,
    {
        Lexer::new(text)
    }
}

impl Lexer {
    /// The text that is being read.
    pub closed spec fn source(&self) -> Seq<char> {
        self.chars@
    }

    /// The offset at which the search for the next token starts.
    pub closed spec fn position(&self) -> nat {
        self.pos as nat
    }

    /// The cursor stands inside the text, on a place where a token may start.
    pub open spec fn wf(&self) -> bool {
        is_boundary(self.source(), self.position() as int)
    }

    /// A lexer at the beginning of `text`.
    pub fn new(text: &str) -> (lexer: Lexer)
        ensures
            lexer.wf(),
            lexer.source() == text@,
            lexer.position() == 0,
    {
        let mut chars: Vec<char> = Vec::new();
        let rest = text.chars();
        for c in it: rest
            invariant
                it.seq() == text@,
                chars@ == it.seq().take(it.index() as int),
        {
            chars.push(c);
        }
        Lexer { chars, pos: 0 }
    }

    /// Moves the cursor back to the beginning of the text.
    pub fn restart(&mut self)
        ensures
            final(self).wf(),
            final(self).source() == old(self).source(),
            final(self).position() == 0,
    {
        self.pos = 0;
    }

    /// The number of characters of the text.
    pub fn source_len(&self) -> (n: usize)
        ensures
            n == self.source().len(),
    {
        self.chars.len()
    }

    /// The offset of the cursor.
    pub fn offset(&self) -> (p: usize)
        ensures
            p == self.position(),
    {
        self.pos
    }

    /// The characters that `lexeme` covers.
    pub fn slice(&self, lexeme: &Lexeme) -> (text: String)
        requires
            lexeme.start <= lexeme.end <= self.source().len(),
        ensures
            text@ == self.source().subrange(lexeme.start as int, lexeme.end as int),
    {
        let mut text = String::new();
        let mut i: usize = lexeme.start;
        while i < lexeme.end
            invariant
                lexeme.start <= i <= lexeme.end <= self.chars.len(),
                text@ == self.chars@.subrange(lexeme.start as int, i as int),
            decreases lexeme.end - i,
        {
            text.push(self.chars[i]);
            i += 1;
        }
        text
    }

    /// Skips whitespace and reads the next token. Returns `None`, with the
    /// cursor at the end, when only whitespace is left.
    pub fn next_token(&mut self) -> (r: Option<Lexeme>)
        requires
            old(self).wf(),
        ensures
            final(self).wf(),
            final(self).source() == old(self).source(),
            match r {
                Some(t) => {
                    &&& is_token_of(old(self).source(), t)
                    &&& old(self).position() <= t.start
                    &&& forall|k: int|
                        old(self).position() <= k < t.start ==> is_space_char(
                            #[trigger] old(self).source()[k],
                        )
                    &&& final(self).position() == t.end
                },
                None => {
                    &&& forall|k: int|
                        old(self).position() <= k < old(self).source().len() ==> is_space_char(
                            #[trigger] old(self).source()[k],
                        )
                    &&& final(self).position() == old(self).source().len()
                },
            },
    {
        let n = self.chars.len();
        let mut start: usize = self.pos;
        while start < n && is_space(self.chars[start])
            invariant
                n == self.chars.len(),
                self.pos <= start <= n,
                forall|k: int| self.pos <= k < start ==> is_space_char(#[trigger] self.chars@[k]),
            decreases n - start,
        {
            start += 1;
        }
        if start >= n {
            self.pos = n;
            return None;
        }
        let first = self.chars[start];
        let kind = if is_text(first) {
            Token::Text
        } else if is_punctuation(first) {
            Token::Punctuation
        } else {
            Token::Error
        };
        let mut end: usize = start + 1;
        if kind != Token::Error {
            while end < n && classify(self.chars[end]) == Some(kind)
                invariant
                    n == self.chars.len(),
                    start < end <= n,
                    kind != Token::Error,
                    forall|k: int| start <= k < end ==> kind_of(#[trigger] self.chars@[k]) == Some(kind),
                decreases n - end,
            {
                end += 1;
            }
        }
        self.pos = end;
        Some(Lexeme { kind, start, end })
    }
}

/// Whether `tokens` is the tokenization of the first `pos` characters of
/// `s`, as the lexer has it after it has read that far: every entry is a token
/// of `s` that ends at or before `pos`, the entries come in text order without
/// overlap, and every character before `pos` that is not whitespace lies in
/// one of them.
pub open spec fn is_tokenization_upto(s: Seq<char>, tokens: Seq<Lexeme>, pos: int) -> bool {
    &&& 0 <= pos <= s.len()
    &&& forall|i: int| 0 <= i < tokens.len() ==> is_token_of(s, #[trigger] tokens[i])
    &&& forall|i: int| 0 <= i < tokens.len() ==> (#[trigger] tokens[i]).end <= pos
    &&& forall|i: int, j: int|
        0 <= i < j < tokens.len() ==> (#[trigger] tokens[i]).end <= (#[trigger] tokens[j]).start
    &&& forall|k: int|
        0 <= k < pos && !is_space_char(#[trigger] s[k]) ==> exists|i: int|
            0 <= i < tokens.len() && covers(#[trigger] tokens[i], k)
}

/// A token that follows the tokens read so far, with whitespace only in
/// between, extends them.
pub proof fn lemma_tokenization_extends(s: Seq<char>, tokens: Seq<Lexeme>, pos: int, t: Lexeme)
    requires
        is_tokenization_upto(s, tokens, pos),
        is_token_of(s, t),
        pos <= t.start,
        forall|k: int| pos <= k < t.start ==> is_space_char(#[trigger] s[k]),
    ensures
        is_tokenization_upto(s, tokens.push(t), t.end as int),
        tokens.len() < t.end,
{
    let extended = tokens.push(t);
    let last = tokens.len() as int;
    assert(extended[last] == t);
    assert forall|k: int|
        0 <= k < t.end && !is_space_char(#[trigger] s[k]) implies exists|i: int|
        0 <= i < extended.len() && covers(#[trigger] extended[i], k) by {
        if k < pos {
            let i = choose|i: int| 0 <= i < tokens.len() && covers(tokens[i], k);
            assert(covers(extended[i], k));
        } else {
            assert(covers(extended[last], k));
        }
    }
    lemma_count_bounded(s, tokens, pos);
}

/// Tokens are not empty and do not overlap, so there are at most as many of
/// them as characters read.
pub proof fn lemma_count_bounded(s: Seq<char>, tokens: Seq<Lexeme>, pos: int)
    requires
        is_tokenization_upto(s, tokens, pos),
    ensures
        tokens.len() <= pos,
        tokens.len() > 0 ==> tokens.len() <= tokens.last().end,
    decreases tokens.len(),
{
    if tokens.len() > 0 {
        let t = tokens.last();
        let rest = tokens.drop_last();
        assert(is_token_of(s, t));
        assert forall|k: int|
            0 <= k < t.start && !is_space_char(#[trigger] s[k]) implies exists|i: int|
            0 <= i < rest.len() && covers(#[trigger] rest[i], k) by {
            let i = choose|i: int| 0 <= i < tokens.len() && covers(tokens[i], k);
            assert(covers(rest[i], k));
        }
        assert forall|i: int| 0 <= i < rest.len() implies (#[trigger] rest[i]).end <= t.start by {
            assert(tokens[i].end <= tokens[tokens.len() - 1].start);
        }
        assert forall|i: int| 0 <= i < rest.len() implies is_token_of(s, #[trigger] rest[i]) by {
            assert(is_token_of(s, tokens[i]));
        }
        assert forall|i: int, j: int| 0 <= i < j < rest.len() implies (#[trigger] rest[i]).end <= (
        #[trigger] rest[j]).start by {
            assert(tokens[i].end <= tokens[j].start);
        }
        lemma_count_bounded(s, rest, t.start as int);
    }
}

/// Once only whitespace is left, the tokens read so far are the tokenization
/// of the whole text.
pub proof fn lemma_tokenization_complete(s: Seq<char>, tokens: Seq<Lexeme>, pos: int)
    requires
        is_tokenization_upto(s, tokens, pos),
        forall|k: int| pos <= k < s.len() ==> is_space_char(#[trigger] s[k]),
    ensures
        is_tokenization(s, tokens),
        tokens == tokens_of(s),
{
    lemma_tokenization_unique(s, tokens, tokens_of(s));
}

/// Reads `text` to its end and returns its tokens in text order.
pub fn tokenize(text: &str) -> (tokens: Vec<Lexeme>)
    ensures
        is_tokenization(text@, tokens@),
        tokens@ == tokens_of(text@),
{
    let mut lexer = Lexer::new(text);
    let mut tokens: Vec<Lexeme> = Vec::new();
    loop
        invariant
            lexer.wf(),
            lexer.source() == text@,
            is_tokenization_upto(text@, tokens@, lexer.position() as int),
        ensures
            is_tokenization(text@, tokens@),
            tokens@ == tokens_of(text@),
        decreases text@.len() - lexer.position(),
    {
        let ghost from = lexer.position() as int;
        match lexer.next_token() {
            None => {
                proof {
                    lemma_tokenization_complete(text@, tokens@, from);
                }
                break ;
            },
            Some(t) => {
                proof {
                    lemma_tokenization_extends(text@, tokens@, from, t);
                }
                tokens.push(t);
            },
        }
    }
    tokens
}

/// The text and punctuation tokens among `tokens`, in order.
pub open spec fn matched_tokens(tokens: Seq<Lexeme>) -> Seq<Lexeme> {
    tokens.filter(|t: Lexeme| t.kind != Token::Error)
}

/// One more token is added to the text and punctuation tokens unless it is
/// an error token.
pub proof fn lemma_matched_tokens_push(tokens: Seq<Lexeme>, t: Lexeme)
    ensures
        t.kind != Token::Error ==> matched_tokens(tokens.push(t)) == matched_tokens(tokens).push(t),
        t.kind == Token::Error ==> matched_tokens(tokens.push(t)) == matched_tokens(tokens),
{
    reveal(Seq::filter);
    assert(tokens.push(t).drop_last() =~= tokens);
}

/// Reads `text` to its end and returns the class and the slice of each text
/// and punctuation token, in text order. Unrecognised characters are left out.
pub fn token_slices(text: &str) -> (pairs: Vec<(Token, String)>)
    ensures
        pairs.len() == matched_tokens(tokens_of(text@)).len(),
        forall|i: int|
            0 <= i < pairs.len() ==> {
                let t = matched_tokens(tokens_of(text@))[i];
                &&& (#[trigger] pairs[i]).0 == t.kind
                &&& pairs[i].1@ == text@.subrange(t.start as int, t.end as int)
            },
{
    let mut lexer = Lexer::new(text);
    let mut pairs: Vec<(Token, String)> = Vec::new();
    let ghost mut seen: Seq<Lexeme> = Seq::empty();
    proof {
        reveal(Seq::filter);
    }
    loop
        invariant
            lexer.wf(),
            lexer.source() == text@,
            is_tokenization_upto(text@, seen, lexer.position() as int),
            pairs.len() == matched_tokens(seen).len(),
            forall|i: int|
                0 <= i < pairs.len() ==> {
                    let t = matched_tokens(seen)[i];
                    &&& (#[trigger] pairs[i]).0 == t.kind
                    &&& pairs[i].1@ == text@.subrange(t.start as int, t.end as int)
                },
        ensures
            seen == tokens_of(text@),
            pairs.len() == matched_tokens(seen).len(),
            forall|i: int|
                0 <= i < pairs.len() ==> {
                    let t = matched_tokens(seen)[i];
                    &&& (#[trigger] pairs[i]).0 == t.kind
                    &&& pairs[i].1@ == text@.subrange(t.start as int, t.end as int)
                },
        decreases text@.len() - lexer.position(),
    {
        let ghost from = lexer.position() as int;
        match lexer.next_token() {
            None => {
                proof {
                    lemma_tokenization_complete(text@, seen, from);
                }
                break ;
            },
            Some(t) => {
                proof {
                    lemma_tokenization_extends(text@, seen, from, t);
                    lemma_matched_tokens_push(seen, t);
                }
                if t.kind != Token::Error {
                    let slice = lexer.slice(&t);
                    pairs.push((t.kind, slice));
                }
                proof {
                    seen = seen.push(t);
                }
            },
        }
    }
    pairs
}

/// Whether a character belongs to one of the two classes that have a slice of
/// their own: text and punctuation.
pub open spec fn is_matched_char(c: char) -> bool {
    is_text_char(c) || is_punctuation_char(c)
}

/// The text `s` without its whitespace and without its unrecognised characters.
pub open spec fn matched_chars(s: Seq<char>) -> Seq<char> {
    s.filter(|c: char| is_matched_char(c))
}

/// The characters that `t` stands for: its slice of `s` for a text or
/// punctuation token, nothing for an error token.
pub open spec fn slice_of(s: Seq<char>, t: Lexeme) -> Seq<char> {
    if t.kind == Token::Error {
        Seq::empty()
    } else {
        s.subrange(t.start as int, t.end as int)
    }
}

/// The slices of the text and punctuation tokens among `tokens`, joined in order.
pub open spec fn joined_slices(s: Seq<char>, tokens: Seq<Lexeme>) -> Seq<char>
    decreases tokens.len(),
{
    if tokens.len() == 0 {
        Seq::empty()
    } else {
        joined_slices(s, tokens.drop_last()) + slice_of(s, tokens.last())
    }
}

proof fn lemma_filter_keeps_all(s: Seq<char>, pred: spec_fn(char) -> bool)
    requires
        forall|k: int| 0 <= k < s.len() ==> pred(#[trigger] s[k]),
    ensures
        s.filter(pred) == s,
    decreases s.len(),
{
    reveal(Seq::filter);
    if s.len() > 0 {
        lemma_filter_keeps_all(s.drop_last(), pred);
        assert(s.drop_last().push(s.last()) =~= s);
    }
}

proof fn lemma_filter_keeps_none(s: Seq<char>, pred: spec_fn(char) -> bool)
    requires
        forall|k: int| 0 <= k < s.len() ==> !pred(#[trigger] s[k]),
    ensures
        s.filter(pred) == Seq::<char>::empty(),
    decreases s.len(),
{
    reveal(Seq::filter);
    if s.len() > 0 {
        lemma_filter_keeps_none(s.drop_last(), pred);
    }
}

/// Between the end of one token and the start of the next, and after the last
/// token, a tokenized text holds whitespace only.
proof fn lemma_gap_is_space(s: Seq<char>, tokens: Seq<Lexeme>, n: int, k: int)
    requires
        is_tokenization(s, tokens),
        0 <= n <= tokens.len(),
        0 <= k < s.len(),
        n > 0 ==> tokens[n - 1].end <= k,
        n < tokens.len() ==> k < tokens[n].start,
    ensures
        is_space_char(s[k]),
{
    if !is_space_char(s[k]) {
        let i = choose|i: int| 0 <= i < tokens.len() && covers(tokens[i], k);
        if i < n {
            if i < n - 1 {
                assert(tokens[i].end <= tokens[n - 1].start);
            }
            assert(is_token_of(s, tokens[n - 1]));
        } else {
            if i > n {
                assert(tokens[n].end <= tokens[i].start);
            }
            assert(is_token_of(s, tokens[n]));
        }
    }
}

/// The part of a tokenized text between the end of one token and the start
/// of the next holds no character of a text or punctuation token.
proof fn lemma_gap_unmatched(s: Seq<char>, tokens: Seq<Lexeme>, n: int, from: int, to: int)
    requires
        is_tokenization(s, tokens),
        0 <= n <= tokens.len(),
        0 <= from <= to <= s.len(),
        n > 0 ==> tokens[n - 1].end <= from,
        n < tokens.len() ==> to <= tokens[n].start,
    ensures
        matched_chars(s.subrange(from, to)) == Seq::<char>::empty(),
{
    let pred = |c: char| is_matched_char(c);
    let gap = s.subrange(from, to);
    assert forall|k: int| 0 <= k < gap.len() implies !pred(#[trigger] gap[k]) by {
        lemma_gap_is_space(s, tokens, n, from + k);
    }
    lemma_filter_keeps_none(gap, pred);
}

/// Of the characters of a token, the text and punctuation characters are
/// those of its slice.
proof fn lemma_token_matched(s: Seq<char>, t: Lexeme)
    requires
        is_token_of(s, t),
    ensures
        matched_chars(s.subrange(t.start as int, t.end as int)) == slice_of(s, t),
{
    let pred = |c: char| is_matched_char(c);
    let body = s.subrange(t.start as int, t.end as int);
    if t.kind == Token::Error {
        assert forall|k: int| 0 <= k < body.len() implies !pred(#[trigger] body[k]) by {
            assert(kind_of(s[t.start + k]) == Some(t.kind));
        }
        lemma_filter_keeps_none(body, pred);
    } else {
        assert forall|k: int| 0 <= k < body.len() implies pred(#[trigger] body[k]) by {
            assert(kind_of(s[t.start + k]) == Some(t.kind));
        }
        lemma_filter_keeps_all(body, pred);
    }
}

proof fn lemma_matched_chars_add(a: Seq<char>, b: Seq<char>)
    ensures
        matched_chars(a + b) == matched_chars(a) + matched_chars(b),
{
    Seq::filter_distributes_over_add(a, b, |c: char| is_matched_char(c));
}

/// The end of the token before position `n`, or the beginning of the text.
spec fn end_before(tokens: Seq<Lexeme>, n: int) -> int {
    if n <= 0 {
        0
    } else {
        tokens[n - 1].end as int
    }
}

proof fn lemma_joined_prefix(s: Seq<char>, tokens: Seq<Lexeme>, n: int)
    requires
        is_tokenization(s, tokens),
        0 <= n <= tokens.len(),
    ensures
        0 <= end_before(tokens, n) <= s.len(),
        joined_slices(s, tokens.take(n)) == matched_chars(s.take(end_before(tokens, n))),
    decreases n,
{
    if n == 0 {
        assert(s.take(0) =~= Seq::<char>::empty());
        lemma_filter_keeps_none(s.take(0), |c: char| is_matched_char(c));
    } else {
        lemma_joined_prefix(s, tokens, n - 1);
        let t = tokens[n - 1];
        let from = end_before(tokens, n - 1);
        assert(is_token_of(s, t));
        if n > 1 {
            assert(tokens[n - 2].end <= tokens[n - 1].start);
        }
        let head = s.take(from);
        let gap = s.subrange(from, t.start as int);
        let body = s.subrange(t.start as int, t.end as int);
        assert(tokens.take(n).drop_last() =~= tokens.take(n - 1));
        assert(tokens.take(n).last() == t);
        lemma_gap_unmatched(s, tokens, n - 1, from, t.start as int);
        lemma_token_matched(s, t);
        assert(s.take(t.end as int) =~= (head + gap) + body);
        lemma_matched_chars_add(head + gap, body);
        lemma_matched_chars_add(head, gap);
        assert(matched_chars(head) + Seq::<char>::empty() =~= matched_chars(head));
    }
}

/// Joining the slices of the text and punctuation tokens of a text, in order,
/// gives the text without its whitespace and without its unrecognised
/// characters.
pub proof fn lemma_tokens_reassemble(s: Seq<char>, tokens: Seq<Lexeme>)
    requires
        is_tokenization(s, tokens),
    ensures
        joined_slices(s, tokens) == matched_chars(s),
{
    let n = tokens.len() as int;
    let from = end_before(tokens, n);
    lemma_joined_prefix(s, tokens, n);
    assert(tokens.take(n) =~= tokens);
    let head = s.take(from);
    let tail = s.subrange(from, s.len() as int);
    lemma_gap_unmatched(s, tokens, n, from, s.len() as int);
    assert(s =~= head + tail);
    lemma_matched_chars_add(head, tail);
    assert(matched_chars(head) + Seq::<char>::empty() =~= matched_chars(head));
}

proof fn lemma_same_token(s: Seq<char>, a: Seq<Lexeme>, b: Seq<Lexeme>, i: int)
    requires
        is_tokenization(s, a),
        is_tokenization(s, b),
        0 <= i < a.len(),
        i < b.len(),
        i > 0 ==> a[i - 1] == b[i - 1],
    ensures
        a[i] == b[i],
{
    let ta = a[i];
    let tb = b[i];
    assert(is_token_of(s, ta));
    assert(is_token_of(s, tb));
    if i > 0 {
        assert(a[i - 1].end <= a[i].start);
        assert(b[i - 1].end <= b[i].start);
    }
    if ta.start < tb.start {
        lemma_gap_is_space(s, b, i, ta.start as int);
        assert(kind_of(s[ta.start as int]) == Some(ta.kind));
    }
    if tb.start < ta.start {
        lemma_gap_is_space(s, a, i, tb.start as int);
        assert(kind_of(s[tb.start as int]) == Some(tb.kind));
    }
    assert(kind_of(s[ta.start as int]) == Some(ta.kind));
    assert(kind_of(s[tb.start as int]) == Some(tb.kind));
    if ta.end < tb.end {
        assert(kind_of(s[ta.end as int]) == Some(tb.kind));
    }
    if tb.end < ta.end {
        assert(kind_of(s[tb.end as int]) == Some(ta.kind));
    }
}

proof fn lemma_same_prefix(s: Seq<char>, a: Seq<Lexeme>, b: Seq<Lexeme>, n: int)
    requires
        is_tokenization(s, a),
        is_tokenization(s, b),
        0 <= n <= a.len(),
        n <= b.len(),
    ensures
        forall|i: int| 0 <= i < n ==> a[i] == b[i],
    decreases n,
{
    if n > 0 {
        lemma_same_prefix(s, a, b, n - 1);
        lemma_same_token(s, a, b, n - 1);
    }
}

proof fn lemma_no_longer(s: Seq<char>, a: Seq<Lexeme>, b: Seq<Lexeme>)
    requires
        is_tokenization(s, a),
        is_tokenization(s, b),
    ensures
        b.len() <= a.len(),
{
    let n = a.len() as int;
    if n < b.len() {
        lemma_same_prefix(s, a, b, n);
        let t = b[n];
        assert(is_token_of(s, t));
        if n > 0 {
            assert(b[n - 1].end <= b[n].start);
        }
        lemma_gap_is_space(s, a, n, t.start as int);
        assert(kind_of(s[t.start as int]) == Some(t.kind));
    }
}

/// A text has one tokenization only.
pub proof fn lemma_tokenization_unique(s: Seq<char>, a: Seq<Lexeme>, b: Seq<Lexeme>)
    requires
        is_tokenization(s, a),
        is_tokenization(s, b),
    ensures
        a == b,
{
    lemma_no_longer(s, a, b);
    lemma_no_longer(s, b, a);
    lemma_same_prefix(s, a, b, a.len() as int);
    assert(a =~= b);
}

/// The tokenization of `s`.
pub open spec fn tokens_of(s: Seq<char>) -> Seq<Lexeme> {
    choose|tokens: Seq<Lexeme>| is_tokenization(s, tokens)
}

} // verus!
