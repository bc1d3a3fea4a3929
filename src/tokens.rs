//! The tokenizer: turns source text into an ordered sequence of classified
//! spans that together cover the whole input.

use vstd::prelude::*;
use vstd::string::*;
use vstd::utf8::*;

verus! {

broadcast use vstd::utf8::group_utf8_lib;

/// The kind of a lexical token.
#[derive(Debug, Copy, Clone, PartialEq, Eq, Structural)]
pub enum TokenType {
    OpenBrace,
    CloseBrace,
    OpenBracket,
    CloseBracket,
    Comma,
    Colon,
    Whitespace,
    Newline,
    String,
    Number,
    Boolean,
    InvalidChar,
    Eof,
}

/// A classified span of the source text; `lex` borrows from the source.
#[derive(Debug, Copy, Clone, PartialEq, Eq)]
pub struct Token<'a> {
    pub tty: TokenType,
    pub lex: &'a str,
}

impl TokenType {
    pub open spec fn spec_is_whitespace(self) -> bool {
        self == TokenType::Whitespace || self == TokenType::Newline
    }

    /// True for the two kinds the parser skips: inline whitespace and newlines.
    #[verifier::when_used_as_spec(spec_is_whitespace)]
    pub fn is_whitespace(self) -> (r: bool)
        ensures
            r == self.spec_is_whitespace(),
    {
        match self {
            TokenType::Whitespace | TokenType::Newline => true,
            _ => false,
        }
    }
}

// ---------------------------------------------------------------------------
// The grammar, as spec functions over the remaining input bytes.

pub open spec fn is_digit(c: u8) -> bool {
    0x30 <= c && c <= 0x39
}

pub open spec fn is_blank(c: u8) -> bool {
    c == 0x20 || c == 0x09
}

/// Length of the run of ASCII digits that starts at `i`.
pub open spec fn digit_run(b: Seq<u8>, i: int) -> int
    decreases b.len() - i,
{
    if 0 <= i < b.len() && is_digit(b[i]) {
        1 + digit_run(b, i + 1)
    } else {
        0
    }
}

/// Length of the run of spaces and tabs that starts at `i`.
pub open spec fn blank_run(b: Seq<u8>, i: int) -> int
    decreases b.len() - i,
{
    if 0 <= i < b.len() && is_blank(b[i]) {
        1 + blank_run(b, i + 1)
    } else {
        0
    }
}

/// Length of the run of UTF-8 continuation bytes that starts at `i`.
pub open spec fn continuation_run(b: Seq<u8>, i: int) -> int
    decreases b.len() - i,
{
    if 0 <= i < b.len() && is_continuation_byte(b[i]) {
        1 + continuation_run(b, i + 1)
    } else {
        0
    }
}

/// The single-byte delimiters.
pub open spec fn punctuation_kind(c: u8) -> Option<TokenType> {
    if c == 0x7b {
        Some(TokenType::OpenBrace)
    } else if c == 0x7d {
        Some(TokenType::CloseBrace)
    } else if c == 0x5b {
        Some(TokenType::OpenBracket)
    } else if c == 0x5d {
        Some(TokenType::CloseBracket)
    } else if c == 0x2c {
        Some(TokenType::Comma)
    } else if c == 0x3a {
        Some(TokenType::Colon)
    } else {
        None
    }
}

/// `\n` or `\r\n` at the start of `b`; 0 when neither.
pub open spec fn newline_len(b: Seq<u8>) -> int {
    if b.len() >= 1 && b[0] == 0x0a {
        1
    } else if b.len() >= 2 && b[0] == 0x0d && b[1] == 0x0a {
        2
    } else {
        0
    }
}

pub open spec fn starts_with(b: Seq<u8>, w: Seq<u8>) -> bool {
    w.len() <= b.len() && b.subrange(0, w.len() as int) == w
}

/// `true` or `false` at the start of `b`; 0 when neither.
pub open spec fn boolean_len(b: Seq<u8>) -> int {
    if starts_with(b, seq![0x74u8, 0x72, 0x75, 0x65]) {
        4
    } else if starts_with(b, seq![0x66u8, 0x61, 0x6c, 0x73, 0x65]) {
        5
    } else {
        0
    }
}

/// Scans the body of a string literal from `i`: the end of the literal just
/// past its closing quote, or 0 if the literal is not terminated. A backslash
/// escapes the next byte unless that byte is a line feed.
pub open spec fn string_end(b: Seq<u8>, i: int) -> int
    decreases b.len() - i,
{
    if i < 0 || i >= b.len() {
        0
    } else if b[i] == 0x22 {
        i + 1
    } else if b[i] == 0x5c {
        if i + 1 < b.len() && b[i + 1] != 0x0a {
            string_end(b, i + 2)
        } else {
            0
        }
    } else {
        string_end(b, i + 1)
    }
}

/// A double-quoted string literal at the start of `b`; 0 when there is none.
pub open spec fn string_len(b: Seq<u8>) -> int {
    if b.len() >= 1 && b[0] == 0x22 {
        string_end(b, 1)
    } else {
        0
    }
}

/// A number literal at the start of `b`, taking the first of these that
/// matches: `-?D*\.D+`, `-?D+\.D*`, `-?D+` (D an ASCII digit); 0 when none.
pub open spec fn number_len(b: Seq<u8>) -> int {
    let s: int = if b.len() >= 1 && b[0] == 0x2d { 1 } else { 0 };
    let d = digit_run(b, s);
    let p = s + d;
    if p < b.len() && b[p] == 0x2e {
        let e = digit_run(b, p + 1);
        if e > 0 || d > 0 {
            p + 1 + e
        } else {
            0
        }
    } else if d > 0 {
        p
    } else {
        0
    }
}

/// The first token of a non-empty input: the rules are tried in a fixed
/// order and the first one that matches wins; a character that no rule
/// matches becomes an `InvalidChar` token on its own.
pub open spec fn next_token(b: Seq<u8>) -> (TokenType, int) {
    if punctuation_kind(b[0]) is Some {
        (punctuation_kind(b[0])->0, 1)
    } else if newline_len(b) > 0 {
        (TokenType::Newline, newline_len(b))
    } else if blank_run(b, 0) > 0 {
        (TokenType::Whitespace, blank_run(b, 0))
    } else if boolean_len(b) > 0 {
        (TokenType::Boolean, boolean_len(b))
    } else if string_len(b) > 0 {
        (TokenType::String, string_len(b))
    } else if number_len(b) > 0 {
        (TokenType::Number, number_len(b))
    } else {
        (TokenType::InvalidChar, 1 + continuation_run(b, 1))
    }
}

/// The whole token sequence of `b`, as (kind, lexeme bytes) pairs.
pub open spec fn lex(b: Seq<u8>) -> Seq<(TokenType, Seq<u8>)>
    decreases b.len(),
{
    if b.len() == 0 {
        seq![]
    } else {
        let n = next_token(b).1;
        proof {
            lemma_next_token_len(b);
        }
        seq![(next_token(b).0, b.subrange(0, n))] + lex(b.subrange(n, b.len() as int))
    }
}

/// The bytes obtained by joining the lexemes in order.
pub open spec fn join_lexemes(ts: Seq<(TokenType, Seq<u8>)>) -> Seq<u8>
    decreases ts.len(),
{
    if ts.len() == 0 {
        seq![]
    } else {
        ts[0].1 + join_lexemes(ts.drop_first())
    }
}

/// The (kind, lexeme bytes) view of a token sequence.
pub open spec fn token_views<'a>(ts: Seq<Token<'a>>) -> Seq<(TokenType, Seq<u8>)> {
    ts.map_values(|t: Token<'a>| (t.tty, t.lex.spec_bytes()))
}

// ---------------------------------------------------------------------------
// Lemmas on the grammar.

proof fn lemma_digit_run(b: Seq<u8>, i: int)
    requires
        0 <= i <= b.len(),
    ensures
        0 <= digit_run(b, i) <= b.len() - i,
        forall|k: int| i <= k < i + digit_run(b, i) ==> is_digit(#[trigger] b[k]),
    decreases b.len() - i,
{
    if i < b.len() && is_digit(b[i]) {
        lemma_digit_run(b, i + 1);
    }
}

proof fn lemma_blank_run(b: Seq<u8>, i: int)
    requires
        0 <= i <= b.len(),
    ensures
        0 <= blank_run(b, i) <= b.len() - i,
        forall|k: int| i <= k < i + blank_run(b, i) ==> is_blank(#[trigger] b[k]),
    decreases b.len() - i,
{
    if i < b.len() && is_blank(b[i]) {
        lemma_blank_run(b, i + 1);
    }
}

proof fn lemma_continuation_run(b: Seq<u8>, i: int)
    requires
        0 <= i <= b.len(),
    ensures
        0 <= continuation_run(b, i) <= b.len() - i,
        i + continuation_run(b, i) < b.len() ==> !is_continuation_byte(
            b[i + continuation_run(b, i)],
        ),
        forall|k: int|
            i <= k < i + continuation_run(b, i) ==> is_continuation_byte(#[trigger] b[k]),
    decreases b.len() - i,
{
    if i < b.len() && is_continuation_byte(b[i]) {
        lemma_continuation_run(b, i + 1);
    }
}

proof fn lemma_string_end(b: Seq<u8>, i: int)
    requires
        0 <= i,
    ensures
        string_end(b, i) == 0 || (i < string_end(b, i) <= b.len() && b[string_end(b, i) - 1]
            == 0x22),
    decreases b.len() - i,
{
    if i < 0 || i >= b.len() {
    } else if b[i] == 0x22 {
    } else if b[i] == 0x5c {
        if i + 1 < b.len() && b[i + 1] != 0x0a {
            lemma_string_end(b, i + 2);
        }
    } else {
        lemma_string_end(b, i + 1);
    }
}

/// The first token of a non-empty input is non-empty and fits in the input.
pub proof fn lemma_next_token_len(b: Seq<u8>)
    requires
        b.len() > 0,
    ensures
        0 < next_token(b).1 <= b.len(),
{
    lemma_blank_run(b, 0);
    lemma_continuation_run(b, 1);
    lemma_string_end(b, 1);
    let s: int = if b.len() >= 1 && b[0] == 0x2d { 1 } else { 0 };
    lemma_digit_run(b, s);
    if s + digit_run(b, s) < b.len() {
        lemma_digit_run(b, s + digit_run(b, s) + 1);
    }
}


pub proof fn lemma_boundary_after_ascii(b: Seq<u8>, n: int)
    requires
        valid_utf8(b),
        0 < n <= b.len(),
        b[n - 1] < 0x80,
    ensures
        is_char_boundary(b, n),
{
    if n < b.len() {
        assert(!is_continuation_byte(b[n - 1]));
        is_char_boundary_iff_not_is_continuation_byte(b, n - 1);
        assert(is_char_boundary(b, n - 1));
        let t = b.subrange(n - 1, b.len() as int);
        assert(valid_utf8(t));
        assert(t[0] == b[n - 1]);
        assert(pop_first_scalar(t) =~= b.subrange(n, b.len() as int));
        let u = b.subrange(n, b.len() as int);
        assert(valid_utf8(u));
        assert(u[0] == b[n]);
        assert(!is_continuation_byte(b[n]));
    }
}

/// Joining the lexemes of `lex(b)` in order gives back `b` exactly.
pub proof fn lemma_lex_covers(b: Seq<u8>)
    ensures
        join_lexemes(lex(b)) == b,
    decreases b.len(),
{
    if b.len() > 0 {
        lemma_next_token_len(b);
        let n = next_token(b).1;
        let rest = b.subrange(n, b.len() as int);
        lemma_lex_covers(rest);
        let ts = lex(b);
        assert(ts.drop_first() =~= lex(rest));
        assert(b =~= b.subrange(0, n) + rest);
    }
}

/// A token whose last byte is a line feed is a newline token.
proof fn lemma_token_ending_in_line_feed(b: Seq<u8>)
    requires
        b.len() > 0,
        b[next_token(b).1 - 1] == 0x0a,
    ensures
        next_token(b).0 == TokenType::Newline,
{
    lemma_next_token_len(b);
    let n = next_token(b).1;
    lemma_blank_run(b, 0);
    lemma_continuation_run(b, 1);
    lemma_string_end(b, 1);
    let s: int = if b.len() >= 1 && b[0] == 0x2d { 1 } else { 0 };
    lemma_digit_run(b, s);
    let p = s + digit_run(b, s);
    if p < b.len() {
        lemma_digit_run(b, p + 1);
    }
    if punctuation_kind(b[0]) is None && newline_len(b) == 0 && blank_run(b, 0) == 0 {
        if boolean_len(b) == 4 {
            assert(b.subrange(0, 4)[3] == b[3]);
        } else if boolean_len(b) == 5 {
            assert(b.subrange(0, 5)[4] == b[4]);
        }
    }
}

/// A text that ends with a line feed ends with a newline token.
pub proof fn lemma_lex_last_newline(b: Seq<u8>)
    requires
        b.len() > 0,
        b.last() == 0x0a,
    ensures
        lex(b).len() > 0,
        lex(b).last().0 == TokenType::Newline,
    decreases b.len(),
{
    lemma_next_token_len(b);
    let n = next_token(b).1;
    let rest = b.subrange(n, b.len() as int);
    if n == b.len() {
        assert(rest.len() == 0);
        assert(lex(rest) =~= seq![]);
        lemma_token_ending_in_line_feed(b);
    } else {
        assert(rest.last() == b.last());
        lemma_lex_last_newline(rest);
        assert(lex(b).last() == lex(rest).last());
    }
}

/// There are no more tokens than bytes.
pub proof fn lemma_lex_len(b: Seq<u8>)
    ensures
        lex(b).len() <= b.len(),
    decreases b.len(),
{
    if b.len() > 0 {
        lemma_next_token_len(b);
        lemma_lex_len(b.subrange(next_token(b).1, b.len() as int));
    }
}

/// No token of `lex(b)` is empty.
pub proof fn lemma_lex_nonempty(b: Seq<u8>)
    ensures
        forall|i: int| 0 <= i < lex(b).len() ==> (#[trigger] lex(b)[i]).1.len() > 0,
    decreases b.len(),
{
    if b.len() > 0 {
        lemma_next_token_len(b);
        let n = next_token(b).1;
        let rest = b.subrange(n, b.len() as int);
        lemma_lex_nonempty(rest);
        let head = seq![(next_token(b).0, b.subrange(0, n))];
        assert forall|i: int| 0 <= i < lex(b).len() implies (#[trigger] lex(b)[i]).1.len() > 0 by {
            if i > 0 {
                assert(lex(b)[i] == lex(rest)[i - 1]);
            }
        }
    }
}

// ---------------------------------------------------------------------------
// Executable scanning.

fn digit_run_at(b: &[u8], i: usize) -> (n: usize)
    requires
        i <= b@.len(),
    ensures
        n == digit_run(b@, i as int),
{
    let mut j = i;
    while j < b.len() && 0x30 <= b[j] && b[j] <= 0x39
        invariant
            i <= j <= b@.len(),
            digit_run(b@, i as int) == (j - i) + digit_run(b@, j as int),
        decreases b@.len() - j,
    {
        j = j + 1;
    }
    j - i
}

fn blank_run_at(b: &[u8], i: usize) -> (n: usize)
    requires
        i <= b@.len(),
    ensures
        n == blank_run(b@, i as int),
{
    let mut j = i;
    while j < b.len() && (b[j] == 0x20 || b[j] == 0x09)
        invariant
            i <= j <= b@.len(),
            blank_run(b@, i as int) == (j - i) + blank_run(b@, j as int),
        decreases b@.len() - j,
    {
        j = j + 1;
    }
    j - i
}

fn continuation_run_at(b: &[u8], i: usize) -> (n: usize)
    requires
        i <= b@.len(),
    ensures
        n == continuation_run(b@, i as int),
{
    let mut j = i;
    while j < b.len() && 0x80 <= b[j] && b[j] <= 0xbf
        invariant
            i <= j <= b@.len(),
            continuation_run(b@, i as int) == (j - i) + continuation_run(b@, j as int),
        decreases b@.len() - j,
    {
        j = j + 1;
    }
    j - i
}

fn scan_string(b: &[u8]) -> (n: usize)
    requires
        b@.len() >= 1,
    ensures
        n == string_end(b@, 1),
{
    let mut j: usize = 1;
    loop
        invariant
            1 <= j <= b@.len(),
            string_end(b@, 1) == string_end(b@, j as int),
        decreases b@.len() - j,
    {
        if j >= b.len() {
            return 0;
        }
        if b[j] == 0x22 {
            return j + 1;
        }
        if b[j] == 0x5c {
            if j + 1 < b.len() && b[j + 1] != 0x0a {
                j = j + 2;
            } else {
                return 0;
            }
        } else {
            j = j + 1;
        }
    }
}

fn scan_number(b: &[u8]) -> (n: usize)
    ensures
        n == number_len(b@),
{
    let s: usize = if b.len() >= 1 && b[0] == 0x2d { 1 } else { 0 };
    let d = digit_run_at(b, s);
    proof {
        lemma_digit_run(b@, s as int);
    }
    let p = s + d;
    if p < b.len() && b[p] == 0x2e {
        let e = digit_run_at(b, p + 1);
        proof {
            lemma_digit_run(b@, p + 1);
        }
        if e > 0 || d > 0 {
            p + 1 + e
        } else {
            0
        }
    } else if d > 0 {
        p
    } else {
        0
    }
}

fn scan_boolean(b: &[u8]) -> (n: usize)
    ensures
        n == boolean_len(b@),
{
    if b.len() >= 4 && b[0] == 0x74 && b[1] == 0x72 && b[2] == 0x75 && b[3] == 0x65 {
        assert(b@.subrange(0, 4) =~= seq![0x74u8, 0x72, 0x75, 0x65]);
        4
    } else if b.len() >= 5 && b[0] == 0x66 && b[1] == 0x61 && b[2] == 0x6c && b[3] == 0x73 && b[4]
        == 0x65 {
        assert(!starts_with(b@, seq![0x74u8, 0x72, 0x75, 0x65])) by {
            if starts_with(b@, seq![0x74u8, 0x72, 0x75, 0x65]) {
                assert(b@.subrange(0, 4)[0] == b@[0]);
            }
        }
        assert(b@.subrange(0, 5) =~= seq![0x66u8, 0x61, 0x6c, 0x73, 0x65]);
        5
    } else {
        assert(!starts_with(b@, seq![0x74u8, 0x72, 0x75, 0x65])) by {
            if starts_with(b@, seq![0x74u8, 0x72, 0x75, 0x65]) {
                let w = seq![0x74u8, 0x72, 0x75, 0x65];
                assert(b@.subrange(0, 4)[0] == w[0]);
                assert(b@.subrange(0, 4)[1] == w[1]);
                assert(b@.subrange(0, 4)[2] == w[2]);
                assert(b@.subrange(0, 4)[3] == w[3]);
            }
        }
        assert(!starts_with(b@, seq![0x66u8, 0x61, 0x6c, 0x73, 0x65])) by {
            if starts_with(b@, seq![0x66u8, 0x61, 0x6c, 0x73, 0x65]) {
                let w = seq![0x66u8, 0x61, 0x6c, 0x73, 0x65];
                assert(b@.subrange(0, 5)[0] == w[0]);
                assert(b@.subrange(0, 5)[1] == w[1]);
                assert(b@.subrange(0, 5)[2] == w[2]);
                assert(b@.subrange(0, 5)[3] == w[3]);
                assert(b@.subrange(0, 5)[4] == w[4]);
            }
        }
        0
    }
}

fn punctuation_at(c: u8) -> (r: Option<TokenType>)
    ensures
        r == punctuation_kind(c),
{
    if c == 0x7b {
        Some(TokenType::OpenBrace)
    } else if c == 0x7d {
        Some(TokenType::CloseBrace)
    } else if c == 0x5b {
        Some(TokenType::OpenBracket)
    } else if c == 0x5d {
        Some(TokenType::CloseBracket)
    } else if c == 0x2c {
        Some(TokenType::Comma)
    } else if c == 0x3a {
        Some(TokenType::Colon)
    } else {
        None
    }
}

/// Scans the first token of a non-empty, well-formed UTF-8 input; the
/// token ends on a character boundary.
fn scan_token(b: &[u8]) -> (r: (TokenType, usize))
    requires
        b@.len() > 0,
        valid_utf8(b@),
    ensures
        r.0 == next_token(b@).0,
        r.1 == next_token(b@).1,
        is_char_boundary(b@, r.1 as int),
{
    let ghost bs = b@;
    proof {
        lemma_next_token_len(bs);
    }
    if let Some(k) = punctuation_at(b[0]) {
        proof {
            lemma_boundary_after_ascii(bs, 1);
        }
        return (k, 1);
    }
    if b[0] == 0x0a {
        proof {
            lemma_boundary_after_ascii(bs, 1);
        }
        return (TokenType::Newline, 1);
    }
    if b.len() >= 2 && b[0] == 0x0d && b[1] == 0x0a {
        proof {
            lemma_boundary_after_ascii(bs, 2);
        }
        return (TokenType::Newline, 2);
    }
    let w = blank_run_at(b, 0);
    if w > 0 {
        proof {
            lemma_blank_run(bs, 0);
            assert(is_blank(bs[w - 1]));
            lemma_boundary_after_ascii(bs, w as int);
        }
        return (TokenType::Whitespace, w);
    }
    let t = scan_boolean(b);
    if t > 0 {
        proof {
            if t == 4 {
                assert(bs.subrange(0, 4)[3] == bs[3]);
            } else {
                assert(bs.subrange(0, 5)[4] == bs[4]);
            }
            lemma_boundary_after_ascii(bs, t as int);
        }
        return (TokenType::Boolean, t);
    }
    let q = if b[0] == 0x22 { scan_string(b) } else { 0 };
    if q > 0 {
        proof {
            lemma_string_end(bs, 1);
            lemma_boundary_after_ascii(bs, q as int);
        }
        return (TokenType::String, q);
    }
    let m = scan_number(b);
    if m > 0 {
        proof {
            let s: int = if bs.len() >= 1 && bs[0] == 0x2d { 1 } else { 0 };
            lemma_digit_run(bs, s);
            let p = s + digit_run(bs, s);
            if p < bs.len() {
                lemma_digit_run(bs, p + 1);
            }
            lemma_boundary_after_ascii(bs, m as int);
        }
        return (TokenType::Number, m);
    }
    let c = continuation_run_at(b, 1);
    proof {
        lemma_continuation_run(bs, 1);
    }
    (TokenType::InvalidChar, 1 + c)
}

/// Splits `source` into tokens, left to right. Tokenizing is total: every
/// byte lands in exactly one token, and no token is empty.
pub fn tokenize<'a>(source: &'a str) -> (tokens: Vec<Token<'a>>)
    ensures
        token_views(tokens@) == lex(source.spec_bytes()),
        join_lexemes(token_views(tokens@)) == source.spec_bytes(),
        tokens@.len() <= source.spec_bytes().len(),
        forall|i: int|
            0 <= i < tokens@.len() ==> (#[trigger] tokens@[i]).lex.spec_bytes().len() > 0,
{
    let mut tokens: Vec<Token<'a>> = Vec::new();
    let mut rest: &'a str = source;
    assert(token_views(tokens@) =~= seq![]);
    loop
        invariant
            token_views(tokens@) + lex(rest.spec_bytes()) == lex(source.spec_bytes()),
        ensures
            rest.spec_bytes().len() == 0,
        decreases rest.spec_bytes().len(),
    {
        let b = rest.as_bytes();
        let ghost bs = b@;
        if b.len() == 0 {
            break;
        }
        let (tty, n) = scan_token(b);
        proof {
            lemma_next_token_len(bs);
        }
        let (head, tail) = rest.split_at(n);
        let ghost before = token_views(tokens@);
        tokens.push(Token { tty, lex: head });
        rest = tail;
        proof {
            assert(token_views(tokens@) =~= before.push((tty, head.spec_bytes())));
            assert(lex(bs) == seq![(tty, bs.subrange(0, n as int))] + lex(
                bs.subrange(n as int, bs.len() as int),
            ));
            assert(before + lex(bs) =~= token_views(tokens@) + lex(rest.spec_bytes()));
        }
    }
    proof {
        assert(rest.spec_bytes().len() == 0);
        assert(lex(rest.spec_bytes()) =~= seq![]);
        assert(token_views(tokens@) + lex(rest.spec_bytes()) =~= token_views(tokens@));
        assert(token_views(tokens@) =~= lex(source.spec_bytes()));
        lemma_lex_covers(source.spec_bytes());
        lemma_lex_nonempty(source.spec_bytes());
        lemma_lex_len(source.spec_bytes());
        assert forall|i: int| 0 <= i < tokens@.len() implies (
        #[trigger] tokens@[i]).lex.spec_bytes().len() > 0 by {
            assert(token_views(tokens@)[i] == lex(source.spec_bytes())[i]);
        }
    }
    tokens
}

} // verus!
