//! The highlighting viewport: styled display lines built from tokens, and a
//! scroll offset into them.

use vstd::prelude::*;
use vstd::string::*;
use vstd::utf8::*;
use crate::tokens::{
    Token, TokenType, lemma_boundary_after_ascii, lemma_lex_covers, lemma_lex_last_newline,
    join_lexemes, lex, token_views,
};

verus! {

broadcast use vstd::utf8::group_utf8_lib;

/// The end of the line that starts at `i`: the next line feed, or the end.
pub open spec fn line_end(b: Seq<u8>, i: int) -> int
    decreases b.len() - i,
{
    if 0 <= i < b.len() && b[i] != 0x0a {
        line_end(b, i + 1)
    } else {
        i
    }
}

pub proof fn lemma_line_end(b: Seq<u8>, i: int)
    requires
        0 <= i <= b.len(),
    ensures
        i <= line_end(b, i) <= b.len(),
        line_end(b, i) < b.len() ==> b[line_end(b, i)] == 0x0a,
    decreases b.len() - i,
{
    if i < b.len() && b[i] != 0x0a {
        lemma_line_end(b, i + 1);
    }
}

/// A line without the carriage return that ended it, if any.
pub open spec fn trim_cr(l: Seq<u8>) -> Seq<u8> {
    if l.len() > 0 && l.last() == 0x0d {
        l.drop_last()
    } else {
        l
    }
}

/// The lines of a text: split at `\n` (a `\r` before it is dropped too); a
/// final line feed starts no further line, and an empty text has no lines.
pub open spec fn text_lines(b: Seq<u8>) -> Seq<Seq<u8>>
    decreases b.len(),
{
    if b.len() == 0 {
        seq![]
    } else {
        let k = line_end(b, 0);
        proof {
            lemma_line_end(b, 0);
        }
        if k < b.len() {
            seq![trim_cr(b.subrange(0, k))] + text_lines(b.subrange(k + 1, b.len() as int))
        } else {
            seq![b]
        }
    }
}

/// Each text line as a display line of one plain span.
pub open spec fn plain_lines(ls: Seq<Seq<u8>>) -> Seq<Seq<(SpanStyle, Seq<u8>)>> {
    ls.map_values(|l: Seq<u8>| seq![(SpanStyle::Plain, l)])
}

/// The style class of a span.
#[derive(Debug, Copy, Clone, PartialEq, Eq, Structural)]
pub enum SpanStyle {
    /// Delimiters, whitespace, booleans.
    Plain,
    /// String literals.
    StringLit,
    /// Number literals.
    NumberLit,
    /// Characters no rule matched.
    Alert,
}

/// A piece of text drawn in one style.
pub struct StyledSpan {
    pub style: SpanStyle,
    pub text: String,
}

pub open spec fn style_of(k: TokenType) -> SpanStyle {
    match k {
        TokenType::String => SpanStyle::StringLit,
        TokenType::Number => SpanStyle::NumberLit,
        TokenType::InvalidChar => SpanStyle::Alert,
        _ => SpanStyle::Plain,
    }
}

/// The style class of a token kind.
pub fn token_style(k: TokenType) -> (r: SpanStyle)
    ensures
        r == style_of(k),
{
    match k {
        TokenType::String => SpanStyle::StringLit,
        TokenType::Number => SpanStyle::NumberLit,
        TokenType::InvalidChar => SpanStyle::Alert,
        _ => SpanStyle::Plain,
    }
}

/// A span as (style, bytes of its text).
pub open spec fn span_view(s: StyledSpan) -> (SpanStyle, Seq<u8>) {
    (s.style, encode_utf8(s.text@))
}

pub open spec fn line_view(l: Vec<StyledSpan>) -> Seq<(SpanStyle, Seq<u8>)> {
    l@.map_values(|s: StyledSpan| span_view(s))
}

pub open spec fn lines_view(ls: Seq<Vec<StyledSpan>>) -> Seq<Seq<(SpanStyle, Seq<u8>)>> {
    ls.map_values(|l: Vec<StyledSpan>| line_view(l))
}

/// Display lines from tokens: each token becomes one span of its style,
/// appended to the current line `cur`; a newline token ends the line (its
/// own span included). Spans after the last newline form no line.
pub open spec fn group_lines(
    ts: Seq<(TokenType, Seq<u8>)>,
    cur: Seq<(SpanStyle, Seq<u8>)>,
) -> Seq<Seq<(SpanStyle, Seq<u8>)>>
    decreases ts.len(),
{
    if ts.len() == 0 {
        seq![]
    } else {
        let cur2 = cur.push((style_of(ts[0].0), ts[0].1));
        if ts[0].0 == TokenType::Newline {
            seq![cur2] + group_lines(ts.drop_first(), seq![])
        } else {
            group_lines(ts.drop_first(), cur2)
        }
    }
}

/// The highlighted display lines of a text with bytes `b`.
pub open spec fn highlight(b: Seq<u8>) -> Seq<Seq<(SpanStyle, Seq<u8>)>> {
    group_lines(lex(b), seq![])
}

/// The bytes that a display line shows, span after span.
pub open spec fn line_text(l: Seq<(SpanStyle, Seq<u8>)>) -> Seq<u8>
    decreases l.len(),
{
    if l.len() == 0 {
        seq![]
    } else {
        l[0].1 + line_text(l.drop_first())
    }
}

/// The bytes that a list of display lines shows, line after line.
pub open spec fn lines_text(ls: Seq<Seq<(SpanStyle, Seq<u8>)>>) -> Seq<u8>
    decreases ls.len(),
{
    if ls.len() == 0 {
        seq![]
    } else {
        line_text(ls[0]) + lines_text(ls.drop_first())
    }
}

proof fn lemma_line_text_push(l: Seq<(SpanStyle, Seq<u8>)>, x: (SpanStyle, Seq<u8>))
    ensures
        line_text(l.push(x)) == line_text(l) + x.1,
    decreases l.len(),
{
    if l.len() == 0 {
        assert(l.push(x).drop_first() =~= seq![]);
        assert(line_text(l.push(x).drop_first()) =~= seq![]);
        assert(l.push(x)[0] == x);
        assert(line_text(l.push(x)) =~= x.1);
    } else {
        lemma_line_text_push(l.drop_first(), x);
        assert(l.push(x).drop_first() =~= l.drop_first().push(x));
        assert(line_text(l.push(x)) =~= line_text(l) + x.1);
    }
}

/// Grouping tokens whose last one is a newline loses no byte: the lines
/// show the current line's bytes, then every lexeme in order.
proof fn lemma_group_lines_text(ts: Seq<(TokenType, Seq<u8>)>, cur: Seq<(SpanStyle, Seq<u8>)>)
    requires
        (ts.len() == 0 && cur.len() == 0) || (ts.len() > 0 && ts.last().0 == TokenType::Newline),
    ensures
        lines_text(group_lines(ts, cur)) == line_text(cur) + join_lexemes(ts),
    decreases ts.len(),
{
    if ts.len() == 0 {
        assert(line_text(cur) + join_lexemes(ts) =~= seq![]);
    } else {
        let x = (style_of(ts[0].0), ts[0].1);
        let cur2 = cur.push(x);
        let rest = ts.drop_first();
        lemma_line_text_push(cur, x);
        if ts[0].0 == TokenType::Newline {
            if rest.len() > 0 {
                assert(rest.last() == ts.last());
            }
            lemma_group_lines_text(rest, seq![]);
            let g = group_lines(ts, cur);
            assert(g == seq![cur2] + group_lines(rest, seq![]));
            assert(g.drop_first() =~= group_lines(rest, seq![]));
            assert(line_text(seq![]) =~= seq![]);
            assert(lines_text(g) =~= line_text(cur) + join_lexemes(ts));
        } else {
            assert(rest.len() > 0);
            assert(rest.last() == ts.last());
            lemma_group_lines_text(rest, cur2);
            assert(line_text(cur2) + join_lexemes(rest) =~= line_text(cur) + join_lexemes(ts));
        }
    }
}

/// Idempotence of highlighting: when the text ends with a line feed (or is
/// empty), the highlighted lines show exactly the text, so tokenizing what
/// they show gives the text's own tokens again.
pub proof fn lemma_highlight_retokenizes(b: Seq<u8>)
    requires
        b.len() == 0 || b.last() == 0x0a,
    ensures
        lines_text(highlight(b)) == b,
        lex(lines_text(highlight(b))) == lex(b),
{
    if b.len() > 0 {
        lemma_lex_last_newline(b);
    } else {
        assert(lex(b) =~= seq![]);
    }
    lemma_group_lines_text(lex(b), seq![]);
    lemma_lex_covers(b);
    assert(line_text(seq![]) + join_lexemes(lex(b)) =~= join_lexemes(lex(b)));
}

/// A scrollable list of styled lines.
pub struct ScrollText {
    pub lines: Vec<Vec<StyledSpan>>,
    pub line_offset: usize,
}

impl ScrollText {
    /// Lines from `tokens`, grouped at newline tokens, scrolled to the top.
    pub fn from_tokens<'b>(tokens: &[Token<'b>]) -> (r: ScrollText)
        ensures
            lines_view(r.lines@) == group_lines(token_views(tokens@), seq![]),
            r.line_offset == 0,
    {
        let ghost all = token_views(tokens@);
        let mut lines: Vec<Vec<StyledSpan>> = Vec::new();
        let mut curr_line: Vec<StyledSpan> = Vec::new();
        let mut i: usize = 0;
        proof {
            assert(all.subrange(0, all.len() as int) =~= all);
            assert(lines_view(lines@) =~= seq![]);
            assert(line_view(curr_line) =~= seq![]);
        }
        while i < tokens.len()
            invariant
                all == token_views(tokens@),
                0 <= i <= tokens@.len(),
                lines_view(lines@) + group_lines(
                    all.subrange(i as int, all.len() as int),
                    line_view(curr_line),
                ) == group_lines(all, seq![]),
            decreases tokens@.len() - i,
        {
            let tok = tokens[i];
            let ghost rest = all.subrange(i as int, all.len() as int);
            let ghost before = lines_view(lines@);
            let ghost cur = line_view(curr_line);
            let span = StyledSpan { style: token_style(tok.tty), text: tok.lex.to_owned() };
            curr_line.push(span);
            proof {
                assert(rest[0] == (tok.tty, tok.lex.spec_bytes()));
                assert(rest.drop_first() =~= all.subrange(i + 1, all.len() as int));
                assert(line_view(curr_line) =~= cur.push((style_of(tok.tty), tok.lex.spec_bytes())));
            }
            if tok.tty == TokenType::Newline {
                let ghost done = line_view(curr_line);
                lines.push(curr_line);
                curr_line = Vec::new();
                proof {
                    assert(lines_view(lines@) =~= before.push(done));
                    assert(line_view(curr_line) =~= seq![]);
                    assert(before + (seq![done] + group_lines(rest.drop_first(), seq![]))
                        =~= lines_view(lines@) + group_lines(rest.drop_first(), seq![]));
                }
            }
            i = i + 1;
        }
        proof {
            assert(all.subrange(i as int, all.len() as int) =~= seq![]);
            assert(lines_view(lines@) + seq![] =~= lines_view(lines@));
        }
        ScrollText { lines, line_offset: 0 }
    }

    /// Moves the view up one line, stopping at the top.
    pub fn scroll_up(&mut self)
        ensures
            final(self).line_offset == if old(self).line_offset == 0 {
                0
            } else {
                old(self).line_offset - 1
            },
            final(self).lines == old(self).lines,
    {
        if self.line_offset > 0 {
            self.line_offset = self.line_offset - 1;
        }
    }

    /// Moves the view down one line; there is no bound but the integer's.
    pub fn scroll_down(&mut self)
        ensures
            final(self).line_offset == if old(self).line_offset == usize::MAX {
                usize::MAX as int
            } else {
                old(self).line_offset + 1
            },
            final(self).lines == old(self).lines,
    {
        if self.line_offset < usize::MAX {
            self.line_offset = self.line_offset + 1;
        }
    }

    /// The lines to draw in `rows` rows: the first index and how many, that
    /// is, as many as fit starting at the offset; rows past the content stay
    /// blank.
    pub fn visible_range(&self, rows: usize) -> (r: (usize, usize))
        ensures
            r.0 == self.line_offset,
            r.1 == if self.line_offset >= self.lines@.len() {
                0
            } else if rows <= self.lines@.len() - self.line_offset {
                rows as int
            } else {
                self.lines@.len() - self.line_offset
            },
    {
        let n = self.lines.len();
        if self.line_offset >= n {
            (self.line_offset, 0)
        } else if rows <= n - self.line_offset {
            (self.line_offset, rows)
        } else {
            (self.line_offset, n - self.line_offset)
        }
    }

    /// Unstyled lines of `content`, scrolled to the top.
    pub fn from(content: String) -> (r: ScrollText)
        ensures
            lines_view(r.lines@) == plain_lines(text_lines(encode_utf8(content@))),
            r.line_offset == 0,
    {
        ScrollText::from_content(content.as_str())
    }

    /// Unstyled lines of `content`, scrolled to the top.
    pub fn from_content(content: &str) -> (r: ScrollText)
        ensures
            lines_view(r.lines@) == plain_lines(text_lines(content.spec_bytes())),
            r.line_offset == 0,
    {
        let ghost goal = plain_lines(text_lines(content.spec_bytes()));
        let mut lines: Vec<Vec<StyledSpan>> = Vec::new();
        let mut rest: &str = content;
        assert(lines_view(lines@) =~= seq![]);
        loop
            invariant
                lines_view(lines@) + plain_lines(text_lines(rest.spec_bytes())) == goal,
            ensures
                rest.spec_bytes().len() == 0,
            decreases rest.spec_bytes().len(),
        {
            let b = rest.as_bytes();
            let ghost bs = b@;
            if b.len() == 0 {
                break;
            }
            let mut k: usize = 0;
            while k < b.len() && b[k] != 0x0a
                invariant
                    0 <= k <= b@.len(),
                    line_end(bs, 0) == line_end(bs, k as int),
                    bs == b@,
                decreases b@.len() - k,
            {
                k = k + 1;
            }
            proof {
                lemma_line_end(bs, 0);
            }
            let ghost before = lines_view(lines@);
            let mut line: Vec<StyledSpan> = Vec::new();
            if k < b.len() {
                proof {
                    assert(!is_continuation_byte(bs[k as int]));
                    is_char_boundary_iff_not_is_continuation_byte(bs, k as int);
                }
                let (head, tail) = rest.split_at(k);
                proof {
                    assert(tail.spec_bytes()[0] == bs[k as int]);
                    lemma_boundary_after_ascii(tail.spec_bytes(), 1);
                }
                let (_, after) = tail.split_at(1);
                let hb = head.as_bytes();
                let piece = if hb.len() > 0 && hb[hb.len() - 1] == 0x0d {
                    proof {
                        assert(!is_continuation_byte(hb@[hb@.len() - 1]));
                    }
                    let (p, _) = head.split_at(hb.len() - 1);
                    proof {
                        assert(p.spec_bytes() =~= trim_cr(hb@));
                    }
                    p
                } else {
                    head
                };
                proof {
                    assert(hb@ =~= bs.subrange(0, k as int));
                    assert(piece.spec_bytes() == trim_cr(bs.subrange(0, k as int)));
                    assert(after.spec_bytes() =~= bs.subrange(k + 1, bs.len() as int));
                }
                line.push(StyledSpan { style: SpanStyle::Plain, text: piece.to_owned() });
                let ghost lv = line_view(line);
                lines.push(line);
                rest = after;
                proof {
                    assert(lv =~= seq![(SpanStyle::Plain, piece.spec_bytes())]);
                    assert(lines_view(lines@) =~= before.push(lv));
                    assert(plain_lines(text_lines(bs)) =~= seq![lv] + plain_lines(
                        text_lines(rest.spec_bytes()),
                    ));
                    assert(before + plain_lines(text_lines(bs)) =~= lines_view(lines@)
                        + plain_lines(text_lines(rest.spec_bytes())));
                }
            } else {
                let (all, after) = rest.split_at(b.len());
                line.push(StyledSpan { style: SpanStyle::Plain, text: all.to_owned() });
                let ghost lv = line_view(line);
                lines.push(line);
                rest = after;
                proof {
                    assert(all.spec_bytes() =~= bs);
                    assert(after.spec_bytes().len() == 0);
                    assert(text_lines(rest.spec_bytes()) =~= seq![]);
                    assert(lv =~= seq![(SpanStyle::Plain, bs)]);
                    assert(lines_view(lines@) =~= before.push(lv));
                    assert(plain_lines(text_lines(bs)) =~= seq![lv]);
                    assert(before + plain_lines(text_lines(bs)) =~= lines_view(lines@)
                        + plain_lines(text_lines(rest.spec_bytes())));
                }
            }
        }
        proof {
            assert(text_lines(rest.spec_bytes()) =~= seq![]);
            assert(lines_view(lines@) + plain_lines(seq![]) =~= lines_view(lines@));
        }
        ScrollText { lines, line_offset: 0 }
    }
}

} // verus!
