//! A recursive-descent parser over the token stream. Leaves keep their exact
//! source lexemes; arrays recover from a failed element, objects do not.

use vstd::prelude::*;
use vstd::string::*;
use crate::tokens::{Token, TokenType, tokenize, lex, token_views, next_token, punctuation_kind, lemma_next_token_len};

verus! {

/// The parsed shape of a document, with leaves as lexeme bytes.
pub enum JsonTree {
    Object(Seq<(Seq<u8>, JsonTree)>),
    Array(Seq<JsonTree>),
    Str(Seq<u8>),
    Boolean(Seq<u8>),
    Number(Seq<u8>),
}

/// Why a parse failed.
#[derive(Debug, Copy, Clone, PartialEq, Eq, Structural)]
pub enum ParseError {
    /// A token of kind `expected` was required and `found` came instead.
    Expected { expected: TokenType, found: TokenType },
    /// No value can start with a token of this kind.
    UnexpectedToken { found: TokenType },
    /// After an object entry, neither `,` nor `}` followed.
    UnexpectedInObject { found: TokenType },
    /// After an array element, neither `,` nor `]` followed.
    UnexpectedInArray { found: TokenType },
}

/// A parsed value together with its source lexeme(s).
#[derive(Debug, PartialEq, Eq)]
pub struct JsonData<'a>(pub JsonDataInner<'a>);

#[derive(Debug, PartialEq, Eq)]
pub struct JsonDataInner<'a> {
    pub ty: JsonDataType<'a>,
}

#[derive(Debug, PartialEq, Eq)]
pub enum JsonDataType<'a> {
    Object { entries: Vec<(JsonKey<'a>, JsonData<'a>)> },
    Array { elems: Vec<JsonData<'a>> },
    Str { lex: &'a str },
    Boolean { lex: &'a str },
    Number { lex: &'a str },
}

/// An object key: the lexeme of a string literal, quotes included.
#[derive(Debug, Clone, PartialEq, Eq)]
pub struct JsonKey<'a> {
    pub lex: &'a str,
}

impl<'a> JsonData<'a> {
    pub open spec fn tree(self) -> JsonTree
        decreases self,
    {
        match self.0.ty {
            JsonDataType::Object { entries } => JsonTree::Object(
                Seq::new(
                    entries@.len(),
                    |i: int|
                        if 0 <= i < entries@.len() {
                            (entries@[i].0.lex.spec_bytes(), entries@[i].1.tree())
                        } else {
                            (seq![], JsonTree::Array(seq![]))
                        },
                ),
            ),
            JsonDataType::Array { elems } => JsonTree::Array(
                Seq::new(
                    elems@.len(),
                    |i: int|
                        if 0 <= i < elems@.len() {
                            elems@[i].tree()
                        } else {
                            JsonTree::Array(seq![])
                        },
                ),
            ),
            JsonDataType::Str { lex } => JsonTree::Str(lex.spec_bytes()),
            JsonDataType::Boolean { lex } => JsonTree::Boolean(lex.spec_bytes()),
            JsonDataType::Number { lex } => JsonTree::Number(lex.spec_bytes()),
        }
    }
}


// ---------------------------------------------------------------------------
// The grammar, as spec functions over (kind, lexeme bytes) token views.

/// One parse step: the outcome, where the cursor stopped (also on failure),
/// and the soft errors recorded on the way, in order.
pub struct Step {
    pub res: Result<JsonTree, ParseError>,
    pub pos: int,
    pub errs: Seq<ParseError>,
}

/// The kind of the token at `i`, or `Eof` past the end.
pub open spec fn kind_at(t: Seq<(TokenType, Seq<u8>)>, i: int) -> TokenType {
    if 0 <= i < t.len() {
        t[i].0
    } else {
        TokenType::Eof
    }
}

/// The first position at or after `i` that does not hold whitespace.
pub open spec fn skip_ws(t: Seq<(TokenType, Seq<u8>)>, i: int) -> int
    decreases t.len() - i,
{
    if 0 <= i < t.len() && t[i].0.spec_is_whitespace() {
        skip_ws(t, i + 1)
    } else {
        i
    }
}

pub proof fn lemma_skip_ws(t: Seq<(TokenType, Seq<u8>)>, i: int)
    ensures
        skip_ws(t, i) == i || (i < skip_ws(t, i) <= t.len()),
        0 <= i <= t.len() ==> skip_ws(t, i) <= t.len(),
        !kind_at(t, skip_ws(t, i)).spec_is_whitespace(),
    decreases t.len() - i,
{
    if 0 <= i < t.len() && t[i].0.spec_is_whitespace() {
        lemma_skip_ws(t, i + 1);
    }
}

pub open spec fn leaf_tree(k: TokenType, lexeme: Seq<u8>) -> JsonTree {
    match k {
        TokenType::String => JsonTree::Str(lexeme),
        TokenType::Number => JsonTree::Number(lexeme),
        _ => JsonTree::Boolean(lexeme),
    }
}

/// A leaf of kind `k` after optional whitespace.
pub open spec fn parse_leaf(t: Seq<(TokenType, Seq<u8>)>, i: int, k: TokenType) -> Step {
    let j = skip_ws(t, i);
    if kind_at(t, j) == k {
        Step { res: Ok(leaf_tree(k, t[j].1)), pos: j + 1, errs: seq![] }
    } else {
        Step { res: Err(ParseError::Expected { expected: k, found: kind_at(t, j) }), pos: j, errs: seq![] }
    }
}

/// Any value, dispatched on its first non-whitespace token.
pub open spec fn parse_value(t: Seq<(TokenType, Seq<u8>)>, i: int) -> Step
    decreases t.len() - i, 2int,
{
    let j = skip_ws(t, i);
    proof {
        lemma_skip_ws(t, i);
    }
    match kind_at(t, j) {
        TokenType::OpenBrace => parse_object(t, j),
        TokenType::OpenBracket => parse_array(t, j),
        TokenType::String => parse_leaf(t, j, TokenType::String),
        TokenType::Number => parse_leaf(t, j, TokenType::Number),
        TokenType::Boolean => parse_leaf(t, j, TokenType::Boolean),
        k => Step { res: Err(ParseError::UnexpectedToken { found: k }), pos: j, errs: seq![] },
    }
}

/// `{` followed by one or more entries.
pub open spec fn parse_object(t: Seq<(TokenType, Seq<u8>)>, i: int) -> Step
    decreases t.len() - i, 1int,
{
    let j = skip_ws(t, i);
    proof {
        lemma_skip_ws(t, i);
    }
    if kind_at(t, j) == TokenType::OpenBrace {
        parse_entries(t, j + 1, seq![])
    } else {
        Step {
            res: Err(ParseError::Expected { expected: TokenType::OpenBrace, found: kind_at(t, j) }),
            pos: j,
            errs: seq![],
        }
    }
}

/// Object entries from `i` on, after the entries `acc` already read. The
/// test `n >= i` makes the recursion's measure visible; it holds on every
/// run of the parser, whose contracts record that its cursor never moves
/// back.
pub open spec fn parse_entries(
    t: Seq<(TokenType, Seq<u8>)>,
    i: int,
    acc: Seq<(Seq<u8>, JsonTree)>,
) -> Step
    decreases t.len() - i, 0int,
{
    let j = skip_ws(t, i);
    proof {
        lemma_skip_ws(t, i);
    }
    if kind_at(t, j) != TokenType::String {
        Step {
            res: Err(ParseError::Expected { expected: TokenType::String, found: kind_at(t, j) }),
            pos: j,
            errs: seq![],
        }
    } else {
        let m = skip_ws(t, j + 1);
        proof {
            lemma_skip_ws(t, j + 1);
        }
        if kind_at(t, m) != TokenType::Colon {
            Step {
                res: Err(ParseError::Expected { expected: TokenType::Colon, found: kind_at(t, m) }),
                pos: m,
                errs: seq![],
            }
        } else {
            let v = parse_value(t, m + 1);
            match v.res {
                Err(e) => Step { res: Err(e), pos: v.pos, errs: v.errs },
                Ok(val) => {
                    let n = skip_ws(t, v.pos);
                    let acc2 = acc.push((t[j].1, val));
                    if kind_at(t, n) == TokenType::Comma && n >= i {
                        let r = parse_entries(t, n + 1, acc2);
                        Step { res: r.res, pos: r.pos, errs: v.errs + r.errs }
                    } else if kind_at(t, n) == TokenType::CloseBrace {
                        Step { res: Ok(JsonTree::Object(acc2)), pos: n + 1, errs: v.errs }
                    } else {
                        Step {
                            res: Err(ParseError::UnexpectedInObject { found: kind_at(t, n) }),
                            pos: n,
                            errs: v.errs,
                        }
                    }
                },
            }
        }
    }
}

/// `[` followed by elements.
pub open spec fn parse_array(t: Seq<(TokenType, Seq<u8>)>, i: int) -> Step
    decreases t.len() - i, 1int,
{
    let j = skip_ws(t, i);
    proof {
        lemma_skip_ws(t, i);
    }
    if kind_at(t, j) == TokenType::OpenBracket {
        parse_elems(t, j + 1, seq![])
    } else {
        Step {
            res: Err(ParseError::Expected { expected: TokenType::OpenBracket, found: kind_at(t, j) }),
            pos: j,
            errs: seq![],
        }
    }
}

/// Array elements from `i` on, after the elements `acc` already read. A
/// failed element is recorded as a soft error and skipped; `n >= i` is as
/// in `parse_entries`.
pub open spec fn parse_elems(t: Seq<(TokenType, Seq<u8>)>, i: int, acc: Seq<JsonTree>) -> Step
    decreases t.len() - i, 3int,
{
    let v = parse_value(t, i);
    let acc2 = match v.res {
        Ok(x) => acc.push(x),
        Err(_) => acc,
    };
    let errs1 = match v.res {
        Ok(_) => v.errs,
        Err(e) => v.errs.push(e),
    };
    let n = skip_ws(t, v.pos);
    proof {
        lemma_skip_ws(t, v.pos);
    }
    if kind_at(t, n) == TokenType::Comma && n >= i {
        let r = parse_elems(t, n + 1, acc2);
        Step { res: r.res, pos: r.pos, errs: errs1 + r.errs }
    } else if kind_at(t, n) == TokenType::CloseBracket {
        Step { res: Ok(JsonTree::Array(acc2)), pos: n + 1, errs: errs1 }
    } else {
        Step { res: Err(ParseError::UnexpectedInArray { found: kind_at(t, n) }), pos: n, errs: errs1 }
    }
}

/// A whole document: one value, then nothing but whitespace.
pub open spec fn parse_document(t: Seq<(TokenType, Seq<u8>)>) -> Result<JsonTree, ParseError> {
    let s = parse_value(t, 0);
    match s.res {
        Err(e) => Err(e),
        Ok(v) => {
            let j = skip_ws(t, s.pos);
            if kind_at(t, j) == TokenType::Eof {
                Ok(v)
            } else {
                Err(ParseError::Expected { expected: TokenType::Eof, found: kind_at(t, j) })
            }
        },
    }
}


// ---------------------------------------------------------------------------
// The executable parser.

proof fn lemma_object_tree<'a>(d: JsonData<'a>)
    requires
        d.0.ty is Object,
    ensures
        d.tree() == JsonTree::Object(entry_trees(d.0.ty->entries@)),
{
    assert(d.tree()->Object_0 =~= entry_trees(d.0.ty->entries@));
}

proof fn lemma_array_tree<'a>(d: JsonData<'a>)
    requires
        d.0.ty is Array,
    ensures
        d.tree() == JsonTree::Array(trees(d.0.ty->elems@)),
{
    assert(d.tree()->Array_0 =~= trees(d.0.ty->elems@));
}

pub open spec fn trees<'a>(v: Seq<JsonData<'a>>) -> Seq<JsonTree> {
    v.map_values(|d: JsonData<'a>| d.tree())
}

pub open spec fn entry_trees<'a>(v: Seq<(JsonKey<'a>, JsonData<'a>)>) -> Seq<(Seq<u8>, JsonTree)> {
    v.map_values(|e: (JsonKey<'a>, JsonData<'a>)| (e.0.lex.spec_bytes(), e.1.tree()))
}

/// Parser state: the token sequence, a cursor into it, and the soft errors
/// recorded so far.
pub struct ParsingContext<'a> {
    pub source: &'a str,
    pub tokens: Vec<Token<'a>>,
    pub idx: usize,
    pub errs: Vec<ParseError>,
}

impl<'a> ParsingContext<'a> {
    pub open spec fn toks(self) -> Seq<(TokenType, Seq<u8>)> {
        token_views(self.tokens@)
    }

    pub open spec fn wf(self) -> bool {
        self.idx <= self.tokens@.len()
    }

    /// Whether `r` is what the spec step `s` produced, and `self` is where
    /// it left the parser, starting from `start` with `errs0` recorded.
    pub open spec fn follows(
        self,
        r: Result<JsonData<'a>, ParseError>,
        s: Step,
        start: ParsingContext<'a>,
    ) -> bool {
        &&& self.wf()
        &&& self.tokens@ == start.tokens@
        &&& self.source == start.source
        &&& self.idx as int == s.pos
        &&& self.idx >= start.idx
        &&& self.errs@ == start.errs@ + s.errs
        &&& match r {
            Ok(d) => s.res == Ok::<JsonTree, ParseError>(d.tree()),
            Err(e) => s.res == Err::<JsonTree, ParseError>(e),
        }
    }

    pub fn from(source: &'a str, tokens: Vec<Token<'a>>) -> (r: Self)
        ensures
            r.source == source,
            r.tokens@ == tokens@,
            r.idx == 0,
            r.errs@ == Seq::<ParseError>::empty(),
            r.wf(),
    {
        Self { source, tokens, idx: 0, errs: Vec::new() }
    }

    /// The token under the cursor; past the end, an empty `Eof` token.
    pub fn peek(&self) -> (tok: Token<'a>)
        ensures
            tok.tty == kind_at(self.toks(), self.idx as int),
            self.idx < self.tokens@.len() ==> tok == self.tokens@[self.idx as int],
            self.idx >= self.tokens@.len() ==> tok.lex@ == Seq::<char>::empty(),
    {
        if self.idx < self.tokens.len() {
            self.tokens[self.idx]
        } else {
            proof {
                reveal_strlit("");
            }
            Token { tty: TokenType::Eof, lex: "" }
        }
    }

    /// Moves the cursor past whitespace and newline tokens.
    pub fn eat_whitespace(&mut self)
        ensures
            old(self).wf() ==> final(self).wf(),
            final(self).idx as int == skip_ws(old(self).toks(), old(self).idx as int),
            final(self).tokens@ == old(self).tokens@,
            final(self).source == old(self).source,
            final(self).errs@ == old(self).errs@,
    {
        let ghost t = self.toks();
        let ghost i0 = self.idx as int;
        while self.idx < self.tokens.len() && self.tokens[self.idx].tty.is_whitespace()
            invariant
                old(self).wf() ==> self.wf(),
                self.idx >= old(self).idx,
                self.toks() == t,
                self.tokens@ == old(self).tokens@,
                self.source == old(self).source,
                self.errs@ == old(self).errs@,
                skip_ws(t, i0) == skip_ws(t, self.idx as int),
            decreases self.tokens@.len() - self.idx,
        {
            self.idx = self.idx + 1;
        }
    }

    /// Skips whitespace, then requires a token of kind `tty` and moves past
    /// it (past the end, for the synthetic `Eof`); on a mismatch the cursor
    /// stays on the offending token. Moving past the end needs room for one
    /// more index.
    pub fn consume(&mut self, tty: TokenType) -> (r: Result<Token<'a>, ParseError>)
        requires
            tty == TokenType::Eof ==> old(self).idx < usize::MAX && old(self).tokens@.len()
                < usize::MAX,
        ensures
            old(self).wf() && tty != TokenType::Eof ==> final(self).wf(),
            final(self).tokens@ == old(self).tokens@,
            final(self).source == old(self).source,
            final(self).errs@ == old(self).errs@,
            ({
                let t = old(self).toks();
                let j = skip_ws(t, old(self).idx as int);
                if kind_at(t, j) == tty {
                    &&& r is Ok
                    &&& r->Ok_0.tty == tty
                    &&& final(self).idx == j + 1
                    &&& j < t.len() ==> r->Ok_0 == old(self).tokens@[j]
                    &&& j >= t.len() ==> r->Ok_0.lex@ == Seq::<char>::empty()
                } else {
                    &&& r == Err::<Token<'a>, ParseError>(
                        ParseError::Expected { expected: tty, found: kind_at(t, j) },
                    )
                    &&& final(self).idx == j
                }
            }),
    {
        self.eat_whitespace();
        let tok = self.peek();
        if tok.tty != tty {
            return Err(ParseError::Expected { expected: tty, found: tok.tty });
        }
        proof {
            lemma_skip_ws(self.toks(), old(self).idx as int);
        }
        if self.idx < self.tokens.len() {
            self.idx = self.idx + 1;
        } else {
            assert(tty == TokenType::Eof);
            self.idx = self.idx + 1;
        }
        Ok(tok)
    }

    fn leaf(&mut self, k: TokenType) -> (r: Result<JsonData<'a>, ParseError>)
        requires
            old(self).wf(),
            k == TokenType::String || k == TokenType::Number || k == TokenType::Boolean,
        ensures
            final(self).follows(r, parse_leaf(old(self).toks(), old(self).idx as int, k), *old(self)),
    {
        proof {
            lemma_skip_ws(self.toks(), self.idx as int);
        }
        self.eat_whitespace();
        let tok = match self.consume(k) {
            Ok(tok) => tok,
            Err(e) => return Err(e),
        };
        let ty = match k {
            TokenType::String => JsonDataType::Str { lex: tok.lex },
            TokenType::Number => JsonDataType::Number { lex: tok.lex },
            _ => JsonDataType::Boolean { lex: tok.lex },
        };
        Ok(JsonData(JsonDataInner { ty }))
    }

    /// A string leaf, after optional whitespace.
    pub fn parse_string(&mut self) -> (r: Result<JsonData<'a>, ParseError>)
        requires
            old(self).wf(),
        ensures
            final(self).follows(
                r,
                parse_leaf(old(self).toks(), old(self).idx as int, TokenType::String),
                *old(self),
            ),
    {
        self.leaf(TokenType::String)
    }

    /// A number leaf, after optional whitespace.
    pub fn parse_number(&mut self) -> (r: Result<JsonData<'a>, ParseError>)
        requires
            old(self).wf(),
        ensures
            final(self).follows(
                r,
                parse_leaf(old(self).toks(), old(self).idx as int, TokenType::Number),
                *old(self),
            ),
    {
        self.leaf(TokenType::Number)
    }

    /// A boolean leaf, after optional whitespace.
    pub fn parse_boolean(&mut self) -> (r: Result<JsonData<'a>, ParseError>)
        requires
            old(self).wf(),
        ensures
            final(self).follows(
                r,
                parse_leaf(old(self).toks(), old(self).idx as int, TokenType::Boolean),
                *old(self),
            ),
    {
        self.leaf(TokenType::Boolean)
    }

    /// Any value, chosen by the kind of its first non-whitespace token.
    pub fn parse_json(&mut self) -> (r: Result<JsonData<'a>, ParseError>)
        requires
            old(self).wf(),
        ensures
            final(self).follows(r, parse_value(old(self).toks(), old(self).idx as int), *old(self)),
        decreases old(self).tokens@.len() - old(self).idx, 2int,
    {
        proof {
            lemma_skip_ws(self.toks(), self.idx as int);
        }
        self.eat_whitespace();
        let tty = self.peek().tty;
        match tty {
            TokenType::OpenBrace => self.parse_object(),
            TokenType::OpenBracket => self.parse_array(),
            TokenType::String => self.parse_string(),
            TokenType::Number => self.parse_number(),
            TokenType::Boolean => self.parse_boolean(),
            _ => Err(ParseError::UnexpectedToken { found: tty }),
        }
    }

    /// An object: `{`, then entries `key : value` separated by `,`, then
    /// `}`. Any failure inside ends the object.
    #[verifier::rlimit(40)]
    pub fn parse_object(&mut self) -> (r: Result<JsonData<'a>, ParseError>)
        requires
            old(self).wf(),
        ensures
            final(self).follows(r, parse_object(old(self).toks(), old(self).idx as int), *old(self)),
        decreases old(self).tokens@.len() - old(self).idx, 1int,
    {
        let ghost t = self.toks();
        let ghost start = *self;
        let ghost goal = parse_object(t, self.idx as int);
        proof {
            lemma_skip_ws(t, self.idx as int);
        }
        match self.consume(TokenType::OpenBrace) {
            Err(e) => return Err(e),
            Ok(_) => {},
        }
        let mut entries: Vec<(JsonKey<'a>, JsonData<'a>)> = Vec::new();
        assert(entry_trees(entries@) =~= seq![]);
        loop
            invariant
                start == *old(self),
                t == start.toks(),
                goal == parse_object(t, start.idx as int),
                self.wf(),
                self.tokens@ == start.tokens@,
                self.source == start.source,
                self.toks() == t,
                self.idx > start.idx,
                ({
                    let rs = parse_entries(t, self.idx as int, entry_trees(entries@));
                    &&& goal.res == rs.res
                    &&& goal.pos == rs.pos
                    &&& start.errs@ + goal.errs == self.errs@ + rs.errs
                }),
            decreases self.tokens@.len() - self.idx,
        {
            let ghost i = self.idx as int;
            let ghost mid_errs = self.errs@;
            let ghost acc = entry_trees(entries@);
            proof {
                lemma_skip_ws(t, i);
                assert(mid_errs + seq![] =~= mid_errs);
            }
            let key = match self.consume(TokenType::String) {
                Err(e) => {
                    proof {
                        assert(parse_entries(t, i, acc) == Step {
                            res: Err::<JsonTree, ParseError>(e),
                            pos: self.idx as int,
                            errs: seq![],
                        });
                    }
                    return Err(e);
                },
                Ok(k) => k,
            };
            proof {
                lemma_skip_ws(t, self.idx as int);
            }
            match self.consume(TokenType::Colon) {
                Err(e) => {
                    proof {
                        assert(parse_entries(t, i, acc) == Step {
                            res: Err::<JsonTree, ParseError>(e),
                            pos: self.idx as int,
                            errs: seq![],
                        });
                    }
                    return Err(e);
                },
                Ok(_) => {},
            }
            let ghost m = self.idx as int - 1;
            proof {
                assert(m == skip_ws(t, skip_ws(t, i) + 1));
                assert(kind_at(t, skip_ws(t, i)) == TokenType::String);
                assert(kind_at(t, m) == TokenType::Colon);
            }
            let value = match self.parse_json() {
                Err(e) => {
                    proof {
                        let v = parse_value(t, m + 1);
                        assert(parse_entries(t, i, acc) == Step { res: Err::<JsonTree, ParseError>(e), pos: v.pos, errs: v.errs });
                    }
                    return Err(e);
                },
                Ok(v) => v,
            };
            let ghost vtree = value.tree();
            let ghost v = parse_value(t, m + 1);
            let ghost acc2 = acc.push((t[skip_ws(t, i)].1, vtree));
            entries.push((JsonKey { lex: key.lex }, value));
            proof {
                assert(entry_trees(entries@) =~= acc2);
                assert(self.errs@ == mid_errs + v.errs);
                lemma_skip_ws(t, self.idx as int);
            }
            self.eat_whitespace();
            let tok = self.peek();
            match tok.tty {
                TokenType::Comma => {
                    let _ = self.consume(TokenType::Comma);
                    proof {
                        let rs = parse_entries(t, self.idx as int, acc2);
                        assert(parse_entries(t, i, acc) == Step {
                            res: rs.res,
                            pos: rs.pos,
                            errs: v.errs + rs.errs,
                        });
                        assert(start.errs@ + goal.errs =~= self.errs@ + rs.errs);
                    }
                },
                TokenType::CloseBrace => {
                    let _ = self.consume(TokenType::CloseBrace);
                    let d = JsonData(JsonDataInner { ty: JsonDataType::Object { entries } });
                    proof {
                        lemma_object_tree(d);
                        assert(parse_entries(t, i, acc) == Step {
                            res: Ok::<JsonTree, ParseError>(JsonTree::Object(acc2)),
                            pos: self.idx as int,
                            errs: v.errs,
                        });
                    }
                    return Ok(d);
                },
                _ => {
                    proof {
                        assert(parse_entries(t, i, acc) == Step {
                            res: Err::<JsonTree, ParseError>(
                                ParseError::UnexpectedInObject { found: tok.tty },
                            ),
                            pos: self.idx as int,
                            errs: v.errs,
                        });
                    }
                    return Err(ParseError::UnexpectedInObject { found: tok.tty });
                },
            }
        }
    }

    /// An array: `[`, then elements separated by `,`, then `]`. An element
    /// that fails to parse is recorded in `errs` and skipped; a failure
    /// between elements ends the array.
    #[verifier::rlimit(40)]
    pub fn parse_array(&mut self) -> (r: Result<JsonData<'a>, ParseError>)
        requires
            old(self).wf(),
        ensures
            final(self).follows(r, parse_array(old(self).toks(), old(self).idx as int), *old(self)),
        decreases old(self).tokens@.len() - old(self).idx, 1int,
    {
        let ghost t = self.toks();
        let ghost start = *self;
        let ghost goal = parse_array(t, self.idx as int);
        proof {
            lemma_skip_ws(t, self.idx as int);
        }
        match self.consume(TokenType::OpenBracket) {
            Err(e) => return Err(e),
            Ok(_) => {},
        }
        let mut elems: Vec<JsonData<'a>> = Vec::new();
        assert(trees(elems@) =~= seq![]);
        loop
            invariant
                start == *old(self),
                t == start.toks(),
                goal == parse_array(t, start.idx as int),
                self.wf(),
                self.tokens@ == start.tokens@,
                self.source == start.source,
                self.toks() == t,
                self.idx > start.idx,
                ({
                    let rs = parse_elems(t, self.idx as int, trees(elems@));
                    &&& goal.res == rs.res
                    &&& goal.pos == rs.pos
                    &&& start.errs@ + goal.errs == self.errs@ + rs.errs
                }),
            decreases self.tokens@.len() - self.idx,
        {
            let ghost i = self.idx as int;
            let ghost mid_errs = self.errs@;
            let ghost acc = trees(elems@);
            match self.parse_json() {
                Ok(elem) => {
                    let ghost et = elem.tree();
                    elems.push(elem);
                    proof {
                        assert(trees(elems@) =~= acc.push(et));
                    }
                },
                Err(err) => {
                    self.errs.push(err);
                },
            }
            proof {
                lemma_skip_ws(t, self.idx as int);
            }
            self.eat_whitespace();
            let tok = self.peek();
            match tok.tty {
                TokenType::Comma => {
                    let _ = self.consume(TokenType::Comma);
                    proof {
                        let v = parse_value(t, i);
                        let errs1 = match v.res {
                            Ok(_) => v.errs,
                            Err(e) => v.errs.push(e),
                        };
                        let rs = parse_elems(t, self.idx as int, trees(elems@));
                        assert(self.errs@ =~= mid_errs + errs1);
                        assert(start.errs@ + goal.errs =~= self.errs@ + rs.errs);
                    }
                },
                TokenType::CloseBracket => {
                    let _ = self.consume(TokenType::CloseBracket);
                    let d = JsonData(JsonDataInner { ty: JsonDataType::Array { elems } });
                    proof {
                        let v = parse_value(t, i);
                        let errs1 = match v.res {
                            Ok(_) => v.errs,
                            Err(e) => v.errs.push(e),
                        };
                        let acc2 = match v.res {
                            Ok(x) => acc.push(x),
                            Err(_) => acc,
                        };
                        assert(trees(elems@) == acc2);
                        assert(self.errs@ =~= mid_errs + errs1);
                        assert(parse_elems(t, i, acc) == Step {
                            res: Ok::<JsonTree, ParseError>(JsonTree::Array(acc2)),
                            pos: self.idx as int,
                            errs: errs1,
                        });
                        lemma_array_tree(d);
                    }
                    return Ok(d);
                },
                _ => {
                    proof {
                        let v = parse_value(t, i);
                        let errs1 = match v.res {
                            Ok(_) => v.errs,
                            Err(e) => v.errs.push(e),
                        };
                        assert(self.errs@ =~= mid_errs + errs1);
                        assert(parse_elems(t, i, acc) == Step {
                            res: Err::<JsonTree, ParseError>(
                                ParseError::UnexpectedInArray { found: tok.tty },
                            ),
                            pos: self.idx as int,
                            errs: errs1,
                        });
                    }
                    return Err(ParseError::UnexpectedInArray { found: tok.tty });
                },
            }
        }
    }
}

/// Parses a whole document: one value, then only whitespace to the end.
pub fn loads<'a>(source: &'a str) -> (r: Result<JsonData<'a>, ParseError>)
    requires
        source.spec_bytes().len() < usize::MAX,
    ensures
        match r {
            Ok(d) => parse_document(lex(source.spec_bytes())) == Ok::<JsonTree, ParseError>(d.tree()),
            Err(e) => parse_document(lex(source.spec_bytes())) == Err::<JsonTree, ParseError>(e),
        },
{
    let tokens = tokenize(source);
    let mut ctx = ParsingContext::from(source, tokens);
    let ghost t = ctx.toks();
    let json = match ctx.parse_json() {
        Ok(j) => j,
        Err(e) => return Err(e),
    };
    proof {
        lemma_skip_ws(t, ctx.idx as int);
    }
    ctx.eat_whitespace();
    match ctx.consume(TokenType::Eof) {
        Ok(_) => Ok(json),
        Err(e) => Err(e),
    }
}


// ---------------------------------------------------------------------------
// Round trip: a parsed tree, written back with its structural characters,
// is the input without its whitespace tokens.

/// The text of a tree: leaves as their lexemes, containers with `{ : , }`
/// and `[ , ]` and no whitespace.
pub open spec fn render(v: JsonTree) -> Seq<u8>
    decreases v,
{
    match v {
        JsonTree::Object(es) => seq![0x7bu8] + render_entries(es) + seq![0x7du8],
        JsonTree::Array(xs) => seq![0x5bu8] + render_elems(xs) + seq![0x5du8],
        JsonTree::Str(l) => l,
        JsonTree::Boolean(l) => l,
        JsonTree::Number(l) => l,
    }
}

pub open spec fn render_entries(es: Seq<(Seq<u8>, JsonTree)>) -> Seq<u8>
    decreases es,
{
    if es.len() == 0 {
        seq![]
    } else {
        let head = es[0].0 + seq![0x3au8] + render(es[0].1);
        if es.len() == 1 {
            head
        } else {
            head + seq![0x2cu8] + render_entries(es.subrange(1, es.len() as int))
        }
    }
}

pub open spec fn render_elems(xs: Seq<JsonTree>) -> Seq<u8>
    decreases xs,
{
    if xs.len() == 0 {
        seq![]
    } else if xs.len() == 1 {
        render(xs[0])
    } else {
        render(xs[0]) + seq![0x2cu8] + render_elems(xs.subrange(1, xs.len() as int))
    }
}

/// The lexemes of the non-whitespace tokens in positions `i..j`, joined.
pub open spec fn visible(t: Seq<(TokenType, Seq<u8>)>, i: int, j: int) -> Seq<u8>
    decreases j - i,
{
    if i >= j {
        seq![]
    } else {
        (if t[i].0.spec_is_whitespace() {
            seq![]
        } else {
            t[i].1
        }) + visible(t, i + 1, j)
    }
}

/// The byte of a single-character delimiter kind.
pub open spec fn delimiter_byte(k: TokenType) -> Option<u8> {
    match k {
        TokenType::OpenBrace => Some(0x7bu8),
        TokenType::CloseBrace => Some(0x7du8),
        TokenType::OpenBracket => Some(0x5bu8),
        TokenType::CloseBracket => Some(0x5du8),
        TokenType::Comma => Some(0x2cu8),
        TokenType::Colon => Some(0x3au8),
        _ => None,
    }
}

/// Tokens as the tokenizer makes them: no `Eof` among them, and each
/// delimiter's lexeme is its one character.
pub open spec fn well_lexed(t: Seq<(TokenType, Seq<u8>)>) -> bool {
    forall|i: int|
        0 <= i < t.len() ==> (#[trigger] t[i]).0 != TokenType::Eof && (delimiter_byte(t[i].0) is Some
            ==> t[i].1 == seq![delimiter_byte(t[i].0)->0])
}

pub proof fn lemma_lex_well_lexed(b: Seq<u8>)
    ensures
        well_lexed(lex(b)),
    decreases b.len(),
{
    if b.len() > 0 {
        lemma_next_token_len(b);
        let n = next_token(b).1;
        let rest = b.subrange(n, b.len() as int);
        lemma_lex_well_lexed(rest);
        let t = lex(b);
        assert forall|i: int| 0 <= i < t.len() implies (#[trigger] t[i]).0 != TokenType::Eof && (
        delimiter_byte(t[i].0) is Some ==> t[i].1 == seq![delimiter_byte(t[i].0)->0]) by {
            if i == 0 {
                if delimiter_byte(t[0].0) is Some {
                    assert(punctuation_kind(b[0]) is Some);
                    assert(t[0].1 =~= seq![delimiter_byte(t[0].0)->0]);
                }
            } else {
                assert(t[i] == lex(rest)[i - 1]);
            }
        }
    }
}

proof fn lemma_visible_split(t: Seq<(TokenType, Seq<u8>)>, i: int, j: int, k: int)
    requires
        i <= j <= k,
    ensures
        visible(t, i, k) == visible(t, i, j) + visible(t, j, k),
    decreases j - i,
{
    if i < j {
        lemma_visible_split(t, i + 1, j, k);
        assert(visible(t, i, k) =~= visible(t, i, j) + visible(t, j, k));
    } else {
        assert(visible(t, i, j) =~= seq![]);
        assert(visible(t, i, k) =~= visible(t, i, j) + visible(t, j, k));
    }
}

proof fn lemma_visible_ws(t: Seq<(TokenType, Seq<u8>)>, i: int)
    requires
        0 <= i <= t.len(),
    ensures
        visible(t, i, skip_ws(t, i)) == Seq::<u8>::empty(),
    decreases t.len() - i,
{
    if i < t.len() && t[i].0.spec_is_whitespace() {
        lemma_visible_ws(t, i + 1);
        assert(visible(t, i, skip_ws(t, i)) =~= Seq::<u8>::empty());
    }
}

proof fn lemma_visible_one(t: Seq<(TokenType, Seq<u8>)>, j: int)
    requires
        0 <= j < t.len(),
        !t[j].0.spec_is_whitespace(),
    ensures
        visible(t, j, j + 1) == t[j].1,
{
    assert(visible(t, j + 1, j + 1) =~= seq![]);
    assert(visible(t, j, j + 1) =~= t[j].1);
}

/// `visible(t, i, j + 1)` where only whitespace comes before the token at
/// `j = skip_ws(t, i)`.
proof fn lemma_visible_token(t: Seq<(TokenType, Seq<u8>)>, i: int)
    requires
        0 <= i <= t.len(),
        skip_ws(t, i) < t.len(),
    ensures
        visible(t, i, skip_ws(t, i) + 1) == t[skip_ws(t, i)].1,
{
    let j = skip_ws(t, i);
    lemma_skip_ws(t, i);
    lemma_visible_ws(t, i);
    lemma_visible_split(t, i, j, j + 1);
    lemma_visible_one(t, j);
    assert(Seq::<u8>::empty() + t[j].1 =~= t[j].1);
}

pub open spec fn clean(s: Step) -> bool {
    s.res is Ok && s.errs.len() == 0
}

proof fn lemma_value_round_trip(t: Seq<(TokenType, Seq<u8>)>, i: int)
    requires
        well_lexed(t),
        0 <= i <= t.len(),
        clean(parse_value(t, i)),
    ensures
        i <= parse_value(t, i).pos <= t.len(),
        visible(t, i, parse_value(t, i).pos) == render(parse_value(t, i).res->Ok_0),
    decreases t.len() - i, 2int,
{
    let j = skip_ws(t, i);
    lemma_skip_ws(t, i);
    lemma_visible_ws(t, i);
    match kind_at(t, j) {
        TokenType::OpenBrace => {
            lemma_object_round_trip(t, j);
            lemma_visible_split(t, i, j, parse_value(t, i).pos);
        },
        TokenType::OpenBracket => {
            lemma_array_round_trip(t, j);
            lemma_visible_split(t, i, j, parse_value(t, i).pos);
        },
        TokenType::String | TokenType::Number | TokenType::Boolean => {
            lemma_visible_token(t, i);
        },
        _ => {},
    }
}

proof fn lemma_object_round_trip(t: Seq<(TokenType, Seq<u8>)>, i: int)
    requires
        well_lexed(t),
        0 <= i <= t.len(),
        clean(parse_object(t, i)),
    ensures
        i <= parse_object(t, i).pos <= t.len(),
        visible(t, i, parse_object(t, i).pos) == render(parse_object(t, i).res->Ok_0),
    decreases t.len() - i, 1int,
{
    let j = skip_ws(t, i);
    lemma_skip_ws(t, i);
    let s = parse_entries(t, j + 1, seq![]);
    lemma_entries_round_trip(t, j + 1, seq![]);
    let es = s.res->Ok_0->Object_0;
    assert(es.subrange(0, es.len() as int) =~= es);
    lemma_visible_token(t, i);
    lemma_visible_split(t, i, j + 1, s.pos);
    assert(t[j].1 == seq![0x7bu8]);
    assert(visible(t, i, s.pos) =~= render(s.res->Ok_0));
}

proof fn lemma_array_round_trip(t: Seq<(TokenType, Seq<u8>)>, i: int)
    requires
        well_lexed(t),
        0 <= i <= t.len(),
        clean(parse_array(t, i)),
    ensures
        i <= parse_array(t, i).pos <= t.len(),
        visible(t, i, parse_array(t, i).pos) == render(parse_array(t, i).res->Ok_0),
    decreases t.len() - i, 1int,
{
    let j = skip_ws(t, i);
    lemma_skip_ws(t, i);
    let s = parse_elems(t, j + 1, seq![]);
    lemma_elems_round_trip(t, j + 1, seq![]);
    let xs = s.res->Ok_0->Array_0;
    assert(xs.subrange(0, xs.len() as int) =~= xs);
    lemma_visible_token(t, i);
    lemma_visible_split(t, i, j + 1, s.pos);
    assert(t[j].1 == seq![0x5bu8]);
    assert(visible(t, i, s.pos) =~= render(s.res->Ok_0));
}

proof fn lemma_entries_round_trip(
    t: Seq<(TokenType, Seq<u8>)>,
    i: int,
    acc: Seq<(Seq<u8>, JsonTree)>,
)
    requires
        well_lexed(t),
        0 <= i <= t.len(),
        clean(parse_entries(t, i, acc)),
    ensures
        ({
            let s = parse_entries(t, i, acc);
            let es = s.res->Ok_0->Object_0;
            &&& s.res->Ok_0 is Object
            &&& i <= s.pos <= t.len()
            &&& es.len() > acc.len()
            &&& es.subrange(0, acc.len() as int) == acc
            &&& visible(t, i, s.pos) == render_entries(es.subrange(acc.len() as int, es.len() as int))
                + seq![0x7du8]
        }),
    decreases t.len() - i, 0int,
{
    let j = skip_ws(t, i);
    lemma_skip_ws(t, i);
    let m = skip_ws(t, j + 1);
    lemma_skip_ws(t, j + 1);
    let v = parse_value(t, m + 1);
    lemma_value_round_trip(t, m + 1);
    let val = v.res->Ok_0;
    let n = skip_ws(t, v.pos);
    lemma_skip_ws(t, v.pos);
    let acc2 = acc.push((t[j].1, val));
    let s = parse_entries(t, i, acc);
    // the text up to the value's end: key, colon, value
    lemma_visible_token(t, i);
    lemma_visible_token(t, j + 1);
    lemma_visible_ws(t, v.pos);
    lemma_visible_split(t, i, j + 1, m + 1);
    lemma_visible_split(t, i, m + 1, v.pos);
    lemma_visible_split(t, i, v.pos, n);
    lemma_visible_one(t, n);
    lemma_visible_split(t, i, n, n + 1);
    let head = t[j].1 + seq![0x3au8] + render(val);
    assert(visible(t, i, n) =~= head);
    if kind_at(t, n) == TokenType::Comma && n >= i {
        let r = parse_entries(t, n + 1, acc2);
        assert(v.errs + r.errs =~= s.errs);
        assert(r.errs.len() == 0);
        lemma_entries_round_trip(t, n + 1, acc2);
        let es = r.res->Ok_0->Object_0;
        lemma_visible_split(t, i, n + 1, r.pos);
        let tail = es.subrange(acc.len() as int, es.len() as int);
        assert(es.subrange(0, acc.len() as int) =~= acc) by {
            assert(es.subrange(0, acc2.len() as int) == acc2);
            assert(es.subrange(0, acc.len() as int) =~= acc2.subrange(0, acc.len() as int));
        }
        assert(tail[0] == (t[j].1, val)) by {
            assert(es.subrange(0, acc2.len() as int)[acc.len() as int] == acc2[acc.len() as int]);
        }
        assert(tail.subrange(1, tail.len() as int) =~= es.subrange(
            acc2.len() as int,
            es.len() as int,
        ));
        assert(visible(t, i, r.pos) =~= render_entries(tail) + seq![0x7du8]);
    } else {
        let es = acc2;
        let tail = es.subrange(acc.len() as int, es.len() as int);
        assert(tail =~= seq![(t[j].1, val)]);
        assert(es.subrange(0, acc.len() as int) =~= acc);
        assert(visible(t, i, n + 1) =~= render_entries(tail) + seq![0x7du8]);
    }
}

proof fn lemma_elems_round_trip(t: Seq<(TokenType, Seq<u8>)>, i: int, acc: Seq<JsonTree>)
    requires
        well_lexed(t),
        0 <= i <= t.len(),
        clean(parse_elems(t, i, acc)),
    ensures
        ({
            let s = parse_elems(t, i, acc);
            let xs = s.res->Ok_0->Array_0;
            &&& s.res->Ok_0 is Array
            &&& i <= s.pos <= t.len()
            &&& xs.len() > acc.len()
            &&& xs.subrange(0, acc.len() as int) == acc
            &&& visible(t, i, s.pos) == render_elems(xs.subrange(acc.len() as int, xs.len() as int))
                + seq![0x5du8]
        }),
    decreases t.len() - i, 3int,
{
    let v = parse_value(t, i);
    let s = parse_elems(t, i, acc);
    if v.res is Err {
        assert(s.errs.len() > 0);
    }
    lemma_value_round_trip(t, i);
    let val = v.res->Ok_0;
    let n = skip_ws(t, v.pos);
    lemma_skip_ws(t, v.pos);
    let acc2 = acc.push(val);
    lemma_visible_ws(t, v.pos);
    lemma_visible_split(t, i, v.pos, n);
    lemma_visible_one(t, n);
    lemma_visible_split(t, i, n, n + 1);
    assert(visible(t, i, n) =~= render(val));
    if kind_at(t, n) == TokenType::Comma && n >= i {
        let r = parse_elems(t, n + 1, acc2);
        assert(v.errs + r.errs =~= s.errs);
        assert(r.errs.len() == 0);
        lemma_elems_round_trip(t, n + 1, acc2);
        let xs = r.res->Ok_0->Array_0;
        lemma_visible_split(t, i, n + 1, r.pos);
        let tail = xs.subrange(acc.len() as int, xs.len() as int);
        assert(xs.subrange(0, acc.len() as int) =~= acc) by {
            assert(xs.subrange(0, acc2.len() as int) == acc2);
            assert(xs.subrange(0, acc.len() as int) =~= acc2.subrange(0, acc.len() as int));
        }
        assert(tail[0] == val) by {
            assert(xs.subrange(0, acc2.len() as int)[acc.len() as int] == acc2[acc.len() as int]);
        }
        assert(tail.subrange(1, tail.len() as int) =~= xs.subrange(
            acc2.len() as int,
            xs.len() as int,
        ));
        assert(visible(t, i, r.pos) =~= render_elems(tail) + seq![0x5du8]);
    } else {
        let tail = acc2.subrange(acc.len() as int, acc2.len() as int);
        assert(tail =~= seq![val]);
        assert(acc2.subrange(0, acc.len() as int) =~= acc);
        assert(visible(t, i, n + 1) =~= render_elems(tail) + seq![0x5du8]);
    }
}

/// Round trip: when the parser accepts a text without recording a soft
/// error, writing the tree back (leaf lexemes plus the structural
/// characters that its shape implies) gives the text's non-whitespace
/// tokens, joined, which is the input with its whitespace removed outside
/// string literals.
pub proof fn lemma_parse_round_trip(b: Seq<u8>)
    requires
        parse_document(lex(b)) is Ok,
        parse_value(lex(b), 0).errs.len() == 0,
    ensures
        render(parse_document(lex(b))->Ok_0) == visible(lex(b), 0, lex(b).len() as int),
{
    let t = lex(b);
    lemma_lex_well_lexed(b);
    lemma_value_round_trip(t, 0);
    let s = parse_value(t, 0);
    lemma_skip_ws(t, s.pos);
    lemma_visible_ws(t, s.pos);
    let j = skip_ws(t, s.pos);
    if j < t.len() {
        assert(t[j].0 != TokenType::Eof);
    }
    lemma_visible_split(t, 0, s.pos, j);
    assert(visible(t, 0, j) =~= visible(t, 0, s.pos));
}

} // verus!
