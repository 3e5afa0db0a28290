//! The parser: precedence climbing over a token sequence, producing an
//! expression tree or a positioned syntax error.  `parse_bp_s` and
//! `parse_loop_s` are the mathematical description of the parse; the
//! `Parser` struct implements them.  `render_spec` describes the
//! canonical textual form of a tree.

use vstd::prelude::*;

use crate::numeral::{dec_digits, dec_int};
use crate::token::{symbol_spec, tokens_view, wf_tokens, Token, TokenType, TokenView};

verus! {

/// A parse tree node.  Grouping is kept as its own node so that the
/// rendering can show the source parentheses.
#[derive(Debug)]
pub enum Expr {
    Number(i64),
    Unary { op: TokenType, rhs: Box<Expr> },
    Binary { lhs: Box<Expr>, op: TokenType, rhs: Box<Expr> },
    Grouping(Box<Expr>),
}

/// The canonical rendering of a tree: numbers in decimal, unary as the
/// operator glued to its operand, binary as `(op lhs rhs)`, grouping as
/// `(group inner)`.
pub open spec fn render_spec(e: Expr) -> Seq<char>
    decreases e,
{
    match e {
        Expr::Number(n) => dec_int(n as int),
        Expr::Unary { op, rhs } => symbol_spec(op) + render_spec(*rhs),
        Expr::Binary { lhs, op, rhs } => "("@ + symbol_spec(op) + " "@ + render_spec(*lhs)
            + " "@ + render_spec(*rhs) + ")"@,
        Expr::Grouping(inner) => "(group "@ + render_spec(*inner) + ")"@,
    }
}

impl Expr {
    /// The canonical rendering of this tree.
    pub fn render(&self) -> (r: String)
        ensures
            r@ == render_spec(*self),
        decreases *self,
    {
        match self {
            Expr::Number(n) => crate::numeral::i64_to_decimal(*n),
            Expr::Unary { op, rhs } => {
                let mut s = op.symbol();
                let rs = (&**rhs).render();
                s.append(rs.as_str());
                s
            },
            Expr::Binary { lhs, op, rhs } => {
                let mut s = "(".to_owned();
                let os = op.symbol();
                s.append(os.as_str());
                s.append(" ");
                let ls = (&**lhs).render();
                s.append(ls.as_str());
                s.append(" ");
                let rs = (&**rhs).render();
                s.append(rs.as_str());
                s.append(")");
                s
            },
            Expr::Grouping(inner) => {
                let mut s = "(group ".to_owned();
                let inner_s = (&**inner).render();
                s.append(inner_s.as_str());
                s.append(")");
                s
            },
        }
    }
}

/// The left and right binding powers of an infix operator, scaled by ten.
/// The right power exceeds the left one so that a chain of operators of
/// equal precedence associates to the left.
pub open spec fn infix_bp_spec(t: TokenType) -> Option<(int, int)> {
    match t {
        TokenType::Plus | TokenType::Minus => Some((10int, 11int)),
        TokenType::Multiply | TokenType::Divide => Some((20int, 21int)),
        _ => None,
    }
}

/// The binding power a prefix minus parses its operand with: tighter than
/// every infix operator.
pub open spec fn unary_bp_spec() -> int {
    90
}

/// The text of a syntax error at an unexpected token.
pub open spec fn msg_unexpected(line: nat, what: Seq<char>) -> Seq<char> {
    "[line "@ + dec_digits(line) + "] Unexpected token '"@ + what + "' in expression"@
}

/// The text of a syntax error where a particular token was required.
pub open spec fn msg_expected(line: nat, at: Seq<char>, what: Seq<char>) -> Seq<char> {
    "[line "@ + dec_digits(line) + "] Error at '"@ + at + "': "@ + what
}

/// The outcome of a parse: the tree built together with the position just
/// past the tokens it consumed, or the text of the syntax error.
pub enum ParseOut {
    Parsed(Expr, int),
    Failed(Seq<char>),
}

/// Parsing one expression from position `i`: a prefix (number, grouping,
/// or unary minus) followed by the infix loop at `min_bp`.
pub open spec fn parse_bp_s(toks: Seq<TokenView>, i: int, min_bp: int) -> ParseOut
    decreases toks.len() - i, 0int,
{
    if !(0 <= i < toks.len()) {
        ParseOut::Failed(Seq::empty())
    } else {
        let t = toks[i];
        match t.kind {
            TokenType::Number(n) => parse_loop_s(toks, i + 1, min_bp, Expr::Number(n)),
            TokenType::LeftParen => match parse_bp_s(toks, i + 1, 0) {
                ParseOut::Failed(m) => ParseOut::Failed(m),
                ParseOut::Parsed(inner, j) => if i + 1 < j && j <= toks.len() {
                    if j < toks.len() && toks[j].kind == TokenType::RightParen {
                        parse_loop_s(toks, j + 1, min_bp, Expr::Grouping(Box::new(inner)))
                    } else {
                        ParseOut::Failed(
                            msg_expected(
                                toks[j].line,
                                toks[j].lexeme,
                                "Expect ')' after expression"@,
                            ),
                        )
                    }
                } else {
                    ParseOut::Failed(Seq::empty())
                },
            },
            TokenType::Minus => match parse_bp_s(toks, i + 1, unary_bp_spec()) {
                ParseOut::Failed(m) => ParseOut::Failed(m),
                ParseOut::Parsed(operand, j) => if i < j && j <= toks.len() {
                    parse_loop_s(
                        toks,
                        j,
                        min_bp,
                        Expr::Unary { op: TokenType::Minus, rhs: Box::new(operand) },
                    )
                } else {
                    ParseOut::Failed(Seq::empty())
                },
            },
            _ => ParseOut::Failed(msg_unexpected(t.line, symbol_spec(t.kind))),
        }
    }
}

/// The infix loop: while the next token is an infix operator whose left
/// binding power reaches `min_bp`, parse its right operand and fold into
/// a Binary node; stop without error at EOF, a right parenthesis, or a
/// weaker operator.
pub open spec fn parse_loop_s(toks: Seq<TokenView>, i: int, min_bp: int, lhs: Expr) -> ParseOut
    decreases toks.len() - i, 1int,
{
    if !(0 <= i < toks.len()) {
        ParseOut::Failed(Seq::empty())
    } else {
        let t = toks[i];
        match infix_bp_spec(t.kind) {
            Some(bp) => if bp.0 < min_bp {
                ParseOut::Parsed(lhs, i)
            } else {
                match parse_bp_s(toks, i + 1, bp.1) {
                    ParseOut::Failed(m) => ParseOut::Failed(m),
                    ParseOut::Parsed(rhs, j) => if i < j && j <= toks.len() {
                        parse_loop_s(
                            toks,
                            j,
                            min_bp,
                            Expr::Binary {
                                lhs: Box::new(lhs),
                                op: t.kind,
                                rhs: Box::new(rhs),
                            },
                        )
                    } else {
                        ParseOut::Failed(Seq::empty())
                    },
                }
            },
            None => if t.kind == TokenType::EOF || t.kind == TokenType::RightParen {
                ParseOut::Parsed(lhs, i)
            } else {
                ParseOut::Failed(msg_unexpected(t.line, t.lexeme))
            },
        }
    }
}

/// Parsing a whole well-formed token sequence from the start.
pub open spec fn parse_spec(toks: Seq<TokenView>) -> ParseOut {
    parse_bp_s(toks, 0, 0)
}

/// On a well-formed token sequence, a successful parse always consumes at
/// least one token and stops at a real token (never past the EOF).
pub proof fn lemma_parse_bp_bounds(toks: Seq<TokenView>, i: int, min_bp: int)
    requires
        wf_tokens(toks),
        0 <= i < toks.len(),
    ensures
        parse_bp_s(toks, i, min_bp) matches ParseOut::Parsed(e, j) ==> i < j < toks.len(),
    decreases toks.len() - i, 0int,
{
    let t = toks[i];
    match t.kind {
        TokenType::Number(n) => {
            assert(i < toks.len() - 1);
            lemma_parse_loop_bounds(toks, i + 1, min_bp, Expr::Number(n));
        },
        TokenType::LeftParen => {
            assert(i < toks.len() - 1);
            lemma_parse_bp_bounds(toks, i + 1, 0);
            match parse_bp_s(toks, i + 1, 0) {
                ParseOut::Parsed(inner, j) => {
                    if j < toks.len() && toks[j].kind == TokenType::RightParen {
                        assert(j < toks.len() - 1);
                        lemma_parse_loop_bounds(
                            toks,
                            j + 1,
                            min_bp,
                            Expr::Grouping(Box::new(inner)),
                        );
                    }
                },
                ParseOut::Failed(m) => {},
            }
        },
        TokenType::Minus => {
            assert(i < toks.len() - 1);
            lemma_parse_bp_bounds(toks, i + 1, unary_bp_spec());
            match parse_bp_s(toks, i + 1, unary_bp_spec()) {
                ParseOut::Parsed(operand, j) => {
                    lemma_parse_loop_bounds(
                        toks,
                        j,
                        min_bp,
                        Expr::Unary { op: TokenType::Minus, rhs: Box::new(operand) },
                    );
                },
                ParseOut::Failed(m) => {},
            }
        },
        _ => {},
    }
}

/// The companion bound for the infix loop: it never moves backwards and
/// never stops past the EOF token.
pub proof fn lemma_parse_loop_bounds(toks: Seq<TokenView>, i: int, min_bp: int, lhs: Expr)
    requires
        wf_tokens(toks),
        0 <= i < toks.len(),
    ensures
        parse_loop_s(toks, i, min_bp, lhs) matches ParseOut::Parsed(e, j) ==> i <= j
            < toks.len(),
    decreases toks.len() - i, 1int,
{
    let t = toks[i];
    match infix_bp_spec(t.kind) {
        Some(bp) => {
            if bp.0 >= min_bp {
                assert(i < toks.len() - 1);
                lemma_parse_bp_bounds(toks, i + 1, bp.1);
                match parse_bp_s(toks, i + 1, bp.1) {
                    ParseOut::Parsed(rhs, j) => {
                        lemma_parse_loop_bounds(
                            toks,
                            j,
                            min_bp,
                            Expr::Binary {
                                lhs: Box::new(lhs),
                                op: t.kind,
                                rhs: Box::new(rhs),
                            },
                        );
                    },
                    ParseOut::Failed(m) => {},
                }
            }
        },
        None => {},
    }
}

/// Law: a chain `a op b op c` whose two infix operators have equal
/// precedence parses left-nested, `(op (op a b) c)`, never right-nested.
pub proof fn lemma_chain_left_assoc(toks: Seq<TokenView>, a: i64, b: i64, c: i64)
    requires
        toks.len() == 6,
        toks[0].kind == TokenType::Number(a),
        toks[2].kind == TokenType::Number(b),
        toks[4].kind == TokenType::Number(c),
        infix_bp_spec(toks[1].kind) is Some,
        infix_bp_spec(toks[3].kind) == infix_bp_spec(toks[1].kind),
        toks[5].kind == TokenType::EOF,
    ensures
        parse_spec(toks) == ParseOut::Parsed(
            Expr::Binary {
                lhs: Box::new(
                    Expr::Binary {
                        lhs: Box::new(Expr::Number(a)),
                        op: toks[1].kind,
                        rhs: Box::new(Expr::Number(b)),
                    },
                ),
                op: toks[3].kind,
                rhs: Box::new(Expr::Number(c)),
            },
            5,
        ),
{
    let op1 = toks[1].kind;
    let op2 = toks[3].kind;
    if let Some(bp) = infix_bp_spec(op1) {
        assert(bp.0 < bp.1);
        assert(op1 != TokenType::EOF && op1 != TokenType::RightParen);
        let left = Expr::Binary {
            lhs: Box::new(Expr::Number(a)),
            op: op1,
            rhs: Box::new(Expr::Number(b)),
        };
        let whole = Expr::Binary {
            lhs: Box::new(left),
            op: op2,
            rhs: Box::new(Expr::Number(c)),
        };
        assert(parse_loop_s(toks, 5, bp.1, Expr::Number(c)) == ParseOut::Parsed(
            Expr::Number(c),
            5,
        ));
        assert(parse_bp_s(toks, 4, bp.1) == ParseOut::Parsed(Expr::Number(c), 5));
        assert(parse_loop_s(toks, 5, 0, whole) == ParseOut::Parsed(whole, 5));
        assert(parse_loop_s(toks, 3, 0, left) == ParseOut::Parsed(whole, 5));
        assert(parse_loop_s(toks, 3, bp.1, Expr::Number(b)) == ParseOut::Parsed(
            Expr::Number(b),
            3,
        ));
        assert(parse_bp_s(toks, 2, bp.1) == ParseOut::Parsed(Expr::Number(b), 3));
        assert(parse_loop_s(toks, 1, 0, Expr::Number(a)) == ParseOut::Parsed(whole, 5));
        assert(parse_bp_s(toks, 0, 0) == ParseOut::Parsed(whole, 5));
    }
}

/// Law (round trip, for number leaves): rendering a non-negative number
/// leaf, then lexing and parsing that text again, rebuilds the same leaf.
/// The full canonical rendering is a prefix debug form that the infix
/// grammar does not accept, so the round trip is stated for the leaves
/// the grammar does accept back.
pub proof fn lemma_number_render_round_trip(n: i64)
    requires
        n >= 0,
    ensures
        parse_spec(crate::lexer::lex_spec(render_spec(Expr::Number(n))))
            == ParseOut::Parsed(Expr::Number(n), 1),
{
    crate::lexer::lemma_lex_decimal(n);
    assert(render_spec(Expr::Number(n)) == dec_digits(n as nat));
    let toks = crate::lexer::lex_spec(dec_digits(n as nat));
    assert(toks.len() == 2);
    assert(toks[0].kind == TokenType::Number(n));
    assert(toks[1].kind == TokenType::EOF);
    assert(parse_loop_s(toks, 1, 0, Expr::Number(n)) == ParseOut::Parsed(
        Expr::Number(n),
        1,
    ));
    assert(parse_bp_s(toks, 0, 0) == ParseOut::Parsed(Expr::Number(n), 1));
}

fn unexpected_message(line: usize, what: &str) -> (r: String)
    ensures
        r@ == msg_unexpected(line as nat, what@),
{
    let mut s = "[line ".to_owned();
    let num = crate::numeral::u64_to_decimal(line as u64);
    s.append(num.as_str());
    s.append("] Unexpected token '");
    s.append(what);
    s.append("' in expression");
    proof {
        assert(s@ =~= msg_unexpected(line as nat, what@));
    }
    s
}

fn expected_message(line: usize, at: &str, what: &str) -> (r: String)
    ensures
        r@ == msg_expected(line as nat, at@, what@),
{
    let mut s = "[line ".to_owned();
    let num = crate::numeral::u64_to_decimal(line as u64);
    s.append(num.as_str());
    s.append("] Error at '");
    s.append(at);
    s.append("': ");
    s.append(what);
    proof {
        assert(s@ =~= msg_expected(line as nat, at@, what@));
    }
    s
}

/// The parser's state: the token sequence it owns and a cursor into it.
pub struct Parser {
    pub tokens: Vec<Token>,
    pub current: usize,
}

impl Parser {
    /// The views of the owned tokens.
    pub open spec fn toks(&self) -> Seq<TokenView> {
        tokens_view(self.tokens@)
    }

    /// The view of the token under the cursor.
    pub open spec fn cur(&self) -> TokenView {
        self.toks()[self.current as int]
    }

    /// The parser's well-formedness: the tokens are a lexer-shaped
    /// sequence (one final EOF) and the cursor rests on a token.
    pub open spec fn wf(&self) -> bool {
        &&& wf_tokens(self.toks())
        &&& self.current < self.toks().len()
    }

    pub fn new(tokens: Vec<Token>) -> (p: Parser)
        requires
            wf_tokens(tokens_view(tokens@)),
        ensures
            p.wf(),
            p.toks() == tokens_view(tokens@),
            p.current == 0,
    {
        Parser { tokens, current: 0 }
    }

    fn peek(&self) -> (t: &Token)
        requires
            self.wf(),
        ensures
            t@ == self.cur(),
    {
        &self.tokens[self.current]
    }

    fn is_at_end(&self) -> (r: bool)
        requires
            self.wf(),
        ensures
            r == (self.cur().kind == TokenType::EOF),
    {
        matches!(self.tokens[self.current].token_type, TokenType::EOF)
    }

    fn previous(&self) -> (t: &Token)
        requires
            self.wf(),
            0 < self.current,
        ensures
            t@ == self.toks()[self.current as int - 1],
    {
        &self.tokens[self.current - 1]
    }

    fn advance(&mut self)
        requires
            old(self).wf(),
        ensures
            final(self).wf(),
            final(self).tokens@ == old(self).tokens@,
            (if old(self).cur().kind == TokenType::EOF {
                final(self).current == old(self).current
            } else {
                final(self).current == old(self).current + 1
            }),
    {
        let n = self.tokens.len();
        if !self.is_at_end() {
            proof {
                assert(self.current < self.toks().len() - 1);
            }
            self.current += 1;
        }
    }

    fn match_operator(&mut self) -> (r: Option<TokenType>)
        requires
            old(self).wf(),
        ensures
            *final(self) == *old(self),
            (if infix_bp_spec(old(self).cur().kind) is Some {
                r == Some(old(self).cur().kind)
            } else {
                r is None
            }),
    {
        let r = match &self.peek().token_type {
            TokenType::Plus => Some(TokenType::Plus),
            TokenType::Minus => Some(TokenType::Minus),
            TokenType::Multiply => Some(TokenType::Multiply),
            TokenType::Divide => Some(TokenType::Divide),
            _ => None,
        };
        r
    }

    fn infix_binding_power(op: &TokenType) -> (r: Option<(u32, u32)>)
        ensures
            r is Some == infix_bp_spec(*op) is Some,
            r matches Some(p) ==> infix_bp_spec(*op) == Some((p.0 as int, p.1 as int)),
    {
        match op {
            TokenType::Plus | TokenType::Minus => Some((10, 11)),
            TokenType::Multiply | TokenType::Divide => Some((20, 21)),
            _ => None,
        }
    }

    fn consume(&mut self, token_type: TokenType, error_msg: &str) -> (r: Result<(), String>)
        requires
            old(self).wf(),
            token_type == TokenType::RightParen,
        ensures
            final(self).wf(),
            final(self).tokens@ == old(self).tokens@,
            (if old(self).cur().kind == TokenType::RightParen {
                r == Ok::<(), String>(()) && final(self).current == old(self).current + 1
            } else {
                &&& final(self).current == old(self).current
                &&& r matches Err(m) && m@ == msg_expected(
                    old(self).cur().line,
                    old(self).cur().lexeme,
                    error_msg@,
                )
            }),
    {
        let is_rp = matches!(self.peek().token_type, TokenType::RightParen);
        if is_rp {
            self.advance();
            Ok(())
        } else {
            let line = self.peek().line;
            let lexeme = self.peek().lexeme.clone();
            Err(expected_message(line, lexeme.as_str(), error_msg))
        }
    }

    /// Parse one whole expression starting at the cursor: the result is
    /// exactly what the mathematical parser says for these tokens.
    pub fn parse_expr(&mut self) -> (r: Result<Expr, String>)
        requires
            old(self).wf(),
        ensures
            final(self).wf(),
            final(self).tokens@ == old(self).tokens@,
            (match r {
                Ok(e) => parse_bp_s(old(self).toks(), old(self).current as int, 0)
                    == ParseOut::Parsed(e, final(self).current as int),
                Err(m) => parse_bp_s(old(self).toks(), old(self).current as int, 0)
                    == ParseOut::Failed(m@),
            }),
    {
        self.parse_expr_bp(0)
    }

    #[verifier::loop_isolation(false)]
    fn parse_expr_bp(&mut self, min_bp: u32) -> (r: Result<Expr, String>)
        requires
            old(self).wf(),
        ensures
            final(self).wf(),
            final(self).tokens@ == old(self).tokens@,
            old(self).current <= final(self).current,
            (match r {
                Ok(e) => parse_bp_s(
                    old(self).toks(),
                    old(self).current as int,
                    min_bp as int,
                ) == ParseOut::Parsed(e, final(self).current as int) && old(self).current
                    < final(self).current,
                Err(m) => parse_bp_s(
                    old(self).toks(),
                    old(self).current as int,
                    min_bp as int,
                ) == ParseOut::Failed(m@),
            }),
        decreases self.tokens@.len() - self.current,
    {
        let ghost tokens0 = self.tokens@;
        let ghost toks = self.toks();
        let ghost cur0 = self.current as int;
        let ghost mbp = min_bp as int;
        let n_opt: Option<i64> = match &self.peek().token_type {
            TokenType::Number(n) => Some(*n),
            _ => None,
        };
        let mut lhs: Expr;
        if let Some(n) = n_opt {
            self.advance();
            lhs = Expr::Number(n);
            proof {
                assert(parse_bp_s(toks, cur0, mbp) == parse_loop_s(
                    toks,
                    cur0 + 1,
                    mbp,
                    lhs,
                ));
            }
        } else {
            let is_lp = matches!(&self.peek().token_type, TokenType::LeftParen);
            let is_minus = matches!(&self.peek().token_type, TokenType::Minus);
            if is_lp {
                self.advance();
                let inner = match self.parse_expr_bp(0) {
                    Ok(e) => e,
                    Err(m) => {
                        return Err(m);
                    },
                };
                proof {
                    lemma_parse_bp_bounds(toks, cur0 + 1, 0);
                }
                match self.consume(TokenType::RightParen, "Expect ')' after expression") {
                    Ok(_) => {},
                    Err(m) => {
                        return Err(m);
                    },
                }
                lhs = Expr::Grouping(Box::new(inner));
                proof {
                    assert(parse_bp_s(toks, cur0, mbp) == parse_loop_s(
                        toks,
                        self.current as int,
                        mbp,
                        lhs,
                    ));
                }
            } else if is_minus {
                self.advance();
                let operand = match self.parse_expr_bp(90) {
                    Ok(e) => e,
                    Err(m) => {
                        return Err(m);
                    },
                };
                lhs = Expr::Unary { op: TokenType::Minus, rhs: Box::new(operand) };
                proof {
                    assert(parse_bp_s(toks, cur0, mbp) == parse_loop_s(
                        toks,
                        self.current as int,
                        mbp,
                        lhs,
                    ));
                }
            } else {
                let line = self.peek().line;
                let what = self.peek().token_type.symbol();
                let m = unexpected_message(line, what.as_str());
                proof {
                    assert(parse_bp_s(toks, cur0, mbp) == ParseOut::Failed(m@));
                }
                return Err(m);
            }
        }
        loop
            invariant
                self.wf(),
                self.tokens@ == tokens0,
                self.toks() == toks,
                cur0 < self.current as int,
                parse_bp_s(toks, cur0, mbp) == parse_loop_s(
                    toks,
                    self.current as int,
                    mbp,
                    lhs,
                ),
            decreases toks.len() - self.current,
        {
            let op_opt = self.match_operator();
            match op_opt {
                Option::None => {
                    let stop = matches!(
                        &self.peek().token_type,
                        TokenType::EOF | TokenType::RightParen
                    );
                    if stop {
                        proof {
                            let curx = self.current as int;
                            assert(parse_loop_s(toks, curx, mbp, lhs) == ParseOut::Parsed(
                                lhs,
                                curx,
                            ));
                        }
                        return Ok(lhs);
                    }
                    let line = self.peek().line;
                    let lexeme = self.peek().lexeme.clone();
                    let m = unexpected_message(line, lexeme.as_str());
                    proof {
                        let curx = self.current as int;
                        assert(parse_loop_s(toks, curx, mbp, lhs) == ParseOut::Failed(m@));
                    }
                    return Err(m);
                },
                Option::Some(op) => {
                    let ghost opk = op;
                    let bp = Parser::infix_binding_power(&op);
                    let l_bp: u32;
                    let r_bp: u32;
                    match bp {
                        Option::Some(p) => {
                            l_bp = p.0;
                            r_bp = p.1;
                        },
                        Option::None => {
                            proof {
                                assert(false);
                            }
                            l_bp = 0;
                            r_bp = 0;
                        },
                    }
                    if l_bp < min_bp {
                        proof {
                            let curx = self.current as int;
                            assert(parse_loop_s(toks, curx, mbp, lhs) == ParseOut::Parsed(
                                lhs,
                                curx,
                            ));
                        }
                        return Ok(lhs);
                    }
                    self.advance();
                    let rhs = match self.parse_expr_bp(r_bp) {
                        Ok(e) => e,
                        Err(m) => {
                            return Err(m);
                        },
                    };
                    let prev = lhs;
                    lhs = Expr::Binary { lhs: Box::new(prev), op, rhs: Box::new(rhs) };
                    proof {
                        let curx = self.current as int;
                        assert(parse_bp_s(toks, cur0, mbp) == parse_loop_s(
                            toks,
                            curx,
                            mbp,
                            lhs,
                        ));
                    }
                },
            }
        }
    }
}

} // verus!

