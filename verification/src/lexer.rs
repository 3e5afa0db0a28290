//! The lexer: a single pass over a line of text that produces a token
//! sequence ending in EOF.  `lex_at` is the mathematical description of
//! the scan; the `Lexer` struct and its methods implement it.

use vstd::prelude::*;

use crate::numeral::{digit_val, is_digit_char, run_val};
use crate::token::{tokens_view, wf_tokens, Token, TokenType, TokenView};

verus! {

/// Whitespace that is skipped without affecting the line counter.
pub open spec fn is_ws_char(c: char) -> bool {
    c == ' ' || c == '\r' || c == '\t'
}

/// The line counter after one newline; it saturates at the largest
/// machine-representable line number instead of wrapping.
pub open spec fn bump_line(line: nat) -> nat {
    if line < usize::MAX as nat {
        line + 1
    } else {
        line
    }
}

/// The position of the first newline at or after `i`, or the end of the
/// input when there is none: where skipping a `//` comment stops.
pub open spec fn comment_end(s: Seq<char>, i: int) -> int
    decreases s.len() - i,
{
    if i < 0 || i >= s.len() {
        s.len() as int
    } else if s[i] == '\n' {
        i
    } else {
        comment_end(s, i + 1)
    }
}

/// The position just past the maximal run of digits starting at `i`.
pub open spec fn digit_run_end(s: Seq<char>, i: int) -> int
    decreases s.len() - i,
{
    if i < 0 || i >= s.len() {
        s.len() as int
    } else if is_digit_char(s[i]) {
        digit_run_end(s, i + 1)
    } else {
        i
    }
}

/// The token for one recognized single character, or an `Error` token
/// carrying a diagnostic for an unrecognized one.
pub open spec fn single_token_v(c: char, line: nat) -> TokenView {
    if c == '(' {
        TokenView { kind: TokenType::LeftParen, lexeme: seq![c], line }
    } else if c == ')' {
        TokenView { kind: TokenType::RightParen, lexeme: seq![c], line }
    } else if c == '+' {
        TokenView { kind: TokenType::Plus, lexeme: seq![c], line }
    } else if c == '-' {
        TokenView { kind: TokenType::Minus, lexeme: seq![c], line }
    } else if c == '*' {
        TokenView { kind: TokenType::Multiply, lexeme: seq![c], line }
    } else if c == '/' {
        TokenView { kind: TokenType::Divide, lexeme: seq![c], line }
    } else {
        TokenView { kind: TokenType::Error, lexeme: "Unexpected character."@, line }
    }
}

/// The token for a maximal digit run: its base-10 value when it fits in
/// a signed 64-bit integer, and an `Error` token otherwise.
pub open spec fn number_token_v(run: Seq<char>, line: nat) -> TokenView {
    if run_val(run) <= i64::MAX as nat {
        TokenView { kind: TokenType::Number(run_val(run) as i64), lexeme: run, line }
    } else {
        TokenView { kind: TokenType::Error, lexeme: "Number literal too large."@, line }
    }
}

/// The token sequence produced by scanning `s` from position `i` with the
/// given current line number.
pub open spec fn lex_at(s: Seq<char>, i: int, line: nat) -> Seq<TokenView>
    decreases s.len() - i,
{
    if i < 0 || i >= s.len() {
        seq![TokenView { kind: TokenType::EOF, lexeme: Seq::empty(), line }]
    } else if is_ws_char(s[i]) {
        lex_at(s, i + 1, line)
    } else if s[i] == '\n' {
        lex_at(s, i + 1, bump_line(line))
    } else if s[i] == '/' && i + 1 < s.len() && s[i + 1] == '/' {
        if i < comment_end(s, i) && comment_end(s, i) <= s.len() {
            lex_at(s, comment_end(s, i), line)
        } else {
            Seq::empty()
        }
    } else if is_digit_char(s[i]) {
        if i < digit_run_end(s, i) && digit_run_end(s, i) <= s.len() {
            seq![number_token_v(s.subrange(i, digit_run_end(s, i)), line)] + lex_at(
                s,
                digit_run_end(s, i),
                line,
            )
        } else {
            Seq::empty()
        }
    } else {
        seq![single_token_v(s[i], line)] + lex_at(s, i + 1, line)
    }
}

/// The token sequence of a whole input, scanned from the start on line 1.
pub open spec fn lex_spec(s: Seq<char>) -> Seq<TokenView> {
    lex_at(s, 0, 1)
}

/// A position where the next token starts: the end of the input, or a
/// character that is neither whitespace, a newline, nor the start of a
/// `//` comment.
pub open spec fn at_token_start(s: Seq<char>, i: int) -> bool {
    i == s.len() || (!is_ws_char(s[i]) && s[i] != '\n' && !(s[i] == '/' && i + 1 < s.len()
        && s[i + 1] == '/'))
}

pub proof fn lemma_comment_end(s: Seq<char>, i: int)
    requires
        0 <= i <= s.len(),
    ensures
        i <= comment_end(s, i) <= s.len(),
        forall|j: int| i <= j < comment_end(s, i) ==> s[j] != '\n',
        comment_end(s, i) < s.len() ==> s[comment_end(s, i)] == '\n',
    decreases s.len() - i,
{
    if i < s.len() && s[i] != '\n' {
        lemma_comment_end(s, i + 1);
    }
}

pub proof fn lemma_digit_run_end(s: Seq<char>, i: int)
    requires
        0 <= i <= s.len(),
    ensures
        i <= digit_run_end(s, i) <= s.len(),
        forall|j: int| i <= j < digit_run_end(s, i) ==> is_digit_char(s[j]),
        digit_run_end(s, i) < s.len() ==> !is_digit_char(s[digit_run_end(s, i)]),
    decreases s.len() - i,
{
    if i < s.len() && is_digit_char(s[i]) {
        lemma_digit_run_end(s, i + 1);
    }
}

/// A stretch of digits followed by a non-digit (or the end) is exactly
/// the maximal digit run.
pub proof fn lemma_digit_run_end_is(s: Seq<char>, i: int, k: int)
    requires
        0 <= i <= k <= s.len(),
        forall|j: int| i <= j < k ==> is_digit_char(#[trigger] s[j]),
        k == s.len() || !is_digit_char(s[k]),
    ensures
        digit_run_end(s, i) == k,
    decreases k - i,
{
    if i < k {
        lemma_digit_run_end_is(s, i + 1, k);
    }
}

/// Law: every token sequence the lexer produces is nonempty, ends with an
/// EOF token, and contains no EOF token anywhere else.
pub proof fn lemma_lex_at_shape(s: Seq<char>, i: int, line: nat)
    requires
        0 <= i <= s.len(),
    ensures
        wf_tokens(lex_at(s, i, line)),
    decreases s.len() - i,
{
    if i >= s.len() {
    } else if is_ws_char(s[i]) {
        lemma_lex_at_shape(s, i + 1, line);
    } else if s[i] == '\n' {
        lemma_lex_at_shape(s, i + 1, bump_line(line));
    } else if s[i] == '/' && i + 1 < s.len() && s[i + 1] == '/' {
        lemma_comment_end(s, i);
        assert(comment_end(s, i) > i);
        lemma_lex_at_shape(s, comment_end(s, i), line);
    } else if is_digit_char(s[i]) {
        lemma_digit_run_end(s, i);
        assert(digit_run_end(s, i) > i);
        lemma_lex_at_shape(s, digit_run_end(s, i), line);
        let tok = number_token_v(s.subrange(i, digit_run_end(s, i)), line);
        assert(tok.kind != TokenType::EOF);
    } else {
        lemma_lex_at_shape(s, i + 1, line);
        assert(single_token_v(s[i], line).kind != TokenType::EOF);
    }
}

/// Law: the invariant above, stated for a whole scanned input.
pub proof fn lemma_lex_ends_with_eof(s: Seq<char>)
    ensures
        wf_tokens(lex_spec(s)),
{
    lemma_lex_at_shape(s, 0, 1);
}

proof fn lemma_lex_blank_at(s: Seq<char>, i: int, line: nat)
    requires
        0 <= i <= s.len(),
        forall|j: int| 0 <= j < s.len() ==> is_ws_char(#[trigger] s[j]) || s[j] == '\n',
    ensures
        lex_at(s, i, line).len() == 1,
        lex_at(s, i, line)[0].kind == TokenType::EOF,
    decreases s.len() - i,
{
    if i < s.len() {
        if is_ws_char(s[i]) {
            lemma_lex_blank_at(s, i + 1, line);
        } else {
            lemma_lex_blank_at(s, i + 1, bump_line(line));
        }
    }
}

/// Law: lexing input that holds only whitespace and newlines yields
/// exactly one token, the EOF sentinel.
pub proof fn lemma_lex_blank(s: Seq<char>)
    requires
        forall|j: int| 0 <= j < s.len() ==> is_ws_char(#[trigger] s[j]) || s[j] == '\n',
    ensures
        lex_spec(s).len() == 1,
        lex_spec(s)[0].kind == TokenType::EOF,
{
    lemma_lex_blank_at(s, 0, 1);
}

/// Law: lexing the decimal digit string of a non-negative 64-bit integer
/// yields exactly the Number token carrying that integer, then EOF, both
/// on line 1.
pub proof fn lemma_lex_decimal(n: i64)
    requires
        n >= 0,
    ensures
        lex_spec(crate::numeral::dec_digits(n as nat)) == seq![
            TokenView {
                kind: TokenType::Number(n),
                lexeme: crate::numeral::dec_digits(n as nat),
                line: 1,
            },
            TokenView { kind: TokenType::EOF, lexeme: Seq::empty(), line: 1 },
        ],
{
    let s = crate::numeral::dec_digits(n as nat);
    crate::numeral::lemma_dec_digits_are_digits(n as nat);
    crate::numeral::lemma_run_val_dec_digits(n as nat);
    let len = s.len() as int;
    lemma_digit_run_end_is(s, 0, len);
    assert(is_digit_char(s[0]));
    assert(s[0] as u32 >= 48);
    assert(!is_ws_char(s[0])) by {
        if s[0] == ' ' {
            assert(s[0] as u32 == 32);
        }
        if s[0] == '\r' {
            assert(s[0] as u32 == 13);
        }
        if s[0] == '\t' {
            assert(s[0] as u32 == 9);
        }
    }
    assert(s[0] != '\n') by {
        if s[0] == '\n' {
            assert(s[0] as u32 == 10);
        }
    }
    assert(s[0] != '/') by {
        if s[0] == '/' {
            assert(s[0] as u32 == 47);
        }
    }
    assert(s.subrange(0, len) =~= s);
    assert(run_val(s) == n as nat);
    assert(number_token_v(s, 1) == TokenView { kind: TokenType::Number(n), lexeme: s, line: 1 });
    assert(lex_at(s, len, 1) == seq![
        TokenView { kind: TokenType::EOF, lexeme: Seq::<char>::empty(), line: 1 },
    ]);
    assert(lex_spec(s) =~= seq![
        TokenView { kind: TokenType::Number(n), lexeme: s, line: 1 },
        TokenView { kind: TokenType::EOF, lexeme: Seq::empty(), line: 1 },
    ]);
}

/// The lexer's cursor state: the source text both as a string (for
/// lexemes) and as its characters (for scanning), the start of the token
/// being scanned, the current position, and the current 1-based line.
pub struct Lexer {
    text: String,
    chars: Vec<char>,
    start: usize,
    current: usize,
    line: usize,
}

impl Lexer {
    /// The lexer's well-formedness: the two copies of the source agree
    /// and the cursor positions are in range.
    pub closed spec fn wf(&self) -> bool {
        &&& self.chars@ == self.text@
        &&& self.start <= self.current <= self.chars@.len()
    }

    fn new(source: &str) -> (lx: Lexer)
        ensures
            lx.wf(),
            lx.chars@ == source@,
            lx.start == 0,
            lx.current == 0,
            lx.line == 1,
    {
        let n = source.unicode_len();
        let mut chars: Vec<char> = Vec::new();
        let mut i: usize = 0;
        while i < n
            invariant
                i <= n,
                n == source@.len(),
                chars@ == source@.subrange(0, i as int),
            decreases n - i,
        {
            let c = source.get_char(i);
            chars.push(c);
            proof {
                assert(chars@ =~= source@.subrange(0, i + 1 as int));
            }
            i += 1;
        }
        proof {
            assert(chars@ =~= source@);
        }
        Lexer { text: source.to_owned(), chars, start: 0, current: 0, line: 1 }
    }

    fn is_at_end(&self) -> (r: bool)
        requires
            self.wf(),
        ensures
            r == (self.current == self.chars@.len()),
    {
        self.current >= self.chars.len()
    }

    fn advance(&mut self) -> (c: char)
        requires
            old(self).wf(),
            old(self).current < old(self).chars@.len(),
        ensures
            final(self).wf(),
            final(self).chars@ == old(self).chars@,
            final(self).text@ == old(self).text@,
            final(self).start == old(self).start,
            final(self).line == old(self).line,
            final(self).current == old(self).current + 1,
            c == old(self).chars@[old(self).current as int],
    {
        let n = self.chars.len();
        let ch = self.chars[self.current];
        self.current += 1;
        ch
    }

    fn peek(&self) -> (r: Option<char>)
        requires
            self.wf(),
        ensures
            self.current < self.chars@.len() ==> r == Some(
                self.chars@[self.current as int],
            ),
            self.current >= self.chars@.len() ==> r.is_none(),
    {
        if self.current < self.chars.len() {
            Some(self.chars[self.current])
        } else {
            None
        }
    }

    fn peek_next(&self) -> (r: Option<char>)
        requires
            self.wf(),
        ensures
            self.current + 1 < self.chars@.len() ==> r == Some(
                self.chars@[self.current as int + 1],
            ),
            self.current + 1 >= self.chars@.len() ==> r.is_none(),
    {
        if self.chars.len() - self.current > 1 {
            Some(self.chars[self.current + 1])
        } else {
            None
        }
    }

    fn get_lexeme(&self) -> (r: String)
        requires
            self.wf(),
        ensures
            r@ == self.chars@.subrange(self.start as int, self.current as int),
    {
        self.text.as_str().substring_char(self.start, self.current).to_owned()
    }

    fn is_alpha(c: char) -> (r: bool)
        ensures
            r == ((97 <= c as u32 && c as u32 <= 122) || (65 <= c as u32 && c as u32 <= 90)),
    {
        let u = c as u32;
        (u >= 97 && u <= 122) || (u >= 65 && u <= 90)
    }

    fn is_digit(c: char) -> (r: bool)
        ensures
            r == is_digit_char(c),
    {
        let u = c as u32;
        u >= 48 && u <= 57
    }

    fn match_char(&mut self, expect: char) -> (r: bool)
        requires
            old(self).wf(),
        ensures
            final(self).wf(),
            final(self).chars@ == old(self).chars@,
            final(self).text@ == old(self).text@,
            final(self).start == old(self).start,
            final(self).line == old(self).line,
            (if old(self).current < old(self).chars@.len() && old(self).chars@[old(
                self,
            ).current as int] == expect {
                r && final(self).current == old(self).current + 1
            } else {
                !r && final(self).current == old(self).current
            }),
    {
        if self.is_at_end() {
            return false;
        }
        let n = self.chars.len();
        if self.chars[self.current] != expect {
            return false;
        }
        self.current += 1;
        true
    }

    fn make_token(&self, token_type: TokenType) -> (t: Token)
        requires
            self.wf(),
        ensures
            (t@ == TokenView {
                kind: token_type,
                lexeme: self.chars@.subrange(self.start as int, self.current as int),
                line: self.line as nat,
            }),
    {
        Token { token_type, lexeme: self.get_lexeme(), line: self.line }
    }

    fn error_token(&self, message: String) -> (t: Token)
        ensures
            (t@ == TokenView {
                kind: TokenType::Error,
                lexeme: message@,
                line: self.line as nat,
            }),
    {
        Token { token_type: TokenType::Error, lexeme: message, line: self.line }
    }

    fn skip_whitespace(&mut self)
        requires
            old(self).wf(),
        ensures
            final(self).wf(),
            final(self).chars@ == old(self).chars@,
            final(self).text@ == old(self).text@,
            final(self).start == old(self).start,
            lex_at(final(self).chars@, final(self).current as int, final(self).line as nat)
                == lex_at(
                old(self).chars@,
                old(self).current as int,
                old(self).line as nat,
            ),
            at_token_start(final(self).chars@, final(self).current as int),
            old(self).current <= final(self).current,
    {
        let ghost s = self.chars@;
        let ghost text0 = self.text@;
        let ghost start0 = self.start;
        let ghost cur0 = self.current as int;
        let ghost line0 = self.line as nat;
        loop
            invariant
                self.wf(),
                self.chars@ == s,
                self.text@ == text0,
                self.start == start0,
                cur0 <= self.current as int,
                lex_at(s, self.current as int, self.line as nat) == lex_at(s, cur0, line0),
            ensures
                cur0 <= self.current as int,
                at_token_start(s, self.current as int),
            decreases s.len() - self.current,
        {
            let copt = self.peek();
            match copt {
                Option::Some(c) => {
                    if c == ' ' || c == '\r' || c == '\t' {
                        self.advance();
                    } else if c == '\n' {
                        if self.line < usize::MAX {
                            self.line = self.line + 1;
                        }
                        self.advance();
                    } else if c == '/' {
                        let two = match self.peek_next() {
                            Option::Some(c2) => c2 == '/',
                            Option::None => false,
                        };
                        if two {
                            let ghost cstart = self.current as int;
                            let ghost line1 = self.line as nat;
                            proof {
                                lemma_comment_end(s, cstart);
                                lemma_comment_end(s, cstart + 1);
                                assert(s[cstart] != '\n') by {
                                    if s[cstart] == '\n' {
                                        assert(s[cstart] as u32 == 10);
                                    }
                                }
                                assert(comment_end(s, cstart) == comment_end(s, cstart + 1));
                            }
                            loop
                                invariant
                                    self.wf(),
                                    self.chars@ == s,
                                    self.text@ == text0,
                                    self.start == start0,
                                    self.line as nat == line1,
                                    cstart <= self.current as int <= s.len(),
                                    comment_end(s, self.current as int) == comment_end(
                                        s,
                                        cstart,
                                    ),
                                ensures
                                    self.wf(),
                                    self.chars@ == s,
                                    self.text@ == text0,
                                    self.start == start0,
                                    self.line as nat == line1,
                                    self.current as int == comment_end(s, cstart),
                                decreases s.len() - self.current,
                            {
                                let p = self.peek();
                                match p {
                                    Option::Some(ch) => {
                                        if ch == '\n' {
                                            break ;
                                        }
                                        self.advance();
                                    },
                                    Option::None => {
                                        break ;
                                    },
                                }
                            }
                            proof {
                                assert(lex_at(s, cstart, line1) == lex_at(
                                    s,
                                    comment_end(s, cstart),
                                    line1,
                                ));
                            }
                        } else {
                            break ;
                        }
                    } else {
                        break ;
                    }
                },
                Option::None => {
                    break ;
                },
            }
        }
    }

    fn number(&mut self) -> (t: Token)
        requires
            old(self).wf(),
            old(self).start + 1 == old(self).current,
            is_digit_char(old(self).chars@[old(self).start as int]),
        ensures
            final(self).wf(),
            final(self).chars@ == old(self).chars@,
            final(self).text@ == old(self).text@,
            final(self).line == old(self).line,
            final(self).start == old(self).start,
            final(self).current as int == digit_run_end(
                old(self).chars@,
                old(self).start as int,
            ),
            (t@ == number_token_v(
                old(self).chars@.subrange(
                    old(self).start as int,
                    digit_run_end(old(self).chars@, old(self).start as int),
                ),
                old(self).line as nat,
            )),
    {
        let ghost s = self.chars@;
        let ghost text0 = self.text@;
        let ghost st = self.start as int;
        let ghost line0 = self.line;
        proof {
            lemma_digit_run_end(s, st);
            assert(run_val(Seq::<char>::empty()) == 0);
            assert(s.subrange(st, st + 1) =~= Seq::<char>::empty().push(s[st]));
            crate::numeral::lemma_run_val_push(Seq::<char>::empty(), s[st]);
        }
        let c0 = self.chars[self.start];
        let u0 = c0 as u32;
        let mut acc: u64 = (u0 - 48) as u64;
        let mut too_big: bool = false;
        proof {
            assert(st < digit_run_end(s, st)) by {
                if digit_run_end(s, st) == st {
                    assert(!is_digit_char(s[st]));
                }
            }
        }
        loop
            invariant
                self.wf(),
                self.chars@ == s,
                self.text@ == text0,
                self.start as int == st,
                self.line == line0,
                st < self.current as int <= digit_run_end(s, st),
                digit_run_end(s, st) <= s.len(),
                forall|j: int| st <= j < digit_run_end(s, st) ==> is_digit_char(s[j]),
                digit_run_end(s, st) < s.len() ==> !is_digit_char(
                    s[digit_run_end(s, st)],
                ),
                (if too_big {
                    run_val(s.subrange(st, self.current as int)) > i64::MAX as nat
                } else {
                    acc as nat == run_val(s.subrange(st, self.current as int)) && acc
                        <= i64::MAX as u64
                }),
            ensures
                self.wf(),
                self.chars@ == s,
                self.text@ == text0,
                self.start as int == st,
                self.line == line0,
                self.current as int == digit_run_end(s, st),
                (if too_big {
                    run_val(s.subrange(st, self.current as int)) > i64::MAX as nat
                } else {
                    acc as nat == run_val(s.subrange(st, self.current as int)) && acc
                        <= i64::MAX as u64
                }),
            decreases s.len() - self.current,
        {
            let p = self.peek();
            let d_opt: Option<u32> = match p {
                Option::Some(ch) => {
                    let u = ch as u32;
                    if u >= 48 && u <= 57 {
                        Option::Some(u - 48)
                    } else {
                        Option::None
                    }
                },
                Option::None => Option::None,
            };
            match d_opt {
                Option::None => {
                    proof {
                        assert(self.current as int == digit_run_end(s, st)) by {
                            if (self.current as int) < digit_run_end(s, st) {
                                assert(is_digit_char(s[self.current as int]));
                            }
                        }
                    }
                    break ;
                },
                Option::Some(d) => {
                    let ghost cur = self.current as int;
                    proof {
                        assert(cur < s.len());
                        assert(is_digit_char(s[cur]));
                        assert(cur < digit_run_end(s, st)) by {
                            if cur == digit_run_end(s, st) {
                                assert(!is_digit_char(s[cur]));
                            }
                        }
                        assert(s.subrange(st, cur + 1) =~= s.subrange(st, cur).push(s[cur]));
                        crate::numeral::lemma_run_val_push(s.subrange(st, cur), s[cur]);
                        assert(digit_val(s[cur]) == d as nat);
                    }
                    self.advance();
                    if !too_big {
                        if acc > (9223372036854775807u64 - (d as u64)) / 10 {
                            too_big = true;
                            proof {
                                assert(run_val(s.subrange(st, cur + 1)) > i64::MAX as nat);
                            }
                        } else {
                            acc = acc * 10 + (d as u64);
                        }
                    } else {
                        proof {
                            let v = run_val(s.subrange(st, cur));
                            assert(run_val(s.subrange(st, cur + 1)) == v * 10 + digit_val(
                                s[cur],
                            ));
                            assert(v * 10 >= v);
                        }
                    }
                },
            }
        }
        if too_big {
            self.error_token("Number literal too large.".to_owned())
        } else {
            let t = self.make_token(TokenType::Number(acc as i64));
            t
        }
    }

    fn scan_token(&mut self) -> (t: Token)
        requires
            old(self).wf(),
        ensures
            final(self).wf(),
            final(self).chars@ == old(self).chars@,
            final(self).text@ == old(self).text@,
            ({
                let pre = lex_at(
                    old(self).chars@,
                    old(self).current as int,
                    old(self).line as nat,
                );
                if t@.kind == TokenType::EOF {
                    pre == seq![t@]
                } else {
                    pre == seq![t@] + lex_at(
                        final(self).chars@,
                        final(self).current as int,
                        final(self).line as nat,
                    ) && old(self).current < final(self).current
                }
            }),
    {
        self.skip_whitespace();
        self.start = self.current;
        let ghost s = self.chars@;
        let ghost cur1 = self.current as int;
        let ghost line1 = self.line as nat;
        if self.is_at_end() {
            let t = self.make_token(TokenType::EOF);
            proof {
                assert(s.subrange(cur1, cur1) =~= Seq::<char>::empty());
                assert(lex_at(s, cur1, line1) =~= seq![t@]);
            }
            return t;
        }
        let c = self.advance();
        if Lexer::is_digit(c) {
            proof {
                lemma_digit_run_end(s, cur1);
                assert(cur1 < digit_run_end(s, cur1)) by {
                    if digit_run_end(s, cur1) == cur1 {
                        assert(!is_digit_char(s[cur1]));
                    }
                }
                assert(!is_ws_char(s[cur1])) by {
                    if s[cur1] == ' ' {
                        assert(s[cur1] as u32 == 32);
                    }
                    if s[cur1] == '\r' {
                        assert(s[cur1] as u32 == 13);
                    }
                    if s[cur1] == '\t' {
                        assert(s[cur1] as u32 == 9);
                    }
                }
                assert(s[cur1] != '\n') by {
                    if s[cur1] == '\n' {
                        assert(s[cur1] as u32 == 10);
                    }
                }
                assert(s[cur1] != '/') by {
                    if s[cur1] == '/' {
                        assert(s[cur1] as u32 == 47);
                    }
                }
            }
            let t = self.number();
            proof {
                assert(lex_at(s, cur1, line1) == seq![t@] + lex_at(
                    s,
                    self.current as int,
                    self.line as nat,
                ));
            }
            return t;
        }
        let t = match c {
            '(' => self.make_token(TokenType::LeftParen),
            ')' => self.make_token(TokenType::RightParen),
            '+' => self.make_token(TokenType::Plus),
            '-' => self.make_token(TokenType::Minus),
            '*' => self.make_token(TokenType::Multiply),
            '/' => self.make_token(TokenType::Divide),
            _ => self.error_token("Unexpected character.".to_owned()),
        };
        proof {
            assert(s.subrange(cur1, cur1 + 1) =~= seq![s[cur1]]);
            assert(t@ == single_token_v(s[cur1], line1));
            assert(lex_at(s, cur1, line1) == seq![t@] + lex_at(
                s,
                self.current as int,
                self.line as nat,
            ));
        }
        t
    }

    /// Scan a whole input: the resulting token sequence is exactly the
    /// mathematical lexing of the source text.
    pub fn lex_all(source: String) -> (tokens: Vec<Token>)
        ensures
            tokens_view(tokens@) == lex_spec(source@),
            wf_tokens(tokens_view(tokens@)),
    {
        proof {
            lemma_lex_ends_with_eof(source@);
        }
        let mut lx = Lexer::new(source.as_str());
        let mut tokens: Vec<Token> = Vec::new();
        loop
            invariant_except_break
                lx.wf(),
                lx.chars@ == source@,
                tokens_view(tokens@) + lex_at(source@, lx.current as int, lx.line as nat)
                    == lex_spec(source@),
            ensures
                tokens_view(tokens@) == lex_spec(source@),
            decreases source@.len() - lx.current,
        {
            let ghost toks0 = tokens@;
            let t = lx.scan_token();
            let ghost tv = t@;
            let is_eof = matches!(t.token_type, TokenType::EOF);
            tokens.push(t);
            proof {
                assert(tokens_view(tokens@) =~= tokens_view(toks0).push(tv));
                assert(is_eof == (tv.kind == TokenType::EOF));
            }
            if is_eof {
                proof {
                    assert(tokens_view(tokens@) =~= tokens_view(toks0) + seq![tv]);
                    assert(tokens_view(tokens@) == lex_spec(source@));
                }
                break ;
            }
            proof {
                assert(tokens_view(tokens@) + lex_at(
                    source@,
                    lx.current as int,
                    lx.line as nat,
                ) =~= lex_spec(source@));
            }
        }
        tokens
    }
}

} // verus!
