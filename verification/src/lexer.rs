//! Pull-based lexer: turns source text into tokens one at a time, tracking
//! the position of every token and error.

use vstd::prelude::*;

use crate::location::{col_at, lemma_line_col_bounds, line_at, tracks, Location};
use crate::text::{dec_chars, is_digit, is_digit_char, is_ws, is_ws_char, push_char, usize_to_string};
use crate::tokens::{Token, TokenView};

verus! {

/// Why lexing failed.  A number literal that cannot be read back as a value
/// cannot actually arise from the scanning grammar; the variant exists for
/// the sake of a closed taxonomy.
#[derive(Debug, PartialEq, Eq)]
pub enum LexerErrorKind {
    UnexpectedCharacter(char),
    InvalidNumberFormat(String),
    InvalidNumberValue(String),
}

/// The mathematical shape of a lexer failure.
pub enum LexerErrorKindView {
    UnexpectedCharacter(char),
    InvalidNumberFormat(Seq<char>),
    InvalidNumberValue(Seq<char>),
}

impl View for LexerErrorKind {
    type V = LexerErrorKindView;

    open spec fn view(&self) -> LexerErrorKindView {
        match *self {
            LexerErrorKind::UnexpectedCharacter(c) => LexerErrorKindView::UnexpectedCharacter(c),
            LexerErrorKind::InvalidNumberFormat(ref s) => LexerErrorKindView::InvalidNumberFormat(
                s@,
            ),
            LexerErrorKind::InvalidNumberValue(ref s) => LexerErrorKindView::InvalidNumberValue(
                s@,
            ),
        }
    }
}

/// A lexing failure together with the position it points at: the offending
/// character for an unexpected one, the start of the literal for a malformed
/// number.
#[derive(Debug, PartialEq, Eq)]
pub struct LexerError {
    pub kind: LexerErrorKind,
    pub location: Location,
}

impl LexerError {
    /// The failure described in words.
    pub open spec fn spec_message(&self) -> Seq<char> {
        match self.kind@ {
            LexerErrorKindView::UnexpectedCharacter(c) => "Unexpected character: "@.push(c),
            LexerErrorKindView::InvalidNumberFormat(lit) => "Invalid number format: "@ + lit,
            LexerErrorKindView::InvalidNumberValue(lit) => "Invalid number: "@ + lit,
        }
    }

    pub fn message(&self) -> (m: String)
        ensures
            m@ == self.spec_message(),
    {
        match &self.kind {
            LexerErrorKind::UnexpectedCharacter(c) => {
                let mut m = String::new();
                m.append("Unexpected character: ");
                push_char(&mut m, *c);
                proof {
                    assert(m@ =~= "Unexpected character: "@.push(*c));
                }
                m
            },
            LexerErrorKind::InvalidNumberFormat(lit) => {
                let mut m = String::new();
                m.append("Invalid number format: ");
                m.append(lit.as_str());
                proof {
                    assert(m@ =~= "Invalid number format: "@ + lit@);
                }
                m
            },
            LexerErrorKind::InvalidNumberValue(lit) => {
                let mut m = String::new();
                m.append("Invalid number: ");
                m.append(lit.as_str());
                proof {
                    assert(m@ =~= "Invalid number: "@ + lit@);
                }
                m
            },
        }
    }

    /// The failure together with the line and column it points at.
    pub open spec fn spec_describe(&self) -> Seq<char> {
        "Error:["@ + self.spec_message() + "] in line "@ + dec_chars(self.location.line as int)
            + " at column "@ + dec_chars(self.location.col as int)
    }

    pub fn describe(&self) -> (m: String)
        ensures
            m@ == self.spec_describe(),
    {
        let mut m = String::from_str("Error:[");
        m.append(self.message().as_str());
        m.append("] in line ");
        m.append(usize_to_string(self.location.line()).as_str());
        m.append(" at column ");
        m.append(usize_to_string(self.location.col()).as_str());
        proof {
            assert(m@ =~= self.spec_describe());
        }
        m
    }
}

/// What one pull on the lexer yields at position `i`: a token and the
/// position after it, the end of the input, or a failure at some position.
pub enum LexStep {
    Tok(TokenView, int),
    End,
    Fail(LexerErrorKindView, int),
}

/// First position at or after `i` holding a non-whitespace character.
pub open spec fn skip_ws_from(s: Seq<char>, i: int) -> int
    decreases s.len() - i,
        when 0 <= i <= s.len()
{
    if i < s.len() && is_ws_char(s[i]) {
        skip_ws_from(s, i + 1)
    } else {
        i
    }
}

/// End of the number literal that starts at `i`: digits and at most one `.`
/// are consumed greedily; `seen_dot` records whether a `.` was already read.
pub open spec fn scan_number_from(s: Seq<char>, i: int, seen_dot: bool) -> int
    decreases s.len() - i,
        when 0 <= i <= s.len()
{
    if i < s.len() && (is_digit_char(s[i]) || (s[i] == '.' && !seen_dot)) {
        scan_number_from(s, i + 1, seen_dot || s[i] == '.')
    } else {
        i
    }
}

/// The token rule, applied once at position `i`: skip whitespace, then read
/// a number, a single-character token, or fail; at the end of the input
/// report the end instead.
pub open spec fn next_token_at(s: Seq<char>, i: int) -> LexStep
    recommends
        0 <= i <= s.len(),
{
    let j = skip_ws_from(s, i);
    if j >= s.len() {
        LexStep::End
    } else if is_digit_char(s[j]) {
        let k = scan_number_from(s, j, false);
        let lit = s.subrange(j, k);
        if lit.len() > 0 && lit[lit.len() - 1] == '.' {
            LexStep::Fail(LexerErrorKindView::InvalidNumberFormat(lit), j)
        } else {
            LexStep::Tok(TokenView::Number(lit), k)
        }
    } else if s[j] == '+' {
        LexStep::Tok(TokenView::Plus, j + 1)
    } else if s[j] == '-' {
        LexStep::Tok(TokenView::Minus, j + 1)
    } else if s[j] == '*' {
        LexStep::Tok(TokenView::Multiply, j + 1)
    } else if s[j] == '/' {
        LexStep::Tok(TokenView::Divide, j + 1)
    } else if s[j] == '(' {
        LexStep::Tok(TokenView::LeftParen, j + 1)
    } else if s[j] == ')' {
        LexStep::Tok(TokenView::RightParen, j + 1)
    } else if s[j] == '^' {
        LexStep::Tok(TokenView::Power, j + 1)
    } else {
        LexStep::Fail(LexerErrorKindView::UnexpectedCharacter(s[j]), j)
    }
}

/// Whitespace skipping stays inside the text, skips only whitespace, and
/// stops at the first character that is none.
pub proof fn lemma_skip_ws_from(s: Seq<char>, i: int)
    requires
        0 <= i <= s.len(),
    ensures
        i <= skip_ws_from(s, i) <= s.len(),
        forall|k: int| i <= k < skip_ws_from(s, i) ==> is_ws_char(s[k]),
        skip_ws_from(s, i) < s.len() ==> !is_ws_char(s[skip_ws_from(s, i)]),
    decreases s.len() - i,
{
    if i < s.len() && is_ws_char(s[i]) {
        lemma_skip_ws_from(s, i + 1);
    }
}

/// Number scanning stays inside the text and consumes only digits and dots.
pub proof fn lemma_scan_number_from(s: Seq<char>, i: int, seen_dot: bool)
    requires
        0 <= i <= s.len(),
    ensures
        i <= scan_number_from(s, i, seen_dot) <= s.len(),
        forall|k: int|
            i <= k < scan_number_from(s, i, seen_dot) ==> (is_digit_char(s[k]) || s[k] == '.'),
    decreases s.len() - i,
{
    if i < s.len() && (is_digit_char(s[i]) || (s[i] == '.' && !seen_dot)) {
        lemma_scan_number_from(s, i + 1, seen_dot || s[i] == '.');
    }
}

/// A successful pull always makes progress and never leaves the text.
pub proof fn lemma_next_token_progress(s: Seq<char>, i: int)
    requires
        0 <= i <= s.len(),
    ensures
        next_token_at(s, i) matches LexStep::Tok(_, j) ==> skip_ws_from(s, i) < j <= s.len(),
        next_token_at(s, i) matches LexStep::Tok(_, j) ==> i < j <= s.len(),
{
    lemma_skip_ws_from(s, i);
    let j = skip_ws_from(s, i);
    if j < s.len() && is_digit_char(s[j]) {
        lemma_scan_number_from(s, j, false);
        assert(scan_number_from(s, j, false) == scan_number_from(s, j + 1, s[j] == '.'));
        lemma_scan_number_from(s, j + 1, s[j] == '.');
    }
}

/// The whole token sequence of `s` from position `i` on, or the first
/// failure.
pub open spec fn lex_from(s: Seq<char>, i: int) -> Result<
    Seq<TokenView>,
    (LexerErrorKindView, int),
>
    decreases s.len() - i,
        when 0 <= i <= s.len()
{
    match next_token_at(s, i) {
        LexStep::End => Ok(Seq::empty()),
        LexStep::Fail(k, e) => Err((k, e)),
        LexStep::Tok(t, j) => if i < j <= s.len() {
            match lex_from(s, j) {
                Ok(rest) => Ok(seq![t] + rest),
                Err(e) => Err(e),
            }
        } else {
            Ok(Seq::empty())
        },
    }
}

/// The token views of a sequence of tokens.
pub open spec fn token_views(ts: Seq<Token>) -> Seq<TokenView> {
    ts.map_values(|t: Token| t@)
}

/// The lexer: the source as random-accessible characters, their count, and
/// the position of the next character to read.
#[derive(Debug)]
pub struct Lexer {
    pub chars: Vec<char>,
    pub length: usize,
    pub location: Location,
}

impl Lexer {
    /// The cursor stays inside the text and its line and column always
    /// describe the position the index points at.
    pub open spec fn wf(&self) -> bool {
        &&& self.length == self.chars@.len()
        &&& self.length < usize::MAX
        &&& self.location.index <= self.length
        &&& tracks(self.location, self.chars@, self.location.index as int)
    }

    pub fn new(input: &str) -> (lx: Lexer)
        requires
            input@.len() < usize::MAX,
        ensures
            lx.wf(),
            lx.chars@ == input@,
            lx.location.index == 0,
    {
        let length = input.unicode_len();
        let mut chars: Vec<char> = Vec::new();
        let mut i: usize = 0;
        while i < length
            invariant
                i <= length,
                length == input@.len(),
                chars@ =~= input@.subrange(0, i as int),
            decreases length - i,
        {
            chars.push(input.get_char(i));
            i = i + 1;
        }
        assert(chars@ =~= input@);
        let location = Location::new();
        let lx = Lexer { chars, length, location };
        assert(line_at(lx.chars@, 0) == 1 && col_at(lx.chars@, 0) == 1);
        lx
    }

    /// Whether the cursor stands on a whitespace character.
    fn ws_at_cursor(&self) -> (b: bool)
        requires
            self.wf(),
        ensures
            b == (self.location.index < self.length && is_ws_char(
                self.chars@[self.location.index as int],
            )),
    {
        if self.location.index < self.length {
            let c = self.chars[self.location.index];
            is_ws(c)
        } else {
            false
        }
    }

    /// Whether the cursor stands on a character that continues a number
    /// literal: a digit always, a `.` only while none was read yet.
    fn number_char_at_cursor(&self, has_decimal: bool) -> (b: bool)
        requires
            self.wf(),
        ensures
            b == (self.location.index < self.length && {
                let c = self.chars@[self.location.index as int];
                is_digit_char(c) || (c == '.' && !has_decimal)
            }),
    {
        if self.location.index < self.length {
            let c = self.chars[self.location.index];
            is_digit(c) || (c == '.' && !has_decimal)
        } else {
            false
        }
    }

    /// Skip a maximal run of whitespace, advancing the location for each
    /// character.
    fn skip_whitespace(&mut self)
        requires
            old(self).wf(),
        ensures
            final(self).wf(),
            final(self).chars@ == old(self).chars@,
            final(self).length == old(self).length,
            final(self).location.index == skip_ws_from(
                old(self).chars@,
                old(self).location.index as int,
            ),
    {
        let ghost s = self.chars@;
        let ghost i0 = self.location.index as int;
        while self.ws_at_cursor()
            invariant
                self.wf(),
                self.chars@ == s,
                self.length == s.len(),
                0 <= i0 <= self.location.index as int,
                skip_ws_from(s, i0) == skip_ws_from(s, self.location.index as int),
            decreases self.length - self.location.index,
        {
            let ghost i = self.location.index as int;
            let ch = self.chars[self.location.index];
            proof {
                lemma_line_col_bounds(s, i);
            }
            let ghost before = self.location;
            self.location.advance(ch);
            proof {
                Location::lemma_tracks_step(s, i, before, self.location);
                assert(skip_ws_from(s, i) == skip_ws_from(s, i + 1));
            }
        }
    }

    /// Read one number literal: a greedy run of digits with at most one `.`,
    /// failing when it ends in the dot.
    fn read_number(&mut self) -> (r: Result<Token, LexerError>)
        requires
            old(self).wf(),
            old(self).location.index < old(self).length,
            is_digit_char(old(self).chars@[old(self).location.index as int]),
        ensures
            final(self).wf(),
            final(self).chars@ == old(self).chars@,
            final(self).length == old(self).length,
            ({
                let s = old(self).chars@;
                let j = old(self).location.index as int;
                let k = scan_number_from(s, j, false);
                let lit = s.subrange(j, k);
                &&& final(self).location.index == k
                &&& if lit[lit.len() - 1] == '.' {
                    r matches Err(e) && e.kind@ == LexerErrorKindView::InvalidNumberFormat(lit)
                        && e.location == old(self).location
                } else {
                    r matches Ok(t) && t@ == TokenView::Number(lit)
                }
            }),
    {
        let ghost s = self.chars@;
        let ghost j0 = self.location.index as int;
        let start_location = self.location;
        let mut literal = String::new();
        let mut has_decimal = false;
        let mut last_was_dot = false;
        while self.number_char_at_cursor(has_decimal)
            invariant
                self.wf(),
                self.chars@ == s,
                self.length == s.len(),
                0 <= j0 <= self.location.index as int <= s.len(),
                scan_number_from(s, j0, false) == scan_number_from(
                    s,
                    self.location.index as int,
                    has_decimal,
                ),
                literal@ =~= s.subrange(j0, self.location.index as int),
                j0 < self.location.index as int ==> last_was_dot == (s[self.location.index as int
                    - 1] == '.'),
                has_decimal == exists|k: int|
                    j0 <= k < self.location.index as int && s[k] == '.',
            decreases self.length - self.location.index,
        {
            let ghost i = self.location.index as int;
            let ch = self.chars[self.location.index];
            proof {
                lemma_line_col_bounds(s, i);
            }
            push_char(&mut literal, ch);
            let ghost before = self.location;
            self.location.advance(ch);
            last_was_dot = ch == '.';
            let ghost had_decimal = has_decimal;
            if ch == '.' {
                has_decimal = true;
            }
            proof {
                Location::lemma_tracks_step(s, i, before, self.location);
                assert(scan_number_from(s, i, had_decimal) == scan_number_from(
                    s,
                    i + 1,
                    had_decimal || s[i] == '.',
                ));
                assert(literal@ =~= s.subrange(j0, i + 1));
                if has_decimal {
                    let w = if had_decimal {
                        choose|k: int| j0 <= k < i && s[k] == '.'
                    } else {
                        i
                    };
                    assert(j0 <= w < i + 1 && s[w] == '.');
                }
            }
        }
        let ghost k = self.location.index as int;
        proof {
            assert(scan_number_from(s, k, has_decimal) == k);
            assert(scan_number_from(s, j0, false) == k);
            assert(j0 < k) by {
                assert(scan_number_from(s, j0, false) == scan_number_from(s, j0 + 1, s[j0] == '.'));
                lemma_scan_number_from(s, j0 + 1, s[j0] == '.');
            }
            assert(literal@ =~= s.subrange(j0, k));
        }
        if last_was_dot {
            return Err(
                LexerError {
                    kind: LexerErrorKind::InvalidNumberFormat(literal),
                    location: start_location,
                },
            );
        }
        Ok(Token::Number(literal))
    }

    /// Pull the next token.  `Ok(None)` reports a clean end of the input and
    /// leaves the position where it was; an error points at the offending
    /// character, or at the start of a malformed number literal.
    pub fn next_token(&mut self) -> (r: Result<Option<Token>, LexerError>)
        requires
            old(self).wf(),
        ensures
            final(self).wf(),
            final(self).chars@ == old(self).chars@,
            final(self).length == old(self).length,
            ({
                let s = old(self).chars@;
                let i = old(self).location.index as int;
                match next_token_at(s, i) {
                    LexStep::End => r matches Ok(None) && final(self).location == old(
                        self,
                    ).location,
                    LexStep::Tok(t, j) => r matches Ok(tok) && tok matches Some(tok) && tok@ == t
                        && final(self).location.index == j,
                    LexStep::Fail(k, e) => r matches Err(err) && err.kind@ == k
                        && err.location.index == e && err.location.line == line_at(s, e)
                        && err.location.col == col_at(s, e),
                }
            }),
    {
        let ghost s = self.chars@;
        let ghost i0 = self.location.index as int;
        let saved = self.location;
        self.skip_whitespace();
        let ghost j = self.location.index as int;
        proof {
            lemma_skip_ws_from(s, i0);
        }
        if self.location.index >= self.length {
            self.location = saved;
            return Ok(None);
        }
        let ch = self.chars[self.location.index];
        if is_digit(ch) {
            proof {
                assert(scan_number_from(s, j, false) == scan_number_from(s, j + 1, s[j] == '.'));
                lemma_scan_number_from(s, j + 1, s[j] == '.');
            }
            match self.read_number() {
                Ok(t) => Ok(Some(t)),
                Err(e) => Err(e),
            }
        } else if ch == '+' || ch == '-' || ch == '*' || ch == '/' || ch == '(' || ch == ')' || ch
            == '^' {
            proof {
                lemma_line_col_bounds(s, j);
            }
            let ghost before = self.location;
            self.location.advance(ch);
            proof {
                Location::lemma_tracks_step(s, j, before, self.location);
            }
            if ch == '+' {
                Ok(Some(Token::Plus))
            } else if ch == '-' {
                Ok(Some(Token::Minus))
            } else if ch == '*' {
                Ok(Some(Token::Multiply))
            } else if ch == '/' {
                Ok(Some(Token::Divide))
            } else if ch == '(' {
                Ok(Some(Token::LeftParen))
            } else if ch == ')' {
                Ok(Some(Token::RightParen))
            } else {
                Ok(Some(Token::Power))
            }
        } else {
            Err(
                LexerError {
                    kind: LexerErrorKind::UnexpectedCharacter(ch),
                    location: self.location,
                },
            )
        }
    }
}

/// Materialize the whole token sequence of `input`, or report the first
/// lexing failure.
pub fn tokenize(input: &str) -> (r: Result<Vec<Token>, LexerError>)
    requires
        input@.len() < usize::MAX,
    ensures
        ({
            let s = input@;
            match lex_from(s, 0) {
                Ok(ts) => r matches Ok(v) && token_views(v@) == ts,
                Err(f) => r matches Err(err) && err.kind@ == f.0 && err.location.index == f.1
                    && err.location.line == line_at(s, f.1) && err.location.col == col_at(s, f.1),
            }
        }),
{
    let ghost s = input@;
    let mut lexer = Lexer::new(input);
    let mut tokens: Vec<Token> = Vec::new();
    loop
        invariant
            lexer.wf(),
            lexer.chars@ == s,
            s == input@,
            lex_from(s, 0) == (match lex_from(s, lexer.location.index as int) {
                Ok(rest) => Ok::<Seq<TokenView>, (LexerErrorKindView, int)>(
                    token_views(tokens@) + rest,
                ),
                Err(e) => Err::<Seq<TokenView>, (LexerErrorKindView, int)>(e),
            }),
        decreases s.len() - lexer.location.index,
    {
        let ghost i = lexer.location.index as int;
        proof {
            lemma_next_token_progress(s, i);
        }
        match lexer.next_token() {
            Err(e) => {
                return Err(e);
            },
            Ok(None) => {
                proof {
                    assert(lex_from(s, i) == Ok::<Seq<TokenView>, (LexerErrorKindView, int)>(
                        Seq::empty(),
                    ));
                    assert(token_views(tokens@) + Seq::<TokenView>::empty() =~= token_views(
                        tokens@,
                    ));
                }
                return Ok(tokens);
            },
            Ok(Some(t)) => {
                let ghost j = lexer.location.index as int;
                let ghost tv = t@;
                let ghost done = tokens@;
                tokens.push(t);
                proof {
                    assert(lex_from(s, i) == (match lex_from(s, j) {
                        Ok(rest) => Ok::<Seq<TokenView>, (LexerErrorKindView, int)>(
                            seq![tv] + rest,
                        ),
                        Err(e) => Err::<Seq<TokenView>, (LexerErrorKindView, int)>(e),
                    }));
                    assert(token_views(tokens@) =~= token_views(done).push(tv));
                    if lex_from(s, j) is Ok {
                        let rest = lex_from(s, j)->Ok_0;
                        assert(token_views(done) + (seq![tv] + rest) =~= token_views(tokens@)
                            + rest);
                    }
                }
            },
        }
    }
}

} // verus!
