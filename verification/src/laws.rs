//! Properties that tie the pipeline together: the leaf count of a parsed
//! tree, and the round trip from a tree through its canonical rendering
//! back to the same tree.

use vstd::prelude::*;

use crate::ast::{leaf_count, spec_render, AstView};
use crate::lexer::{
    lemma_next_token_progress, lemma_scan_number_from, lemma_skip_ws_from, lex_from, next_token_at,
    scan_number_from,
    skip_ws_from, LexStep, LexerErrorKindView,
};
use crate::text::{is_digit_char, is_ws_char};
use crate::parser::{
    apply_additive, apply_multiplicative, is_additive_op, is_multiplicative_op,
    lemma_progress_expression, lemma_progress_expression_rest, lemma_progress_factor,
    lemma_progress_primary, lemma_progress_term, lemma_progress_term_rest, parse_expression_at,
    parse_expression_rest, parse_factor_at, parse_primary_at, parse_term_at, parse_term_rest,
    ParseStep,
};
use crate::tokens::TokenView;

verus! {

/// How many number tokens the sequence holds.
pub open spec fn count_numbers(ts: Seq<TokenView>) -> nat
    decreases ts.len(),
{
    if ts.len() == 0 {
        0
    } else {
        count_numbers(ts.drop_last()) + if ts.last() is Number {
            1nat
        } else {
            0nat
        }
    }
}

/// Counting numbers over a range splits at any point inside it.
proof fn lemma_count_split(t: Seq<TokenView>, a: int, b: int, c: int)
    requires
        0 <= a <= b <= c <= t.len(),
    ensures
        count_numbers(t.subrange(a, c)) == count_numbers(t.subrange(a, b)) + count_numbers(
            t.subrange(b, c),
        ),
    decreases c - b,
{
    if b == c {
        assert(t.subrange(b, c) =~= Seq::<TokenView>::empty());
        assert(t.subrange(a, c) =~= t.subrange(a, b));
    } else {
        lemma_count_split(t, a, b, c - 1);
        assert(t.subrange(a, c).drop_last() =~= t.subrange(a, c - 1));
        assert(t.subrange(b, c).drop_last() =~= t.subrange(b, c - 1));
        assert(t.subrange(a, c).last() == t[c - 1]);
        assert(t.subrange(b, c).last() == t[c - 1]);
    }
}

/// A range of one token counts 1 exactly when that token is a number.
proof fn lemma_count_one(t: Seq<TokenView>, p: int)
    requires
        0 <= p < t.len(),
    ensures
        count_numbers(t.subrange(p, p + 1)) == if t[p] is Number {
            1nat
        } else {
            0nat
        },
{
    assert(count_numbers(Seq::<TokenView>::empty()) == 0);
    assert(t.subrange(p, p + 1).drop_last() =~= Seq::<TokenView>::empty());
    assert(t.subrange(p, p + 1).last() == t[p]);
}

/// A parsed expression holds one leaf per number token it consumed.
///
/// For any token sequence, when the expression production succeeds, the
/// leaf count of the tree it builds equals the count of number tokens in
/// the consumed range; multiplication, division and power consume no
/// leaves of their own.
pub proof fn lemma_leaves_expression(t: Seq<TokenView>, pos: int)
    requires
        0 <= pos <= t.len(),
    ensures
        parse_expression_at(t, pos) matches Ok(r) ==> leaf_count(r.0) == count_numbers(
            t.subrange(pos, r.1),
        ),
    decreases t.len() - pos, 6int,
{
    lemma_leaves_term(t, pos);
    lemma_progress_term(t, pos);
    if let Ok((left, p)) = parse_term_at(t, pos) {
        lemma_leaves_expression_rest(t, p, left);
        lemma_progress_expression_rest(t, p, left);
        if let Ok((a2, p2)) = parse_expression_rest(t, p, left) {
            lemma_count_split(t, pos, p, p2);
        }
    }
}

/// The additive fold adds one leaf per number token in the range it
/// consumes on top of the leaves already accumulated.
proof fn lemma_leaves_expression_rest(t: Seq<TokenView>, pos: int, left: AstView)
    requires
        0 <= pos <= t.len(),
    ensures
        parse_expression_rest(t, pos, left) matches Ok(r) ==> leaf_count(r.0) == leaf_count(left)
            + count_numbers(t.subrange(pos, r.1)),
    decreases t.len() - pos, 5int,
{
    if pos < t.len() && is_additive_op(t[pos]) {
        lemma_leaves_term(t, pos + 1);
        lemma_progress_term(t, pos + 1);
        if let Ok((right, p2)) = parse_term_at(t, pos + 1) {
            let combined = apply_additive(t[pos], left, right);
            lemma_leaves_expression_rest(t, p2, combined);
            lemma_progress_expression_rest(t, p2, combined);
            if let Ok((a3, p3)) = parse_expression_rest(t, p2, combined) {
                lemma_count_one(t, pos);
                lemma_count_split(t, pos, pos + 1, p3);
                lemma_count_split(t, pos + 1, p2, p3);
            }
        }
    }
}

/// A parsed term holds one leaf per number token it consumed.
proof fn lemma_leaves_term(t: Seq<TokenView>, pos: int)
    requires
        0 <= pos <= t.len(),
    ensures
        parse_term_at(t, pos) matches Ok(r) ==> leaf_count(r.0) == count_numbers(
            t.subrange(pos, r.1),
        ),
    decreases t.len() - pos, 4int,
{
    lemma_leaves_factor(t, pos);
    lemma_progress_factor(t, pos);
    if let Ok((left, p)) = parse_factor_at(t, pos) {
        lemma_leaves_term_rest(t, p, left);
        lemma_progress_term_rest(t, p, left);
        if let Ok((a2, p2)) = parse_term_rest(t, p, left) {
            lemma_count_split(t, pos, p, p2);
        }
    }
}

/// The multiplicative fold adds one leaf per number token in the range it
/// consumes on top of the leaves already accumulated.
proof fn lemma_leaves_term_rest(t: Seq<TokenView>, pos: int, left: AstView)
    requires
        0 <= pos <= t.len(),
    ensures
        parse_term_rest(t, pos, left) matches Ok(r) ==> leaf_count(r.0) == leaf_count(left)
            + count_numbers(t.subrange(pos, r.1)),
    decreases t.len() - pos, 3int,
{
    if pos < t.len() && is_multiplicative_op(t[pos]) {
        lemma_leaves_factor(t, pos + 1);
        lemma_progress_factor(t, pos + 1);
        if let Ok((right, p2)) = parse_factor_at(t, pos + 1) {
            let combined = apply_multiplicative(t[pos], left, right);
            lemma_leaves_term_rest(t, p2, combined);
            lemma_progress_term_rest(t, p2, combined);
            if let Ok((a3, p3)) = parse_term_rest(t, p2, combined) {
                lemma_count_one(t, pos);
                lemma_count_split(t, pos, pos + 1, p3);
                lemma_count_split(t, pos + 1, p2, p3);
            }
        }
    }
}

/// A parsed factor holds one leaf per number token it consumed.
proof fn lemma_leaves_factor(t: Seq<TokenView>, pos: int)
    requires
        0 <= pos <= t.len(),
    ensures
        parse_factor_at(t, pos) matches Ok(r) ==> leaf_count(r.0) == count_numbers(
            t.subrange(pos, r.1),
        ),
    decreases t.len() - pos, 2int,
{
    lemma_leaves_primary(t, pos);
    lemma_progress_primary(t, pos);
    if let Ok((base, p)) = parse_primary_at(t, pos) {
        if pos <= p && p < t.len() && t[p] is Power {
            lemma_leaves_factor(t, p + 1);
            lemma_progress_factor(t, p + 1);
            if let Ok((exponent, p2)) = parse_factor_at(t, p + 1) {
                lemma_count_one(t, p);
                lemma_count_split(t, pos, p, p2);
                lemma_count_split(t, p, p + 1, p2);
            }
        }
    }
}

/// The token sequence of the canonical fully-parenthesized rendering: a
/// leaf is its number token, every binary node is its operands around its
/// operator, wrapped in parentheses.
pub open spec fn render_tokens(a: AstView) -> Seq<TokenView>
    decreases a,
{
    match a {
        AstView::Number(lit) => seq![TokenView::Number(lit)],
        AstView::Add(l, r) => seq![TokenView::LeftParen] + render_tokens(*l)
            + seq![TokenView::Plus] + render_tokens(*r) + seq![TokenView::RightParen],
        AstView::Subtract(l, r) => seq![TokenView::LeftParen] + render_tokens(*l)
            + seq![TokenView::Minus] + render_tokens(*r) + seq![TokenView::RightParen],
        AstView::Multiply(l, r) => seq![TokenView::LeftParen] + render_tokens(*l)
            + seq![TokenView::Multiply] + render_tokens(*r) + seq![TokenView::RightParen],
        AstView::Divide(l, r) => seq![TokenView::LeftParen] + render_tokens(*l)
            + seq![TokenView::Divide] + render_tokens(*r) + seq![TokenView::RightParen],
        AstView::Power(l, r) => seq![TokenView::LeftParen] + render_tokens(*l)
            + seq![TokenView::Power] + render_tokens(*r) + seq![TokenView::RightParen],
    }
}

/// A successful production step, for short.
pub open spec fn step_ok(a: AstView, p: int) -> ParseStep {
    Ok((a, p))
}

/// A piece of an embedded sequence can be read off through shifted ranges.
proof fn lemma_subrange_shift<T>(t: Seq<T>, pos: int, u: Seq<T>, a: int, b: int)
    requires
        0 <= pos,
        pos + u.len() <= t.len(),
        t.subrange(pos, pos + u.len() as int) == u,
        0 <= a <= b <= u.len(),
    ensures
        t.subrange(pos + a, pos + b) =~= u.subrange(a, b),
{
    assert forall|i: int| 0 <= i < b - a implies t.subrange(pos + a, pos + b)[i] == u.subrange(
        a,
        b,
    )[i] by {
        assert(u[a + i] == t.subrange(pos, pos + u.len() as int)[a + i]);
    }
}

/// The canonical token sequence of a tree parses, at the primary level,
/// back to exactly that tree, wherever it is embedded.
#[verifier::rlimit(100)]
proof fn lemma_primary_parses_rendered(t: Seq<TokenView>, pos: int, a: AstView)
    requires
        0 <= pos,
        pos + render_tokens(a).len() <= t.len(),
        t.subrange(pos, pos + render_tokens(a).len() as int) == render_tokens(a),
    ensures
        parse_primary_at(t, pos) == step_ok(a, pos + render_tokens(a).len()),
    decreases a,
{
    let u = render_tokens(a);
    let n = u.len() as int;
    match a {
        AstView::Number(lit) => {
            assert(u[0] == TokenView::Number(lit));
            assert(t[pos] == t.subrange(pos, pos + 1)[0]);
        },
        AstView::Add(l, r) => {
            let rl = render_tokens(*l);
            let rr = render_tokens(*r);
            let q = pos + 1 + rl.len() as int;
            let w = q + 1 + rr.len() as int;
            assert(u[0] == TokenView::LeftParen);
            assert(u[1 + rl.len() as int] == TokenView::Plus);
            assert(u[n - 1] == TokenView::RightParen);
            assert(t[pos] == u[0] && t[q] == u[1 + rl.len() as int] && t[w] == u[n - 1]);
            lemma_subrange_shift(t, pos, u, 1, 1 + rl.len() as int);
            assert(u.subrange(1, 1 + rl.len() as int) =~= rl);
            lemma_subrange_shift(t, pos, u, 2 + rl.len() as int, 2 + rl.len() + rr.len() as int);
            assert(u.subrange(2 + rl.len() as int, 2 + rl.len() + rr.len() as int) =~= rr);
            lemma_primary_parses_rendered(t, pos + 1, *l);
            lemma_primary_parses_rendered(t, q + 1, *r);
            assert(parse_factor_at(t, pos + 1) == step_ok(*l, q));
            assert(parse_term_rest(t, q, *l) == step_ok(*l, q));
            assert(parse_term_at(t, pos + 1) == step_ok(*l, q));
            assert(parse_factor_at(t, q + 1) == step_ok(*r, w));
            assert(parse_term_rest(t, w, *r) == step_ok(*r, w));
            assert(parse_term_at(t, q + 1) == step_ok(*r, w));
            let combined = apply_additive(t[q], *l, *r);
            assert(parse_expression_rest(t, w, combined) == step_ok(combined, w));
            assert(parse_expression_rest(t, q, *l) == step_ok(combined, w));
            assert(parse_expression_at(t, pos + 1) == step_ok(combined, w));
            assert(combined == a);
            assert(parse_primary_at(t, pos) == step_ok(a, pos + n));
        },
        AstView::Subtract(l, r) => {
            let rl = render_tokens(*l);
            let rr = render_tokens(*r);
            let q = pos + 1 + rl.len() as int;
            let w = q + 1 + rr.len() as int;
            assert(u[0] == TokenView::LeftParen);
            assert(u[1 + rl.len() as int] == TokenView::Minus);
            assert(u[n - 1] == TokenView::RightParen);
            assert(t[pos] == u[0] && t[q] == u[1 + rl.len() as int] && t[w] == u[n - 1]);
            lemma_subrange_shift(t, pos, u, 1, 1 + rl.len() as int);
            assert(u.subrange(1, 1 + rl.len() as int) =~= rl);
            lemma_subrange_shift(t, pos, u, 2 + rl.len() as int, 2 + rl.len() + rr.len() as int);
            assert(u.subrange(2 + rl.len() as int, 2 + rl.len() + rr.len() as int) =~= rr);
            lemma_primary_parses_rendered(t, pos + 1, *l);
            lemma_primary_parses_rendered(t, q + 1, *r);
            assert(parse_factor_at(t, pos + 1) == step_ok(*l, q));
            assert(parse_term_rest(t, q, *l) == step_ok(*l, q));
            assert(parse_term_at(t, pos + 1) == step_ok(*l, q));
            assert(parse_factor_at(t, q + 1) == step_ok(*r, w));
            assert(parse_term_rest(t, w, *r) == step_ok(*r, w));
            assert(parse_term_at(t, q + 1) == step_ok(*r, w));
            let combined = apply_additive(t[q], *l, *r);
            assert(parse_expression_rest(t, w, combined) == step_ok(combined, w));
            assert(parse_expression_rest(t, q, *l) == step_ok(combined, w));
            assert(parse_expression_at(t, pos + 1) == step_ok(combined, w));
            assert(combined == a);
            assert(parse_primary_at(t, pos) == step_ok(a, pos + n));
        },
        AstView::Multiply(l, r) => {
            let rl = render_tokens(*l);
            let rr = render_tokens(*r);
            let q = pos + 1 + rl.len() as int;
            let w = q + 1 + rr.len() as int;
            assert(u[0] == TokenView::LeftParen);
            assert(u[1 + rl.len() as int] == TokenView::Multiply);
            assert(u[n - 1] == TokenView::RightParen);
            assert(t[pos] == u[0] && t[q] == u[1 + rl.len() as int] && t[w] == u[n - 1]);
            lemma_subrange_shift(t, pos, u, 1, 1 + rl.len() as int);
            assert(u.subrange(1, 1 + rl.len() as int) =~= rl);
            lemma_subrange_shift(t, pos, u, 2 + rl.len() as int, 2 + rl.len() + rr.len() as int);
            assert(u.subrange(2 + rl.len() as int, 2 + rl.len() + rr.len() as int) =~= rr);
            lemma_primary_parses_rendered(t, pos + 1, *l);
            lemma_primary_parses_rendered(t, q + 1, *r);
            assert(parse_factor_at(t, pos + 1) == step_ok(*l, q));
            assert(parse_factor_at(t, q + 1) == step_ok(*r, w));
            let combined = apply_multiplicative(t[q], *l, *r);
            assert(parse_term_rest(t, w, combined) == step_ok(combined, w));
            assert(parse_term_rest(t, q, *l) == step_ok(combined, w));
            assert(parse_term_at(t, pos + 1) == step_ok(combined, w));
            assert(parse_expression_rest(t, w, combined) == step_ok(combined, w));
            assert(parse_expression_at(t, pos + 1) == step_ok(combined, w));
            assert(combined == a);
            assert(parse_primary_at(t, pos) == step_ok(a, pos + n));
        },
        AstView::Divide(l, r) => {
            let rl = render_tokens(*l);
            let rr = render_tokens(*r);
            let q = pos + 1 + rl.len() as int;
            let w = q + 1 + rr.len() as int;
            assert(u[0] == TokenView::LeftParen);
            assert(u[1 + rl.len() as int] == TokenView::Divide);
            assert(u[n - 1] == TokenView::RightParen);
            assert(t[pos] == u[0] && t[q] == u[1 + rl.len() as int] && t[w] == u[n - 1]);
            lemma_subrange_shift(t, pos, u, 1, 1 + rl.len() as int);
            assert(u.subrange(1, 1 + rl.len() as int) =~= rl);
            lemma_subrange_shift(t, pos, u, 2 + rl.len() as int, 2 + rl.len() + rr.len() as int);
            assert(u.subrange(2 + rl.len() as int, 2 + rl.len() + rr.len() as int) =~= rr);
            lemma_primary_parses_rendered(t, pos + 1, *l);
            lemma_primary_parses_rendered(t, q + 1, *r);
            assert(parse_factor_at(t, pos + 1) == step_ok(*l, q));
            assert(parse_factor_at(t, q + 1) == step_ok(*r, w));
            let combined = apply_multiplicative(t[q], *l, *r);
            assert(parse_term_rest(t, w, combined) == step_ok(combined, w));
            assert(parse_term_rest(t, q, *l) == step_ok(combined, w));
            assert(parse_term_at(t, pos + 1) == step_ok(combined, w));
            assert(parse_expression_rest(t, w, combined) == step_ok(combined, w));
            assert(parse_expression_at(t, pos + 1) == step_ok(combined, w));
            assert(combined == a);
            assert(parse_primary_at(t, pos) == step_ok(a, pos + n));
        },
        AstView::Power(l, r) => {
            let rl = render_tokens(*l);
            let rr = render_tokens(*r);
            let q = pos + 1 + rl.len() as int;
            let w = q + 1 + rr.len() as int;
            assert(u[0] == TokenView::LeftParen);
            assert(u[1 + rl.len() as int] == TokenView::Power);
            assert(u[n - 1] == TokenView::RightParen);
            assert(t[pos] == u[0] && t[q] == u[1 + rl.len() as int] && t[w] == u[n - 1]);
            lemma_subrange_shift(t, pos, u, 1, 1 + rl.len() as int);
            assert(u.subrange(1, 1 + rl.len() as int) =~= rl);
            lemma_subrange_shift(t, pos, u, 2 + rl.len() as int, 2 + rl.len() + rr.len() as int);
            assert(u.subrange(2 + rl.len() as int, 2 + rl.len() + rr.len() as int) =~= rr);
            lemma_primary_parses_rendered(t, pos + 1, *l);
            lemma_primary_parses_rendered(t, q + 1, *r);
            assert(parse_factor_at(t, q + 1) == step_ok(*r, w));
            let combined = AstView::Power(Box::new(*l), Box::new(*r));
            assert(parse_factor_at(t, pos + 1) == step_ok(combined, w));
            assert(parse_term_rest(t, w, combined) == step_ok(combined, w));
            assert(parse_term_at(t, pos + 1) == step_ok(combined, w));
            assert(parse_expression_rest(t, w, combined) == step_ok(combined, w));
            assert(parse_expression_at(t, pos + 1) == step_ok(combined, w));
            assert(combined == a);
            assert(parse_primary_at(t, pos) == step_ok(a, pos + n));
        },
    }
}

/// Re-parsing the canonical token sequence of a tree rebuilds exactly that
/// tree and consumes every token: the parser inverts the fully
/// parenthesized rendering at the token level.
pub proof fn lemma_reparse_rendered_tokens(a: AstView)
    ensures
        parse_expression_at(render_tokens(a), 0) == step_ok(a, render_tokens(a).len() as int),
{
    let t = render_tokens(a);
    let n = t.len() as int;
    assert(t.subrange(0, n) =~= t);
    lemma_primary_parses_rendered(t, 0, a);
    assert(parse_factor_at(t, 0) == step_ok(a, n));
    assert(parse_term_rest(t, n, a) == step_ok(a, n));
    assert(parse_term_at(t, 0) == step_ok(a, n));
    assert(parse_expression_rest(t, n, a) == step_ok(a, n));
    assert(parse_expression_at(t, 0) == step_ok(a, n));
}

/// A parsed primary holds one leaf per number token it consumed.
proof fn lemma_leaves_primary(t: Seq<TokenView>, pos: int)
    requires
        0 <= pos <= t.len(),
    ensures
        parse_primary_at(t, pos) matches Ok(r) ==> leaf_count(r.0) == count_numbers(
            t.subrange(pos, r.1),
        ),
    decreases t.len() - pos, 0int,
{
    if pos < t.len() {
        match t[pos] {
            TokenView::Number(lit) => {
                lemma_count_one(t, pos);
            },
            TokenView::LeftParen => {
                lemma_leaves_expression(t, pos + 1);
                lemma_progress_expression(t, pos + 1);
                if let Ok((inner, p)) = parse_expression_at(t, pos + 1) {
                    if p < t.len() && t[p] is RightParen {
                        lemma_count_one(t, pos);
                        lemma_count_one(t, p);
                        lemma_count_split(t, pos, pos + 1, p + 1);
                        lemma_count_split(t, pos + 1, p, p + 1);
                    }
                }
            },
            _ => {},
        }
    }
}

/// A number literal as the lexer shapes one: it starts with a digit, holds
/// only digits and at most one dot, and ends with a digit.
pub open spec fn valid_literal(lit: Seq<char>) -> bool {
    &&& lit.len() > 0
    &&& is_digit_char(lit[0])
    &&& is_digit_char(lit[lit.len() - 1])
    &&& forall|i: int| 0 <= i < lit.len() ==> (is_digit_char(lit[i]) || lit[i] == '.')
    &&& forall|i: int, j: int| 0 <= i < j < lit.len() ==> !(lit[i] == '.' && lit[j] == '.')
}

/// Every number leaf of the tree holds a literal the lexer could have made.
pub open spec fn wf_ast(a: AstView) -> bool
    decreases a,
{
    match a {
        AstView::Number(lit) => valid_literal(lit),
        AstView::Add(l, r) => wf_ast(*l) && wf_ast(*r),
        AstView::Subtract(l, r) => wf_ast(*l) && wf_ast(*r),
        AstView::Multiply(l, r) => wf_ast(*l) && wf_ast(*r),
        AstView::Divide(l, r) => wf_ast(*l) && wf_ast(*r),
        AstView::Power(l, r) => wf_ast(*l) && wf_ast(*r),
    }
}

/// The whole lexing result of `s`, for short.
pub open spec fn lex_ok(ts: Seq<TokenView>) -> Result<Seq<TokenView>, (LexerErrorKindView, int)> {
    Ok(ts)
}

/// One more token in front of a lexing result.
pub open spec fn lex_cons(tk: TokenView, r: Result<Seq<TokenView>, (LexerErrorKindView, int)>) -> Result<
    Seq<TokenView>,
    (LexerErrorKindView, int),
> {
    match r {
        Ok(rest) => Ok(seq![tk] + rest),
        Err(e) => Err(e),
    }
}

/// A whole token sequence in front of a lexing result.
pub open spec fn lex_cat(ts: Seq<TokenView>, r: Result<Seq<TokenView>, (LexerErrorKindView, int)>) -> Result<
    Seq<TokenView>,
    (LexerErrorKindView, int),
> {
    match r {
        Ok(rest) => Ok(ts + rest),
        Err(e) => Err(e),
    }
}

/// One successful pull puts its token in front of the rest of the lexing.
proof fn lemma_lex_cons(s: Seq<char>, i: int)
    requires
        0 <= i <= s.len(),
    ensures
        next_token_at(s, i) matches LexStep::Tok(tk, j) ==> lex_from(s, i) == lex_cons(
            tk,
            lex_from(s, j),
        ),
{
    lemma_next_token_progress(s, i);
}

/// Whitespace in front changes nothing about the tokens.
proof fn lemma_lex_ws(s: Seq<char>, i: int)
    requires
        0 <= i < s.len(),
        is_ws_char(s[i]),
    ensures
        next_token_at(s, i) == next_token_at(s, i + 1),
        lex_from(s, i) == lex_from(s, i + 1),
{
    assert(skip_ws_from(s, i) == skip_ws_from(s, i + 1));
    assert(next_token_at(s, i) == next_token_at(s, i + 1));
    lemma_next_token_progress(s, i);
    lemma_skip_ws_from(s, i);
    match next_token_at(s, i) {
        LexStep::Tok(tk, j) => {
            assert(skip_ws_from(s, i) >= i + 1);
            assert(i + 1 < j <= s.len());
            assert(lex_from(s, i) == (match lex_from(s, j) {
                Ok(rest) => lex_ok(seq![tk] + rest),
                Err(e) => Err(e),
            }));
            assert(lex_from(s, i + 1) == (match lex_from(s, j) {
                Ok(rest) => lex_ok(seq![tk] + rest),
                Err(e) => Err(e),
            }));
        },
        LexStep::End => {
        },
        LexStep::Fail(k, e) => {
        },
    }
}

/// Scanning a valid literal embedded in the text runs exactly to its end,
/// wherever inside it the scan stands, provided the character after it can
/// extend no number.
proof fn lemma_scan_literal(s: Seq<char>, i0: int, lit: Seq<char>, p: int, seen: bool)
    requires
        valid_literal(lit),
        0 <= i0,
        i0 + lit.len() <= s.len(),
        s.subrange(i0, i0 + lit.len() as int) == lit,
        i0 <= p <= i0 + lit.len(),
        seen == (exists|k: int| i0 <= k < p && s[k] == '.'),
        i0 + lit.len() == s.len() || (!is_digit_char(s[i0 + lit.len()]) && s[i0 + lit.len()]
            != '.'),
    ensures
        scan_number_from(s, p, seen) == i0 + lit.len(),
    decreases i0 + lit.len() - p,
{
    let end = i0 + lit.len() as int;
    if p < end {
        assert(s[p] == lit[p - i0]);
        if s[p] == '.' {
            assert(!seen) by {
                if seen {
                    let k = choose|k: int| i0 <= k < p && s[k] == '.';
                    assert(lit[k - i0] == '.' && lit[p - i0] == '.');
                }
            }
        }
        assert((seen || s[p] == '.') == (exists|k: int| i0 <= k < p + 1 && s[k] == '.')) by {
            if seen {
                let k = choose|k: int| i0 <= k < p && s[k] == '.';
                assert(i0 <= k < p + 1 && s[k] == '.');
            }
            if s[p] == '.' {
                assert(i0 <= p < p + 1 && s[p] == '.');
            }
        }
        lemma_scan_literal(s, i0, lit, p + 1, seen || s[p] == '.');
    }
}

/// A valid literal embedded in the text lexes to its number token.
proof fn lemma_lex_number(s: Seq<char>, i0: int, lit: Seq<char>)
    requires
        valid_literal(lit),
        0 <= i0,
        i0 + lit.len() <= s.len(),
        s.subrange(i0, i0 + lit.len() as int) == lit,
        i0 + lit.len() == s.len() || (!is_digit_char(s[i0 + lit.len()]) && s[i0 + lit.len()]
            != '.'),
    ensures
        next_token_at(s, i0) == LexStep::Tok(TokenView::Number(lit), i0 + lit.len()),
{
    let end = i0 + lit.len() as int;
    assert(s[i0] == lit[0]);
    assert(!is_ws_char(s[i0]));
    assert(skip_ws_from(s, i0) == i0);
    assert(!(exists|k: int| i0 <= k < i0 && s[k] == '.'));
    lemma_scan_literal(s, i0, lit, i0, false);
    assert(s.subrange(i0, end) == lit);
    assert(lit[lit.len() - 1] != '.');
}

/// Lexing the rendering of a well-formed tree, embedded in the text and
/// followed by a space, a closing parenthesis or the end, yields its token
/// sequence and goes on behind it.
proof fn lemma_lex_rendered(s: Seq<char>, i0: int, a: AstView)
    requires
        wf_ast(a),
        0 <= i0,
        i0 + spec_render(a).len() <= s.len(),
        s.subrange(i0, i0 + spec_render(a).len() as int) == spec_render(a),
        i0 + spec_render(a).len() == s.len() || s[i0 + spec_render(a).len()] == ' ' || s[i0
            + spec_render(a).len()] == ')',
    ensures
        lex_from(s, i0) == lex_cat(render_tokens(a), lex_from(s, i0 + spec_render(a).len())),
    decreases a, 1int,
{
    let u = spec_render(a);
    let m = u.len() as int;
    let end = i0 + m;
    match a {
        AstView::Number(lit) => {
            lemma_lex_number(s, i0, lit);
            lemma_lex_cons(s, i0);
            match lex_from(s, end) {
                Ok(rest) => {
                    assert(seq![TokenView::Number(lit)] + rest =~= render_tokens(a) + rest);
                },
                Err(e) => {},
            }
        },
        AstView::Add(l, r) => {
            lemma_lex_rendered_binary(s, i0, a, *l, *r, '+', TokenView::Plus);
        },
        AstView::Subtract(l, r) => {
            lemma_lex_rendered_binary(s, i0, a, *l, *r, '-', TokenView::Minus);
        },
        AstView::Multiply(l, r) => {
            lemma_lex_rendered_binary(s, i0, a, *l, *r, '*', TokenView::Multiply);
        },
        AstView::Divide(l, r) => {
            lemma_lex_rendered_binary(s, i0, a, *l, *r, '/', TokenView::Divide);
        },
        AstView::Power(l, r) => {
            lemma_lex_rendered_binary(s, i0, a, *l, *r, '^', TokenView::Power);
        },
    }
}

/// The step of [`lemma_lex_rendered`] for one binary node whose operator
/// is written `op_char` and lexes to `op_token`.
#[verifier::rlimit(100)]
proof fn lemma_lex_rendered_binary(
    s: Seq<char>,
    i0: int,
    a: AstView,
    l: AstView,
    r: AstView,
    op_char: char,
    op_token: TokenView,
)
    requires
        wf_ast(a),
        0 <= i0,
        i0 + spec_render(a).len() <= s.len(),
        s.subrange(i0, i0 + spec_render(a).len() as int) == spec_render(a),
        i0 + spec_render(a).len() == s.len() || s[i0 + spec_render(a).len()] == ' ' || s[i0
            + spec_render(a).len()] == ')',
        (op_char == '+' && op_token == TokenView::Plus && a == AstView::Add(
            Box::new(l),
            Box::new(r),
        )) || (op_char == '-' && op_token == TokenView::Minus && a == AstView::Subtract(
            Box::new(l),
            Box::new(r),
        )) || (op_char == '*' && op_token == TokenView::Multiply && a == AstView::Multiply(
            Box::new(l),
            Box::new(r),
        )) || (op_char == '/' && op_token == TokenView::Divide && a == AstView::Divide(
            Box::new(l),
            Box::new(r),
        )) || (op_char == '^' && op_token == TokenView::Power && a == AstView::Power(
            Box::new(l),
            Box::new(r),
        )),
    ensures
        lex_from(s, i0) == lex_cat(render_tokens(a), lex_from(s, i0 + spec_render(a).len())),
    decreases a, 0int,
{
    let u = spec_render(a);
    let m = u.len() as int;
    let end = i0 + m;
    let cl = spec_render(l);
    let cr = spec_render(r);
    let ml = cl.len() as int;
    let mr = cr.len() as int;
    let qa = i0 + 1 + ml;
    let w = qa + 3 + mr;
    assert(u == seq!['('] + cl + seq![' ', op_char, ' '] + cr + seq![')']);
    assert(render_tokens(a) == seq![TokenView::LeftParen] + render_tokens(l) + seq![op_token]
        + render_tokens(r) + seq![TokenView::RightParen]);
    assert(wf_ast(l) && wf_ast(r));
    assert(m == ml + mr + 5);
    assert(u[0] == '(' && u[1 + ml] == ' ' && u[2 + ml] == op_char && u[3 + ml] == ' ' && u[m - 1]
        == ')');
    assert(s[i0] == '(' && s[qa] == ' ' && s[qa + 1] == op_char && s[qa + 2] == ' ' && s[w]
        == ')');
    lemma_subrange_shift(s, i0, u, 1, 1 + ml);
    assert(u.subrange(1, 1 + ml) =~= cl);
    lemma_subrange_shift(s, i0, u, 4 + ml, 4 + ml + mr);
    assert(u.subrange(4 + ml, 4 + ml + mr) =~= cr);
    assert(!is_ws_char('(') && !is_digit_char('('));
    assert(skip_ws_from(s, i0) == i0);
    assert(next_token_at(s, i0) == LexStep::Tok(TokenView::LeftParen, i0 + 1));
    lemma_lex_cons(s, i0);
    lemma_lex_rendered(s, i0 + 1, l);
    assert(is_ws_char(' '));
    lemma_lex_ws(s, qa);
    assert(!is_ws_char(op_char) && !is_digit_char(op_char));
    assert(skip_ws_from(s, qa + 1) == qa + 1);
    assert(next_token_at(s, qa + 1) == LexStep::Tok(op_token, qa + 2));
    lemma_lex_cons(s, qa + 1);
    lemma_lex_ws(s, qa + 2);
    lemma_lex_rendered(s, qa + 3, r);
    assert(!is_ws_char(')') && !is_digit_char(')'));
    assert(skip_ws_from(s, w) == w);
    assert(next_token_at(s, w) == LexStep::Tok(TokenView::RightParen, w + 1));
    lemma_lex_cons(s, w);
    assert(w + 1 == end);
    match lex_from(s, end) {
        Ok(rest) => {
            assert(lex_from(s, w) == lex_ok(seq![TokenView::RightParen] + rest));
            assert(lex_from(s, qa + 3) == lex_ok(
                render_tokens(r) + (seq![TokenView::RightParen] + rest),
            ));
            assert(lex_from(s, qa + 1) == lex_ok(
                seq![op_token] + (render_tokens(r) + (seq![TokenView::RightParen] + rest)),
            ));
            assert(lex_from(s, i0 + 1) == lex_ok(
                render_tokens(l) + (seq![op_token] + (render_tokens(r) + (
                seq![TokenView::RightParen] + rest))),
            ));
            assert(lex_from(s, i0) == lex_ok(
                seq![TokenView::LeftParen] + (render_tokens(l) + (seq![op_token] + (render_tokens(
                    r,
                ) + (seq![TokenView::RightParen] + rest)))),
            ));
            assert(seq![TokenView::LeftParen] + (render_tokens(l) + (seq![op_token] + (
            render_tokens(r) + (seq![TokenView::RightParen] + rest)))) =~= render_tokens(a)
                + rest);
        },
        Err(e) => {
        },
    }
}

/// Every number token of the sequence holds a valid literal.
pub open spec fn numbers_valid(ts: Seq<TokenView>) -> bool {
    forall|q: int|
        0 <= q < ts.len() ==> ((#[trigger] ts[q]) matches TokenView::Number(lit)
            ==> valid_literal(lit))
}

/// Once a dot was read, the scan takes digits only.
proof fn lemma_scan_only_digits(s: Seq<char>, p: int)
    requires
        0 <= p <= s.len(),
    ensures
        forall|k: int| p <= k < scan_number_from(s, p, true) ==> is_digit_char(s[k]),
    decreases s.len() - p,
{
    if p < s.len() && is_digit_char(s[p]) {
        lemma_scan_only_digits(s, p + 1);
    }
}

/// A scan that starts before any dot reads at most one dot in all.
proof fn lemma_scan_one_dot(s: Seq<char>, p: int)
    requires
        0 <= p <= s.len(),
    ensures
        forall|k1: int, k2: int|
            p <= k1 < k2 < scan_number_from(s, p, false) ==> !(s[k1] == '.' && s[k2] == '.'),
    decreases s.len() - p,
{
    if p < s.len() && (is_digit_char(s[p]) || s[p] == '.') {
        if s[p] == '.' {
            lemma_scan_only_digits(s, p + 1);
            assert(scan_number_from(s, p, false) == scan_number_from(s, p + 1, true));
        } else {
            lemma_scan_one_dot(s, p + 1);
        }
    }
}

/// A number token the lexer emits always holds a valid literal.
proof fn lemma_next_token_literal_valid(s: Seq<char>, i: int)
    requires
        0 <= i <= s.len(),
    ensures
        next_token_at(s, i) matches LexStep::Tok(tk, j) ==> (tk matches TokenView::Number(lit)
            ==> valid_literal(lit)),
{
    lemma_skip_ws_from(s, i);
    let jj = skip_ws_from(s, i);
    if jj < s.len() && is_digit_char(s[jj]) {
        lemma_scan_number_from(s, jj, false);
        assert(scan_number_from(s, jj, false) == scan_number_from(s, jj + 1, s[jj] == '.'));
        lemma_scan_number_from(s, jj + 1, s[jj] == '.');
        lemma_scan_one_dot(s, jj);
        let k = scan_number_from(s, jj, false);
        let lit = s.subrange(jj, k);
        assert(jj < k);
        if !(lit.len() > 0 && lit[lit.len() - 1] == '.') {
            assert(lit[0] == s[jj]);
            assert(forall|q: int| 0 <= q < lit.len() ==> lit[q] == s[jj + q]);
            assert(valid_literal(lit));
        }
    }
}

/// Every number token lexing yields holds a valid literal.
proof fn lemma_lex_literals_valid(s: Seq<char>, i: int)
    requires
        0 <= i <= s.len(),
    ensures
        lex_from(s, i) matches Ok(ts) ==> numbers_valid(ts),
    decreases s.len() - i,
{
    lemma_next_token_progress(s, i);
    lemma_next_token_literal_valid(s, i);
    match next_token_at(s, i) {
        LexStep::Tok(tk, j) => {
            lemma_lex_literals_valid(s, j);
            match lex_from(s, j) {
                Ok(rest) => {
                    assert(numbers_valid(seq![tk] + rest)) by {
                        let ts = seq![tk] + rest;
                        assert forall|q: int| 0 <= q < ts.len() implies ((#[trigger] ts[q])
                            matches TokenView::Number(lit) ==> valid_literal(lit)) by {
                            if q > 0 {
                                assert(ts[q] == rest[q - 1]);
                            }
                        }
                    }
                },
                Err(e) => {},
            }
        },
        LexStep::End => {},
        LexStep::Fail(k, e) => {},
    }
}

/// A parsed expression over valid number tokens is a well-formed tree.
proof fn lemma_parse_wf_expression(t: Seq<TokenView>, pos: int)
    requires
        numbers_valid(t),
        0 <= pos <= t.len(),
    ensures
        parse_expression_at(t, pos) matches Ok(r) ==> wf_ast(r.0),
    decreases t.len() - pos, 6int,
{
    lemma_parse_wf_term(t, pos);
    lemma_progress_term(t, pos);
    if let Ok((left, p)) = parse_term_at(t, pos) {
        lemma_parse_wf_expression_rest(t, p, left);
    }
}

/// The additive fold keeps a well-formed tree well formed.
proof fn lemma_parse_wf_expression_rest(t: Seq<TokenView>, pos: int, left: AstView)
    requires
        numbers_valid(t),
        0 <= pos <= t.len(),
    ensures
        parse_expression_rest(t, pos, left) matches Ok(r) ==> (wf_ast(left) ==> wf_ast(r.0)),
    decreases t.len() - pos, 5int,
{
    if pos < t.len() && is_additive_op(t[pos]) {
        lemma_parse_wf_term(t, pos + 1);
        lemma_progress_term(t, pos + 1);
        if let Ok((right, p2)) = parse_term_at(t, pos + 1) {
            lemma_parse_wf_expression_rest(t, p2, apply_additive(t[pos], left, right));
        }
    }
}

/// A parsed term over valid number tokens is a well-formed tree.
proof fn lemma_parse_wf_term(t: Seq<TokenView>, pos: int)
    requires
        numbers_valid(t),
        0 <= pos <= t.len(),
    ensures
        parse_term_at(t, pos) matches Ok(r) ==> wf_ast(r.0),
    decreases t.len() - pos, 4int,
{
    lemma_parse_wf_factor(t, pos);
    lemma_progress_factor(t, pos);
    if let Ok((left, p)) = parse_factor_at(t, pos) {
        lemma_parse_wf_term_rest(t, p, left);
    }
}

/// The multiplicative fold keeps a well-formed tree well formed.
proof fn lemma_parse_wf_term_rest(t: Seq<TokenView>, pos: int, left: AstView)
    requires
        numbers_valid(t),
        0 <= pos <= t.len(),
    ensures
        parse_term_rest(t, pos, left) matches Ok(r) ==> (wf_ast(left) ==> wf_ast(r.0)),
    decreases t.len() - pos, 3int,
{
    if pos < t.len() && is_multiplicative_op(t[pos]) {
        lemma_parse_wf_factor(t, pos + 1);
        lemma_progress_factor(t, pos + 1);
        if let Ok((right, p2)) = parse_factor_at(t, pos + 1) {
            lemma_parse_wf_term_rest(t, p2, apply_multiplicative(t[pos], left, right));
        }
    }
}

/// A parsed factor over valid number tokens is a well-formed tree.
proof fn lemma_parse_wf_factor(t: Seq<TokenView>, pos: int)
    requires
        numbers_valid(t),
        0 <= pos <= t.len(),
    ensures
        parse_factor_at(t, pos) matches Ok(r) ==> wf_ast(r.0),
    decreases t.len() - pos, 2int,
{
    lemma_parse_wf_primary(t, pos);
    lemma_progress_primary(t, pos);
    if let Ok((base, p)) = parse_primary_at(t, pos) {
        if pos <= p && p < t.len() && t[p] is Power {
            lemma_parse_wf_factor(t, p + 1);
        }
    }
}

/// A parsed primary over valid number tokens is a well-formed tree.
proof fn lemma_parse_wf_primary(t: Seq<TokenView>, pos: int)
    requires
        numbers_valid(t),
        0 <= pos <= t.len(),
    ensures
        parse_primary_at(t, pos) matches Ok(r) ==> wf_ast(r.0),
    decreases t.len() - pos, 0int,
{
    if pos < t.len() && t[pos] is LeftParen {
        lemma_parse_wf_expression(t, pos + 1);
    }
}

/// Every tree the pipeline yields is well formed: its number leaves hold
/// exactly the literals the lexer read.
pub proof fn lemma_pipeline_wf(s: Seq<char>)
    ensures
        (match lex_from(s, 0) {
            Ok(ts) => parse_expression_at(ts, 0) matches Ok(r) ==> wf_ast(r.0),
            Err(_) => true,
        }),
{
    lemma_lex_literals_valid(s, 0);
    match lex_from(s, 0) {
        Ok(ts) => {
            lemma_parse_wf_expression(ts, 0);
        },
        Err(e) => {},
    }
}

/// Whatever tree the pipeline yields for some input, re-lexing and
/// re-parsing the canonical rendered form of that tree yields the same tree
/// again, consuming all of it.
pub proof fn lemma_pipeline_roundtrip(s: Seq<char>)
    ensures
        (match lex_from(s, 0) {
            Ok(ts) => (match parse_expression_at(ts, 0) {
                Ok(r) => lex_from(spec_render(r.0), 0) == lex_ok(render_tokens(r.0))
                    && parse_expression_at(render_tokens(r.0), 0) == step_ok(
                    r.0,
                    render_tokens(r.0).len() as int,
                ),
                Err(_) => true,
            }),
            Err(_) => true,
        }),
{
    lemma_pipeline_wf(s);
    match lex_from(s, 0) {
        Ok(ts) => {
            match parse_expression_at(ts, 0) {
                Ok(r) => {
                    lemma_render_reparse(r.0);
                },
                Err(e) => {},
            }
        },
        Err(e) => {},
    }
}

/// Re-lexing and re-parsing the canonical rendered form of a well-formed
/// tree yields a tree structurally equal to the original: the fully
/// parenthesized rendering lexes to exactly its token sequence, and parsing
/// that sequence rebuilds the same tree, consuming every token.
pub proof fn lemma_render_reparse(a: AstView)
    requires
        wf_ast(a),
    ensures
        lex_from(spec_render(a), 0) == lex_ok(render_tokens(a)),
        parse_expression_at(render_tokens(a), 0) == step_ok(a, render_tokens(a).len() as int),
{
    let s = spec_render(a);
    let n = s.len() as int;
    assert(s.subrange(0, n) =~= s);
    lemma_lex_rendered(s, 0, a);
    assert(skip_ws_from(s, n) == n);
    assert(next_token_at(s, n) == LexStep::End);
    assert(lex_from(s, n) == lex_ok(Seq::<TokenView>::empty()));
    assert(render_tokens(a) + Seq::<TokenView>::empty() =~= render_tokens(a));
    lemma_reparse_rendered_tokens(a);
}

} // verus!
