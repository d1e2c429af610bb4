//! The expression tree the parser produces.

use vstd::prelude::*;

use crate::text::push_char;

verus! {

/// An immutable binary expression tree.  A leaf holds the literal text of a
/// number exactly as it stood in the source; every other node holds its two
/// operands.
#[derive(Debug, PartialEq, Eq)]
pub enum ASTNode {
    Number(String),
    Add(Box<ASTNode>, Box<ASTNode>),
    Subtract(Box<ASTNode>, Box<ASTNode>),
    Multiply(Box<ASTNode>, Box<ASTNode>),
    Divide(Box<ASTNode>, Box<ASTNode>),
    Power(Box<ASTNode>, Box<ASTNode>),
}

/// The mathematical shape of an expression tree.
pub enum AstView {
    Number(Seq<char>),
    Add(Box<AstView>, Box<AstView>),
    Subtract(Box<AstView>, Box<AstView>),
    Multiply(Box<AstView>, Box<AstView>),
    Divide(Box<AstView>, Box<AstView>),
    Power(Box<AstView>, Box<AstView>),
}

/// The shape of an expression tree.
pub open spec fn ast_view(node: ASTNode) -> AstView
    decreases node,
{
    match node {
        ASTNode::Number(s) => AstView::Number(s@),
        ASTNode::Add(l, r) => AstView::Add(Box::new(ast_view(*l)), Box::new(ast_view(*r))),
        ASTNode::Subtract(l, r) => AstView::Subtract(
            Box::new(ast_view(*l)),
            Box::new(ast_view(*r)),
        ),
        ASTNode::Multiply(l, r) => AstView::Multiply(
            Box::new(ast_view(*l)),
            Box::new(ast_view(*r)),
        ),
        ASTNode::Divide(l, r) => AstView::Divide(Box::new(ast_view(*l)), Box::new(ast_view(*r))),
        ASTNode::Power(l, r) => AstView::Power(Box::new(ast_view(*l)), Box::new(ast_view(*r))),
    }
}

impl View for ASTNode {
    type V = AstView;

    open spec fn view(&self) -> AstView {
        ast_view(*self)
    }
}

/// How many number leaves the tree holds.
pub open spec fn leaf_count(a: AstView) -> nat
    decreases a,
{
    match a {
        AstView::Number(_) => 1,
        AstView::Add(l, r) => leaf_count(*l) + leaf_count(*r),
        AstView::Subtract(l, r) => leaf_count(*l) + leaf_count(*r),
        AstView::Multiply(l, r) => leaf_count(*l) + leaf_count(*r),
        AstView::Divide(l, r) => leaf_count(*l) + leaf_count(*r),
        AstView::Power(l, r) => leaf_count(*l) + leaf_count(*r),
    }
}

/// The canonical fully-parenthesized infix rendering: every binary node is
/// wrapped in parentheses, its operator stands between single spaces, and a
/// leaf is its literal text.
pub open spec fn spec_render(a: AstView) -> Seq<char>
    decreases a,
{
    match a {
        AstView::Number(lit) => lit,
        AstView::Add(l, r) => seq!['('] + spec_render(*l) + seq![' ', '+', ' '] + spec_render(*r)
            + seq![')'],
        AstView::Subtract(l, r) => seq!['('] + spec_render(*l) + seq![' ', '-', ' ']
            + spec_render(*r) + seq![')'],
        AstView::Multiply(l, r) => seq!['('] + spec_render(*l) + seq![' ', '*', ' ']
            + spec_render(*r) + seq![')'],
        AstView::Divide(l, r) => seq!['('] + spec_render(*l) + seq![' ', '/', ' ']
            + spec_render(*r) + seq![')'],
        AstView::Power(l, r) => seq!['('] + spec_render(*l) + seq![' ', '^', ' ']
            + spec_render(*r) + seq![')'],
    }
}

impl ASTNode {
    /// Append the canonical rendering of this tree to `out`.
    fn render_into(&self, out: &mut String)
        ensures
            final(out)@ == old(out)@ + spec_render(self@),
        decreases self,
    {
        match self {
            ASTNode::Number(lit) => {
                out.append(lit.as_str());
                proof {
                    assert(out@ =~= old(out)@ + spec_render(self@));
                }
            },
            ASTNode::Add(l, r) => {
                push_char(out, '(');
                l.render_into(out);
                push_char(out, ' ');
                push_char(out, '+');
                push_char(out, ' ');
                r.render_into(out);
                push_char(out, ')');
                proof {
                    assert(out@ =~= old(out)@ + spec_render(self@));
                }
            },
            ASTNode::Subtract(l, r) => {
                push_char(out, '(');
                l.render_into(out);
                push_char(out, ' ');
                push_char(out, '-');
                push_char(out, ' ');
                r.render_into(out);
                push_char(out, ')');
                proof {
                    assert(out@ =~= old(out)@ + spec_render(self@));
                }
            },
            ASTNode::Multiply(l, r) => {
                push_char(out, '(');
                l.render_into(out);
                push_char(out, ' ');
                push_char(out, '*');
                push_char(out, ' ');
                r.render_into(out);
                push_char(out, ')');
                proof {
                    assert(out@ =~= old(out)@ + spec_render(self@));
                }
            },
            ASTNode::Divide(l, r) => {
                push_char(out, '(');
                l.render_into(out);
                push_char(out, ' ');
                push_char(out, '/');
                push_char(out, ' ');
                r.render_into(out);
                push_char(out, ')');
                proof {
                    assert(out@ =~= old(out)@ + spec_render(self@));
                }
            },
            ASTNode::Power(l, r) => {
                push_char(out, '(');
                l.render_into(out);
                push_char(out, ' ');
                push_char(out, '^');
                push_char(out, ' ');
                r.render_into(out);
                push_char(out, ')');
                proof {
                    assert(out@ =~= old(out)@ + spec_render(self@));
                }
            },
        }
    }

    /// The canonical fully-parenthesized infix form of this tree.
    pub fn render(&self) -> (out: String)
        ensures
            out@ == spec_render(self@),
    {
        let mut out = String::new();
        self.render_into(&mut out);
        proof {
            assert(out@ =~= spec_render(self@));
        }
        out
    }
}

/// An addition node over the two operands.
pub fn plus(left: ASTNode, right: ASTNode) -> (node: ASTNode)
    ensures
        node@ == AstView::Add(Box::new(left@), Box::new(right@)),
{
    ASTNode::Add(Box::new(left), Box::new(right))
}

/// A subtraction node over the two operands.
pub fn minus(left: ASTNode, right: ASTNode) -> (node: ASTNode)
    ensures
        node@ == AstView::Subtract(Box::new(left@), Box::new(right@)),
{
    ASTNode::Subtract(Box::new(left), Box::new(right))
}

/// A multiplication node over the two operands.
pub fn multiply(left: ASTNode, right: ASTNode) -> (node: ASTNode)
    ensures
        node@ == AstView::Multiply(Box::new(left@), Box::new(right@)),
{
    ASTNode::Multiply(Box::new(left), Box::new(right))
}

/// A division node over the two operands.
pub fn divide(left: ASTNode, right: ASTNode) -> (node: ASTNode)
    ensures
        node@ == AstView::Divide(Box::new(left@), Box::new(right@)),
{
    ASTNode::Divide(Box::new(left), Box::new(right))
}

/// A power node over base and exponent.
pub fn power(base: ASTNode, exponent: ASTNode) -> (node: ASTNode)
    ensures
        node@ == AstView::Power(Box::new(base@), Box::new(exponent@)),
{
    ASTNode::Power(Box::new(base), Box::new(exponent))
}

/// A number leaf holding the given literal text.
pub fn number(literal: &str) -> (node: ASTNode)
    ensures
        node@ == AstView::Number(literal@),
{
    ASTNode::Number(String::from_str(literal))
}

} // verus!
