//! The markup tree model and the text collector.
//!
//! A parsed source file is a [`SourceUnit`]: an ordered list of statements.
//! A statement that carries (possibly behind parentheses) a markup element or
//! fragment contributes text: the collector walks the markup children in
//! pre-order, left to right, and appends one normalized string per text leaf.
//! Children that are neither text nor markup are skipped in place.

use vstd::prelude::*;

use crate::text::{normalize_text, normalized};

verus! {

/// One child of a markup element or fragment.
pub enum MarkupChild {
    /// A tag-named element with an optional id attribute and ordered children.
    Element { tag: String, id: Option<String>, children: Vec<MarkupChild> },
    /// A tagless group of ordered children.
    Fragment { children: Vec<MarkupChild> },
    /// A literal text leaf.
    Text { raw: String },
    /// An embedded expression; its presence is noted but its content is
    /// opaque and never descended into.
    ExpressionContainer,
    /// A member access used in markup position; carries no text.
    Member,
    /// An empty markup expression; carries no text.
    Empty,
    /// A namespaced markup name; carries no text.
    Namespaced,
}

/// An expression as far as the collector is concerned: markup, a
/// parenthesized expression, or anything else.
pub enum MarkupExpr {
    Markup(MarkupChild),
    Paren(Box<MarkupExpr>),
    Other,
}

/// A top-level statement of a parsed source file.
pub enum SourceStmt {
    Expr(MarkupExpr),
    Return(Option<MarkupExpr>),
    Other,
}

/// The parsed representation of one file: its top-level statements in order.
pub struct SourceUnit {
    pub stmts: Vec<SourceStmt>,
}

/// The normalized text of every text leaf under `c`, in pre-order.
pub open spec fn child_texts(c: MarkupChild) -> Seq<Seq<char>>
    decreases c,
{
    match c {
        MarkupChild::Element { children, .. } => children_texts(children@),
        MarkupChild::Fragment { children } => children_texts(children@),
        MarkupChild::Text { raw } => seq![normalized(raw@)],
        MarkupChild::ExpressionContainer => Seq::empty(),
        MarkupChild::Member => Seq::empty(),
        MarkupChild::Empty => Seq::empty(),
        MarkupChild::Namespaced => Seq::empty(),
    }
}

/// The normalized text of every text leaf under a child list, left to right.
pub open spec fn children_texts(cs: Seq<MarkupChild>) -> Seq<Seq<char>>
    decreases cs,
{
    if cs.len() == 0 {
        Seq::empty()
    } else {
        child_texts(cs[0]) + children_texts(cs.drop_first())
    }
}

/// The text an expression contributes: the children of a markup element or
/// fragment reached transitively through parentheses; nothing otherwise.
pub open spec fn expr_texts(e: MarkupExpr) -> Seq<Seq<char>>
    decreases e,
{
    match e {
        MarkupExpr::Markup(c) => match c {
            MarkupChild::Element { children, .. } => children_texts(children@),
            MarkupChild::Fragment { children } => children_texts(children@),
            _ => Seq::empty(),
        },
        MarkupExpr::Paren(inner) => expr_texts(*inner),
        MarkupExpr::Other => Seq::empty(),
    }
}

/// The text a statement contributes: expression statements and return
/// statements carry an expression; everything else carries none.
pub open spec fn stmt_texts(st: SourceStmt) -> Seq<Seq<char>> {
    match st {
        SourceStmt::Expr(e) => expr_texts(e),
        SourceStmt::Return(Some(e)) => expr_texts(e),
        SourceStmt::Return(None) => Seq::empty(),
        SourceStmt::Other => Seq::empty(),
    }
}

/// The text of a statement list, in statement order.
pub open spec fn stmts_texts(ss: Seq<SourceStmt>) -> Seq<Seq<char>>
    decreases ss,
{
    if ss.len() == 0 {
        Seq::empty()
    } else {
        stmt_texts(ss[0]) + stmts_texts(ss.drop_first())
    }
}

/// The full extracted sequence of a source unit, in document order.
pub open spec fn unit_texts(u: SourceUnit) -> Seq<Seq<char>> {
    stmts_texts(u.stmts@)
}

/// Splitting a child list splits its text: the text of a concatenation is the
/// concatenation of the texts.
pub proof fn lemma_children_texts_concat(a: Seq<MarkupChild>, b: Seq<MarkupChild>)
    ensures
        children_texts(a + b) == children_texts(a) + children_texts(b),
    decreases a.len(),
{
    if a.len() == 0 {
        assert(a + b =~= b);
        assert(children_texts(a) + children_texts(b) =~= children_texts(b));
    } else {
        lemma_children_texts_concat(a.drop_first(), b);
        assert((a + b).drop_first() =~= a.drop_first() + b);
        assert((a + b)[0] == a[0]);
        assert(child_texts(a[0]) + (children_texts(a.drop_first()) + children_texts(b))
            =~= (child_texts(a[0]) + children_texts(a.drop_first())) + children_texts(b));
    }
}

/// Skip-closure: a child that is neither a text leaf nor a recursable markup
/// node contributes no characters at all — removing it from a child list
/// leaves the collected text sequence unchanged.
pub proof fn lemma_skipped_child_contributes_nothing(
    pre: Seq<MarkupChild>,
    c: MarkupChild,
    post: Seq<MarkupChild>,
)
    requires
        !(c is Element),
        !(c is Fragment),
        !(c is Text),
    ensures
        children_texts(pre + seq![c] + post) == children_texts(pre + post),
{
    assert(child_texts(c) =~= Seq::<Seq<char>>::empty());
    lemma_children_texts_concat(pre + seq![c], post);
    lemma_children_texts_concat(pre, seq![c]);
    lemma_children_texts_concat(pre, post);
    assert(children_texts(seq![c]) == child_texts(seq![c][0]) + children_texts(
        seq![c].drop_first(),
    ));
    assert(seq![c].drop_first() =~= Seq::<MarkupChild>::empty());
    assert(children_texts(seq![c]) =~= Seq::<Seq<char>>::empty());
    assert(children_texts(pre + seq![c] + post) =~= children_texts(pre) + children_texts(post));
    assert(children_texts(pre + post) =~= children_texts(pre) + children_texts(post));
}

proof fn lemma_children_texts_take_step(cs: Seq<MarkupChild>, i: int)
    requires
        0 <= i < cs.len(),
    ensures
        children_texts(cs.take(i + 1)) == children_texts(cs.take(i)) + child_texts(cs[i]),
{
    lemma_children_texts_concat(cs.take(i), seq![cs[i]]);
    assert(cs.take(i + 1) =~= cs.take(i) + seq![cs[i]]);
    assert(children_texts(seq![cs[i]]) == child_texts(seq![cs[i]][0]) + children_texts(
        seq![cs[i]].drop_first(),
    ));
    assert(seq![cs[i]].drop_first() =~= Seq::<MarkupChild>::empty());
    assert(children_texts(cs.take(i)) + children_texts(seq![cs[i]]) =~= children_texts(cs.take(i))
        + child_texts(cs[i]));
}

proof fn lemma_stmts_texts_take_step(ss: Seq<SourceStmt>, i: int)
    requires
        0 <= i < ss.len(),
    ensures
        stmts_texts(ss.take(i + 1)) == stmts_texts(ss.take(i)) + stmt_texts(ss[i]),
    decreases i,
{
    if i == 0 {
        assert(ss.take(1).drop_first() =~= Seq::<SourceStmt>::empty());
        assert(ss.take(0) =~= Seq::<SourceStmt>::empty());
        assert(stmts_texts(ss.take(1)) == stmt_texts(ss.take(1)[0]) + stmts_texts(
            ss.take(1).drop_first(),
        ));
        assert(stmts_texts(ss.take(0)) + stmt_texts(ss[0]) =~= stmt_texts(ss[0]));
        assert(stmt_texts(ss.take(1)[0]) + stmts_texts(Seq::<SourceStmt>::empty()) =~= stmt_texts(
            ss[0],
        ));
    } else {
        lemma_stmts_texts_take_step(ss.drop_first(), i - 1);
        assert(ss.take(i + 1).drop_first() =~= ss.drop_first().take(i));
        assert(ss.take(i).drop_first() =~= ss.drop_first().take(i - 1));
        assert(ss.take(i + 1)[0] == ss[0]);
        assert(ss.take(i)[0] == ss[0]);
        assert(ss.drop_first()[i - 1] == ss[i]);
        assert(stmt_texts(ss[0]) + (stmts_texts(ss.drop_first().take(i - 1)) + stmt_texts(ss[i]))
            =~= (stmt_texts(ss[0]) + stmts_texts(ss.drop_first().take(i - 1))) + stmt_texts(ss[i]));
    }
}

/// Markup Tree Recursor: walks `nodes` left to right, descends into elements
/// and fragments, and appends one normalized string per text leaf, in
/// pre-order document order.
pub fn recurse_children(nodes: &Vec<MarkupChild>, out: &mut Vec<String>)
    ensures
        final(out).deep_view() == old(out).deep_view() + children_texts(nodes@),
    decreases nodes@,
{
    let ghost base = out.deep_view();
    let mut i: usize = 0;
    proof {
        assert(children_texts(nodes@.take(0)) =~= Seq::<Seq<char>>::empty());
        assert(base + children_texts(nodes@.take(0)) =~= base);
    }
    while i < nodes.len()
        invariant
            i <= nodes@.len(),
            out.deep_view() == base + children_texts(nodes@.take(i as int)),
        decreases nodes@.len() - i,
    {
        proof {
            lemma_children_texts_take_step(nodes@, i as int);
        }
        match &nodes[i] {
            MarkupChild::Element { children, .. } => {
                proof {
                    assert(decreases_to!(nodes@ => nodes@[i as int]));
                    assert(decreases_to!(nodes@[i as int] => children@));
                }
                recurse_children(children, out);
            },
            MarkupChild::Fragment { children } => {
                proof {
                    assert(decreases_to!(nodes@ => nodes@[i as int]));
                    assert(decreases_to!(nodes@[i as int] => children@));
                }
                recurse_children(children, out);
            },
            MarkupChild::Text { raw } => {
                let t = normalize_text(raw.as_str());
                let ghost before = out.deep_view();
                out.push(t);
                proof {
                    assert(out.deep_view() =~= before.push(t@));
                    assert(before.push(t@) =~= before + seq![normalized(raw@)]);
                }
            },
            MarkupChild::ExpressionContainer => {},
            MarkupChild::Member => {},
            MarkupChild::Empty => {},
            MarkupChild::Namespaced => {},
        }
        i = i + 1;
    }
    proof {
        assert(nodes@.take(nodes@.len() as int) =~= nodes@);
    }
}

/// Appends the text an expression contributes: the element or fragment found
/// transitively through parentheses is recursed into; anything else
/// contributes nothing.
pub fn collect_expr(e: &MarkupExpr, out: &mut Vec<String>)
    ensures
        final(out).deep_view() == old(out).deep_view() + expr_texts(*e),
    decreases *e,
{
    match e {
        MarkupExpr::Markup(c) => {
            match c {
                MarkupChild::Element { children, .. } => {
                    recurse_children(children, out);
                },
                MarkupChild::Fragment { children } => {
                    recurse_children(children, out);
                },
                _ => {
                    proof {
                        assert(old(out).deep_view() + expr_texts(*e) =~= old(out).deep_view());
                    }
                },
            }
        },
        MarkupExpr::Paren(inner) => {
            collect_expr(&**inner, out);
        },
        MarkupExpr::Other => {
            proof {
                assert(old(out).deep_view() + expr_texts(*e) =~= old(out).deep_view());
            }
        },
    }
}

/// Text-Node Collector: the ordered sequence of normalized text leaves of a
/// whole source unit, statements in order, each markup tree in pre-order.
pub fn collect(unit: &SourceUnit) -> (r: Vec<String>)
    ensures
        r.deep_view() == unit_texts(*unit),
{
    let mut out: Vec<String> = Vec::new();
    let mut i: usize = 0;
    proof {
        assert(out.deep_view() =~= Seq::<Seq<char>>::empty());
        assert(stmts_texts(unit.stmts@.take(0)) =~= Seq::<Seq<char>>::empty());
        assert(out.deep_view() =~= stmts_texts(unit.stmts@.take(0)));
    }
    while i < unit.stmts.len()
        invariant
            i <= unit.stmts@.len(),
            out.deep_view() == stmts_texts(unit.stmts@.take(i as int)),
        decreases unit.stmts@.len() - i,
    {
        proof {
            lemma_stmts_texts_take_step(unit.stmts@, i as int);
        }
        match &unit.stmts[i] {
            SourceStmt::Expr(e) => {
                collect_expr(e, &mut out);
            },
            SourceStmt::Return(Some(e)) => {
                collect_expr(e, &mut out);
            },
            SourceStmt::Return(None) => {
                proof {
                    assert(out.deep_view() + stmt_texts(unit.stmts@[i as int]) =~= out.deep_view());
                }
            },
            SourceStmt::Other => {
                proof {
                    assert(out.deep_view() + stmt_texts(unit.stmts@[i as int]) =~= out.deep_view());
                }
            },
        }
        i = i + 1;
    }
    proof {
        assert(unit.stmts@.take(unit.stmts@.len() as int) =~= unit.stmts@);
    }
    out
}

} // verus!
