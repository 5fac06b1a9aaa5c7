use tsx_text::json::render_artifact;
use tsx_text::markup::{collect, MarkupChild, MarkupExpr, SourceStmt, SourceUnit};
use tsx_text::text::normalize_text;

fn element(tag: &str, children: Vec<MarkupChild>) -> MarkupChild {
    MarkupChild::Element { tag: tag.to_string(), id: None, children }
}

fn text(raw: &str) -> MarkupChild {
    MarkupChild::Text { raw: raw.to_string() }
}

#[test]
fn end_to_end_fragment_statement() {
    let tree = MarkupChild::Fragment {
        children: vec![
            element("h1", vec![text("Title")]),
            element(
                "p",
                vec![text("Body "), MarkupChild::ExpressionContainer, text(" text")],
            ),
        ],
    };
    let unit = SourceUnit {
        stmts: vec![SourceStmt::Return(Some(MarkupExpr::Paren(Box::new(
            MarkupExpr::Markup(tree),
        ))))],
    };
    let texts = collect(&unit);
    assert_eq!(
        texts,
        vec!["Title".to_string(), "Body".to_string(), "text".to_string()]
    );
    let json = render_artifact(&texts);
    assert_eq!(json, "{\"text\":[\"Title\",\"Body\",\"text\"]}");
}

#[test]
fn order_preserved_across_depth() {
    let tree = element(
        "div",
        vec![
            text("one"),
            element("section", vec![text("two"), element("em", vec![text("three")])]),
            text("four"),
        ],
    );
    let unit = SourceUnit {
        stmts: vec![SourceStmt::Expr(MarkupExpr::Markup(tree))],
    };
    assert_eq!(
        collect(&unit),
        vec![
            "one".to_string(),
            "two".to_string(),
            "three".to_string(),
            "four".to_string()
        ]
    );
}

#[test]
fn skipped_variants_contribute_nothing() {
    let tree = element(
        "div",
        vec![
            text("a"),
            MarkupChild::Member,
            MarkupChild::Empty,
            MarkupChild::Namespaced,
            MarkupChild::ExpressionContainer,
            text("b"),
        ],
    );
    let unit = SourceUnit {
        stmts: vec![SourceStmt::Expr(MarkupExpr::Markup(tree))],
    };
    assert_eq!(collect(&unit), vec!["a".to_string(), "b".to_string()]);
}

#[test]
fn empty_text_leaves_are_kept() {
    let tree = element("p", vec![text("  \n ")]);
    let unit = SourceUnit {
        stmts: vec![SourceStmt::Expr(MarkupExpr::Markup(tree))],
    };
    let texts = collect(&unit);
    assert_eq!(texts, vec!["".to_string()]);
    assert_eq!(render_artifact(&texts), "{\"text\":[\"\"]}");
}

#[test]
fn non_markup_statements_contribute_nothing() {
    let unit = SourceUnit {
        stmts: vec![
            SourceStmt::Other,
            SourceStmt::Return(None),
            SourceStmt::Expr(MarkupExpr::Other),
            SourceStmt::Expr(MarkupExpr::Markup(text("stray"))),
        ],
    };
    assert_eq!(collect(&unit), Vec::<String>::new());
}

#[test]
fn normalization_removes_newlines_then_trims() {
    assert_eq!(normalize_text("\n  Hello\n world \n"), "Hello world");
    assert_eq!(normalize_text(""), "");
    assert_eq!(normalize_text(" \n \t "), "");
    assert_eq!(normalize_text("a"), "a");
    assert_eq!(normalize_text("multi\nline\ntext"), "multilinetext");
}

#[test]
fn normalization_idempotent_example() {
    let s = "  line one\n  line two  \n";
    let once = normalize_text(s);
    let twice = normalize_text(once.as_str());
    assert_eq!(once, twice);
    assert_eq!(once, "line one  line two");
}
