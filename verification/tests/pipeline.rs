use java2flowchart::ast;
use java2flowchart::ast::DepthExpr;
use java2flowchart::ast::ScopeError;
use java2flowchart::parser;
use java2flowchart::parser::Scope;
use java2flowchart::tokenizer::If;
use java2flowchart::tokenizer::Loop;

fn build(input: &str) -> Vec<DepthExpr> {
    ast::parse(&parser::parse(input)).expect("the input is well scoped")
}

fn count_nodes(nodes: &[DepthExpr]) -> usize {
    let mut n = 0;
    for node in nodes {
        n += 1;
        if let DepthExpr::Decision { then_branch, else_branch, .. } = node {
            n += count_nodes(then_branch);
            if let Some(e) = else_branch {
                n += count_nodes(e);
            }
        }
    }
    n
}

#[test]
fn else_chaining_builds_one_decision() {
    let tree = build("if (a) {x} else {y}");
    assert_eq!(tree.len(), 1);
    match &tree[0] {
        DepthExpr::Decision { cond, t, then_branch, else_branch } => {
            assert!(matches!(cond.as_ref(), DepthExpr::Process(c) if c == "if (a)"));
            assert!(matches!(t, Scope::If(If::If)));
            assert_eq!(then_branch.len(), 1);
            assert!(matches!(&then_branch[0], DepthExpr::Process(s) if s == "x"));
            let els = else_branch.as_ref().expect("an else branch");
            assert_eq!(els.len(), 1);
            assert!(matches!(&els[0], DepthExpr::Process(s) if s == "y"));
        }
        _ => panic!("expected a decision node"),
    }
}

#[test]
fn else_if_chain_nests_in_else_branch() {
    let tree = build("if (a) {x} else if (b) {y} else {z}");
    assert_eq!(tree.len(), 1);
    let els = match &tree[0] {
        DepthExpr::Decision { then_branch, else_branch, .. } => {
            assert_eq!(then_branch.len(), 1);
            assert!(matches!(&then_branch[0], DepthExpr::Process(s) if s == "x"));
            else_branch.as_ref().expect("an else branch")
        }
        _ => panic!("expected a decision node"),
    };
    assert_eq!(els.len(), 1);
    match &els[0] {
        DepthExpr::Decision { cond, t, then_branch, else_branch } => {
            assert!(matches!(cond.as_ref(), DepthExpr::Process(c) if c == "else if (b)"));
            assert!(matches!(t, Scope::If(If::Else)));
            assert_eq!(then_branch.len(), 1);
            assert!(matches!(&then_branch[0], DepthExpr::Process(s) if s == "y"));
            let inner = else_branch.as_ref().expect("the chained else branch");
            assert_eq!(inner.len(), 1);
            assert!(matches!(&inner[0], DepthExpr::Process(s) if s == "z"));
        }
        _ => panic!("expected a nested decision for the else-if header"),
    }
}

#[test]
fn three_way_else_if_chain() {
    let tree = build("if (a) {x} else if (b) {y} else if (c) {z} else {w}");
    assert_eq!(tree.len(), 1);
    let mut node = &tree[0];
    for expected in ["if (a)", "else if (b)", "else if (c)"] {
        match node {
            DepthExpr::Decision { cond, else_branch, .. } => {
                assert!(matches!(cond.as_ref(), DepthExpr::Process(c) if c == expected));
                let els = else_branch.as_ref().expect("an else branch");
                assert_eq!(els.len(), 1);
                node = &els[0];
            }
            _ => panic!("expected a decision node"),
        }
    }
    assert!(matches!(node, DepthExpr::Process(s) if s == "w"));
}

#[test]
fn empty_segments_are_dropped() {
    let tree = build("a;; b");
    assert_eq!(tree.len(), 2);
    assert!(matches!(&tree[0], DepthExpr::Process(s) if s == "a"));
    assert!(matches!(&tree[1], DepthExpr::Process(s) if s == "b"));
}

#[test]
fn unterminated_scope_fails() {
    let r = ast::parse(&parser::parse("if (a) {x"));
    assert!(matches!(r, Err(ScopeError::ScopeUnderflow)));
}

#[test]
fn println_becomes_io_leaf() {
    let tree = build("println('hi')");
    assert_eq!(tree.len(), 1);
    assert!(matches!(&tree[0], DepthExpr::IO(s) if s == "println('hi')"));
}

#[test]
fn pipeline_is_idempotent() {
    let input = "first; if (first) {firstthen; if (firstthenif) {firstthenifthen} else \
                 {firstthenelse}} else {firstelse}println('a'); second; thirdlongprocess";
    let t1 = build(input);
    let t2 = build(input);
    assert_eq!(format!("{:?}", t1), format!("{:?}", t2));
}

#[test]
fn node_count_matches_segments() {
    let input = "first; if (first) {firstthen; if (firstthenif) {firstthenifthen} else \
                 {firstthenelse}} else {firstelse}println('a'); second; thirdlongprocess";
    let tree = build(input);
    // 12 countable segments, 2 consumed purely as bare else headers.
    assert_eq!(count_nodes(&tree), 10);
    assert_eq!(tree.len(), 5);
    assert!(matches!(&tree[0], DepthExpr::Process(s) if s == "first"));
    assert!(matches!(&tree[2], DepthExpr::IO(s) if s == "println('a')"));
    assert!(matches!(&tree[4], DepthExpr::Process(s) if s == "thirdlongprocess"));
}

#[test]
fn nested_scopes_pair_exactly() {
    let tree = build("if (first) {firstthen; if (inner) {a} else {b}} else {outerelse}");
    assert_eq!(tree.len(), 1);
    match &tree[0] {
        DepthExpr::Decision { then_branch, else_branch, .. } => {
            assert_eq!(then_branch.len(), 2);
            assert!(matches!(&then_branch[0], DepthExpr::Process(s) if s == "firstthen"));
            match &then_branch[1] {
                DepthExpr::Decision { then_branch: tb, else_branch: eb, .. } => {
                    assert_eq!(tb.len(), 1);
                    assert!(matches!(&tb[0], DepthExpr::Process(s) if s == "a"));
                    let eb = eb.as_ref().expect("the inner else branch");
                    assert_eq!(eb.len(), 1);
                    assert!(matches!(&eb[0], DepthExpr::Process(s) if s == "b"));
                }
                _ => panic!("expected the inner decision"),
            }
            let els = else_branch.as_ref().expect("the outer else branch");
            assert_eq!(els.len(), 1);
            assert!(matches!(&els[0], DepthExpr::Process(s) if s == "outerelse"));
        }
        _ => panic!("expected a decision node"),
    }
}

#[test]
fn empty_scope_body_is_allowed() {
    let tree = build("if (a) {}");
    assert_eq!(tree.len(), 1);
    match &tree[0] {
        DepthExpr::Decision { then_branch, else_branch, .. } => {
            assert_eq!(then_branch.len(), 0);
            assert!(else_branch.is_none());
        }
        _ => panic!("expected a decision node"),
    }
}

#[test]
fn loop_headers_become_decisions() {
    let tree = build("while (c) {body} for (i) {x}");
    assert_eq!(tree.len(), 2);
    match &tree[0] {
        DepthExpr::Decision { cond, t, then_branch, else_branch } => {
            assert!(matches!(cond.as_ref(), DepthExpr::Process(c) if c == "while (c)"));
            assert!(matches!(t, Scope::Loop(Loop::While)));
            assert_eq!(then_branch.len(), 1);
            assert!(else_branch.is_none());
        }
        _ => panic!("expected a while decision"),
    }
    assert!(matches!(
        &tree[1],
        DepthExpr::Decision { t: Scope::Loop(Loop::For), .. }
    ));
}

#[test]
fn non_else_decision_does_not_chain() {
    let tree = build("if (a) {x} while (b) {y}");
    assert_eq!(tree.len(), 2);
    match &tree[0] {
        DepthExpr::Decision { else_branch, .. } => assert!(else_branch.is_none()),
        _ => panic!("expected a decision node"),
    }
    assert!(matches!(
        &tree[1],
        DepthExpr::Decision { t: Scope::Loop(Loop::While), .. }
    ));
}

#[test]
fn empty_input_builds_empty_tree() {
    let tree = build("");
    assert_eq!(tree.len(), 0);
}

#[test]
fn stray_open_on_plain_statement_is_ignored() {
    // A scope boundary on a non-decision segment carries no scope of its
    // own; the builder treats the segment as an ordinary leaf.
    let tree = build("a{ b");
    assert_eq!(tree.len(), 2);
    assert!(matches!(&tree[0], DepthExpr::Process(s) if s == "a"));
    assert!(matches!(&tree[1], DepthExpr::Process(s) if s == "b"));
}

#[test]
fn one_line_if_without_braces_fails() {
    // A decision header is always taken to open a scope; without braces
    // the scope never closes, which is a fatal pairing failure.
    let r = ast::parse(&parser::parse("if (a) x; y"));
    assert!(matches!(r, Err(ScopeError::ScopeUnderflow)));
}

#[test]
fn throw_becomes_io_leaf() {
    let tree = build("throw Error('x')");
    assert_eq!(tree.len(), 1);
    assert!(matches!(&tree[0], DepthExpr::IO(s) if s == "throw Error('x')"));
}
