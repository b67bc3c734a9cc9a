use java2flowchart::parser;
use java2flowchart::parser::ExprT;
use java2flowchart::parser::Metadata;
use java2flowchart::parser::Scope;
use java2flowchart::tokenizer;
use java2flowchart::tokenizer::If;
use java2flowchart::tokenizer::Keyword;
use java2flowchart::tokenizer::Loop;

#[test]
fn keywords_match_exactly() {
    assert!(matches!(tokenizer::parse("if"), Some(Keyword::If(If::If))));
    assert!(matches!(tokenizer::parse("else"), Some(Keyword::If(If::Else))));
    assert!(matches!(tokenizer::parse("for"), Some(Keyword::Loop(Loop::For))));
    assert!(matches!(tokenizer::parse("while"), Some(Keyword::Loop(Loop::While))));
    assert!(matches!(tokenizer::parse("throw"), Some(Keyword::Throw)));
    assert!(matches!(tokenizer::parse("print"), Some(Keyword::IO)));
    assert!(matches!(tokenizer::parse("println"), Some(Keyword::IO)));
}

#[test]
fn unknown_words_match_nothing() {
    assert!(tokenizer::parse("foo").is_none());
    assert!(tokenizer::parse("If").is_none());
    assert!(tokenizer::parse("ELSE").is_none());
    assert!(tokenizer::parse("printx").is_none());
    assert!(tokenizer::parse("elsewhere").is_none());
    assert!(tokenizer::parse("").is_none());
}

#[test]
fn println_prefix_rule() {
    assert!(matches!(tokenizer::parse("println('hi')"), Some(Keyword::IO)));
    assert!(matches!(tokenizer::parse("printlnfoo"), Some(Keyword::IO)));
    assert!(matches!(tokenizer::parse("println!"), Some(Keyword::IO)));
}

#[test]
fn throw_prefix_rule() {
    assert!(matches!(tokenizer::parse("throw;"), Some(Keyword::Throw)));
    assert!(matches!(tokenizer::parse("throwing"), Some(Keyword::Throw)));
}

#[test]
fn delimit_tags_scope_boundaries() {
    let segs = parser::delimit("if (a) {x} else {y}");
    let texts: Vec<&str> = segs.iter().map(|p| p.0.as_str()).collect();
    assert_eq!(texts, ["if (a)", "x", "else", "y"]);
    assert_eq!(segs[0].1, Some(Metadata::StartScope));
    assert_eq!(segs[1].1, Some(Metadata::EndScope));
    assert_eq!(segs[2].1, Some(Metadata::StartScope));
    assert_eq!(segs[3].1, Some(Metadata::EndScope));
}

#[test]
fn delimit_trims_and_drops_plain_empties() {
    let segs = parser::delimit("  a  ;   ;  b  ");
    assert_eq!(segs.len(), 2);
    assert_eq!(segs[0].0, "a");
    assert_eq!(segs[0].1, None);
    assert_eq!(segs[1].0, "b");
    assert_eq!(segs[1].1, None);
}

#[test]
fn delimit_keeps_empty_brace_pieces() {
    // The piece between `{` and `}` is empty, but the closing boundary
    // it records must survive, or the scope could never be paired.
    let segs = parser::delimit("if (a) {}");
    assert_eq!(segs.len(), 2);
    assert_eq!(segs[0].0, "if (a)");
    assert_eq!(segs[0].1, Some(Metadata::StartScope));
    assert_eq!(segs[1].0, "");
    assert_eq!(segs[1].1, Some(Metadata::EndScope));
}

#[test]
fn delimit_keeps_trailing_remainder() {
    let segs = parser::delimit("a; b");
    assert_eq!(segs.len(), 2);
    assert_eq!(segs[1].0, "b");
    assert_eq!(segs[1].1, None);
}

#[test]
fn last_keyword_wins() {
    let segs = parser::parse("x if (y) while (z) {a}");
    assert!(matches!(
        &segs[0].expr,
        ExprT::Decision((s, Scope::Loop(Loop::While))) if s == "x if (y) while (z)"
    ));
}

#[test]
fn else_if_classifies_as_else() {
    // The `if` after `else` must not overwrite the else-originated
    // decision, or an `else if` would count as two chained decisions.
    let segs = parser::parse("else if (b) {x}");
    assert!(matches!(
        &segs[0].expr,
        ExprT::Decision((s, Scope::If(If::Else))) if s == "else if (b)"
    ));
}

#[test]
fn keyword_inside_condition_still_decides() {
    // A keyword occurring before the control keyword is incidental; the
    // last match decides the segment.
    let segs = parser::parse("print if (q) {x}");
    assert!(matches!(&segs[0].expr, ExprT::Decision((_, Scope::If(If::If)))));
}

#[test]
fn plain_statement_falls_back_to_process() {
    let segs = parser::parse("foo = bar + 1;");
    assert_eq!(segs.len(), 1);
    assert!(matches!(&segs[0].expr, ExprT::Process(s) if s == "foo = bar + 1"));
    assert_eq!(segs[0].meta, None);
}

#[test]
fn io_classification_keeps_whole_text() {
    let segs = parser::parse("println('a'); throw Error('b');");
    assert!(matches!(&segs[0].expr, ExprT::IO(s) if s == "println('a')"));
    assert!(matches!(&segs[1].expr, ExprT::IO(s) if s == "throw Error('b')"));
}
