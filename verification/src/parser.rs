//! Statement segmentation and segment classification.
//!
//! `delimit` splits the raw source text into trimmed segments on the three
//! boundary characters `;`, `{` and `}`, tagging a segment whose boundary
//! was a brace with scope-open or scope-close metadata.  `process` then
//! classifies each segment by scanning its words through the keyword
//! classifier: the last recognised keyword in a segment decides its kind,
//! except that an `else`-originated decision is never overwritten by a
//! further conditional keyword in the same segment.

use vstd::prelude::*;

use crate::text::is_ws;
use crate::text::is_whitespace_char;
use crate::text::substring_copy;
use crate::text::trim;
use crate::text::trim_bounds;
use crate::tokenizer;
use crate::tokenizer::If;
use crate::tokenizer::Keyword;
use crate::tokenizer::spec_keyword;

verus! {

/// The scope-originating kind of a decision segment: conditional
/// (`if`/`else`) or loop (`for`/`while`).
#[derive(Clone, Copy, Debug, PartialEq, Eq, Structural)]
pub enum Scope {
    If(If),
    Loop(tokenizer::Loop),
}

/// Scope metadata attached to a segment whose terminating boundary
/// character was a brace rather than a statement terminator.
#[derive(Debug, PartialEq, Eq, Clone, Copy, Structural)]
pub enum Metadata {
    StartScope,
    EndScope,
}

/// The semantic kind of a classified segment.
#[derive(Debug)]
pub enum ExprT {
    StartOrStop(bool),
    Decision((String, Scope)),
    IO(String),
    Process(String),
}

/// A classified segment together with its scope metadata.
#[derive(Debug)]
pub struct Expr {
    pub expr: ExprT,
    pub meta: Option<Metadata>,
}

/// The segmenter's output: trimmed segment texts, each with optional
/// scope metadata.
pub type SplitWithMetadata = Vec<(String, Option<Metadata>)>;

/// Mathematical counterpart of `ExprT`: segment texts as character
/// sequences.
pub enum ExprTView {
    StartOrStop(bool),
    Decision((Seq<char>, Scope)),
    IO(Seq<char>),
    Process(Seq<char>),
}

/// Mathematical counterpart of `Expr`.
pub struct ExprView {
    pub expr: ExprTView,
    pub meta: Option<Metadata>,
}

impl View for ExprT {
    type V = ExprTView;

    open spec fn view(&self) -> ExprTView {
        match self {
            ExprT::StartOrStop(b) => ExprTView::StartOrStop(*b),
            ExprT::Decision((s, sc)) => ExprTView::Decision((s@, *sc)),
            ExprT::IO(s) => ExprTView::IO(s@),
            ExprT::Process(s) => ExprTView::Process(s@),
        }
    }
}

impl View for Expr {
    type V = ExprView;

    open spec fn view(&self) -> ExprView {
        ExprView { expr: self.expr@, meta: self.meta }
    }
}

/// The views of a sequence of raw segments.
pub open spec fn seg_views(q: Seq<(String, Option<Metadata>)>) -> Seq<(Seq<char>, Option<Metadata>)> {
    q.map_values(|p: (String, Option<Metadata>)| (p.0@, p.1))
}

/// The views of a sequence of classified segments.
pub open spec fn expr_views(q: Seq<Expr>) -> Seq<ExprView> {
    q.map_values(|e: Expr| e@)
}

/// The three statement/scope boundary characters.
pub open spec fn is_delim(c: char) -> bool {
    c == ';' || c == '{' || c == '}'
}

/// The scope metadata contributed by a boundary character.
pub open spec fn meta_of(c: char) -> Option<Metadata> {
    if c == '{' {
        Some(Metadata::StartScope)
    } else if c == '}' {
        Some(Metadata::EndScope)
    } else {
        None
    }
}

/// The segments contributed by one raw piece: the piece is trimmed, and
/// dropped entirely when it is empty and carries no scope metadata.  An
/// empty piece whose boundary was a brace is kept, so that the scope
/// boundary it records survives segmentation.
pub open spec fn emit_piece(text: Seq<char>, meta: Option<Metadata>) -> Seq<
    (Seq<char>, Option<Metadata>),
> {
    if trim(text).len() == 0 && meta is None {
        seq![]
    } else {
        seq![(trim(text), meta)]
    }
}

/// The segments of `s` from scan position `i` on, where `start` is the
/// position just after the previous boundary character.
pub open spec fn spec_delimit_from(s: Seq<char>, start: int, i: int) -> Seq<
    (Seq<char>, Option<Metadata>),
>
    decreases s.len() - i,
{
    if !(0 <= start <= i <= s.len()) {
        seq![]
    } else if i == s.len() {
        emit_piece(s.subrange(start, i), None)
    } else if is_delim(s[i]) {
        emit_piece(s.subrange(start, i), meta_of(s[i])) + spec_delimit_from(s, i + 1, i + 1)
    } else {
        spec_delimit_from(s, start, i + 1)
    }
}

/// The ordered segments of the full source text `s`.
pub open spec fn spec_delimit(s: Seq<char>) -> Seq<(Seq<char>, Option<Metadata>)> {
    spec_delimit_from(s, 0, 0)
}

/// Splits the source text into an ordered sequence of trimmed segments,
/// attaching scope metadata to a segment whose terminating boundary
/// character was a brace.
pub fn delimit(s: &str) -> (r: SplitWithMetadata)
    ensures
        seg_views(r@) == spec_delimit(s@),
{
    let n = s.unicode_len();
    let mut r: SplitWithMetadata = Vec::new();
    let mut start: usize = 0;
    let mut i: usize = 0;
    while i < n
        invariant
            start <= i <= n == s@.len(),
            seg_views(r@) + spec_delimit_from(s@, start as int, i as int) == spec_delimit(s@),
        decreases n - i,
    {
        let c = s.get_char(i);
        if c == ';' || c == '{' || c == '}' {
            let meta: Option<Metadata> = if c == '{' {
                Some(Metadata::StartScope)
            } else if c == '}' {
                Some(Metadata::EndScope)
            } else {
                None
            };
            let (a, b) = trim_bounds(s, start, i);
            let ghost old_r = r@;
            if a < b || meta.is_some() {
                let txt = substring_copy(s, a, b);
                r.push((txt, meta));
                proof {
                    assert(seg_views(r@) =~= seg_views(old_r) + emit_piece(
                        s@.subrange(start as int, i as int),
                        meta_of(s@[i as int]),
                    ));
                }
            } else {
                proof {
                    assert(seg_views(r@) =~= seg_views(old_r) + emit_piece(
                        s@.subrange(start as int, i as int),
                        meta_of(s@[i as int]),
                    ));
                }
            }
            proof {
                assert(seg_views(old_r) + spec_delimit_from(s@, start as int, i as int)
                    == spec_delimit(s@));
                assert(seg_views(old_r) + (emit_piece(
                    s@.subrange(start as int, i as int),
                    meta_of(s@[i as int]),
                ) + spec_delimit_from(s@, i + 1, i + 1)) =~= (seg_views(old_r) + emit_piece(
                    s@.subrange(start as int, i as int),
                    meta_of(s@[i as int]),
                )) + spec_delimit_from(s@, i + 1, i + 1));
            }
            start = i + 1;
        }
        i = i + 1;
    }
    proof {
        assert(seg_views(r@) + spec_delimit_from(s@, start as int, n as int) =~= seg_views(r@)
            + emit_piece(s@.subrange(start as int, n as int), None));
    }
    if start < n {
        let (a, b) = trim_bounds(s, start, n);
        let ghost old_r = r@;
        if a < b {
            let txt = substring_copy(s, a, b);
            r.push((txt, None));
        }
        proof {
            assert(seg_views(r@) =~= seg_views(old_r) + emit_piece(
                s@.subrange(start as int, n as int),
                None,
            ));
        }
    } else {
        proof {
            assert(s@.subrange(start as int, n as int).len() == 0);
            assert(trim(s@.subrange(start as int, n as int)).len() == 0);
            assert(seg_views(r@) =~= seg_views(r@) + emit_piece(
                s@.subrange(start as int, n as int),
                None,
            ));
        }
    }
    r
}

/// The end of the word starting at position `i` of `t`: the first
/// position at or after `i` holding white space, or the end of `t`.
pub open spec fn word_end(t: Seq<char>, i: int) -> int
    decreases t.len() - i,
{
    if i < 0 || i >= t.len() || is_ws(t[i]) {
        i
    } else {
        word_end(t, i + 1)
    }
}

/// `word_end` stays within the text.
pub proof fn lemma_word_end(t: Seq<char>, i: int)
    requires
        0 <= i <= t.len(),
    ensures
        i <= word_end(t, i) <= t.len(),
    decreases t.len() - i,
{
    if i < t.len() && !is_ws(t[i]) {
        lemma_word_end(t, i + 1);
    }
}

/// How one scanned word updates the classification in progress for a
/// segment with text `t`.  A recognised conditional keyword does not
/// overwrite a decision already resolved to an `else`-originated scope;
/// every other recognised keyword overwrites the state, and an
/// unrecognised word leaves it unchanged.
pub open spec fn word_update(
    st: Option<ExprTView>,
    w: Seq<char>,
    t: Seq<char>,
) -> Option<ExprTView> {
    match spec_keyword(w) {
        Option::None => st,
        Option::Some(Keyword::If(k)) => {
            if st matches Some(ExprTView::Decision((_, Scope::If(If::Else)))) {
                st
            } else {
                Some(ExprTView::Decision((t, Scope::If(k))))
            }
        },
        Option::Some(Keyword::Loop(k)) => Some(ExprTView::Decision((t, Scope::Loop(k)))),
        Option::Some(Keyword::Throw) => Some(ExprTView::IO(t)),
        Option::Some(Keyword::IO) => Some(ExprTView::IO(t)),
    }
}

/// The classification of segment text `t`, scanning words from position
/// `i` with classification state `st`; a segment in which no word is a
/// keyword falls back to an ordinary process statement.
pub open spec fn classify_from(t: Seq<char>, i: int, st: Option<ExprTView>) -> ExprTView
    decreases t.len() - i,
{
    if i < 0 || i >= t.len() {
        match st {
            Option::Some(e) => e,
            Option::None => ExprTView::Process(t),
        }
    } else if is_ws(t[i]) {
        classify_from(t, i + 1, st)
    } else {
        proof {
            lemma_word_end(t, i + 1);
        }
        classify_from(t, word_end(t, i), word_update(st, t.subrange(i, word_end(t, i)), t))
    }
}

/// The semantic kind of the segment with text `t`.
pub open spec fn spec_classify(t: Seq<char>) -> ExprTView {
    classify_from(t, 0, Option::None)
}

/// The classified counterparts of a sequence of raw segments.
pub open spec fn spec_process(segs: Seq<(Seq<char>, Option<Metadata>)>) -> Seq<ExprView> {
    segs.map_values(
        |p: (Seq<char>, Option<Metadata>)| ExprView { expr: spec_classify(p.0), meta: p.1 },
    )
}

/// The view of the classification state in progress.
pub open spec fn opt_expr_view(e: Option<ExprT>) -> Option<ExprTView> {
    match e {
        Option::Some(x) => Option::Some(x@),
        Option::None => Option::None,
    }
}

/// Classifies one segment text by scanning its words through the keyword
/// classifier; the last recognised keyword wins, subject to the
/// `else`-overwrite suppression.
fn classify_segment(t: &str) -> (e: ExprT)
    ensures
        e@ == spec_classify(t@),
{
    let n = t.unicode_len();
    let mut exp: Option<ExprT> = None;
    let mut i: usize = 0;
    while i < n
        invariant
            i <= n == t@.len(),
            spec_classify(t@) == classify_from(t@, i as int, opt_expr_view(exp)),
        decreases n - i,
    {
        if is_whitespace_char(t.get_char(i)) {
            i = i + 1;
        } else {
            let a: usize = i;
            i = i + 1;
            while i < n && !is_whitespace_char(t.get_char(i))
                invariant
                    a < i <= n == t@.len(),
                    word_end(t@, a as int) == word_end(t@, i as int),
                decreases n - i,
            {
                i = i + 1;
            }
            proof {
                assert(word_end(t@, a as int) == i as int);
            }
            let w = t.substring_char(a, i);
            let ghost st0 = opt_expr_view(exp);
            match tokenizer::parse(w) {
                Some(Keyword::If(k)) => {
                    let keep = match &exp {
                        Some(ExprT::Decision((_, Scope::If(If::Else)))) => true,
                        _ => false,
                    };
                    if !keep {
                        exp = Some(ExprT::Decision((String::from_str(t), Scope::If(k))));
                    }
                },
                Some(Keyword::Loop(k)) => {
                    exp = Some(ExprT::Decision((String::from_str(t), Scope::Loop(k))));
                },
                Some(Keyword::Throw) => {
                    exp = Some(ExprT::IO(String::from_str(t)));
                },
                Some(Keyword::IO) => {
                    exp = Some(ExprT::IO(String::from_str(t)));
                },
                None => {},
            }
            proof {
                assert(opt_expr_view(exp) == word_update(st0, t@.subrange(a as int, i as int), t@));
            }
        }
    }
    match exp {
        Some(e) => e,
        None => ExprT::Process(String::from_str(t)),
    }
}

/// Classifies every segment, preserving order and scope metadata.
pub fn process(strs: SplitWithMetadata) -> (r: Vec<Expr>)
    ensures
        expr_views(r@) == spec_process(seg_views(strs@)),
{
    let mut exprs: Vec<Expr> = Vec::new();
    let mut idx: usize = 0;
    while idx < strs.len()
        invariant
            idx <= strs@.len(),
            exprs@.len() == idx,
            forall|k: int|
                0 <= k < idx ==> #[trigger] expr_views(exprs@)[k] == spec_process(
                    seg_views(strs@),
                )[k],
        decreases strs@.len() - idx,
    {
        let e = classify_segment(strs[idx].0.as_str());
        let m = strs[idx].1;
        let ghost prev = exprs@;
        exprs.push(Expr { expr: e, meta: m });
        proof {
            assert forall|k: int| 0 <= k < idx + 1 implies #[trigger] expr_views(exprs@)[k]
                == spec_process(seg_views(strs@))[k] by {
                if k < idx {
                    assert(expr_views(exprs@)[k] == expr_views(prev)[k]);
                } else {
                    assert(seg_views(strs@)[k] == (strs@[k].0@, strs@[k].1));
                    assert(expr_views(exprs@)[k] == exprs@[k]@);
                }
            }
        }
        idx = idx + 1;
    }
    proof {
        assert(expr_views(exprs@) =~= spec_process(seg_views(strs@)));
    }
    exprs
}

/// Segments and classifies the source text in one step.
pub fn parse(s: &str) -> (r: Vec<Expr>)
    ensures
        expr_views(r@) == spec_process(spec_delimit(s@)),
{
    process(delimit(s))
}

} // verus!
