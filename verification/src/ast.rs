//! The tree builder: consumes the classified, scope-tagged segment
//! sequence and groups it into a nested control-flow tree of sequential
//! leaves (I/O, process) and decision nodes owning a condition, a
//! then-branch and an optional chained else-branch.
//!
//! A decision segment's then-branch consumes exactly the segments within
//! its matching opened/closed scope pair; the segment carrying the
//! closing boundary is included in that window, since it can itself carry
//! meaningful classified content.  A decision immediately followed by an
//! `else`-classified decision segment absorbs that segment's scope as its
//! else-branch instead of letting it become a sibling node.  Scope
//! pairing failures are fatal: the caller receives either a complete tree
//! or an error, never a truncated tree.

use vstd::prelude::*;

use crate::parser::Expr;
use crate::parser::ExprT;
use crate::parser::ExprTView;
use crate::parser::ExprView;
use crate::parser::Metadata;
use crate::parser::Scope;
use crate::parser::expr_views;
use crate::text::is_whitespace_char;
use crate::text::ltrim;
use crate::text::starts_with;
use crate::text::trim;
use crate::text::trim_bounds;
use crate::tokenizer::If;
use crate::tokenizer::else_kw;

verus! {

/// A node of the control-flow tree.
#[derive(Debug)]
pub enum DepthExpr {
    Decision {
        cond: Box<DepthExpr>,
        t: Scope,
        then_branch: Box<Vec<DepthExpr>>,
        else_branch: Option<Box<Vec<DepthExpr>>>,
    },
    IO(String),
    Process(String),
}

/// Mathematical counterpart of `DepthExpr`: node texts as character
/// sequences and branches as sequences of nodes.
pub enum DepthExprView {
    Decision {
        cond: Box<DepthExprView>,
        t: Scope,
        then_branch: Seq<DepthExprView>,
        else_branch: Option<Seq<DepthExprView>>,
    },
    IO(Seq<char>),
    Process(Seq<char>),
}

/// The view of one tree node.
pub open spec fn node_view(n: DepthExpr) -> DepthExprView
    decreases n,
{
    match n {
        DepthExpr::Decision { cond, t, then_branch, else_branch } => DepthExprView::Decision {
            cond: Box::new(node_view(*cond)),
            t: t,
            then_branch: nodes_view(then_branch@),
            else_branch: match else_branch {
                Option::Some(e) => Option::Some(nodes_view(e@)),
                Option::None => Option::None,
            },
        },
        DepthExpr::IO(s) => DepthExprView::IO(s@),
        DepthExpr::Process(s) => DepthExprView::Process(s@),
    }
}

/// The views of a sequence of tree nodes.
pub open spec fn nodes_view(s: Seq<DepthExpr>) -> Seq<DepthExprView>
    decreases s,
{
    if s.len() == 0 {
        seq![]
    } else {
        seq![node_view(s[0])] + nodes_view(s.drop_first())
    }
}

impl View for DepthExpr {
    type V = DepthExprView;

    open spec fn view(&self) -> DepthExprView {
        node_view(*self)
    }
}

/// Why a parse was aborted: the nesting depth counter would leave its
/// representable range.  `ScopeOverflow` means the counter would exceed
/// its width on a scope open; `ScopeUnderflow` means a scope pairing
/// could not be completed, because the extraction window ran out before
/// the counter returned to zero.  Both are fatal: no partial tree is
/// returned.
#[derive(Clone, Copy, Debug, PartialEq, Eq, Structural)]
pub enum ScopeError {
    ScopeOverflow,
    ScopeUnderflow,
}

/// Shifts a relative scope-end index one position outward.
pub open spec fn step_one(r: Result<int, ScopeError>) -> Result<int, ScopeError> {
    match r {
        Result::Ok(j) => Result::Ok(j + 1),
        Result::Err(e) => Result::Err(e),
    }
}

/// The number of leading segments of `s` forming the rest of a scope the
/// scan is already `depth` levels inside: scope opens raise the depth,
/// scope closes lower it, and the scan stops just after the segment that
/// brings it to zero.  Fails with `ScopeUnderflow` when `s` runs out
/// first and with `ScopeOverflow` when the depth would exceed the
/// counter's width.
pub open spec fn spec_scope_end(s: Seq<ExprView>, depth: int) -> Result<int, ScopeError>
    decreases s.len(),
{
    if s.len() == 0 {
        Result::Err(ScopeError::ScopeUnderflow)
    } else {
        match s[0].meta {
            Option::Some(Metadata::StartScope) => {
                if depth == u32::MAX as int {
                    Result::Err(ScopeError::ScopeOverflow)
                } else {
                    step_one(spec_scope_end(s.drop_first(), depth + 1))
                }
            },
            Option::Some(Metadata::EndScope) => {
                if depth == 1 {
                    Result::Ok(1)
                } else {
                    step_one(spec_scope_end(s.drop_first(), depth - 1))
                }
            },
            Option::None => step_one(spec_scope_end(s.drop_first(), depth)),
        }
    }
}

/// A successful scope end lies within the scanned sequence.
pub proof fn lemma_scope_end_bounds(s: Seq<ExprView>, depth: int)
    ensures
        spec_scope_end(s, depth) is Ok ==> 1 <= spec_scope_end(s, depth)->Ok_0 <= s.len(),
    decreases s.len(),
{
    if s.len() > 0 {
        lemma_scope_end_bounds(s.drop_first(), depth + 1);
        lemma_scope_end_bounds(s.drop_first(), depth - 1);
        lemma_scope_end_bounds(s.drop_first(), depth);
    }
}

/// A segment that chains onto the preceding decision as its else-branch:
/// a decision classified with an `else`-originated conditional scope
/// whose text, after leading white space, starts with the else keyword.
pub open spec fn is_else_header(e: ExprView) -> bool {
    match e.expr {
        ExprTView::Decision((t, sc)) => sc == Scope::If(If::Else) && starts_with(
            ltrim(t),
            else_kw(),
        ),
        _ => false,
    }
}

/// An else header that is the bare else keyword: it closes its decision
/// chain, so its scope becomes the else-branch directly.  Any longer
/// header (an `else if`, say) instead contributes a nested decision to
/// the branch.
pub open spec fn is_pure_else(t: Seq<char>) -> bool {
    trim(t) == else_kw()
}

/// The tree built from the classified segment sequence `s`, or the scope
/// failure that aborted the parse.
///
/// A leaf segment contributes one leaf node unless its text is empty, in
/// which case it is dropped.  A decision segment contributes one decision
/// node: its condition is the segment's raw text held in a process leaf,
/// its then-branch is the tree of its entire scope, and, when the next
/// unconsumed segment is an else header, the chain of else headers from
/// there on is folded into its else-branch by `spec_else_chain`.
pub open spec fn spec_parse(s: Seq<ExprView>) -> Result<Seq<DepthExprView>, ScopeError>
    decreases s.len(), 0int,
{
    if s.len() == 0 {
        Result::Ok(seq![])
    } else {
        match s[0].expr {
            ExprTView::StartOrStop(_) => spec_parse(s.drop_first()),
            ExprTView::IO(t) => match spec_parse(s.drop_first()) {
                Result::Err(e) => Result::Err(e),
                Result::Ok(ns) => {
                    if t.len() == 0 {
                        Result::Ok(ns)
                    } else {
                        Result::Ok(seq![DepthExprView::IO(t)] + ns)
                    }
                },
            },
            ExprTView::Process(t) => match spec_parse(s.drop_first()) {
                Result::Err(e) => Result::Err(e),
                Result::Ok(ns) => {
                    if t.len() == 0 {
                        Result::Ok(ns)
                    } else {
                        Result::Ok(seq![DepthExprView::Process(t)] + ns)
                    }
                },
            },
            ExprTView::Decision((cond, sc)) => {
                let rest0 = s.drop_first();
                match spec_scope_end(rest0, 1) {
                    Result::Err(e) => Result::Err(e),
                    Result::Ok(j) => {
                        proof {
                            lemma_scope_end_bounds(rest0, 1);
                        }
                        match spec_parse(rest0.subrange(0, j)) {
                            Result::Err(e) => Result::Err(e),
                            Result::Ok(tn) => {
                                match spec_else_chain(rest0.subrange(j, rest0.len() as int)) {
                                    Result::Err(e) => Result::Err(e),
                                    Result::Ok((els, ns)) => Result::Ok(
                                        seq![
                                            (DepthExprView::Decision {
                                                cond: Box::new(DepthExprView::Process(cond)),
                                                t: sc,
                                                then_branch: tn,
                                                else_branch: els,
                                            }),
                                        ] + ns,
                                    ),
                                }
                            },
                        }
                    },
                }
            },
        }
    }
}

/// Folds a chain of else headers into an else-branch, and parses what
/// follows the chain.
///
/// When `s` does not begin with an else header there is no branch, and
/// the whole of `s` is parsed as the following siblings.  A bare `else`
/// header ends the chain: its scope's tree is the branch.  Any other
/// else header (an `else if`) contributes one nested decision to the
/// branch, whose condition is the header's raw text, whose then-branch
/// is the header's scope, and whose own else-branch is the rest of the
/// chain — so repeated `if`/`else` tokens never produce sibling
/// decisions.
pub open spec fn spec_else_chain(s: Seq<ExprView>) -> Result<
    (Option<Seq<DepthExprView>>, Seq<DepthExprView>),
    ScopeError,
>
    decreases s.len(), 1int,
{
    if s.len() == 0 || !is_else_header(s[0]) {
        match spec_parse(s) {
            Result::Err(e) => Result::Err(e),
            Result::Ok(ns) => Result::Ok((Option::None, ns)),
        }
    } else {
        let ht = match s[0].expr {
            ExprTView::Decision((t, sc)) => t,
            _ => Seq::empty(),
        };
        match spec_scope_end(s.drop_first(), 1) {
            Result::Err(e) => Result::Err(e),
            Result::Ok(k) => {
                proof {
                    lemma_scope_end_bounds(s.drop_first(), 1);
                }
                match spec_parse(s.drop_first().subrange(0, k)) {
                    Result::Err(e) => Result::Err(e),
                    Result::Ok(bw) => {
                        if is_pure_else(ht) {
                            match spec_parse(s.subrange(1 + k, s.len() as int)) {
                                Result::Err(e) => Result::Err(e),
                                Result::Ok(ns) => Result::Ok((Option::Some(bw), ns)),
                            }
                        } else {
                            match spec_else_chain(s.subrange(1 + k, s.len() as int)) {
                                Result::Err(e) => Result::Err(e),
                                Result::Ok((nested, ns)) => Result::Ok(
                                    (
                                        Option::Some(
                                            seq![
                                                (DepthExprView::Decision {
                                                    cond: Box::new(DepthExprView::Process(ht)),
                                                    t: Scope::If(If::Else),
                                                    then_branch: bw,
                                                    else_branch: nested,
                                                }),
                                            ],
                                        ),
                                        ns,
                                    ),
                                ),
                            }
                        }
                    },
                }
            },
        }
    }
}

/// Node-sequence views distribute over concatenation.
pub proof fn lemma_nodes_view_concat(a: Seq<DepthExpr>, b: Seq<DepthExpr>)
    ensures
        nodes_view(a + b) == nodes_view(a) + nodes_view(b),
    decreases a.len(),
{
    if a.len() == 0 {
        assert(a + b =~= b);
        assert(nodes_view(a) + nodes_view(b) =~= nodes_view(b));
    } else {
        assert((a + b).drop_first() =~= a.drop_first() + b);
        lemma_nodes_view_concat(a.drop_first(), b);
        assert((a + b).len() > 0);
        assert((a + b)[0] == a[0]);
        assert(nodes_view(a + b) == seq![node_view(a[0])] + (nodes_view(a.drop_first())
            + nodes_view(b)));
        assert(seq![node_view(a[0])] + (nodes_view(a.drop_first()) + nodes_view(b)) =~= (
        seq![node_view(a[0])] + nodes_view(a.drop_first())) + nodes_view(b));
    }
}

/// Appending one node appends its view.
pub proof fn lemma_nodes_view_push(s: Seq<DepthExpr>, x: DepthExpr)
    ensures
        nodes_view(s.push(x)) == nodes_view(s) + seq![node_view(x)],
{
    assert(s.push(x) =~= s + seq![x]);
    lemma_nodes_view_concat(s, seq![x]);
    assert(seq![x].drop_first() =~= Seq::<DepthExpr>::empty());
    assert(nodes_view(Seq::<DepthExpr>::empty()) == Seq::<DepthExprView>::empty());
    assert(seq![x][0] == x);
    assert(nodes_view(seq![x]) == seq![node_view(x)] + Seq::<DepthExprView>::empty());
    assert(seq![node_view(x)] + Seq::<DepthExprView>::empty() =~= seq![node_view(x)]);
}

/// A subrange of a subrange is a subrange of the underlying sequence.
pub proof fn lemma_sub_of_sub(s: Seq<ExprView>, a: int, b: int, c: int, d: int)
    requires
        0 <= a <= b <= s.len(),
        0 <= c <= d <= b - a,
    ensures
        s.subrange(a, b).subrange(c, d) == s.subrange(a + c, a + d),
{
    assert(s.subrange(a, b).subrange(c, d) =~= s.subrange(a + c, a + d));
}

/// Dropping the first element of a subrange advances its lower bound.
pub proof fn lemma_sub_drop_first(s: Seq<ExprView>, a: int, b: int)
    requires
        0 <= a < b <= s.len(),
    ensures
        s.subrange(a, b).drop_first() == s.subrange(a + 1, b),
{
    assert(s.subrange(a, b).drop_first() =~= s.subrange(a + 1, b));
}

/// The view of an optional else-branch.
pub open spec fn opt_branch_view(o: Option<Box<Vec<DepthExpr>>>) -> Option<Seq<DepthExprView>> {
    match o {
        Option::Some(b) => Option::Some(nodes_view(b@)),
        Option::None => Option::None,
    }
}

/// The text of `s` is the bare else keyword, up to surrounding white
/// space.
#[verifier::rlimit(50)]
fn is_exactly_else(s: &str) -> (r: bool)
    ensures
        r == is_pure_else(s@),
{
    let n = s.unicode_len();
    proof {
        assert(s@.subrange(0, n as int) =~= s@);
    }
    let (a, b) = trim_bounds(s, 0, n);
    if b - a == 4 {
        let r = s.get_char(a) == 'e' && s.get_char(a + 1) == 'l' && s.get_char(a + 2) == 's'
            && s.get_char(a + 3) == 'e';
        proof {
            let tr = s@.subrange(a as int, b as int);
            assert(else_kw() =~= seq!['e', 'l', 's', 'e']);
            if r {
                assert(tr =~= else_kw());
            } else {
                assert(tr[0] == s@[a as int]);
                assert(tr[1] == s@[a + 1]);
                assert(tr[2] == s@[a + 2]);
                assert(tr[3] == s@[a + 3]);
                assert(else_kw()[0] == 'e' && else_kw()[1] == 'l' && else_kw()[2] == 's'
                    && else_kw()[3] == 'e');
            }
        }
        r
    } else {
        proof {
            assert(else_kw().len() == 4);
            assert(trim(s@).len() == b - a);
        }
        false
    }
}

/// The text of `s`, after leading white space, starts with the else
/// keyword.
#[verifier::rlimit(50)]
fn is_else_start(s: &str) -> (r: bool)
    ensures
        r == starts_with(ltrim(s@), else_kw()),
{
    let n = s.unicode_len();
    proof {
        assert(s@.subrange(0, n as int) =~= s@);
    }
    let mut a: usize = 0;
    while a < n && is_whitespace_char(s.get_char(a))
        invariant
            a <= n == s@.len(),
            ltrim(s@) == ltrim(s@.subrange(a as int, n as int)),
        decreases n - a,
    {
        proof {
            assert(s@.subrange(a as int, n as int).drop_first() =~= s@.subrange(a + 1, n as int));
        }
        a = a + 1;
    }
    proof {
        assert(ltrim(s@) == s@.subrange(a as int, n as int));
    }
    if n - a >= 4 {
        let r = s.get_char(a) == 'e' && s.get_char(a + 1) == 'l' && s.get_char(a + 2) == 's'
            && s.get_char(a + 3) == 'e';
        proof {
            let lt = s@.subrange(a as int, n as int);
            if r {
                assert(lt.subrange(0, 4) =~= else_kw());
            } else {
                assert(lt.subrange(0, 4)[0] == s@[a as int]);
                assert(lt.subrange(0, 4)[1] == s@[a + 1]);
                assert(lt.subrange(0, 4)[2] == s@[a + 2]);
                assert(lt.subrange(0, 4)[3] == s@[a + 3]);
            }
        }
        r
    } else {
        false
    }
}

/// Finds the end of the scope entered just before position `start` of
/// `v`: scans `v[start..to]` with a depth counter assumed to be one,
/// raising it on each scope open and lowering it on each scope close,
/// and returns the index just past the segment that brings the counter
/// to zero — that closing segment belongs to the scope.  Fails with
/// `ScopeUnderflow` when the range runs out first, and `ScopeOverflow`
/// when the counter would exceed its width.
pub fn entire_scopes(v: &Vec<Expr>, start: usize, to: usize) -> (r: Result<usize, ScopeError>)
    requires
        start <= to <= v@.len(),
    ensures
        r is Ok ==> start < r->Ok_0 <= to && spec_scope_end(
            expr_views(v@).subrange(start as int, to as int),
            1,
        ) == Result::<int, ScopeError>::Ok(r->Ok_0 - start as int),
        r is Err ==> spec_scope_end(expr_views(v@).subrange(start as int, to as int), 1)
            == Result::<int, ScopeError>::Err(r->Err_0),
{
    let ghost gv = expr_views(v@);
    let mut cur: usize = start;
    let mut depth: u32 = 1;
    while cur < to
        invariant
            start <= cur <= to <= v@.len(),
            gv == expr_views(v@),
            1 <= depth,
            ({
                let rem = spec_scope_end(gv.subrange(cur as int, to as int), depth as int);
                let orig = spec_scope_end(gv.subrange(start as int, to as int), 1);
                &&& (rem is Ok ==> orig == Result::<int, ScopeError>::Ok(
                    rem->Ok_0 + cur - start,
                ))
                &&& (rem is Err ==> orig == rem)
            }),
        decreases to - cur,
    {
        proof {
            lemma_sub_drop_first(gv, cur as int, to as int);
            assert(gv.subrange(cur as int, to as int)[0] == gv[cur as int]);
            assert(gv[cur as int] == v@[cur as int]@);
        }
        match v[cur].meta {
            Some(Metadata::StartScope) => {
                if depth == u32::MAX {
                    return Result::Err(ScopeError::ScopeOverflow);
                }
                depth = depth + 1;
            },
            Some(Metadata::EndScope) => {
                depth = depth - 1;
                if depth == 0 {
                    return Result::Ok(cur + 1);
                }
            },
            None => {},
        }
        cur = cur + 1;
    }
    proof {
        assert(gv.subrange(cur as int, to as int).len() == 0);
    }
    Result::Err(ScopeError::ScopeUnderflow)
}

/// Builds the tree for the classified segments `v[from..to]`.
#[verifier::rlimit(100)]
fn parse_range(v: &Vec<Expr>, from: usize, to: usize) -> (r: Result<Vec<DepthExpr>, ScopeError>)
    requires
        from <= to <= v@.len(),
    ensures
        r is Ok ==> spec_parse(expr_views(v@).subrange(from as int, to as int)) == Result::<
            Seq<DepthExprView>,
            ScopeError,
        >::Ok(nodes_view(r->Ok_0@)),
        r is Err ==> spec_parse(expr_views(v@).subrange(from as int, to as int)) == Result::<
            Seq<DepthExprView>,
            ScopeError,
        >::Err(r->Err_0),
    decreases to - from, 0int,
{
    let ghost gv = expr_views(v@);
    let ghost whole = spec_parse(gv.subrange(from as int, to as int));
    let mut out: Vec<DepthExpr> = Vec::new();
    let mut i: usize = from;
    while i < to
        invariant
            from <= i <= to <= v@.len(),
            gv == expr_views(v@),
            whole == spec_parse(gv.subrange(from as int, to as int)),
            ({
                let rem = spec_parse(gv.subrange(i as int, to as int));
                &&& (rem is Ok ==> whole == Result::<Seq<DepthExprView>, ScopeError>::Ok(
                    nodes_view(out@) + rem->Ok_0,
                ))
                &&& (rem is Err ==> whole == rem)
            }),
        decreases to - i,
    {
        proof {
            lemma_sub_drop_first(gv, i as int, to as int);
            assert(gv.subrange(i as int, to as int)[0] == gv[i as int]);
            assert(gv[i as int] == v@[i as int]@);
        }
        let ghost rem_i = spec_parse(gv.subrange(i as int, to as int));
        match &v[i].expr {
            ExprT::StartOrStop(_) => {
                i = i + 1;
            },
            ExprT::IO(s) => {
                if !s.as_str().is_empty() {
                    let ghost prev = out@;
                    let txt = s.clone();
                    out.push(DepthExpr::IO(txt));
                    proof {
                        lemma_nodes_view_push(prev, out@[prev.len() as int]);
                        assert(out@[prev.len() as int] == out@.last());
                        assert(node_view(out@.last()) == DepthExprView::IO(s@));
                        let rem1 = spec_parse(gv.subrange(i + 1, to as int));
                        if rem1 is Ok {
                            assert((nodes_view(prev) + seq![DepthExprView::IO(s@)])
                                + rem1->Ok_0 =~= nodes_view(prev) + (seq![DepthExprView::IO(s@)]
                                + rem1->Ok_0));
                        }
                    }
                }
                i = i + 1;
            },
            ExprT::Process(s) => {
                if !s.as_str().is_empty() {
                    let ghost prev = out@;
                    let txt = s.clone();
                    out.push(DepthExpr::Process(txt));
                    proof {
                        lemma_nodes_view_push(prev, out@[prev.len() as int]);
                        assert(out@[prev.len() as int] == out@.last());
                        assert(node_view(out@.last()) == DepthExprView::Process(s@));
                        let rem1 = spec_parse(gv.subrange(i + 1, to as int));
                        if rem1 is Ok {
                            assert((nodes_view(prev) + seq![DepthExprView::Process(s@)])
                                + rem1->Ok_0 =~= nodes_view(prev) + (
                            seq![DepthExprView::Process(s@)] + rem1->Ok_0));
                        }
                    }
                }
                i = i + 1;
            },
            ExprT::Decision((ctext, sc)) => {
                let cond_text = ctext.clone();
                let t_scope = *sc;
                let body_start = i + 1;
                let ghost rest0 = gv.subrange(body_start as int, to as int);
                match entire_scopes(v, body_start, to) {
                    Result::Err(e) => {
                        return Result::Err(e);
                    },
                    Result::Ok(j) => {
                        proof {
                            lemma_scope_end_bounds(rest0, 1);
                            lemma_sub_of_sub(
                                gv,
                                body_start as int,
                                to as int,
                                0,
                                j - body_start,
                            );
                        }
                        match parse_range(v, body_start, j) {
                            Result::Err(e) => {
                                return Result::Err(e);
                            },
                            Result::Ok(then_vec) => {
                                proof {
                                    lemma_sub_of_sub(
                                        gv,
                                        body_start as int,
                                        to as int,
                                        j - body_start,
                                        to - body_start,
                                    );
                                }
                                match parse_else_chain(v, j, to) {
                                    Result::Err(e) => {
                                        return Result::Err(e);
                                    },
                                    Result::Ok((els, tail_vec)) => {
                                        let mut tail_vec = tail_vec;
                                        let ghost prev = out@;
                                        let ghost tn = nodes_view(then_vec@);
                                        let ghost ev = opt_branch_view(els);
                                        let ghost tail_seq = tail_vec@;
                                        let node = DepthExpr::Decision {
                                            cond: Box::new(DepthExpr::Process(cond_text)),
                                            t: t_scope,
                                            then_branch: Box::new(then_vec),
                                            else_branch: els,
                                        };
                                        out.push(node);
                                        proof {
                                            reveal_with_fuel(node_view, 2);
                                            let nv = DepthExprView::Decision {
                                                cond: Box::new(DepthExprView::Process(ctext@)),
                                                t: t_scope,
                                                then_branch: tn,
                                                else_branch: ev,
                                            };
                                            lemma_nodes_view_push(prev, out@[prev.len() as int]);
                                            assert(out@[prev.len() as int] == out@.last());
                                            assert(node_view(out@.last()) == nv);
                                            assert(nodes_view(out@) == nodes_view(prev)
                                                + seq![nv]);
                                        }
                                        let ghost mid = out@;
                                        out.append(&mut tail_vec);
                                        proof {
                                            let nv = DepthExprView::Decision {
                                                cond: Box::new(DepthExprView::Process(ctext@)),
                                                t: t_scope,
                                                then_branch: tn,
                                                else_branch: ev,
                                            };
                                            lemma_nodes_view_concat(mid, tail_seq);
                                            assert(nodes_view(out@) == (nodes_view(prev)
                                                + seq![nv]) + nodes_view(tail_seq));
                                            assert((nodes_view(prev) + seq![nv]) + nodes_view(
                                                tail_seq,
                                            ) =~= nodes_view(prev) + (seq![nv] + nodes_view(
                                                tail_seq,
                                            )));
                                            assert(gv.subrange(to as int, to as int).len() == 0);
                                            assert(nodes_view(out@) + spec_parse(
                                                gv.subrange(to as int, to as int),
                                            )->Ok_0 =~= nodes_view(out@));
                                        }
                                        i = to;
                                    },
                                }
                            },
                        }
                    },
                }
            },
        }
    }
    proof {
        assert(gv.subrange(i as int, to as int).len() == 0);
        assert(nodes_view(out@) + spec_parse(gv.subrange(i as int, to as int))->Ok_0 =~= nodes_view(
            out@,
        ));
    }
    Result::Ok(out)
}

/// Folds the chain of else headers beginning at `v[from]` into an
/// else-branch, and parses the segments after the chain; mirrors
/// `spec_else_chain`.
fn parse_else_chain(v: &Vec<Expr>, from: usize, to: usize) -> (r: Result<
    (Option<Box<Vec<DepthExpr>>>, Vec<DepthExpr>),
    ScopeError,
>)
    requires
        from <= to <= v@.len(),
    ensures
        r is Ok ==> spec_else_chain(expr_views(v@).subrange(from as int, to as int)) == Result::<
            (Option<Seq<DepthExprView>>, Seq<DepthExprView>),
            ScopeError,
        >::Ok((opt_branch_view(r->Ok_0.0), nodes_view(r->Ok_0.1@))),
        r is Err ==> spec_else_chain(expr_views(v@).subrange(from as int, to as int)) == Result::<
            (Option<Seq<DepthExprView>>, Seq<DepthExprView>),
            ScopeError,
        >::Err(r->Err_0),
    decreases to - from, 1int,
{
    let ghost gv = expr_views(v@);
    let ghost gs = gv.subrange(from as int, to as int);
    let mut header = false;
    if from < to {
        match &v[from].expr {
            ExprT::Decision((s2, Scope::If(If::Else))) => {
                header = is_else_start(s2.as_str());
                proof {
                    assert(gs[0] == gv[from as int]);
                    assert(gv[from as int] == v@[from as int]@);
                    assert(header == is_else_header(gs[0]));
                }
            },
            _ => {
                proof {
                    assert(gs[0] == gv[from as int]);
                    assert(gv[from as int] == v@[from as int]@);
                    assert(!is_else_header(gs[0]));
                }
            },
        }
    }
    if !header {
        match parse_range(v, from, to) {
            Result::Err(e) => {
                return Result::Err(e);
            },
            Result::Ok(ns) => {
                return Result::Ok((None, ns));
            },
        }
    }
    let ghost rest0 = gv.subrange(from + 1, to as int);
    proof {
        lemma_sub_drop_first(gv, from as int, to as int);
    }
    let body_start = from + 1;
    match entire_scopes(v, body_start, to) {
        Result::Err(e) => {
            return Result::Err(e);
        },
        Result::Ok(k) => {
            proof {
                lemma_scope_end_bounds(rest0, 1);
                lemma_sub_of_sub(gv, body_start as int, to as int, 0, k - body_start);
            }
            match parse_range(v, body_start, k) {
                Result::Err(e) => {
                    return Result::Err(e);
                },
                Result::Ok(bw) => {
                    let ghost ht = match gs[0].expr {
                        ExprTView::Decision((t, _)) => t,
                        _ => Seq::empty(),
                    };
                    let mut pure = false;
                    match &v[from].expr {
                        ExprT::Decision((s2, _)) => {
                            pure = is_exactly_else(s2.as_str());
                            proof {
                                assert(gs[0] == gv[from as int]);
                                assert(gv[from as int] == v@[from as int]@);
                                assert(pure == is_pure_else(ht));
                            }
                        },
                        _ => {
                            proof {
                                assert(gs[0] == gv[from as int]);
                                assert(gv[from as int] == v@[from as int]@);
                                assert(false);
                            }
                        },
                    }
                    proof {
                        lemma_sub_of_sub(gv, from as int, to as int, k - from, to - from);
                    }
                    if pure {
                        match parse_range(v, k, to) {
                            Result::Err(e) => {
                                return Result::Err(e);
                            },
                            Result::Ok(ns) => {
                                return Result::Ok((Some(Box::new(bw)), ns));
                            },
                        }
                    } else {
                        match parse_else_chain(v, k, to) {
                            Result::Err(e) => {
                                return Result::Err(e);
                            },
                            Result::Ok((nested, ns)) => {
                                let mut cond_text = String::new();
                                match &v[from].expr {
                                    ExprT::Decision((s2, _)) => {
                                        cond_text = s2.clone();
                                        proof {
                                            assert(gs[0] == gv[from as int]);
                                            assert(gv[from as int] == v@[from as int]@);
                                            assert(cond_text@ == ht);
                                        }
                                    },
                                    _ => {
                                        proof {
                                            assert(false);
                                        }
                                    },
                                }
                                let ghost bwv = nodes_view(bw@);
                                let ghost nestedv = opt_branch_view(nested);
                                let node = DepthExpr::Decision {
                                    cond: Box::new(DepthExpr::Process(cond_text)),
                                    t: Scope::If(If::Else),
                                    then_branch: Box::new(bw),
                                    else_branch: nested,
                                };
                                let mut branch: Vec<DepthExpr> = Vec::new();
                                branch.push(node);
                                proof {
                                    reveal_with_fuel(node_view, 2);
                                    let ht = match gs[0].expr {
                                        ExprTView::Decision((t, sc)) => t,
                                        _ => Seq::empty(),
                                    };
                                    let nv = DepthExprView::Decision {
                                        cond: Box::new(DepthExprView::Process(ht)),
                                        t: Scope::If(If::Else),
                                        then_branch: bwv,
                                        else_branch: nestedv,
                                    };
                                    assert(node_view(branch@[0]) == nv);
                                    assert(branch@.drop_first() =~= Seq::<DepthExpr>::empty());
                                    assert(nodes_view(branch@.drop_first())
                                        == Seq::<DepthExprView>::empty());
                                    assert(nodes_view(branch@) == seq![nv]
                                        + Seq::<DepthExprView>::empty());
                                    assert(seq![nv] + Seq::<DepthExprView>::empty() =~= seq![nv]);
                                }
                                return Result::Ok((Some(Box::new(branch)), ns));
                            },
                        }
                    }
                },
            }
        },
    }
}

/// Builds the ordered top-level control-flow tree from the classified
/// segment sequence, or reports the scope failure that aborted the
/// parse.
pub fn parse(vec: &Vec<Expr>) -> (r: Result<Vec<DepthExpr>, ScopeError>)
    ensures
        r is Ok ==> spec_parse(expr_views(vec@)) == Result::<Seq<DepthExprView>, ScopeError>::Ok(
            nodes_view(r->Ok_0@),
        ),
        r is Err ==> spec_parse(expr_views(vec@)) == Result::<Seq<DepthExprView>, ScopeError>::Err(
            r->Err_0,
        ),
{
    proof {
        assert(expr_views(vec@).subrange(0, vec@.len() as int) =~= expr_views(vec@));
    }
    parse_range(vec, 0, vec.len())
}

} // verus!
