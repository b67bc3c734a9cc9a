//! Laws of the pipeline, stated over the specification functions that the
//! executable functions are proved against: totality of the tree builder
//! on well-scoped input, the node-count accounting of the built tree,
//! the round-trip of scope pairing, and determinism of the whole
//! pipeline.

use vstd::prelude::*;

use crate::ast::DepthExprView;
use crate::ast::ScopeError;
use crate::ast::is_else_header;
use crate::ast::is_pure_else;
use crate::ast::lemma_scope_end_bounds;
use crate::ast::spec_else_chain;
use crate::ast::spec_parse;
use crate::ast::spec_scope_end;
use crate::parser::ExprTView;
use crate::parser::ExprView;
use crate::parser::Metadata;
use crate::parser::Scope;
use crate::parser::emit_piece;
use crate::parser::is_delim;
use crate::parser::meta_of;
use crate::parser::spec_delimit;
use crate::parser::spec_delimit_from;
use crate::parser::spec_process;
use crate::tokenizer::If;

verus! {

/// The number of nodes in a sequence of trees: decision nodes and leaves,
/// counted recursively through both branches; a decision's condition
/// sub-node is an attribute of the decision and is not counted.
pub open spec fn count_all_nodes(s: Seq<DepthExprView>) -> int
    decreases s,
{
    if s.len() == 0 {
        0
    } else {
        count_node(s[0]) + count_all_nodes(s.drop_first())
    }
}

/// The number of nodes of one tree.
pub open spec fn count_node(n: DepthExprView) -> int
    decreases n,
{
    match n {
        DepthExprView::Decision { cond, t, then_branch, else_branch } => 1 + count_all_nodes(
            then_branch,
        ) + match else_branch {
            Option::Some(e) => count_all_nodes(e),
            Option::None => 0,
        },
        DepthExprView::IO(_) => 1,
        DepthExprView::Process(_) => 1,
    }
}

/// The number of decision nodes in a sequence of trees.
pub open spec fn count_decision_nodes(s: Seq<DepthExprView>) -> int
    decreases s,
{
    if s.len() == 0 {
        0
    } else {
        count_decision_node(s[0]) + count_decision_nodes(s.drop_first())
    }
}

/// The number of decision nodes of one tree.
pub open spec fn count_decision_node(n: DepthExprView) -> int
    decreases n,
{
    match n {
        DepthExprView::Decision { cond, t, then_branch, else_branch } => 1 + count_decision_nodes(
            then_branch,
        ) + match else_branch {
            Option::Some(e) => count_decision_nodes(e),
            Option::None => 0,
        },
        DepthExprView::IO(_) => 0,
        DepthExprView::Process(_) => 0,
    }
}

/// Whether a classified segment can contribute a node: a decision, or a
/// leaf segment whose text is non-empty.
pub open spec fn is_countable(e: ExprView) -> bool {
    match e.expr {
        ExprTView::Decision(_) => true,
        ExprTView::IO(t) => t.len() > 0,
        ExprTView::Process(t) => t.len() > 0,
        ExprTView::StartOrStop(_) => false,
    }
}

/// The number of non-empty classified segments.
pub open spec fn count_countable(s: Seq<ExprView>) -> int
    decreases s,
{
    if s.len() == 0 {
        0
    } else {
        (if is_countable(s[0]) {
            1int
        } else {
            0int
        }) + count_countable(s.drop_first())
    }
}

/// The number of decision segments.
pub open spec fn count_decision_segs(s: Seq<ExprView>) -> int
    decreases s,
{
    if s.len() == 0 {
        0
    } else {
        (if s[0].expr is Decision {
            1int
        } else {
            0int
        }) + count_decision_segs(s.drop_first())
    }
}

/// The number of scope-open boundaries recorded on the segments.
pub open spec fn count_opens(s: Seq<ExprView>) -> int
    decreases s,
{
    if s.len() == 0 {
        0
    } else {
        (if s[0].meta == Some(Metadata::StartScope) {
            1int
        } else {
            0int
        }) + count_opens(s.drop_first())
    }
}

/// The number of scope-close boundaries recorded on the segments.
pub open spec fn count_closes(s: Seq<ExprView>) -> int
    decreases s,
{
    if s.len() == 0 {
        0
    } else {
        (if s[0].meta == Some(Metadata::EndScope) {
            1int
        } else {
            0int
        }) + count_closes(s.drop_first())
    }
}

/// Splits `count_countable` at an index.
pub proof fn lemma_countable_split(s: Seq<ExprView>, j: int)
    requires
        0 <= j <= s.len(),
    ensures
        count_countable(s) == count_countable(s.subrange(0, j)) + count_countable(
            s.subrange(j, s.len() as int),
        ),
    decreases j,
{
    if j == 0 {
        assert(s.subrange(0, 0) =~= Seq::<ExprView>::empty());
        assert(s.subrange(0, s.len() as int) =~= s);
    } else {
        lemma_countable_split(s.drop_first(), j - 1);
        assert(s.subrange(0, j).drop_first() =~= s.drop_first().subrange(0, j - 1));
        assert(s.subrange(j, s.len() as int) =~= s.drop_first().subrange(
            j - 1,
            s.drop_first().len() as int,
        ));
        assert(s.subrange(0, j)[0] == s[0]);
    }
}

/// Splits `count_decision_segs` at an index.
pub proof fn lemma_decision_segs_split(s: Seq<ExprView>, j: int)
    requires
        0 <= j <= s.len(),
    ensures
        count_decision_segs(s) == count_decision_segs(s.subrange(0, j)) + count_decision_segs(
            s.subrange(j, s.len() as int),
        ),
    decreases j,
{
    if j == 0 {
        assert(s.subrange(0, 0) =~= Seq::<ExprView>::empty());
        assert(s.subrange(0, s.len() as int) =~= s);
    } else {
        lemma_decision_segs_split(s.drop_first(), j - 1);
        assert(s.subrange(0, j).drop_first() =~= s.drop_first().subrange(0, j - 1));
        assert(s.subrange(j, s.len() as int) =~= s.drop_first().subrange(
            j - 1,
            s.drop_first().len() as int,
        ));
        assert(s.subrange(0, j)[0] == s[0]);
    }
}

/// Splits `count_opens` at an index.
pub proof fn lemma_opens_split(s: Seq<ExprView>, j: int)
    requires
        0 <= j <= s.len(),
    ensures
        count_opens(s) == count_opens(s.subrange(0, j)) + count_opens(
            s.subrange(j, s.len() as int),
        ),
    decreases j,
{
    if j == 0 {
        assert(s.subrange(0, 0) =~= Seq::<ExprView>::empty());
        assert(s.subrange(0, s.len() as int) =~= s);
    } else {
        lemma_opens_split(s.drop_first(), j - 1);
        assert(s.subrange(0, j).drop_first() =~= s.drop_first().subrange(0, j - 1));
        assert(s.subrange(j, s.len() as int) =~= s.drop_first().subrange(
            j - 1,
            s.drop_first().len() as int,
        ));
        assert(s.subrange(0, j)[0] == s[0]);
    }
}

/// Splits `count_closes` at an index.
pub proof fn lemma_closes_split(s: Seq<ExprView>, j: int)
    requires
        0 <= j <= s.len(),
    ensures
        count_closes(s) == count_closes(s.subrange(0, j)) + count_closes(
            s.subrange(j, s.len() as int),
        ),
    decreases j,
{
    if j == 0 {
        assert(s.subrange(0, 0) =~= Seq::<ExprView>::empty());
        assert(s.subrange(0, s.len() as int) =~= s);
    } else {
        lemma_closes_split(s.drop_first(), j - 1);
        assert(s.subrange(0, j).drop_first() =~= s.drop_first().subrange(0, j - 1));
        assert(s.subrange(j, s.len() as int) =~= s.drop_first().subrange(
            j - 1,
            s.drop_first().len() as int,
        ));
        assert(s.subrange(0, j)[0] == s[0]);
    }
}

/// Prepending one tree to a sequence adds its node counts.
pub proof fn lemma_count_cons(n: DepthExprView, ns: Seq<DepthExprView>)
    ensures
        count_all_nodes(seq![n] + ns) == count_node(n) + count_all_nodes(ns),
        count_decision_nodes(seq![n] + ns) == count_decision_node(n) + count_decision_nodes(ns),
{
    assert((seq![n] + ns).len() > 0);
    assert((seq![n] + ns)[0] == n);
    assert((seq![n] + ns).drop_first() =~= ns);
}

/// The nodes of an optional else-branch.
pub open spec fn opt_nodes(o: Option<Seq<DepthExprView>>) -> Seq<DepthExprView> {
    match o {
        Option::Some(x) => x,
        Option::None => Seq::empty(),
    }
}

/// Node-count accounting, by induction over the tree builder: whenever
/// the builder succeeds, its tree holds one decision node per decision
/// segment not consumed as an else-chain header, and one leaf per
/// non-empty leaf segment.
pub proof fn lemma_node_count_rec(s: Seq<ExprView>)
    ensures
        spec_parse(s) is Ok ==> count_decision_nodes(spec_parse(s)->Ok_0) <= count_decision_segs(
            s,
        ),
        spec_parse(s) is Ok ==> count_all_nodes(spec_parse(s)->Ok_0) - count_decision_nodes(
            spec_parse(s)->Ok_0,
        ) == count_countable(s) - count_decision_segs(s),
    decreases s.len(), 0int,
{
    if s.len() == 0 {
    } else {
        let rest0 = s.drop_first();
        match s[0].expr {
            ExprTView::StartOrStop(_) => {
                lemma_node_count_rec(rest0);
            },
            ExprTView::IO(t) => {
                lemma_node_count_rec(rest0);
                if spec_parse(rest0) is Ok && t.len() > 0 {
                    lemma_count_cons(DepthExprView::IO(t), spec_parse(rest0)->Ok_0);
                }
            },
            ExprTView::Process(t) => {
                lemma_node_count_rec(rest0);
                if spec_parse(rest0) is Ok && t.len() > 0 {
                    lemma_count_cons(DepthExprView::Process(t), spec_parse(rest0)->Ok_0);
                }
            },
            ExprTView::Decision((cond, sc)) => {
                match spec_scope_end(rest0, 1) {
                    Result::Err(_) => {},
                    Result::Ok(j) => {
                        lemma_scope_end_bounds(rest0, 1);
                        let win = rest0.subrange(0, j);
                        let tail = rest0.subrange(j, rest0.len() as int);
                        lemma_node_count_rec(win);
                        lemma_node_count_chain(tail);
                        lemma_countable_split(rest0, j);
                        lemma_decision_segs_split(rest0, j);
                        if spec_parse(win) is Ok && spec_else_chain(tail) is Ok {
                            let tn = spec_parse(win)->Ok_0;
                            let els = spec_else_chain(tail)->Ok_0.0;
                            let ns_tail = spec_else_chain(tail)->Ok_0.1;
                            let node = DepthExprView::Decision {
                                cond: Box::new(DepthExprView::Process(cond)),
                                t: sc,
                                then_branch: tn,
                                else_branch: els,
                            };
                            lemma_count_cons(node, ns_tail);
                            assert(count_node(node) == 1 + count_all_nodes(tn) + count_all_nodes(
                                opt_nodes(els),
                            ));
                            assert(count_decision_node(node) == 1 + count_decision_nodes(tn)
                                + count_decision_nodes(opt_nodes(els)));
                        }
                    },
                }
            },
        }
    }
}

/// Companion to `lemma_node_count_rec` for chain positions: the nodes an
/// else chain contributes, branch and following siblings together,
/// account for every countable segment of the chain's input except the
/// bare else headers.
pub proof fn lemma_node_count_chain(s: Seq<ExprView>)
    ensures
        spec_else_chain(s) is Ok ==> count_decision_nodes(opt_nodes(spec_else_chain(s)->Ok_0.0))
            + count_decision_nodes(spec_else_chain(s)->Ok_0.1) <= count_decision_segs(s),
        spec_else_chain(s) is Ok ==> (count_all_nodes(opt_nodes(spec_else_chain(s)->Ok_0.0))
            + count_all_nodes(spec_else_chain(s)->Ok_0.1)) - (count_decision_nodes(
            opt_nodes(spec_else_chain(s)->Ok_0.0),
        ) + count_decision_nodes(spec_else_chain(s)->Ok_0.1)) == count_countable(s)
            - count_decision_segs(s),
    decreases s.len(), 1int,
{
    if s.len() == 0 || !is_else_header(s[0]) {
        lemma_node_count_rec(s);
        assert(count_all_nodes(opt_nodes(Option::None)) == 0);
        assert(count_decision_nodes(opt_nodes(Option::None)) == 0);
    } else {
        let rest0 = s.drop_first();
        match spec_scope_end(rest0, 1) {
            Result::Err(_) => {},
            Result::Ok(k) => {
                lemma_scope_end_bounds(rest0, 1);
                let win = rest0.subrange(0, k);
                let tail = s.subrange(1 + k, s.len() as int);
                assert(rest0.subrange(k, rest0.len() as int) =~= tail);
                lemma_node_count_rec(win);
                lemma_countable_split(rest0, k);
                lemma_decision_segs_split(rest0, k);
                let ht = match s[0].expr {
                    ExprTView::Decision((t, _)) => t,
                    _ => Seq::empty(),
                };
                if spec_parse(win) is Ok {
                    let bw = spec_parse(win)->Ok_0;
                    if is_pure_else(ht) {
                        lemma_node_count_rec(tail);
                    } else {
                        lemma_node_count_chain(tail);
                        if spec_else_chain(tail) is Ok {
                            let nested = spec_else_chain(tail)->Ok_0.0;
                            let node = DepthExprView::Decision {
                                cond: Box::new(DepthExprView::Process(ht)),
                                t: Scope::If(If::Else),
                                then_branch: bw,
                                else_branch: nested,
                            };
                            assert(seq![node].drop_first() =~= Seq::<DepthExprView>::empty());
                            assert(count_all_nodes(seq![node].drop_first()) == 0);
                            assert(count_decision_nodes(seq![node].drop_first()) == 0);
                            assert(count_all_nodes(seq![node]) == count_node(node));
                            assert(count_decision_nodes(seq![node]) == count_decision_node(node));
                            assert(count_node(node) == 1 + count_all_nodes(bw) + count_all_nodes(
                                opt_nodes(nested),
                            ));
                            assert(count_decision_node(node) == 1 + count_decision_nodes(bw)
                                + count_decision_nodes(opt_nodes(nested)));
                        }
                    }
                }
            },
        }
    }
}

/// Well-formed segment sequences, the inputs on which the tree builder
/// is total.  `in_scope` tells whether the sequence is the body of one
/// scope still to be closed.  A leaf segment carries no scope metadata,
/// except that the last segment of a scope body carries the close; a
/// decision segment carries the open of its scope, its body is
/// well-formed, and so are a chained else header's scope body and the
/// remainder.
pub open spec fn well_scoped_rec(s: Seq<ExprView>, in_scope: bool) -> bool
    decreases s.len(), 0int,
{
    if s.len() == 0 {
        !in_scope
    } else {
        let rest0 = s.drop_first();
        match s[0].expr {
            ExprTView::Decision(_) => {
                if s[0].meta != Some(Metadata::StartScope) {
                    false
                } else {
                    match spec_scope_end(rest0, 1) {
                        Result::Err(_) => false,
                        Result::Ok(j) => {
                            proof {
                                lemma_scope_end_bounds(rest0, 1);
                            }
                            well_scoped_rec(rest0.subrange(0, j), true) && well_scoped_chain(
                                rest0.subrange(j, rest0.len() as int),
                                in_scope,
                            )
                        },
                    }
                }
            },
            _ => {
                if s[0].meta == Some(Metadata::EndScope) {
                    in_scope && rest0.len() == 0
                } else {
                    s[0].meta is None && well_scoped_rec(rest0, in_scope)
                }
            },
        }
    }
}

/// Well-formedness of the part of a sequence where a chain of else
/// headers may begin: each header carries the open of its scope, its
/// scope body is well-formed, and the chain continues after a non-bare
/// header's scope.
pub open spec fn well_scoped_chain(s: Seq<ExprView>, in_scope: bool) -> bool
    decreases s.len(), 1int,
{
    if s.len() == 0 || !is_else_header(s[0]) {
        well_scoped_rec(s, in_scope)
    } else if s[0].meta != Some(Metadata::StartScope) {
        false
    } else {
        match spec_scope_end(s.drop_first(), 1) {
            Result::Err(_) => false,
            Result::Ok(k) => {
                proof {
                    lemma_scope_end_bounds(s.drop_first(), 1);
                }
                let ht = match s[0].expr {
                    ExprTView::Decision((t, _)) => t,
                    _ => Seq::empty(),
                };
                well_scoped_rec(s.drop_first().subrange(0, k), true) && (if is_pure_else(ht) {
                    well_scoped_rec(s.subrange(1 + k, s.len() as int), in_scope)
                } else {
                    well_scoped_chain(s.subrange(1 + k, s.len() as int), in_scope)
                })
            },
        }
    }
}

/// Well-formed input with balanced scope boundaries: every scope open
/// sits on a decision segment and is closed, and every scope close ends
/// a scope some decision opened.
pub open spec fn well_scoped(s: Seq<ExprView>) -> bool {
    well_scoped_rec(s, false)
}

/// On well-formed input the tree builder succeeds, and the scope-close
/// boundaries outnumber the scope-open boundaries by exactly one inside
/// a scope body and match them exactly at the top level.
pub proof fn lemma_well_scoped_rec(s: Seq<ExprView>, in_scope: bool)
    requires
        well_scoped_rec(s, in_scope),
    ensures
        spec_parse(s) is Ok,
        count_closes(s) == count_opens(s) + if in_scope {
            1int
        } else {
            0int
        },
    decreases s.len(), 0int,
{
    let ghost goal = count_opens(s) + if in_scope {
        1int
    } else {
        0int
    };
    if s.len() == 0 {
        assert(count_closes(s) == goal);
    } else {
        let rest0 = s.drop_first();
        match s[0].expr {
            ExprTView::Decision(_) => {
                lemma_scope_end_bounds(rest0, 1);
                let j = spec_scope_end(rest0, 1)->Ok_0;
                let win = rest0.subrange(0, j);
                let tail = rest0.subrange(j, rest0.len() as int);
                lemma_well_scoped_rec(win, true);
                lemma_well_scoped_chain(tail, in_scope);
                lemma_opens_split(rest0, j);
                lemma_closes_split(rest0, j);
                assert(count_opens(s) == 1 + count_opens(rest0));
                assert(count_closes(s) == count_closes(rest0));
                assert(count_closes(s) == goal);
            },
            _ => {
                if s[0].meta == Some(Metadata::EndScope) {
                    assert(rest0.len() == 0);
                    assert(count_closes(rest0) == 0);
                    assert(count_opens(rest0) == 0);
                    assert(spec_parse(rest0) is Ok);
                    assert(count_closes(s) == goal);
                } else {
                    lemma_well_scoped_rec(rest0, in_scope);
                    assert(count_closes(s) == goal);
                }
            },
        }
    }
}

/// Companion to `lemma_well_scoped_rec` for chain positions.
pub proof fn lemma_well_scoped_chain(s: Seq<ExprView>, in_scope: bool)
    requires
        well_scoped_chain(s, in_scope),
    ensures
        spec_else_chain(s) is Ok,
        count_closes(s) == count_opens(s) + if in_scope {
            1int
        } else {
            0int
        },
    decreases s.len(), 1int,
{
    if s.len() == 0 || !is_else_header(s[0]) {
        lemma_well_scoped_rec(s, in_scope);
    } else {
        let rest0 = s.drop_first();
        lemma_scope_end_bounds(rest0, 1);
        let k = spec_scope_end(rest0, 1)->Ok_0;
        let win = rest0.subrange(0, k);
        let tail = s.subrange(1 + k, s.len() as int);
        assert(rest0.subrange(k, rest0.len() as int) =~= tail);
        let ht = match s[0].expr {
            ExprTView::Decision((t, _)) => t,
            _ => Seq::empty(),
        };
        lemma_well_scoped_rec(win, true);
        if is_pure_else(ht) {
            lemma_well_scoped_rec(tail, in_scope);
        } else {
            lemma_well_scoped_chain(tail, in_scope);
        }
        lemma_opens_split(rest0, k);
        lemma_closes_split(rest0, k);
        assert(count_opens(s) == 1 + count_opens(rest0));
        assert(count_closes(s) == count_closes(rest0));
    }
}

/// For well-formed input with balanced scope boundaries the tree
/// builder returns a tree, never a fatal error.
pub proof fn lemma_tree_builder_total(s: Seq<ExprView>)
    requires
        well_scoped(s),
    ensures
        spec_parse(s) is Ok,
{
    lemma_well_scoped_rec(s, false);
}

/// On well-formed input, the scope-open boundaries recorded on the
/// segments are matched one-to-one by scope-close boundaries.
pub proof fn lemma_scope_balance(s: Seq<ExprView>)
    requires
        well_scoped(s),
    ensures
        count_opens(s) == count_closes(s),
        spec_parse(s) is Ok,
{
    lemma_well_scoped_rec(s, false);
}

/// Round-trip of scope pairing inside one extraction window, for any
/// input: when entire-scope extraction succeeds from depth `depth`, the
/// window it consumed holds exactly `depth` more scope-close boundaries
/// than scope-open boundaries — every open is paired with a close, plus
/// one close for each scope level already entered.
pub proof fn lemma_window_pairing(s: Seq<ExprView>, depth: int)
    requires
        depth >= 1,
        spec_scope_end(s, depth) is Ok,
    ensures
        count_closes(s.subrange(0, spec_scope_end(s, depth)->Ok_0)) == count_opens(
            s.subrange(0, spec_scope_end(s, depth)->Ok_0),
        ) + depth,
    decreases s.len(),
{
    lemma_scope_end_bounds(s, depth);
    let j = spec_scope_end(s, depth)->Ok_0;
    let w = s.subrange(0, j);
    assert(w[0] == s[0]);
    let rest0 = s.drop_first();
    match s[0].meta {
        Option::Some(Metadata::StartScope) => {
            assert(spec_scope_end(rest0, depth + 1) is Ok);
            lemma_window_pairing(rest0, depth + 1);
            assert(w.drop_first() =~= rest0.subrange(0, j - 1));
        },
        Option::Some(Metadata::EndScope) => {
            if depth == 1 {
                assert(w.drop_first() =~= Seq::<ExprView>::empty());
                assert(count_closes(w.drop_first()) == 0);
                assert(count_opens(w.drop_first()) == 0);
            } else {
                assert(spec_scope_end(rest0, depth - 1) is Ok);
                lemma_window_pairing(rest0, depth - 1);
                assert(w.drop_first() =~= rest0.subrange(0, j - 1));
            }
        },
        Option::None => {
            assert(spec_scope_end(rest0, depth) is Ok);
            lemma_window_pairing(rest0, depth);
            assert(w.drop_first() =~= rest0.subrange(0, j - 1));
        },
    }
}

/// The failure half of the scope-pairing round-trip, for any input: when
/// entire-scope extraction fails with scope underflow, no prefix of the
/// scanned sequence pairs off the `depth` scope levels already entered —
/// every prefix holds fewer than `depth` surplus closes, so no window
/// existed to extract.
pub proof fn lemma_underflow_unbalanced(s: Seq<ExprView>, depth: int)
    requires
        depth >= 1,
        spec_scope_end(s, depth) == Result::<int, ScopeError>::Err(ScopeError::ScopeUnderflow),
    ensures
        forall|j: int|
            0 <= j <= s.len() ==> count_closes(#[trigger] s.subrange(0, j)) < count_opens(
                s.subrange(0, j),
            ) + depth,
    decreases s.len(),
{
    if s.len() == 0 {
        assert forall|j: int| 0 <= j <= s.len() implies count_closes(#[trigger] s.subrange(0, j))
            < count_opens(s.subrange(0, j)) + depth by {
            assert(s.subrange(0, j) =~= Seq::<ExprView>::empty());
            assert(count_closes(s.subrange(0, j)) == 0);
            assert(count_opens(s.subrange(0, j)) == 0);
        }
    } else {
        let rest0 = s.drop_first();
        let d2: int = match s[0].meta {
            Option::Some(Metadata::StartScope) => depth + 1,
            Option::Some(Metadata::EndScope) => depth - 1,
            Option::None => depth,
        };
        assert(spec_scope_end(rest0, d2) == Result::<int, ScopeError>::Err(
            ScopeError::ScopeUnderflow,
        ));
        assert(d2 >= 1);
        lemma_underflow_unbalanced(rest0, d2);
        assert forall|j: int| 0 <= j <= s.len() implies count_closes(#[trigger] s.subrange(0, j))
            < count_opens(s.subrange(0, j)) + depth by {
            let p = s.subrange(0, j);
            if j == 0 {
                assert(p =~= Seq::<ExprView>::empty());
                assert(count_closes(p) == 0);
                assert(count_opens(p) == 0);
            } else {
                assert(p[0] == s[0]);
                assert(p.drop_first() =~= rest0.subrange(0, j - 1));
                assert(count_closes(rest0.subrange(0, j - 1)) < count_opens(
                    rest0.subrange(0, j - 1),
                ) + d2);
            }
        }
    }
}

/// The number of occurrences of `c` in `s`.
pub open spec fn count_char(s: Seq<char>, c: char) -> int
    decreases s,
{
    if s.len() == 0 {
        0
    } else {
        (if s[0] == c {
            1int
        } else {
            0int
        }) + count_char(s.drop_first(), c)
    }
}

/// The number of scope-open boundaries recorded on raw segments.
pub open spec fn count_opens_raw(s: Seq<(Seq<char>, Option<Metadata>)>) -> int
    decreases s,
{
    if s.len() == 0 {
        0
    } else {
        (if s[0].1 == Some(Metadata::StartScope) {
            1int
        } else {
            0int
        }) + count_opens_raw(s.drop_first())
    }
}

/// The number of scope-close boundaries recorded on raw segments.
pub open spec fn count_closes_raw(s: Seq<(Seq<char>, Option<Metadata>)>) -> int
    decreases s,
{
    if s.len() == 0 {
        0
    } else {
        (if s[0].1 == Some(Metadata::EndScope) {
            1int
        } else {
            0int
        }) + count_closes_raw(s.drop_first())
    }
}

/// The boundaries recorded by the rest of a segmentation scan are the
/// braces in the rest of the text: the segmenter never drops a brace
/// boundary, also where the piece it ends is empty.
pub proof fn lemma_delimit_records(s: Seq<char>, start: int, i: int)
    requires
        0 <= start <= i <= s.len(),
    ensures
        count_opens_raw(spec_delimit_from(s, start, i)) == count_char(
            s.subrange(i, s.len() as int),
            '{',
        ),
        count_closes_raw(spec_delimit_from(s, start, i)) == count_char(
            s.subrange(i, s.len() as int),
            '}',
        ),
    decreases s.len() - i,
{
    if i == s.len() {
        assert(s.subrange(i, s.len() as int) =~= Seq::<char>::empty());
        assert(count_char(s.subrange(i, s.len() as int), '{') == 0);
        assert(count_char(s.subrange(i, s.len() as int), '}') == 0);
        let piece = emit_piece(s.subrange(start, i), Option::None);
        if piece.len() > 0 {
            assert(piece.drop_first() =~= Seq::<(Seq<char>, Option<Metadata>)>::empty());
            assert(count_opens_raw(piece.drop_first()) == 0);
            assert(count_closes_raw(piece.drop_first()) == 0);
        }
    } else {
        assert(s.subrange(i, s.len() as int)[0] == s[i]);
        assert(s.subrange(i, s.len() as int).drop_first() =~= s.subrange(i + 1, s.len() as int));
        if is_delim(s[i]) {
            lemma_delimit_records(s, i + 1, i + 1);
            let piece = emit_piece(s.subrange(start, i), meta_of(s[i]));
            let rest = spec_delimit_from(s, i + 1, i + 1);
            if piece.len() == 0 {
                assert(piece + rest =~= rest);
            } else {
                assert((piece + rest)[0] == piece[0]);
                assert((piece + rest).drop_first() =~= rest);
            }
        } else {
            lemma_delimit_records(s, start, i + 1);
        }
    }
}

/// Classification neither adds nor drops scope boundaries.
pub proof fn lemma_process_keeps_boundaries(segs: Seq<(Seq<char>, Option<Metadata>)>)
    ensures
        count_opens(spec_process(segs)) == count_opens_raw(segs),
        count_closes(spec_process(segs)) == count_closes_raw(segs),
    decreases segs.len(),
{
    if segs.len() > 0 {
        lemma_process_keeps_boundaries(segs.drop_first());
        assert(spec_process(segs)[0].meta == segs[0].1);
        assert(spec_process(segs).drop_first() =~= spec_process(segs.drop_first()));
    }
}

/// Round-trip of scope pairing at the segmenter level, for any input
/// text: the scope-open boundaries that reach the tree builder are one
/// per `{` of the text, the scope-close boundaries one per `}`.
pub proof fn lemma_segmenter_records_braces(input: Seq<char>)
    ensures
        count_opens(spec_process(spec_delimit(input))) == count_char(input, '{'),
        count_closes(spec_process(spec_delimit(input))) == count_char(input, '}'),
{
    lemma_delimit_records(input, 0, 0);
    lemma_process_keeps_boundaries(spec_delimit(input));
    assert(input.subrange(0, input.len() as int) =~= input);
}

/// The whole pipeline as one function of the input text: segmentation,
/// classification, tree building.
pub open spec fn spec_pipeline(input: Seq<char>) -> Result<Seq<DepthExprView>, ScopeError> {
    spec_parse(spec_process(spec_delimit(input)))
}

/// Re-running the full pipeline on the same input text yields a
/// structurally identical tree: each stage's executable function is
/// proved to return exactly the view that `spec_pipeline` assigns to
/// its input, and that view depends on the input text alone — the
/// pipeline holds no hidden mutable state between runs.
pub proof fn lemma_pipeline_deterministic(
    input: Seq<char>,
    r1: Result<Seq<DepthExprView>, ScopeError>,
    r2: Result<Seq<DepthExprView>, ScopeError>,
)
    requires
        r1 == spec_pipeline(input),
        r2 == spec_pipeline(input),
    ensures
        r1 == r2,
{
}

/// When the tree builder succeeds, the total count of leaf and decision
/// nodes of the tree, counted recursively, equals the number of
/// non-empty classified segments minus the number of segments consumed
/// purely as else-chain headers — the decision segments that became no
/// decision node of their own.
pub proof fn lemma_node_count(s: Seq<ExprView>, ns: Seq<DepthExprView>)
    requires
        spec_parse(s) == Result::<Seq<DepthExprView>, ScopeError>::Ok(ns),
    ensures
        count_decision_nodes(ns) <= count_decision_segs(s),
        count_all_nodes(ns) + (count_decision_segs(s) - count_decision_nodes(ns))
            == count_countable(s),
{
    lemma_node_count_rec(s);
}

} // verus!
