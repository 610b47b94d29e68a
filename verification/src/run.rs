//! Driving a whole recording session from a script of scope and stream
//! operations, and turning the result into the final tree.
//!
//! The surrounding program observes a parser through two channels: scope
//! enter/exit notifications and read/seek reports.  Both arrive here as plain
//! operations, so the complete behaviour of a session is one fold over the
//! operation sequence.

use vstd::prelude::*;

use crate::session::Action;
use crate::session::CounterSubscriber;
use crate::session::SessModel;
use crate::session::TraceError;
use crate::session::entered_count;
use crate::session::lemma_entcnt_push;
use crate::session::lemma_entcnt_update;
use crate::session::lemma_tree_accounts;
use crate::session::lemma_wf_consistent;
use crate::session::SpanRecModel;
use crate::tree::build;
use crate::tree::leaf_count;
use crate::tree::leafcnt_acts;
use crate::tree::leafsum;
use crate::tree::lemma_leafcnt_push;
use crate::tree::lemma_leafsum_push;
use crate::tree::lemma_leafsum_swap;
use crate::tree::live_count;
use crate::tree::nest_count;
use crate::tree::tree_view;
use crate::tree::TreeSpan;

verus! {

/// One observed operation of a traced read.
#[derive(Debug, Clone)]
pub enum TraceOp {
    /// A named scope is created and immediately entered.
    Enter(String),
    /// The innermost scope is exited.
    Exit,
    /// A successful read of this many bytes is reported.
    Read(usize),
    /// A successful seek to this absolute offset is reported.
    Seek(usize),
}

/// The effect of one operation on the session state.
pub open spec fn step(m: SessModel, op: TraceOp) -> Result<SessModel, TraceError> {
    match op {
        TraceOp::Enter(name) => m.sp_new_span(name@).sp_enter(m.next_id()),
        TraceOp::Exit => if m.stack.len() == 0 {
            Err(TraceError::ExitMismatch)
        } else {
            m.sp_exit(m.top())
        },
        TraceOp::Read(n) => m.sp_report(Action::Read(n)),
        TraceOp::Seek(t) => m.sp_report(Action::Seek(t)),
    }
}

/// Read and seek reports among the first `k` operations.
pub open spec fn report_upto(ops: Seq<TraceOp>, k: int) -> nat
    decreases k,
{
    if k <= 0 || k > ops.len() {
        0
    } else {
        report_upto(ops, k - 1) + (match ops[k - 1] {
            TraceOp::Read(_) => 1nat,
            TraceOp::Seek(_) => 1nat,
            _ => 0nat,
        })
    }
}

/// Scope entries among the first `k` operations.
pub open spec fn enter_upto(ops: Seq<TraceOp>, k: int) -> nat
    decreases k,
{
    if k <= 0 || k > ops.len() {
        0
    } else {
        enter_upto(ops, k - 1) + (match ops[k - 1] {
            TraceOp::Enter(_) => 1nat,
            _ => 0nat,
        })
    }
}

/// The effect of a whole script, stopping at the first protocol violation.
pub open spec fn run_ops(m: SessModel, ops: Seq<TraceOp>) -> Result<SessModel, TraceError>
    decreases ops.len(),
{
    if ops.len() == 0 {
        Ok(m)
    } else {
        match step(m, ops[0]) {
            Err(e) => Err(e),
            Ok(m1) => run_ops(m1, ops.skip(1)),
        }
    }
}

impl CounterSubscriber {
    /// Record a whole traced read from its observed operations and build the
    /// final tree: the verified core of a traced parser run.  Fails exactly
    /// when the script violates the nesting protocol, or never enters a
    /// scope at all.
    pub fn read(ops: &Vec<TraceOp>) -> (r: Result<TreeSpan, TraceError>)
        ensures
            ({
                let mr = run_ops(SessModel::init(), ops@);
                match r {
                    Ok(t) => mr matches Ok(m) && m.root matches Some(root) && build(
                        m.recs,
                        root,
                        live_count(m.recs) + 1,
                    ) matches Some(p) && tree_view(t) == p.0,
                    Err(e) => (mr matches Err(e2) && e == e2) || (mr matches Ok(m)
                        && m.root is None && e == TraceError::NoRoot),
                }
            }),
            // every reported read/seek appears as a leaf of the tree, and
            // every scope entered beyond the root as a nesting point
            r matches Ok(t) ==> leaf_count(tree_view(t)) == report_upto(ops@, ops@.len() as int)
                && nest_count(tree_view(t)) + 1 == enter_upto(ops@, ops@.len() as int),
    {
        let mut sub = CounterSubscriber::new();
        let mut i: usize = 0;
        proof {
            assert(ops@.skip(0) =~= ops@);
        }
        while i < ops.len()
            invariant
                sub.wf(),
                i <= ops@.len(),
                sub@.recs.len() <= i,
                run_ops(SessModel::init(), ops@) == run_ops(sub@, ops@.skip(i as int)),
                leafsum(sub@.recs) == report_upto(ops@, i as int),
                entered_count(sub@.entered) == enter_upto(ops@, i as int),
            decreases ops@.len() - i,
        {
            let ghost pre = sub@;
            let ghost sk = ops@.skip(i as int);
            proof {
                assert(sk[0] == ops@[i as int]);
                assert(sk.skip(1) =~= ops@.skip(i + 1));
                lemma_wf_consistent(sub);
            }
            match &ops[i] {
                TraceOp::Enter(name) => {
                    let id = sub.new_span(name.clone());
                    proof {
                        assert(sub@ == pre.sp_new_span(name@));
                        assert(id == pre.next_id());
                        assert(sk[0] matches TraceOp::Enter(nm) && nm@ == name@);
                    }
                    match sub.enter(id) {
                        Ok(_) => {
                            proof {
                                assert(sub@ == pre.sp_new_span(name@).sp_enter(
                                    pre.next_id(),
                                )->Ok_0);
                                assert(step(pre, sk[0]) == Ok::<SessModel, TraceError>(sub@));
                                let msp = pre.sp_new_span(name@);
                                let ns = pre.next_id();
                                lemma_leafsum_push(
                                    pre.recs,
                                    Some(SpanRecModel { name: name@, acts: Seq::empty() }),
                                );
                                assert(leafcnt_acts(Seq::<Action>::empty()) == 0);
                                lemma_entcnt_push(pre.entered, false);
                                if msp.stack.len() > 0 {
                                    let idx = msp.top() - 1;
                                    let linked = msp.with_pushed(idx, Action::Span(ns));
                                    lemma_leafsum_swap(msp.recs, idx, linked.recs[idx]);
                                    lemma_leafcnt_push(msp.recs[idx]->0.acts, Action::Span(ns));
                                }
                                lemma_entcnt_update(msp.entered, ns - 1);
                            }
                        },
                        Err(e) => {
                            return Err(e);
                        },
                    }
                },
                TraceOp::Exit => {
                    match sub.current_span() {
                        None => {
                            return Err(TraceError::ExitMismatch);
                        },
                        Some(top) => {
                            match sub.exit(top) {
                                Ok(_) => {},
                                Err(e) => {
                                    proof {
                                        assert(false);
                                    }
                                    return Err(e);
                                },
                            }
                        },
                    }
                },
                TraceOp::Read(n) => {
                    match sub.read_action(*n) {
                        Ok(_) => {
                            proof {
                                let idx = pre.top() - 1;
                                lemma_leafsum_swap(pre.recs, idx, sub@.recs[idx]);
                                lemma_leafcnt_push(pre.recs[idx]->0.acts, Action::Read(*n));
                            }
                        },
                        Err(e) => {
                            return Err(e);
                        },
                    }
                },
                TraceOp::Seek(t) => {
                    match sub.seek_action(*t) {
                        Ok(_) => {
                            proof {
                                let idx = pre.top() - 1;
                                lemma_leafsum_swap(pre.recs, idx, sub@.recs[idx]);
                                lemma_leafcnt_push(pre.recs[idx]->0.acts, Action::Seek(*t));
                            }
                        },
                        Err(e) => {
                            return Err(e);
                        },
                    }
                },
            }
            proof {
                assert(sub@.recs.len() <= pre.recs.len() + 1);
                assert(run_ops(pre, sk) == run_ops(sub@, ops@.skip(i + 1)));
            }
            i += 1;
        }
        proof {
            assert(ops@.skip(i as int) =~= Seq::<TraceOp>::empty());
            assert(run_ops(SessModel::init(), ops@) == Ok::<SessModel, TraceError>(sub@));
            if sub@.root is Some {
                lemma_tree_accounts(sub);
            }
        }
        sub.finalize()
    }
}

} // verus!
