//! A diagnostic instrumentation layer for byte-stream parsing.
//!
//! While a parser runs over a byte stream, every read and seek is captured as
//! an event attributed to the named scope that was active at that moment.
//! Scopes nest; at the end of a session the flat registry of scopes is
//! rewritten into a single tree rooted at the first scope entered, and that
//! tree can be serialized to a structured text form for offline inspection.

use vstd::prelude::*;

pub mod json;
pub mod run;
pub mod session;
pub mod stream;
pub mod tree;

use crate::run::enter_upto;
use crate::run::report_upto;
use crate::run::run_ops;
use crate::run::TraceOp;
use crate::session::SessModel;
use crate::session::TraceError;
use crate::tree::build;
use crate::tree::leaf_count;
use crate::tree::live_count;
use crate::tree::nest_count;
use crate::tree::tree_view;
use crate::tree::TreeSpan;

verus! {

/// Record one traced read described by its observed operations and return
/// the finished span tree (see `CounterSubscriber::read`).
pub fn read(ops: &Vec<TraceOp>) -> (r: Result<TreeSpan, TraceError>)
    ensures
        ({
            let mr = run_ops(SessModel::init(), ops@);
            match r {
                Ok(t) => mr matches Ok(m) && m.root matches Some(root) && build(
                    m.recs,
                    root,
                    live_count(m.recs) + 1,
                ) matches Some(p) && tree_view(t) == p.0,
                Err(e) => (mr matches Err(e2) && e == e2) || (mr matches Ok(m)
                    && m.root is None && e == TraceError::NoRoot),
            }
        }),
        r matches Ok(t) ==> leaf_count(tree_view(t)) == report_upto(ops@, ops@.len() as int)
            && nest_count(tree_view(t)) + 1 == enter_upto(ops@, ops@.len() as int),
{
    crate::session::CounterSubscriber::read(ops)
}

} // verus!
