//! The recorder: a span registry plus a call-stack tracker.
//!
//! A session assigns monotonically increasing identifiers to named scopes,
//! keeps one append-only event log per scope, and tracks which scopes are
//! currently active.  Every operation is total: protocol violations (reporting
//! an event with no active scope, exiting a scope that is not the current top,
//! entering a scope twice, opening a second root) are returned as errors
//! instead of corrupting the recorded state.

use vstd::prelude::*;

use crate::tree::build;
use crate::tree::leaf_count;
use crate::tree::leafcnt_acts;
use crate::tree::leafsum;
use crate::tree::lemma_build_counts;
use crate::tree::lemma_build_total;
use crate::tree::live_count;
use crate::tree::nest_count;
use crate::tree::ref_live;
use crate::tree::reg_wf;
use crate::tree::tree_view;
use crate::tree::TreeSpan;

verus! {

/// Identifier of a span; ids are assigned 1, 2, 3, ... in creation order.
pub type SpanId = usize;

/// One recorded event inside a span's log.
#[derive(Clone, Copy, Debug, PartialEq, Eq, Structural)]
pub enum Action {
    /// A successful read of this many bytes.
    Read(usize),
    /// A successful seek to this absolute offset.
    Seek(usize),
    /// A child scope was entered while this span was active.
    Span(SpanId),
}

/// The record of one span: its name and its ordered event log.
#[derive(Debug)]
pub struct ReadSpan {
    pub name: String,
    pub actions: Vec<Action>,
}

impl ReadSpan {
    /// A fresh record with an empty event log.
    pub fn new(name: String) -> (r: ReadSpan)
        ensures
            r.name@ == name@,
            r.actions@ == Seq::<Action>::empty(),
    {
        ReadSpan { name, actions: Vec::new() }
    }
}

/// Why a recorder operation was refused (or why teardown failed).
#[derive(Clone, Copy, Debug, PartialEq, Eq, Structural)]
pub enum TraceError {
    /// A read or seek was reported while no scope was active.
    NoActiveSpan,
    /// A scope exit did not match the innermost active scope.
    ExitMismatch,
    /// A scope id that was never created.
    UnknownSpan,
    /// A scope was entered a second time.
    AlreadyEntered,
    /// A second top-level scope was entered in the same session.
    SecondRoot,
    /// Teardown was requested although no scope was ever entered.
    NoRoot,
    /// Tree building found a child reference without a registry record.
    MissingChild,
}

/// Mathematical model of one span record.
#[verifier::ext_equal]
pub ghost struct SpanRecModel {
    pub name: Seq<char>,
    pub acts: Seq<Action>,
}

/// Mathematical model of a whole session.
#[verifier::ext_equal]
pub ghost struct SessModel {
    /// Slot `i` holds the record of span id `i + 1`; `None` once consumed.
    pub recs: Seq<Option<SpanRecModel>>,
    /// Whether span id `i + 1` has ever been entered.
    pub entered: Seq<bool>,
    /// Currently active span ids, innermost last.
    pub stack: Seq<SpanId>,
    /// The first span ever entered, fixed for the rest of the session.
    pub root: Option<SpanId>,
}

/// Lift an executable registry to its model.
pub open spec fn lift_reg(s: Seq<Option<ReadSpan>>) -> Seq<Option<SpanRecModel>> {
    Seq::new(s.len(), |i: int| match s[i] {
        Some(r) => Some(SpanRecModel { name: r.name@, acts: r.actions@ }),
        None => None,
    })
}

/// The span-tracking recorder (registry + call stack).
pub struct CounterSubscriber {
    spans: Vec<Option<ReadSpan>>,
    entered: Vec<bool>,
    stack: Vec<SpanId>,
    root_span: Option<SpanId>,
    /// Ghost: the position of each span in enter order, used to show that
    /// child links always point from earlier-entered to later-entered spans.
    ranks: Ghost<Seq<nat>>,
    enter_count: Ghost<nat>,
}

impl View for CounterSubscriber {
    type V = SessModel;

    closed spec fn view(&self) -> SessModel {
        SessModel {
            recs: lift_reg(self.spans@),
            entered: self.entered@,
            stack: self.stack@,
            root: self.root_span,
        }
    }
}

/// How many times `Span(c)` occurs in one event log.
pub open spec fn cnt_in(acts: Seq<Action>, c: SpanId) -> nat
    decreases acts.len(),
{
    if acts.len() == 0 {
        0
    } else {
        (if acts[0] == Action::Span(c) { 1nat } else { 0nat }) + cnt_in(acts.skip(1), c)
    }
}

/// How many live records of the registry reference span `c` as a child.
pub open spec fn refsum(recs: Seq<Option<SpanRecModel>>, c: SpanId) -> nat
    decreases recs.len(),
{
    if recs.len() == 0 {
        0
    } else {
        (match recs[0] {
            Some(r) => cnt_in(r.acts, c),
            None => 0nat,
        }) + refsum(recs.skip(1), c)
    }
}

impl SessModel {
    /// Every record is still present (nothing consumed yet).
    pub open spec fn all_live(self) -> bool {
        forall|i: int| 0 <= i < self.recs.len() ==> self.recs[i] is Some
    }

    /// The id on top of the call stack.
    pub open spec fn top(self) -> SpanId
        recommends self.stack.len() > 0,
    {
        self.stack.last()
    }

    /// Basic shape of a session model reachable through the recorder.
    pub open spec fn consistent(self) -> bool {
        &&& self.recs.len() == self.entered.len()
        &&& self.all_live()
        &&& forall|k: int| 0 <= k < self.stack.len()
            ==> 1 <= #[trigger] self.stack[k] <= self.recs.len()
                && self.entered[self.stack[k] - 1]
        &&& match self.root {
            Some(r) => 1 <= r <= self.recs.len() && self.entered[r - 1]
                && refsum(self.recs, r) == 0,
            None => true,
        }
        &&& self.stack.len() > 0 ==> self.root is Some
    }

    /// Span `c` exists and has been entered.
    pub open spec fn entered_of(self, c: SpanId) -> bool {
        1 <= c <= self.entered.len() && self.entered[c - 1]
    }

    /// The registry with action `a` appended to the log of the record in slot `idx`.
    pub open spec fn with_pushed(self, idx: int, a: Action) -> SessModel {
        SessModel {
            recs: self.recs.update(
                idx,
                Some(SpanRecModel {
                    name: self.recs[idx]->0.name,
                    acts: self.recs[idx]->0.acts.push(a),
                }),
            ),
            ..self
        }
    }

    /// Reporting a read or seek: appended to the innermost active span.
    pub open spec fn sp_report(self, a: Action) -> Result<SessModel, TraceError> {
        if self.stack.len() == 0 {
            Err(TraceError::NoActiveSpan)
        } else {
            Ok(self.with_pushed(self.top() - 1, a))
        }
    }

    /// The id the next created span will get.
    pub open spec fn next_id(self) -> SpanId {
        (self.recs.len() + 1) as SpanId
    }

    /// Creating a scope: a fresh, empty, not-yet-entered record.
    pub open spec fn sp_new_span(self, name: Seq<char>) -> SessModel {
        SessModel {
            recs: self.recs.push(Some(SpanRecModel { name, acts: Seq::empty() })),
            entered: self.entered.push(false),
            ..self
        }
    }

    /// Entering a scope: linked as a child of the current top (or made root),
    /// then pushed onto the call stack.
    pub open spec fn sp_enter(self, s: SpanId) -> Result<SessModel, TraceError> {
        if !(1 <= s <= self.recs.len()) {
            Err(TraceError::UnknownSpan)
        } else if self.entered[s - 1] {
            Err(TraceError::AlreadyEntered)
        } else if self.stack.len() == 0 && self.root is Some {
            Err(TraceError::SecondRoot)
        } else {
            let linked = if self.stack.len() > 0 {
                self.with_pushed(self.top() - 1, Action::Span(s))
            } else {
                SessModel { root: Some(s), ..self }
            };
            Ok(SessModel {
                entered: linked.entered.update(s - 1, true),
                stack: linked.stack.push(s),
                ..linked
            })
        }
    }

    /// Exiting a scope: it must be the innermost active one.
    pub open spec fn sp_exit(self, s: SpanId) -> Result<SessModel, TraceError> {
        if self.stack.len() == 0 || self.stack.last() != s {
            Err(TraceError::ExitMismatch)
        } else {
            Ok(SessModel { stack: self.stack.drop_last(), ..self })
        }
    }

    /// The state of a session that has not recorded anything yet.
    pub open spec fn init() -> SessModel {
        SessModel {
            recs: Seq::empty(),
            entered: Seq::empty(),
            stack: Seq::empty(),
            root: None,
        }
    }
}

/// How many scopes have been entered.
pub open spec fn entered_count(ent: Seq<bool>) -> nat
    decreases ent.len(),
{
    if ent.len() == 0 {
        0
    } else {
        (if ent[0] { 1nat } else { 0nat }) + entered_count(ent.skip(1))
    }
}

proof fn lemma_refsum_witness(recs: Seq<Option<SpanRecModel>>, c: SpanId)
    requires
        refsum(recs, c) >= 1,
    ensures
        exists|i: int|
            0 <= i < recs.len() && recs[i] is Some && cnt_in(#[trigger] recs[i]->0.acts, c) >= 1,
    decreases recs.len(),
{
    if recs[0] is Some && cnt_in(recs[0]->0.acts, c) >= 1 {
    } else {
        lemma_refsum_witness(recs.skip(1), c);
        let j = choose|j: int|
            0 <= j < recs.skip(1).len() && recs.skip(1)[j] is Some && cnt_in(
                #[trigger] recs.skip(1)[j]->0.acts,
                c,
            ) >= 1;
        assert(recs[j + 1] is Some && cnt_in(recs[j + 1]->0.acts, c) >= 1);
    }
}

proof fn lemma_cnt_witness(acts: Seq<Action>, c: SpanId)
    requires
        cnt_in(acts, c) >= 1,
    ensures
        exists|j: int| 0 <= j < acts.len() && acts[j] == Action::Span(c),
    decreases acts.len(),
{
    if acts[0] == Action::Span(c) {
    } else {
        lemma_cnt_witness(acts.skip(1), c);
        let j = choose|j: int| 0 <= j < acts.skip(1).len() && acts.skip(1)[j] == Action::Span(c);
        assert(acts[j + 1] == Action::Span(c));
    }
}

proof fn lemma_live_full(recs: Seq<Option<SpanRecModel>>)
    requires
        forall|i: int| 0 <= i < recs.len() ==> recs[i] is Some,
    ensures
        live_count(recs) == recs.len(),
    decreases recs.len(),
{
    if recs.len() > 0 {
        lemma_live_full(recs.skip(1));
    }
}

proof fn lemma_leafsum_zero(recs: Seq<Option<SpanRecModel>>)
    requires
        forall|i: int|
            0 <= i < recs.len() && recs[i] is Some ==> leafcnt_acts(#[trigger] recs[i]->0.acts)
                == 0,
    ensures
        leafsum(recs) == 0,
    decreases recs.len(),
{
    if recs.len() > 0 {
        assert forall|i: int|
            0 <= i < recs.skip(1).len() && recs.skip(1)[i] is Some
                implies leafcnt_acts(#[trigger] recs.skip(1)[i]->0.acts) == 0 by {
            assert(recs[i + 1] is Some);
            assert(leafcnt_acts(recs[i + 1]->0.acts) == 0);
        }
        lemma_leafsum_zero(recs.skip(1));
    }
}

proof fn lemma_live_complement(recs: Seq<Option<SpanRecModel>>, ent: Seq<bool>)
    requires
        recs.len() == ent.len(),
        forall|x: int| 0 <= x < recs.len() ==> ((#[trigger] recs[x] is Some) <==> !ent[x]),
    ensures
        live_count(recs) + entered_count(ent) == recs.len(),
    decreases recs.len(),
{
    if recs.len() > 0 {
        assert forall|x: int|
            0 <= x < recs.skip(1).len()
                implies ((#[trigger] recs.skip(1)[x] is Some) <==> !ent.skip(1)[x]) by {
            assert((recs[x + 1] is Some) <==> !ent[x + 1]);
        }
        lemma_live_complement(recs.skip(1), ent.skip(1));
    }
}

/// Reports are never reordered: a read then a seek inside one scope extend
/// exactly that scope's log, by `[Read, Seek]` in report order, and touch
/// no other record.
pub proof fn lemma_report_order(m: SessModel, a: usize, b: usize)
    requires
        m.consistent(),
        m.stack.len() > 0,
    ensures
        ({
            let m1 = m.sp_report(Action::Read(a))->Ok_0;
            let m2 = m1.sp_report(Action::Seek(b))->Ok_0;
            &&& m.sp_report(Action::Read(a)) is Ok
            &&& m1.sp_report(Action::Seek(b)) is Ok
            &&& m2.recs[m.top() - 1]->0.acts == m.recs[m.top() - 1]->0.acts + seq![
                Action::Read(a),
                Action::Seek(b),
            ]
            &&& forall|i: int|
                0 <= i < m.recs.len() && i != m.top() - 1 ==> #[trigger] m2.recs[i] == m.recs[i]
        }),
{
    let acts0 = m.recs[m.top() - 1]->0.acts;
    assert(acts0.push(Action::Read(a)).push(Action::Seek(b)) =~= acts0 + seq![
        Action::Read(a),
        Action::Seek(b),
    ]);
}

/// A well-formed recorder has a consistent session model.
pub proof fn lemma_wf_consistent(s: CounterSubscriber)
    requires
        s.wf(),
    ensures
        s@.consistent(),
{
}

pub proof fn lemma_entcnt_push(ent: Seq<bool>, b: bool)
    ensures
        entered_count(ent.push(b)) == entered_count(ent) + (if b { 1nat } else { 0nat }),
    decreases ent.len(),
{
    if ent.len() == 0 {
        assert(ent.push(b).skip(1) =~= Seq::<bool>::empty());
        assert(entered_count(Seq::<bool>::empty()) == 0);
        assert(ent.push(b)[0] == b);
    } else {
        assert(ent.push(b).skip(1) =~= ent.skip(1).push(b));
        lemma_entcnt_push(ent.skip(1), b);
    }
}

pub proof fn lemma_entcnt_update(ent: Seq<bool>, i: int)
    requires
        0 <= i < ent.len(),
        !ent[i],
    ensures
        entered_count(ent.update(i, true)) == entered_count(ent) + 1,
    decreases ent.len(),
{
    if i == 0 {
        assert(ent.update(0, true).skip(1) =~= ent.skip(1));
    } else {
        assert(ent.update(i, true).skip(1) =~= ent.skip(1).update(i - 1, true));
        lemma_entcnt_update(ent.skip(1), i - 1);
    }
}

proof fn lemma_session_reg_wf(s: CounterSubscriber)
    requires
        s.wf(),
    ensures
        reg_wf(s@.recs),
{
    let m = s@;
    assert forall|i: int, j: int|
        0 <= i < m.recs.len() && m.recs[i] is Some && 0 <= j < m.recs[i]->0.acts.len()
            implies ref_live(m.recs, #[trigger] m.recs[i]->0.acts[j]) by {
        assert(s.link_ok(i, m.recs[i]->0.acts[j]));
        match m.recs[i]->0.acts[j] {
            Action::Span(c) => {
                assert(m.entered_of(c));
            },
            _ => {},
        }
    }
}

proof fn lemma_consumed_below(s: CounterSubscriber, k: nat)
    requires
        s.wf(),
        s@.root is Some,
    ensures
        ({
            let m = s@;
            let p = build(m.recs, m.root->0, live_count(m.recs) + 1)->0;
            forall|c: SpanId|
                m.entered_of(c) && s.ranks@[c - 1] < k ==> !(#[trigger] p.1[c - 1] is Some)
        }),
    decreases k,
{
    let m = s@;
    let root = m.root->0;
    let fuel = live_count(m.recs) + 1;
    lemma_session_reg_wf(s);
    lemma_build_total(m.recs, root, fuel);
    let p = build(m.recs, root, fuel)->0;
    if k > 0 {
        lemma_consumed_below(s, (k - 1) as nat);
        assert forall|c: SpanId| m.entered_of(c) && s.ranks@[c - 1] < k
            implies !(#[trigger] p.1[c - 1] is Some) by {
            if s.ranks@[c - 1] < k - 1 {
                assert(!(p.1[c - 1] is Some));
            } else if m.root == Some(c) {
                assert(!(p.1[c - 1] is Some));
            } else {
                // `c` hangs by its one reference, in the record of a scope
                // entered earlier, which the build has already consumed
                assert(refsum(m.recs, c) == 1);
                lemma_refsum_witness(m.recs, c);
                let i = choose|i: int|
                    0 <= i < m.recs.len() && m.recs[i] is Some && cnt_in(
                        #[trigger] m.recs[i]->0.acts,
                        c,
                    ) >= 1;
                lemma_cnt_witness(m.recs[i]->0.acts, c);
                let j = choose|j: int|
                    0 <= j < m.recs[i]->0.acts.len() && m.recs[i]->0.acts[j] == Action::Span(c);
                assert(s.link_ok(i, m.recs[i]->0.acts[j]));
                assert(s.ranks@[i] < s.ranks@[c - 1]);
                let ci = (i + 1) as SpanId;
                assert(ci - 1 == i);
                assert(m.entered_of(ci)) by {
                    if !m.entered_of(ci) {
                        assert(m.recs[ci - 1]->0.acts.len() == 0);
                    }
                }
                assert(s.ranks@[ci - 1] < k - 1);
                assert(!(p.1[ci - 1] is Some));
                assert(!(p.1[c - 1] is Some));
            }
        }
    }
}

/// Teardown accounting: the finished tree holds exactly the leaf events of
/// the whole registry — one for every reported read or seek — and exactly
/// one nesting point for every scope entered beyond the root.
pub proof fn lemma_tree_accounts(s: CounterSubscriber)
    requires
        s.wf(),
        s@.root is Some,
    ensures
        ({
            let m = s@;
            &&& build(m.recs, m.root->0, live_count(m.recs) + 1) matches Some(p)
                && leaf_count(p.0) == leafsum(m.recs)
                && nest_count(p.0) + 1 == entered_count(m.entered)
        }),
{
    let m = s@;
    let root = m.root->0;
    let fuel = live_count(m.recs) + 1;
    lemma_session_reg_wf(s);
    lemma_build_total(m.recs, root, fuel);
    lemma_build_counts(m.recs, root, fuel);
    let p = build(m.recs, root, fuel)->0;
    lemma_consumed_below(s, s.enter_count@);
    // the consumed records are exactly those of entered scopes
    assert forall|x: int|
        0 <= x < p.1.len() implies ((#[trigger] p.1[x] is Some) <==> !m.entered[x]) by {
        let cx = (x + 1) as SpanId;
        assert(cx - 1 == x);
        if m.entered[x] {
            assert(m.entered_of(cx));
            assert(s.ranks@[cx - 1] < s.enter_count@);
            assert(!(p.1[cx - 1] is Some));
        } else if !(p.1[x] is Some) {
            assert(m.recs[cx - 1] is Some && !(p.1[cx - 1] is Some));
            assert(cx == root || refsum(m.recs, cx) == 1);
            assert(m.entered_of(cx));
            assert(false);
        }
    }
    // whatever survives is a created, never-entered scope with an empty log
    assert forall|i: int| 0 <= i < p.1.len() && p.1[i] is Some
        implies leafcnt_acts(#[trigger] p.1[i]->0.acts) == 0 by {
        let ci = (i + 1) as SpanId;
        assert(ci - 1 == i);
        assert(p.1[i] == m.recs[i]);
        assert(!m.entered_of(ci));
        assert(m.recs[ci - 1]->0.acts.len() == 0);
    }
    lemma_leafsum_zero(p.1);
    lemma_live_full(m.recs);
    lemma_live_complement(p.1, m.entered);
}

proof fn lemma_cnt_push(acts: Seq<Action>, a: Action, c: SpanId)
    ensures
        cnt_in(acts.push(a), c) == cnt_in(acts, c) + (if a == Action::Span(c) { 1nat } else { 0nat }),
    decreases acts.len(),
{
    if acts.len() == 0 {
        assert(acts.push(a).skip(1) =~= Seq::<Action>::empty());
        assert(cnt_in(Seq::<Action>::empty(), c) == 0);
        assert(acts.push(a)[0] == a);
    } else {
        assert(acts.push(a).skip(1) =~= acts.skip(1).push(a));
        lemma_cnt_push(acts.skip(1), a, c);
    }
}

proof fn lemma_refsum_push(recs: Seq<Option<SpanRecModel>>, r: Option<SpanRecModel>, c: SpanId)
    ensures
        refsum(recs.push(r), c) == refsum(recs, c) + (match r {
            Some(rec) => cnt_in(rec.acts, c),
            None => 0nat,
        }),
    decreases recs.len(),
{
    if recs.len() == 0 {
        assert(recs.push(r).skip(1) =~= Seq::<Option<SpanRecModel>>::empty());
        assert(refsum(Seq::<Option<SpanRecModel>>::empty(), c) == 0);
        assert(recs.push(r)[0] == r);
    } else {
        assert(recs.push(r).skip(1) =~= recs.skip(1).push(r));
        lemma_refsum_push(recs.skip(1), r, c);
    }
}

pub proof fn lemma_refsum_update(
    recs: Seq<Option<SpanRecModel>>,
    i: int,
    r: Option<SpanRecModel>,
    c: SpanId,
)
    requires
        0 <= i < recs.len(),
    ensures
        refsum(recs.update(i, r), c) + (match recs[i] {
            Some(rec) => cnt_in(rec.acts, c),
            None => 0nat,
        }) == refsum(recs, c) + (match r {
            Some(rec) => cnt_in(rec.acts, c),
            None => 0nat,
        }),
    decreases recs.len(),
{
    if i == 0 {
        assert(recs.update(0, r).skip(1) =~= recs.skip(1));
    } else {
        assert(recs.update(i, r).skip(1) =~= recs.skip(1).update(i - 1, r));
        lemma_refsum_update(recs.skip(1), i - 1, r, c);
    }
}

impl CounterSubscriber {
    /// Is action `a`, found in slot `i`, a well-formed child link?
    spec fn link_ok(self, i: int, a: Action) -> bool {
        match a {
            Action::Span(c) => self@.entered_of(c) && self.ranks@[i] < self.ranks@[c - 1],
            _ => true,
        }
    }

    /// Internal well-formedness of the recorder.
    pub closed spec fn wf(self) -> bool {
        let m = self@;
        &&& m.consistent()
        &&& self.spans@.len() <= usize::MAX
        &&& self.ranks@.len() == self.spans@.len()
        &&& forall|c: SpanId| #[trigger] refsum(m.recs, c) <= 1
        &&& forall|c: SpanId|
            !m.entered_of(c) ==> #[trigger] refsum(m.recs, c) == 0
        &&& forall|c: SpanId| #[trigger] m.entered_of(c)
            ==> self.ranks@[c - 1] < self.enter_count@
                && (m.root == Some(c) || refsum(m.recs, c) == 1)
        &&& forall|c: SpanId| 1 <= c <= m.recs.len() && !(#[trigger] m.entered_of(c))
            ==> m.recs[c - 1]->0.acts.len() == 0
        &&& forall|i: int, j: int|
            0 <= i < m.recs.len() && m.recs[i] is Some && 0 <= j < m.recs[i]->0.acts.len()
                ==> self.link_ok(i, #[trigger] m.recs[i]->0.acts[j])
    }

    /// A fresh session with no scopes and no events.
    pub fn new() -> (s: CounterSubscriber)
        ensures
            s.wf(),
            s@ == SessModel::init(),
    {
        let s = CounterSubscriber {
            spans: Vec::new(),
            entered: Vec::new(),
            stack: Vec::new(),
            root_span: None,
            ranks: Ghost(Seq::empty()),
            enter_count: Ghost(0),
        };
        proof {
            assert(s@ =~= SessModel::init());
            assert forall|c: SpanId| #[trigger] refsum(s@.recs, c) == 0 by {
                assert(s@.recs =~= Seq::<Option<SpanRecModel>>::empty());
            }
        }
        s
    }

    /// Allocate the next span id and create its empty record.
    /// Creation alone neither pushes the call stack nor links a parent.
    pub fn new_span(&mut self, name: String) -> (id: SpanId)
        requires
            old(self).wf(),
            old(self)@.recs.len() < usize::MAX,
        ensures
            final(self).wf(),
            final(self)@ == old(self)@.sp_new_span(name@),
            id == old(self)@.next_id(),
    {
        let ghost m0 = self@;
        self.spans.push(Some(ReadSpan::new(name)));
        self.entered.push(false);
        proof {
            self.ranks@ = self.ranks@.push(0);
        }
        let id = self.spans.len();
        proof {
            let m1 = m0.sp_new_span(name@);
            assert(self@ =~~= m1);
            assert forall|c: SpanId| #[trigger] refsum(m1.recs, c) == refsum(m0.recs, c) by {
                lemma_refsum_push(m0.recs, Some(SpanRecModel { name: name@, acts: Seq::empty() }), c);
                assert(cnt_in(Seq::<Action>::empty(), c) == 0);
            }
            assert forall|c: SpanId| #[trigger] m1.entered_of(c)
                implies self.ranks@[c - 1] < self.enter_count@
                    && (m1.root == Some(c) || refsum(m1.recs, c) == 1) by {
                assert(m0.entered_of(c));
                assert(self.ranks@[c - 1] == old(self).ranks@[c - 1]);
            }
            assert forall|c: SpanId| 1 <= c <= m1.recs.len() && !(#[trigger] m1.entered_of(c))
                implies m1.recs[c - 1]->0.acts.len() == 0 by {
                if c <= m0.recs.len() {
                    assert(!m0.entered_of(c));
                }
            }
            assert forall|c: SpanId| !(#[trigger] m1.entered_of(c))
                implies refsum(m1.recs, c) == 0 by {
                if c <= m0.recs.len() {
                    assert(!m0.entered_of(c));
                } else {
                    assert(!m0.entered_of(c));
                }
            }
            assert forall|i: int, j: int|
                0 <= i < m1.recs.len() && m1.recs[i] is Some && 0 <= j < m1.recs[i]->0.acts.len()
                    implies self.link_ok(i, #[trigger] m1.recs[i]->0.acts[j]) by {
                if i < m0.recs.len() {
                    assert(m1.recs[i] == m0.recs[i]);
                    assert(old(self).link_ok(i, m0.recs[i]->0.acts[j]));
                    match m0.recs[i]->0.acts[j] {
                        Action::Span(c) => {
                            assert(m0.entered_of(c));
                            assert(m1.entered_of(c));
                        },
                        _ => {},
                    }
                }
            }
        }
        id
    }

    /// Append one action to the record of the innermost active span.
    fn push_current(&mut self, a: Action) -> (r: Result<(), TraceError>)
        requires
            old(self).wf(),
            !(a matches Action::Span(_)),
        ensures
            final(self).wf(),
            final(self)@.recs.len() == old(self)@.recs.len(),
            match old(self)@.sp_report(a) {
                Ok(m) => r is Ok && final(self)@ == m,
                Err(e) => r == Err::<(), TraceError>(e) && *final(self) == *old(self),
            },
    {
        let ghost m0 = self@;
        if self.stack.len() == 0 {
            return Err(TraceError::NoActiveSpan);
        }
        let p = self.stack[self.stack.len() - 1];
        let ghost idx = p - 1;
        match &mut self.spans[p - 1] {
            Some(rec) => {
                rec.actions.push(a);
            },
            None => {
                proof {
                    assert(false);
                }
                return Err(TraceError::MissingChild);
            },
        }
        proof {
            let m1 = m0.sp_report(a)->Ok_0;
            assert(self@ =~~= m1);
            assert forall|c: SpanId| #[trigger] refsum(m1.recs, c) == refsum(m0.recs, c) by {
                lemma_refsum_update(m0.recs, idx, m1.recs[idx], c);
                lemma_cnt_push(m0.recs[idx]->0.acts, a, c);
            }
            assert forall|c: SpanId| #[trigger] m1.entered_of(c)
                implies self.ranks@[c - 1] < self.enter_count@
                    && (m1.root == Some(c) || refsum(m1.recs, c) == 1) by {
                assert(m0.entered_of(c));
            }
            assert forall|c: SpanId| !(#[trigger] m1.entered_of(c))
                implies refsum(m1.recs, c) == 0 by {
                assert(!m0.entered_of(c));
            }
            assert forall|c: SpanId| 1 <= c <= m1.recs.len() && !(#[trigger] m1.entered_of(c))
                implies m1.recs[c - 1]->0.acts.len() == 0 by {
                assert(!m0.entered_of(c));
                assert(m0.entered_of(m0.top()));
                assert(m1.recs[c - 1] == m0.recs[c - 1]);
            }
            assert forall|i: int, j: int|
                0 <= i < m1.recs.len() && m1.recs[i] is Some && 0 <= j < m1.recs[i]->0.acts.len()
                    implies self.link_ok(i, #[trigger] m1.recs[i]->0.acts[j]) by {
                if i != idx || j < m0.recs[idx]->0.acts.len() {
                    assert(m1.recs[i]->0.acts[j] == m0.recs[i]->0.acts[j]);
                    assert(old(self).link_ok(i, m0.recs[i]->0.acts[j]));
                    match m0.recs[i]->0.acts[j] {
                        Action::Span(c) => {
                            assert(m0.entered_of(c));
                            assert(m1.entered_of(c));
                        },
                        _ => {},
                    }
                }
            }
        }
        Ok(())
    }

    /// Record that `size` bytes were just read while the innermost scope was active.
    pub fn read_action(&mut self, size: usize) -> (r: Result<(), TraceError>)
        requires
            old(self).wf(),
        ensures
            final(self).wf(),
            final(self)@.recs.len() == old(self)@.recs.len(),
            match old(self)@.sp_report(Action::Read(size)) {
                Ok(m) => r is Ok && final(self)@ == m,
                Err(e) => r == Err::<(), TraceError>(e) && *final(self) == *old(self),
            },
    {
        self.push_current(Action::Read(size))
    }

    /// Record that the stream just moved to absolute offset `to`.
    pub fn seek_action(&mut self, to: usize) -> (r: Result<(), TraceError>)
        requires
            old(self).wf(),
        ensures
            final(self).wf(),
            final(self)@.recs.len() == old(self)@.recs.len(),
            match old(self)@.sp_report(Action::Seek(to)) {
                Ok(m) => r is Ok && final(self)@ == m,
                Err(e) => r == Err::<(), TraceError>(e) && *final(self) == *old(self),
            },
    {
        self.push_current(Action::Seek(to))
    }

    /// How many spans have been created in this session.
    pub fn span_count(&self) -> (r: usize)
        ensures
            r == self@.recs.len(),
    {
        self.spans.len()
    }

    /// The innermost active span, if any scope is active at all.
    pub fn current_span(&self) -> (r: Option<SpanId>)
        ensures
            r == (if self@.stack.len() == 0 {
                None::<SpanId>
            } else {
                Some(self@.top())
            }),
    {
        if self.stack.len() == 0 {
            None
        } else {
            Some(self.stack[self.stack.len() - 1])
        }
    }

    /// Activate a created scope: link it under the current top (or make it
    /// the session root) and push it onto the call stack.
    pub fn enter(&mut self, s: SpanId) -> (r: Result<(), TraceError>)
        requires
            old(self).wf(),
        ensures
            final(self).wf(),
            final(self)@.recs.len() == old(self)@.recs.len(),
            match old(self)@.sp_enter(s) {
                Ok(m) => r is Ok && final(self)@ == m,
                Err(e) => r == Err::<(), TraceError>(e) && *final(self) == *old(self),
            },
    {
        let ghost m0 = self@;
        if s == 0 || s > self.spans.len() {
            return Err(TraceError::UnknownSpan);
        }
        if self.entered[s - 1] {
            return Err(TraceError::AlreadyEntered);
        }
        let ghost mlink: SessModel;
        if self.stack.len() == 0 {
            if self.root_span.is_some() {
                return Err(TraceError::SecondRoot);
            }
            self.root_span = Some(s);
            proof {
                mlink = SessModel { root: Some(s), ..m0 };
                assert(self@ =~~= mlink);
                assert(refsum(mlink.recs, s) == 0);
            }
        } else {
            let p = self.stack[self.stack.len() - 1];
            let ghost idx = p - 1;
            match &mut self.spans[p - 1] {
                Some(rec) => {
                    rec.actions.push(Action::Span(s));
                },
                None => {
                    proof {
                        assert(false);
                    }
                    return Err(TraceError::MissingChild);
                },
            }
            proof {
                mlink = m0.with_pushed(idx, Action::Span(s));
                assert(self@ =~~= mlink);
                assert forall|c: SpanId| #[trigger] refsum(mlink.recs, c)
                    == refsum(m0.recs, c) + (if c == s { 1nat } else { 0nat }) by {
                    lemma_refsum_update(m0.recs, idx, mlink.recs[idx], c);
                    lemma_cnt_push(m0.recs[idx]->0.acts, Action::Span(s), c);
                }
            }
        }
        self.entered[s - 1] = true;
        self.stack.push(s);
        proof {
            self.ranks@ = self.ranks@.update(s - 1, self.enter_count@);
            self.enter_count@ = self.enter_count@ + 1;
        }
        proof {
            let m1 = m0.sp_enter(s)->Ok_0;
            assert(self@ =~~= m1);
            assert(m1.recs == mlink.recs);
            assert forall|c: SpanId| #[trigger] refsum(m1.recs, c)
                == refsum(m0.recs, c) + (if m0.stack.len() > 0 && c == s { 1nat } else { 0nat }) by {
                if m0.stack.len() > 0 {
                    assert(refsum(mlink.recs, c)
                        == refsum(m0.recs, c) + (if c == s { 1nat } else { 0nat }));
                } else {
                    assert(mlink.recs == m0.recs);
                }
            }
            assert forall|c: SpanId| #[trigger] m1.entered_of(c)
                implies self.ranks@[c - 1] < self.enter_count@
                    && (m1.root == Some(c) || refsum(m1.recs, c) == 1) by {
                if c == s {
                    assert(self.ranks@[s - 1] == old(self).enter_count@);
                    if m0.stack.len() == 0 {
                        assert(m1.root == Some(s));
                    } else {
                        assert(!m0.entered_of(s));
                        assert(refsum(m0.recs, s) == 0);
                        assert(refsum(m1.recs, s) == 1);
                    }
                } else {
                    assert(m0.entered_of(c));
                    assert(self.ranks@[c - 1] == old(self).ranks@[c - 1]);
                }
            }
            assert forall|c: SpanId| !(#[trigger] m1.entered_of(c))
                implies refsum(m1.recs, c) == 0 by {
                assert(!m0.entered_of(c));
                assert(c != s);
            }
            assert forall|c: SpanId| 1 <= c <= m1.recs.len() && !(#[trigger] m1.entered_of(c))
                implies m1.recs[c - 1]->0.acts.len() == 0 by {
                assert(!m0.entered_of(c));
                assert(c != s);
                if m0.stack.len() > 0 {
                    assert(m0.entered_of(m0.top()));
                    assert(m1.recs[c - 1] == m0.recs[c - 1]);
                }
            }
            assert(m1.consistent()) by {
                if m0.stack.len() == 0 {
                    assert(refsum(m1.recs, s) == refsum(m0.recs, s));
                    assert(!m0.entered_of(s));
                } else {
                    let r = m0.root->0;
                    assert(m0.entered_of(r));
                    assert(r != s);
                    assert(refsum(m1.recs, r) == refsum(m0.recs, r));
                }
            }
            assert forall|i: int, j: int|
                0 <= i < m1.recs.len() && m1.recs[i] is Some && 0 <= j < m1.recs[i]->0.acts.len()
                    implies self.link_ok(i, #[trigger] m1.recs[i]->0.acts[j]) by {
                let a = m1.recs[i]->0.acts[j];
                assert(!m0.entered_of(s));
                if m0.stack.len() > 0 && i == m0.top() - 1
                    && j == m0.recs[i]->0.acts.len() {
                    // the one new link: from the old top to `s`
                    assert(m0.entered_of(m0.top()));
                    assert(a == Action::Span(s));
                    assert(self.ranks@[i] == old(self).ranks@[i]);
                    assert(self.ranks@[s - 1] == old(self).enter_count@);
                } else if i == s - 1 {
                    // an un-entered span has an empty log, so there is no such action
                    assert(m1.recs[i] == m0.recs[i]);
                    assert(m0.recs[i]->0.acts.len() == 0);
                } else {
                    assert(a == m0.recs[i]->0.acts[j]);
                    assert(old(self).link_ok(i, a));
                    match a {
                        Action::Span(c) => {
                            assert(m0.entered_of(c));
                            assert(c != s);
                            assert(self.ranks@[i] == old(self).ranks@[i]);
                            assert(self.ranks@[c - 1] == old(self).ranks@[c - 1]);
                        },
                        _ => {},
                    }
                }
            }
        }
        Ok(())
    }

    /// Tear down the session: consume the registry and return the span tree
    /// rooted at the first scope that was entered.  Fails exactly when no
    /// scope was ever entered; on a recorder used only through this
    /// interface the rewrite itself can never fail.
    pub fn finalize(self) -> (r: Result<TreeSpan, TraceError>)
        requires
            self.wf(),
        ensures
            match self@.root {
                None => r == Err::<TreeSpan, TraceError>(TraceError::NoRoot),
                Some(root) => {
                    &&& build(self@.recs, root, live_count(self@.recs) + 1) matches Some(p)
                        && r matches Ok(t) && tree_view(t) == p.0
                },
            },
    {
        let root = match self.root_span {
            Some(root) => root,
            None => {
                return Err(TraceError::NoRoot);
            },
        };
        proof {
            let m = self@;
            assert(reg_wf(m.recs)) by {
                assert forall|i: int, j: int|
                    0 <= i < m.recs.len() && m.recs[i] is Some && 0 <= j < m.recs[i]->0.acts.len()
                        implies ref_live(m.recs, #[trigger] m.recs[i]->0.acts[j]) by {
                    assert(self.link_ok(i, m.recs[i]->0.acts[j]));
                    match m.recs[i]->0.acts[j] {
                        Action::Span(c) => {
                            assert(m.entered_of(c));
                        },
                        _ => {},
                    }
                }
            }
            lemma_build_total(m.recs, root, live_count(m.recs) + 1);
        }
        let mut holder = self;
        match TreeSpan::into_tree(root, &mut holder.spans) {
            Ok(t) => Ok(t),
            Err(e) => {
                proof {
                    assert(false);
                }
                Err(e)
            },
        }
    }

    /// Deactivate the innermost scope; it must be exactly `s`.
    pub fn exit(&mut self, s: SpanId) -> (r: Result<(), TraceError>)
        requires
            old(self).wf(),
        ensures
            final(self).wf(),
            match old(self)@.sp_exit(s) {
                Ok(m) => r is Ok && final(self)@ == m,
                Err(e) => r == Err::<(), TraceError>(e) && *final(self) == *old(self),
            },
    {
        if self.stack.len() == 0 {
            return Err(TraceError::ExitMismatch);
        }
        let top = self.stack[self.stack.len() - 1];
        if top != s {
            return Err(TraceError::ExitMismatch);
        }
        let ghost m0 = self@;
        self.stack.pop();
        proof {
            assert(self.stack@ =~= m0.stack.drop_last());
            let m1 = m0.sp_exit(s)->Ok_0;
            assert(self@ =~~= m1);
            assert(m1.recs == m0.recs);
            assert forall|c: SpanId| #[trigger] m1.entered_of(c)
                implies self.ranks@[c - 1] < self.enter_count@
                    && (m1.root == Some(c) || refsum(m1.recs, c) == 1) by {
                assert(m0.entered_of(c));
            }
            assert forall|c: SpanId| !(#[trigger] m1.entered_of(c))
                implies refsum(m1.recs, c) == 0 by {
                assert(!m0.entered_of(c));
            }
            assert forall|c: SpanId| 1 <= c <= m1.recs.len() && !(#[trigger] m1.entered_of(c))
                implies m1.recs[c - 1]->0.acts.len() == 0 by {
                assert(!m0.entered_of(c));
            }
            assert forall|i: int, j: int|
                0 <= i < m1.recs.len() && m1.recs[i] is Some && 0 <= j < m1.recs[i]->0.acts.len()
                    implies self.link_ok(i, #[trigger] m1.recs[i]->0.acts[j]) by {
                assert(old(self).link_ok(i, m0.recs[i]->0.acts[j]));
                match m0.recs[i]->0.acts[j] {
                    Action::Span(c) => {
                        assert(m0.entered_of(c));
                        assert(m1.entered_of(c));
                    },
                    _ => {},
                }
            }
        }
        Ok(())
    }
}

} // verus!
