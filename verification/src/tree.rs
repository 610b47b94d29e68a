//! The tree builder: rewrites the flat span registry into one nested tree.
//!
//! Building is destructive: the record of each span is taken out of the
//! registry exactly once, and every `Span(id)` event is replaced by the tree
//! built for `id`.  The specification `build` describes the whole rewrite;
//! `lemma_build_total` shows that on a registry shaped by the recorder it
//! never fails.

use vstd::prelude::*;

use crate::session::cnt_in;
use crate::session::lemma_refsum_update;
use crate::session::lift_reg;
use crate::session::refsum;
use crate::session::Action;
use crate::session::ReadSpan;
use crate::session::SpanId;
use crate::session::SpanRecModel;
use crate::session::TraceError;

verus! {

broadcast use
    vstd::std_specs::vec::axiom_vec_decreases_to_view,
    vstd::seq::axiom_seq_index_decreases;

/// One entry of a finished tree: a leaf event or an inlined child tree.
#[derive(Debug, PartialEq)]
pub enum TreeAction {
    Read(usize),
    Seek(usize),
    Span(TreeSpan),
}

/// A span with every child id replaced by the child's own tree.
#[derive(Debug, PartialEq)]
pub struct TreeSpan {
    pub name: String,
    pub actions: Vec<TreeAction>,
}

/// Mathematical model of a tree entry.
#[verifier::ext_equal]
pub ghost enum ActModel {
    Read(usize),
    Seek(usize),
    Span(TreeModel),
}

/// Mathematical model of a finished tree.
#[verifier::ext_equal]
pub ghost struct TreeModel {
    pub name: Seq<char>,
    pub acts: Seq<ActModel>,
}

/// Model of the tree entries `s[i..]`.
pub open spec fn acts_view(s: Seq<TreeAction>, i: int) -> Seq<ActModel>
    decreases s, s.len() - i,
{
    if i < 0 || i >= s.len() {
        Seq::empty()
    } else {
        seq![act_view(s[i])] + acts_view(s, i + 1)
    }
}

/// Model of one tree entry.
pub open spec fn act_view(a: TreeAction) -> ActModel
    decreases a, 0int,
{
    match a {
        TreeAction::Read(n) => ActModel::Read(n),
        TreeAction::Seek(n) => ActModel::Seek(n),
        TreeAction::Span(t) => ActModel::Span(tree_view(t)),
    }
}

/// Model of a finished tree.
pub open spec fn tree_view(t: TreeSpan) -> TreeModel
    decreases t, 0int,
{
    TreeModel { name: t.name@, acts: acts_view(t.actions@, 0) }
}

pub proof fn lemma_acts_view_push(s: Seq<TreeAction>, a: TreeAction, i: int)
    requires
        0 <= i <= s.len(),
    ensures
        acts_view(s.push(a), i) == acts_view(s, i) + seq![act_view(a)],
    decreases s.len() - i,
{
    if i == s.len() {
        assert(acts_view(s.push(a), i + 1) =~= Seq::<ActModel>::empty());
        assert(acts_view(s, i) =~= Seq::<ActModel>::empty());
        assert(s.push(a)[i] == a);
        assert(acts_view(s.push(a), i) =~= acts_view(s, i) + seq![act_view(a)]);
    } else {
        lemma_acts_view_push(s, a, i + 1);
        assert(s.push(a)[i] == s[i]);
        assert(acts_view(s.push(a), i) =~= acts_view(s, i) + seq![act_view(a)]);
    }
}

pub proof fn lemma_acts_view_props(s: Seq<TreeAction>, i: int)
    requires
        0 <= i <= s.len(),
    ensures
        acts_view(s, i).len() == s.len() - i,
        forall|j: int| i <= j < s.len() ==> acts_view(s, i)[j - i] == act_view(#[trigger] s[j]),
    decreases s.len() - i,
{
    if i < s.len() {
        lemma_acts_view_props(s, i + 1);
    }
}

/// How many registry records are still present.
pub open spec fn live_count(reg: Seq<Option<SpanRecModel>>) -> nat
    decreases reg.len(),
{
    if reg.len() == 0 {
        0
    } else {
        (if reg[0] is Some { 1nat } else { 0nat }) + live_count(reg.skip(1))
    }
}

/// `b` is `a` with some records consumed, the rest untouched.
pub open spec fn consumed_from(b: Seq<Option<SpanRecModel>>, a: Seq<Option<SpanRecModel>>) -> bool {
    &&& b.len() == a.len()
    &&& forall|k: int| 0 <= k < b.len() && #[trigger] b[k] is Some ==> b[k] == a[k]
}

/// Build the tree for span `id`, consuming its record and, recursively, the
/// records of every child reachable from it.  `fuel` bounds the nesting depth;
/// any fuel above the number of live records gives the same answer.
pub open spec fn build(
    reg: Seq<Option<SpanRecModel>>,
    id: SpanId,
    fuel: nat,
) -> Option<(TreeModel, Seq<Option<SpanRecModel>>)>
    decreases fuel, 0int,
{
    if fuel == 0 {
        None
    } else if !(1 <= id <= reg.len()) || reg[id - 1] is None {
        None
    } else {
        let rec = reg[id - 1]->0;
        let reg1 = reg.update(id - 1, None);
        match build_acts(rec.acts, reg1, (fuel - 1) as nat) {
            None => None,
            Some(p) => Some((TreeModel { name: rec.name, acts: p.0 }, p.1)),
        }
    }
}

/// Rewrite one event log: leaf events stay, child links become child trees.
pub open spec fn build_acts(
    acts: Seq<Action>,
    reg: Seq<Option<SpanRecModel>>,
    fuel: nat,
) -> Option<(Seq<ActModel>, Seq<Option<SpanRecModel>>)>
    decreases fuel, acts.len() + 1,
{
    if acts.len() == 0 {
        Some((Seq::empty(), reg))
    } else {
        match acts[0] {
            Action::Read(n) => match build_acts(acts.skip(1), reg, fuel) {
                None => None,
                Some(p) => Some((seq![ActModel::Read(n)] + p.0, p.1)),
            },
            Action::Seek(n) => match build_acts(acts.skip(1), reg, fuel) {
                None => None,
                Some(p) => Some((seq![ActModel::Seek(n)] + p.0, p.1)),
            },
            Action::Span(c) => match build(reg, c, fuel) {
                None => None,
                Some(q) => match build_acts(acts.skip(1), q.1, fuel) {
                    None => None,
                    Some(p) => Some((seq![ActModel::Span(q.0)] + p.0, p.1)),
                },
            },
        }
    }
}

proof fn lemma_live_update_none(reg: Seq<Option<SpanRecModel>>, i: int)
    requires
        0 <= i < reg.len(),
        reg[i] is Some,
    ensures
        live_count(reg.update(i, None)) + 1 == live_count(reg),
    decreases reg.len(),
{
    if i == 0 {
        assert(reg.update(0, None::<SpanRecModel>).skip(1) =~= reg.skip(1));
    } else {
        assert(reg.update(i, None::<SpanRecModel>).skip(1) =~= reg.skip(1).update(i - 1, None));
        lemma_live_update_none(reg.skip(1), i - 1);
    }
}

proof fn lemma_live_consumed(a: Seq<Option<SpanRecModel>>, b: Seq<Option<SpanRecModel>>)
    requires
        consumed_from(b, a),
    ensures
        live_count(b) <= live_count(a),
    decreases a.len(),
{
    if a.len() > 0 {
        assert forall|k: int| 0 <= k < b.skip(1).len() && #[trigger] b.skip(1)[k] is Some
            implies b.skip(1)[k] == a.skip(1)[k] by {
            assert(b[k + 1] is Some);
        }
        lemma_live_consumed(a.skip(1), b.skip(1));
    }
}

proof fn lemma_refsum_consumed(
    a: Seq<Option<SpanRecModel>>,
    b: Seq<Option<SpanRecModel>>,
    c: SpanId,
)
    requires
        consumed_from(b, a),
    ensures
        refsum(b, c) <= refsum(a, c),
    decreases a.len(),
{
    if a.len() > 0 {
        assert forall|k: int| 0 <= k < b.skip(1).len() && #[trigger] b.skip(1)[k] is Some
            implies b.skip(1)[k] == a.skip(1)[k] by {
            assert(b[k + 1] is Some);
        }
        lemma_refsum_consumed(a.skip(1), b.skip(1), c);
    }
}

proof fn lemma_cnt_at(acts: Seq<Action>, j: int, c: SpanId)
    requires
        0 <= j < acts.len(),
        acts[j] == Action::Span(c),
    ensures
        cnt_in(acts, c) >= 1,
    decreases acts.len(),
{
    if j > 0 {
        lemma_cnt_at(acts.skip(1), j - 1, c);
    }
}

proof fn lemma_refsum_lower(reg: Seq<Option<SpanRecModel>>, i: int, c: SpanId)
    requires
        0 <= i < reg.len(),
        reg[i] is Some,
    ensures
        refsum(reg, c) >= cnt_in(reg[i]->0.acts, c),
    decreases reg.len(),
{
    if i > 0 {
        lemma_refsum_lower(reg.skip(1), i - 1, c);
    }
}

/// Building only consumes records: whatever survives is unchanged.
pub proof fn lemma_build_frame(reg: Seq<Option<SpanRecModel>>, id: SpanId, fuel: nat)
    ensures
        build(reg, id, fuel) matches Some(p) ==> {
            &&& consumed_from(p.1, reg)
            &&& live_count(p.1) < live_count(reg)
        },
    decreases fuel, 0int,
{
    if fuel == 0 || !(1 <= id <= reg.len()) || reg[id - 1] is None {
    } else {
        let rec = reg[id - 1]->0;
        let reg1 = reg.update(id - 1, None);
        lemma_live_update_none(reg, id - 1);
        lemma_build_acts_frame(rec.acts, reg1, (fuel - 1) as nat);
        match build_acts(rec.acts, reg1, (fuel - 1) as nat) {
            None => {},
            Some(p) => {
                assert(consumed_from(reg1, reg));
                assert forall|k: int| 0 <= k < p.1.len() && #[trigger] p.1[k] is Some
                    implies p.1[k] == reg[k] by {
                    assert(reg1[k] is Some);
                }
                lemma_live_consumed(reg1, p.1);
            },
        }
    }
}

proof fn lemma_build_acts_frame(acts: Seq<Action>, reg: Seq<Option<SpanRecModel>>, fuel: nat)
    ensures
        build_acts(acts, reg, fuel) matches Some(p) ==> {
            &&& consumed_from(p.1, reg)
            &&& live_count(p.1) <= live_count(reg)
        },
    decreases fuel, acts.len() + 1,
{
    if acts.len() == 0 {
    } else {
        match acts[0] {
            Action::Read(_) => {
                lemma_build_acts_frame(acts.skip(1), reg, fuel);
            },
            Action::Seek(_) => {
                lemma_build_acts_frame(acts.skip(1), reg, fuel);
            },
            Action::Span(c) => {
                lemma_build_frame(reg, c, fuel);
                match build(reg, c, fuel) {
                    None => {},
                    Some(q) => {
                        lemma_build_acts_frame(acts.skip(1), q.1, fuel);
                        match build_acts(acts.skip(1), q.1, fuel) {
                            None => {},
                            Some(p) => {
                                assert forall|k: int| 0 <= k < p.1.len()
                                    && #[trigger] p.1[k] is Some
                                    implies p.1[k] == reg[k] by {
                                    assert(q.1[k] is Some);
                                }
                            },
                        }
                    },
                }
            },
        }
    }
}

/// Any fuel beyond the number of live records gives the same result.
pub proof fn lemma_build_fuel(reg: Seq<Option<SpanRecModel>>, id: SpanId, f1: nat, f2: nat)
    requires
        f1 > live_count(reg),
        f2 > live_count(reg),
    ensures
        build(reg, id, f1) == build(reg, id, f2),
    decreases f1 + f2, 0int,
{
    if !(1 <= id <= reg.len()) || reg[id - 1] is None {
    } else {
        let rec = reg[id - 1]->0;
        let reg1 = reg.update(id - 1, None);
        lemma_live_update_none(reg, id - 1);
        lemma_build_acts_fuel(rec.acts, reg1, (f1 - 1) as nat, (f2 - 1) as nat);
    }
}

proof fn lemma_build_acts_fuel(acts: Seq<Action>, reg: Seq<Option<SpanRecModel>>, f1: nat, f2: nat)
    requires
        f1 > live_count(reg),
        f2 > live_count(reg),
    ensures
        build_acts(acts, reg, f1) == build_acts(acts, reg, f2),
    decreases f1 + f2, acts.len() + 1,
{
    if acts.len() == 0 {
    } else {
        match acts[0] {
            Action::Read(_) => {
                lemma_build_acts_fuel(acts.skip(1), reg, f1, f2);
            },
            Action::Seek(_) => {
                lemma_build_acts_fuel(acts.skip(1), reg, f1, f2);
            },
            Action::Span(c) => {
                lemma_build_fuel(reg, c, f1, f2);
                match build(reg, c, f1) {
                    None => {},
                    Some(q) => {
                        lemma_build_frame(reg, c, f1);
                        lemma_build_acts_fuel(acts.skip(1), q.1, f1, f2);
                    },
                }
            },
        }
    }
}

/// Every child reference of a live record points at a live record, and no
/// span is referenced twice.  This is what the recorder guarantees of its
/// registry, stated without the recorder itself.
pub open spec fn reg_wf(reg: Seq<Option<SpanRecModel>>) -> bool {
    &&& forall|c: SpanId| #[trigger] refsum(reg, c) <= 1
    &&& forall|i: int, j: int|
        0 <= i < reg.len() && reg[i] is Some && 0 <= j < reg[i]->0.acts.len()
            ==> ref_live(reg, #[trigger] reg[i]->0.acts[j])
}

/// If `a` is a child link, its target is a live record.
pub open spec fn ref_live(reg: Seq<Option<SpanRecModel>>, a: Action) -> bool {
    match a {
        Action::Span(c) => 1 <= c <= reg.len() && reg[c - 1] is Some,
        _ => true,
    }
}

/// How many leaf events (reads and seeks) one event log holds.
pub open spec fn leafcnt_acts(acts: Seq<Action>) -> nat
    decreases acts.len(),
{
    if acts.len() == 0 {
        0
    } else {
        (match acts[0] {
            Action::Read(_) => 1nat,
            Action::Seek(_) => 1nat,
            Action::Span(_) => 0nat,
        }) + leafcnt_acts(acts.skip(1))
    }
}

/// How many leaf events all live records of the registry hold together.
pub open spec fn leafsum(reg: Seq<Option<SpanRecModel>>) -> nat
    decreases reg.len(),
{
    if reg.len() == 0 {
        0
    } else {
        (match reg[0] {
            Some(r) => leafcnt_acts(r.acts),
            None => 0nat,
        }) + leafsum(reg.skip(1))
    }
}

/// Leaf events anywhere in a finished tree.
pub open spec fn leaf_count(t: TreeModel) -> nat
    decreases t, 0int,
{
    leaf_upto(t.acts, t.acts.len() as int)
}

/// Leaf events in the first `k` entries, nested trees included.
pub open spec fn leaf_upto(s: Seq<ActModel>, k: int) -> nat
    decreases s, k,
{
    if k <= 0 || k > s.len() {
        0
    } else {
        leaf_upto(s, k - 1) + leaf_one(s[k - 1])
    }
}

/// Leaf events in one entry.
pub open spec fn leaf_one(a: ActModel) -> nat
    decreases a, 0int,
{
    match a {
        ActModel::Read(_) => 1,
        ActModel::Seek(_) => 1,
        ActModel::Span(t) => leaf_count(t),
    }
}

/// Nesting points anywhere in a finished tree.
pub open spec fn nest_count(t: TreeModel) -> nat
    decreases t, 0int,
{
    nest_upto(t.acts, t.acts.len() as int)
}

/// Nesting points in the first `k` entries, nested trees included.
pub open spec fn nest_upto(s: Seq<ActModel>, k: int) -> nat
    decreases s, k,
{
    if k <= 0 || k > s.len() {
        0
    } else {
        nest_upto(s, k - 1) + nest_one(s[k - 1])
    }
}

/// Nesting points in one entry.
pub open spec fn nest_one(a: ActModel) -> nat
    decreases a, 0int,
{
    match a {
        ActModel::Read(_) => 0,
        ActModel::Seek(_) => 0,
        ActModel::Span(t) => 1 + nest_count(t),
    }
}

proof fn lemma_leaf_upto_shift(x: ActModel, rest: Seq<ActModel>, k: int)
    requires
        0 <= k <= rest.len(),
    ensures
        leaf_upto(seq![x] + rest, k + 1) == leaf_one(x) + leaf_upto(rest, k),
        nest_upto(seq![x] + rest, k + 1) == nest_one(x) + nest_upto(rest, k),
    decreases k,
{
    let s = seq![x] + rest;
    if k == 0 {
        assert(s[0] == x);
        assert(leaf_upto(s, 1) == leaf_upto(s, 0) + leaf_one(s[0]));
        assert(nest_upto(s, 1) == nest_upto(s, 0) + nest_one(s[0]));
    } else {
        lemma_leaf_upto_shift(x, rest, k - 1);
        assert(s[k] == rest[k - 1]);
        assert(leaf_upto(s, k + 1) == leaf_upto(s, k) + leaf_one(s[k]));
        assert(leaf_upto(rest, k) == leaf_upto(rest, k - 1) + leaf_one(rest[k - 1]));
        assert(nest_upto(s, k + 1) == nest_upto(s, k) + nest_one(s[k]));
        assert(nest_upto(rest, k) == nest_upto(rest, k - 1) + nest_one(rest[k - 1]));
    }
    assert(leaf_upto(s, k + 1) == leaf_one(x) + leaf_upto(rest, k));
    assert(nest_upto(s, k + 1) == nest_one(x) + nest_upto(rest, k));
}

proof fn lemma_leafsum_update(reg: Seq<Option<SpanRecModel>>, i: int)
    requires
        0 <= i < reg.len(),
        reg[i] is Some,
    ensures
        leafsum(reg.update(i, None)) + leafcnt_acts(reg[i]->0.acts) == leafsum(reg),
    decreases reg.len(),
{
    if i == 0 {
        assert(reg.update(0, None::<SpanRecModel>).skip(1) =~= reg.skip(1));
    } else {
        assert(reg.update(i, None::<SpanRecModel>).skip(1) =~= reg.skip(1).update(i - 1, None));
        lemma_leafsum_update(reg.skip(1), i - 1);
    }
}

pub proof fn lemma_leafcnt_push(acts: Seq<Action>, a: Action)
    ensures
        leafcnt_acts(acts.push(a)) == leafcnt_acts(acts) + (match a {
            Action::Read(_) => 1nat,
            Action::Seek(_) => 1nat,
            Action::Span(_) => 0nat,
        }),
    decreases acts.len(),
{
    if acts.len() == 0 {
        assert(acts.push(a).skip(1) =~= Seq::<Action>::empty());
        assert(leafcnt_acts(Seq::<Action>::empty()) == 0);
        assert(acts.push(a)[0] == a);
    } else {
        assert(acts.push(a).skip(1) =~= acts.skip(1).push(a));
        lemma_leafcnt_push(acts.skip(1), a);
    }
}

pub proof fn lemma_leafsum_push(reg: Seq<Option<SpanRecModel>>, r: Option<SpanRecModel>)
    ensures
        leafsum(reg.push(r)) == leafsum(reg) + (match r {
            Some(rec) => leafcnt_acts(rec.acts),
            None => 0nat,
        }),
    decreases reg.len(),
{
    if reg.len() == 0 {
        assert(reg.push(r).skip(1) =~= Seq::<Option<SpanRecModel>>::empty());
        assert(leafsum(Seq::<Option<SpanRecModel>>::empty()) == 0);
        assert(reg.push(r)[0] == r);
    } else {
        assert(reg.push(r).skip(1) =~= reg.skip(1).push(r));
        lemma_leafsum_push(reg.skip(1), r);
    }
}

pub proof fn lemma_leafsum_swap(reg: Seq<Option<SpanRecModel>>, i: int, r: Option<SpanRecModel>)
    requires
        0 <= i < reg.len(),
    ensures
        leafsum(reg.update(i, r)) + (match reg[i] {
            Some(rec) => leafcnt_acts(rec.acts),
            None => 0nat,
        }) == leafsum(reg) + (match r {
            Some(rec) => leafcnt_acts(rec.acts),
            None => 0nat,
        }),
    decreases reg.len(),
{
    if i == 0 {
        assert(reg.update(0, r).skip(1) =~= reg.skip(1));
    } else {
        assert(reg.update(i, r).skip(1) =~= reg.skip(1).update(i - 1, r));
        lemma_leafsum_swap(reg.skip(1), i - 1, r);
    }
}

/// A session whose root scope reported no events and entered no children
/// yields a tree with an empty action list at the root.
pub proof fn lemma_empty_root_tree(reg: Seq<Option<SpanRecModel>>, root: SpanId, fuel: nat)
    requires
        fuel > 0,
        1 <= root <= reg.len(),
        reg[root - 1] is Some,
        reg[root - 1]->0.acts.len() == 0,
    ensures
        build(reg, root, fuel) matches Some(p) && p.0.acts == Seq::<ActModel>::empty()
            && p.0.name == reg[root - 1]->0.name,
{
}

/// Tree building keeps an exact account: the leaves of the tree are the
/// leaf events of the consumed records, and its nesting points are the
/// consumed records themselves, less one for the root of the build.
pub proof fn lemma_build_counts(reg: Seq<Option<SpanRecModel>>, id: SpanId, fuel: nat)
    requires
        build(reg, id, fuel) is Some,
    ensures
        ({
            let p = build(reg, id, fuel)->0;
            &&& leaf_count(p.0) + leafsum(p.1) == leafsum(reg)
            &&& nest_count(p.0) + live_count(p.1) + 1 == live_count(reg)
        }),
    decreases fuel, 0int,
{
    let rec = reg[id - 1]->0;
    let reg1 = reg.update(id - 1, None);
    lemma_live_update_none(reg, id - 1);
    lemma_leafsum_update(reg, id - 1);
    lemma_build_acts_counts(rec.acts, reg1, (fuel - 1) as nat);
}

proof fn lemma_build_acts_counts(acts: Seq<Action>, reg: Seq<Option<SpanRecModel>>, fuel: nat)
    requires
        build_acts(acts, reg, fuel) is Some,
    ensures
        ({
            let p = build_acts(acts, reg, fuel)->0;
            &&& leaf_upto(p.0, p.0.len() as int) + leafsum(p.1) == leafcnt_acts(acts) + leafsum(
                reg,
            )
            &&& nest_upto(p.0, p.0.len() as int) + live_count(p.1) == live_count(reg)
        }),
    decreases fuel, acts.len() + 1,
{
    if acts.len() == 0 {
    } else {
        let rest = acts.skip(1);
        match acts[0] {
            Action::Read(n) => {
                lemma_build_acts_counts(rest, reg, fuel);
                let p = build_acts(rest, reg, fuel)->0;
                lemma_leaf_upto_shift(ActModel::Read(n), p.0, p.0.len() as int);
            },
            Action::Seek(n) => {
                lemma_build_acts_counts(rest, reg, fuel);
                let p = build_acts(rest, reg, fuel)->0;
                lemma_leaf_upto_shift(ActModel::Seek(n), p.0, p.0.len() as int);
            },
            Action::Span(c) => {
                lemma_build_counts(reg, c, fuel);
                let q = build(reg, c, fuel)->0;
                lemma_build_acts_counts(rest, q.1, fuel);
                let p = build_acts(rest, q.1, fuel)->0;
                lemma_leaf_upto_shift(ActModel::Span(q.0), p.0, p.0.len() as int);
            },
        }
    }
}

/// On a registry in which no span is referenced twice and every reference
/// hits a live record, building from an unreferenced live span always
/// succeeds, and it consumes only that span and referenced spans.
pub proof fn lemma_build_total(reg: Seq<Option<SpanRecModel>>, id: SpanId, fuel: nat)
    requires
        reg_wf(reg),
        fuel > live_count(reg),
        1 <= id <= reg.len(),
        reg[id - 1] is Some,
        refsum(reg, id) == 0,
    ensures
        build(reg, id, fuel) matches Some(p) && {
            &&& consumed_from(p.1, reg)
            &&& reg_wf(p.1)
            &&& !(p.1[id - 1] is Some)
            &&& forall|x: SpanId|
                1 <= x <= reg.len() && reg[x - 1] is Some && !(#[trigger] p.1[x - 1] is Some)
                    ==> x == id || refsum(reg, x) == 1
            &&& forall|i: int, d: SpanId|
                0 <= i < reg.len() && reg[i] is Some && !(p.1[i] is Some) && #[trigger] cnt_in(
                    reg[i]->0.acts,
                    d,
                ) >= 1 ==> 1 <= d <= reg.len() && !(p.1[d - 1] is Some)
        },
    decreases fuel, 0int,
{
    let rec = reg[id - 1]->0;
    let reg1 = reg.update(id - 1, None);
    lemma_live_update_none(reg, id - 1);
    // no live record of `reg1` references anything the log of `rec` references
    assert forall|c: SpanId| #[trigger] cnt_in(rec.acts, c) + refsum(reg1, c)
        <= refsum(reg, c) by {
        lemma_refsum_update(reg, id - 1, None, c);
    }
    assert forall|j: int| 0 <= j < rec.acts.len() implies ref_live(reg1, #[trigger] rec.acts[j]) by {
        match rec.acts[j] {
            Action::Span(c) => {
                assert(ref_live(reg, rec.acts[j]));
                lemma_cnt_at(rec.acts, j, c);
                lemma_refsum_lower(reg, id - 1, c);
                // `c != id` because nothing references `id`
                assert(refsum(reg, c) >= 1);
            },
            _ => {},
        }
    }
    assert(reg_wf(reg1)) by {
        assert forall|c: SpanId| #[trigger] refsum(reg1, c) <= 1 by {
            lemma_refsum_update(reg, id - 1, None, c);
        }
        assert forall|i: int, j: int|
            0 <= i < reg1.len() && reg1[i] is Some && 0 <= j < reg1[i]->0.acts.len()
                implies ref_live(reg1, #[trigger] reg1[i]->0.acts[j]) by {
            assert(reg[i] is Some && reg1[i] == reg[i]);
            assert(ref_live(reg, reg[i]->0.acts[j]));
            match reg[i]->0.acts[j] {
                Action::Span(c) => {
                    lemma_cnt_at(reg[i]->0.acts, j, c);
                    lemma_refsum_lower(reg, i, c);
                    assert(refsum(reg, c) >= 1);
                },
                _ => {},
            }
        }
    }
    lemma_build_acts_total(rec.acts, reg1, (fuel - 1) as nat);
    let p = build_acts(rec.acts, reg1, (fuel - 1) as nat)->0;
    assert forall|k: int| 0 <= k < p.1.len() && #[trigger] p.1[k] is Some
        implies p.1[k] == reg[k] by {
        assert(p.1[k] == reg1[k]);
    }
    assert(!(p.1[id - 1] is Some));
    assert forall|i: int, d: SpanId|
        0 <= i < reg.len() && reg[i] is Some && !(p.1[i] is Some) && #[trigger] cnt_in(
            reg[i]->0.acts,
            d,
        ) >= 1 implies 1 <= d <= reg.len() && !(p.1[d - 1] is Some) by {
        if i == id - 1 {
            assert(cnt_in(rec.acts, d) >= 1);
        } else {
            assert(reg1[i] == reg[i]);
            assert(cnt_in(reg1[i]->0.acts, d) >= 1);
        }
    }
    assert forall|x: SpanId|
        1 <= x <= reg.len() && reg[x - 1] is Some && !(#[trigger] p.1[x - 1] is Some)
            implies x == id || refsum(reg, x) == 1 by {
        if x != id {
            assert(reg1[x - 1] is Some);
            assert(cnt_in(rec.acts, x) == 1 || refsum(reg1, x) == 1);
            lemma_refsum_update(reg, id - 1, None, x);
            if cnt_in(rec.acts, x) == 1 {
                assert(refsum(reg, x) >= 1);
            } else {
                assert(refsum(reg, x) >= 1);
            }
        }
    }
}

/// Companion to `lemma_build_total` for one event log: if the log references
/// only live, otherwise-unreferenced spans, each at most once, rewriting it
/// succeeds and consumes only referenced spans.
proof fn lemma_build_acts_total(acts: Seq<Action>, reg: Seq<Option<SpanRecModel>>, fuel: nat)
    requires
        reg_wf(reg),
        fuel > live_count(reg),
        forall|j: int| 0 <= j < acts.len() ==> ref_live(reg, #[trigger] acts[j]),
        forall|c: SpanId| #[trigger] cnt_in(acts, c) + refsum(reg, c) <= 1,
    ensures
        build_acts(acts, reg, fuel) matches Some(p) && {
            &&& consumed_from(p.1, reg)
            &&& reg_wf(p.1)
            &&& forall|x: SpanId|
                1 <= x <= reg.len() && reg[x - 1] is Some && !(#[trigger] p.1[x - 1] is Some)
                    ==> cnt_in(acts, x) == 1 || refsum(reg, x) == 1
            &&& forall|d: SpanId| #[trigger] cnt_in(acts, d) >= 1
                ==> 1 <= d <= reg.len() && !(p.1[d - 1] is Some)
            &&& forall|i: int, d: SpanId|
                0 <= i < reg.len() && reg[i] is Some && !(p.1[i] is Some) && #[trigger] cnt_in(
                    reg[i]->0.acts,
                    d,
                ) >= 1 ==> 1 <= d <= reg.len() && !(p.1[d - 1] is Some)
        },
    decreases fuel, acts.len() + 1,
{
    if acts.len() == 0 {
    } else {
        let rest = acts.skip(1);
        match acts[0] {
            Action::Read(_) | Action::Seek(_) => {
                assert forall|c: SpanId| #[trigger] cnt_in(rest, c) + refsum(reg, c) <= 1 by {
                    assert(cnt_in(acts, c) == cnt_in(rest, c));
                }
                lemma_build_acts_total(rest, reg, fuel);
                let p = build_acts(rest, reg, fuel)->0;
                assert forall|x: SpanId|
                    1 <= x <= reg.len() && reg[x - 1] is Some && !(#[trigger] p.1[x - 1] is Some)
                        implies cnt_in(acts, x) == 1 || refsum(reg, x) == 1 by {
                    assert(cnt_in(acts, x) == cnt_in(rest, x));
                }
                assert forall|d: SpanId| #[trigger] cnt_in(acts, d) >= 1
                    implies 1 <= d <= reg.len() && !(p.1[d - 1] is Some) by {
                    assert(cnt_in(rest, d) == cnt_in(acts, d));
                }
            },
            Action::Span(c) => {
                lemma_cnt_at(acts, 0, c);
                assert(refsum(reg, c) == 0);
                assert(ref_live(reg, acts[0]));
                lemma_build_total(reg, c, fuel);
                let q = build(reg, c, fuel)->0;
                lemma_live_consumed(reg, q.1);
                // references in the remaining log still point at live records
                assert forall|j: int| 0 <= j < rest.len()
                    implies ref_live(q.1, #[trigger] rest[j]) by {
                    match rest[j] {
                        Action::Span(d) => {
                            assert(ref_live(reg, acts[j + 1]));
                            lemma_cnt_at(rest, j, d);
                            if d == c {
                                // `c` would be referenced twice in this log
                                assert(cnt_in(acts, c) == 1 + cnt_in(rest, c));
                                assert(cnt_in(acts, c) + refsum(reg, c) <= 1);
                                assert(false);
                            }
                            if !(q.1[d - 1] is Some) {
                                assert(d == c || refsum(reg, d) == 1);
                                assert(cnt_in(acts, d) >= 1) by {
                                    lemma_cnt_at(acts, j + 1, d);
                                }
                                assert(false);
                            }
                        },
                        _ => {},
                    }
                }
                assert forall|d: SpanId| #[trigger] cnt_in(rest, d) + refsum(q.1, d) <= 1 by {
                    lemma_refsum_consumed(reg, q.1, d);
                    if d == c {
                        assert(cnt_in(acts, c) == 1 + cnt_in(rest, c));
                    } else {
                        assert(cnt_in(acts, d) == cnt_in(rest, d));
                    }
                }
                lemma_build_acts_total(rest, q.1, fuel);
                let p = build_acts(rest, q.1, fuel)->0;
                assert forall|k: int| 0 <= k < p.1.len() && #[trigger] p.1[k] is Some
                    implies p.1[k] == reg[k] by {
                    assert(q.1[k] is Some);
                }
                assert forall|x: SpanId|
                    1 <= x <= reg.len() && reg[x - 1] is Some && !(#[trigger] p.1[x - 1] is Some)
                        implies cnt_in(acts, x) == 1 || refsum(reg, x) == 1 by {
                    if q.1[x - 1] is Some {
                        // consumed while rewriting the rest of the log
                        assert(cnt_in(rest, x) == 1 || refsum(q.1, x) == 1);
                        lemma_refsum_consumed(reg, q.1, x);
                        if cnt_in(rest, x) == 1 {
                            assert(cnt_in(acts, x) >= 1);
                            assert(cnt_in(acts, x) + refsum(reg, x) <= 1);
                        } else {
                            assert(refsum(reg, x) >= 1);
                        }
                    } else {
                        // consumed while building the child tree
                        assert(x == c || refsum(reg, x) == 1);
                        if x == c {
                            assert(cnt_in(acts, c) + refsum(reg, c) <= 1);
                            assert(cnt_in(acts, c) >= 1);
                        }
                    }
                }
                assert forall|d: SpanId| #[trigger] cnt_in(acts, d) >= 1
                    implies 1 <= d <= reg.len() && !(p.1[d - 1] is Some) by {
                    if d == c {
                        assert(1 <= c <= reg.len());
                        assert(!(q.1[c - 1] is Some));
                        if p.1[c - 1] is Some {
                            assert(p.1[c - 1] == q.1[c - 1]);
                        }
                    } else {
                        assert(cnt_in(rest, d) == cnt_in(acts, d));
                    }
                }
                assert forall|i: int, d: SpanId|
                    0 <= i < reg.len() && reg[i] is Some && !(p.1[i] is Some) && #[trigger] cnt_in(
                        reg[i]->0.acts,
                        d,
                    ) >= 1 implies 1 <= d <= reg.len() && !(p.1[d - 1] is Some) by {
                    if q.1[i] is Some {
                        assert(q.1[i] == reg[i]);
                        assert(cnt_in(q.1[i]->0.acts, d) >= 1);
                    } else {
                        // consumed while building the child tree
                        assert(!(q.1[d - 1] is Some));
                        if p.1[d - 1] is Some {
                            assert(p.1[d - 1] == q.1[d - 1]);
                        }
                    }
                }
            },
        }
    }
}

impl TreeSpan {
    /// Take the record of `id` out of the registry and rewrite it into an
    /// owned tree, recursively consuming the record of every child link.
    /// Fails exactly when the specification `build` does: on an id without a
    /// live record, here or in any nested child.
    pub fn into_tree(id: SpanId, spans: &mut Vec<Option<ReadSpan>>) -> (r: Result<
        TreeSpan,
        TraceError,
    >)
        ensures
            final(spans)@.len() == old(spans)@.len(),
            forall|t: int|
                0 <= t < final(spans)@.len() && #[trigger] final(spans)@[t] is Some
                    ==> final(spans)@[t] == old(spans)@[t],
            ({
                let res = build(
                    lift_reg(old(spans)@),
                    id,
                    live_count(lift_reg(old(spans)@)) + 1,
                );
                match r {
                    Ok(t) => res matches Some(p) && tree_view(t) == p.0
                        && lift_reg(final(spans)@) == p.1,
                    Err(e) => res is None && (e is UnknownSpan || e is MissingChild),
                }
            }),
        decreases live_count(lift_reg(spans@)),
    {
        let ghost reg0 = lift_reg(spans@);
        let ghost fuel0 = live_count(reg0) + 1;
        if id == 0 || id > spans.len() {
            return Err(TraceError::UnknownSpan);
        }
        let rec = match spans[id - 1].take() {
            Some(rec) => rec,
            None => {
                proof {
                    assert(lift_reg(spans@) =~= reg0);
                }
                return Err(TraceError::MissingChild);
            },
        };
        let ghost reg1 = reg0.update(id - 1, None);
        let ghost mfuel = live_count(reg0);
        proof {
            assert(reg0[id - 1] is Some);
            assert(lift_reg(spans@) =~= reg1);
            lemma_live_update_none(reg0, id - 1);
        }
        let mut out: Vec<TreeAction> = Vec::new();
        let mut k: usize = 0;
        let n = rec.actions.len();
        proof {
            assert(rec.actions@.skip(0) =~= rec.actions@);
            match build_acts(rec.actions@, reg1, mfuel) {
                None => {},
                Some(p) => {
                    assert(acts_view(out@, 0) + p.0 =~= p.0);
                },
            }
        }
        while k < n
            invariant
                n == rec.actions@.len(),
                k <= n,
                reg0 == lift_reg(old(spans)@),
                spans@.len() == reg0.len(),
                mfuel == live_count(reg0),
                fuel0 == mfuel + 1,
                reg1 == reg0.update(id - 1, None),
                1 <= id <= reg0.len(),
                reg0[id - 1] is Some,
                reg0[id - 1]->0.acts == rec.actions@,
                reg0[id - 1]->0.name == rec.name@,
                forall|t: int|
                    0 <= t < spans@.len() && #[trigger] spans@[t] is Some
                        ==> spans@[t] == old(spans)@[t],
                mfuel >= live_count(lift_reg(spans@)) + 1,
                build_acts(rec.actions@, reg1, mfuel) == (match build_acts(
                    rec.actions@.skip(k as int),
                    lift_reg(spans@),
                    mfuel,
                ) {
                    None => None::<(Seq<ActModel>, Seq<Option<SpanRecModel>>)>,
                    Some(p) => Some((acts_view(out@, 0) + p.0, p.1)),
                }),
            decreases n - k,
        {
            let ghost prev = spans@;
            let ghost cur = lift_reg(spans@);
            let ghost sk = rec.actions@.skip(k as int);
            proof {
                assert(sk[0] == rec.actions@[k as int]);
                assert(sk.skip(1) =~= rec.actions@.skip(k + 1));
            }
            let a = rec.actions[k];
            match a {
                Action::Read(sz) => {
                    let ghost out0 = out@;
                    out.push(TreeAction::Read(sz));
                    proof {
                        lemma_acts_view_push(out0, TreeAction::Read(sz), 0);
                        match build_acts(rec.actions@.skip(k + 1), cur, mfuel) {
                            None => {},
                            Some(p) => {
                                assert(acts_view(out@, 0) + p.0 =~= acts_view(out0, 0)
                                    + (seq![ActModel::Read(sz)] + p.0));
                            },
                        }
                    }
                },
                Action::Seek(off) => {
                    let ghost out0 = out@;
                    out.push(TreeAction::Seek(off));
                    proof {
                        lemma_acts_view_push(out0, TreeAction::Seek(off), 0);
                        match build_acts(rec.actions@.skip(k + 1), cur, mfuel) {
                            None => {},
                            Some(p) => {
                                assert(acts_view(out@, 0) + p.0 =~= acts_view(out0, 0)
                                    + (seq![ActModel::Seek(off)] + p.0));
                            },
                        }
                    }
                },
                Action::Span(c) => {
                    proof {
                        assert(live_count(lift_reg(spans@)) < live_count(lift_reg(old(spans)@)));
                    }
                    let sub = match Self::into_tree(c, spans) {
                        Ok(sub) => sub,
                        Err(e) => {
                            proof {
                                lemma_build_fuel(cur, c, live_count(cur) + 1, mfuel);
                                assert forall|t: int|
                                    0 <= t < spans@.len() && #[trigger] spans@[t] is Some
                                        implies spans@[t] == old(spans)@[t] by {
                                    assert(spans@[t] == prev[t]);
                                }
                            }
                            return Err(e);
                        },
                    };
                    proof {
                        lemma_build_fuel(cur, c, live_count(cur) + 1, mfuel);
                        assert forall|t: int|
                            0 <= t < spans@.len() && #[trigger] spans@[t] is Some
                                implies spans@[t] == old(spans)@[t] by {
                            assert(spans@[t] == prev[t]);
                        }
                        let q = build(cur, c, mfuel)->0;
                        assert(lift_reg(spans@) =~= q.1) by {
                            let q_direct = build(cur, c, live_count(cur) + 1)->0;
                            assert(lift_reg(spans@) == q_direct.1);
                        }
                        lemma_build_frame(cur, c, mfuel);
                    }
                    let ghost out0 = out@;
                    let ghost subv = tree_view(sub);
                    out.push(TreeAction::Span(sub));
                    proof {
                        lemma_acts_view_push(out0, TreeAction::Span(sub), 0);
                        let q = build(cur, c, mfuel)->0;
                        assert(q.0 == subv);
                        match build_acts(rec.actions@.skip(k + 1), q.1, mfuel) {
                            None => {},
                            Some(p) => {
                                assert(acts_view(out@, 0) + p.0 =~= acts_view(out0, 0)
                                    + (seq![ActModel::Span(q.0)] + p.0));
                            },
                        }
                    }
                },
            }
            k += 1;
        }
        proof {
            assert(rec.actions@.skip(n as int) =~= Seq::<Action>::empty());
            assert(build_acts(rec.actions@, reg1, mfuel) == Some((
                acts_view(out@, 0),
                lift_reg(spans@),
            ))) by {
                assert(acts_view(out@, 0) + Seq::<ActModel>::empty() =~= acts_view(out@, 0));
            }
        }
        Ok(TreeSpan { name: rec.name, actions: out })
    }
}

} // verus!
