//! Serializing a finished tree to its structured text form.
//!
//! The layout is the compact JSON shape of the persisted artifact:
//! `{"name":NAME,"actions":[{"Read":N},{"Seek":N},{"Span":TREE},...]}`.
//! Span names are emitted verbatim between the quotes; a name containing a
//! quote or a backslash therefore serializes, but to text that no longer
//! determines the tree (see the round-trip statement, which excludes such
//! names).

use vstd::prelude::*;
use vstd::string::StringExecFns;

use crate::tree::act_view;
use crate::tree::acts_view;
use crate::tree::lemma_acts_view_props;
use crate::tree::tree_view;
use crate::tree::ActModel;
use crate::tree::TreeAction;
use crate::tree::TreeModel;
use crate::tree::TreeSpan;

verus! {

broadcast use
    vstd::std_specs::vec::axiom_vec_decreases_to_view,
    vstd::seq::axiom_seq_index_decreases;

/// The decimal digit character for `d`.
pub open spec fn digit(d: nat) -> char {
    if d == 0 {
        '0'
    } else if d == 1 {
        '1'
    } else if d == 2 {
        '2'
    } else if d == 3 {
        '3'
    } else if d == 4 {
        '4'
    } else if d == 5 {
        '5'
    } else if d == 6 {
        '6'
    } else if d == 7 {
        '7'
    } else if d == 8 {
        '8'
    } else {
        '9'
    }
}

/// The decimal digits of `n`, most significant first.
pub open spec fn dec_str(n: nat) -> Seq<char>
    decreases n,
{
    if n < 10 {
        seq![digit(n)]
    } else {
        dec_str(n / 10) + seq![digit(n % 10)]
    }
}

/// The serialized form of a whole tree.
pub open spec fn json_of(t: TreeModel) -> Seq<char>
    decreases t, 0int,
{
    "{\"name\":\""@ + t.name + "\",\"actions\":["@ + json_upto(t.acts, t.acts.len() as int)
        + "]}"@
}

/// The serialized forms of the first `k` entries, commas between them.
pub open spec fn json_upto(s: Seq<ActModel>, k: int) -> Seq<char>
    decreases s, k,
{
    if k <= 0 || k > s.len() {
        Seq::empty()
    } else {
        json_upto(s, k - 1) + (if k == 1 {
            Seq::<char>::empty()
        } else {
            ","@
        }) + json_act(s[k - 1])
    }
}

/// The serialized form of one entry.
pub open spec fn json_act(a: ActModel) -> Seq<char>
    decreases a, 0int,
{
    match a {
        ActModel::Read(n) => "{\"Read\":"@ + dec_str(n as nat) + "}"@,
        ActModel::Seek(n) => "{\"Seek\":"@ + dec_str(n as nat) + "}"@,
        ActModel::Span(t) => "{\"Span\":"@ + json_of(t) + "}"@,
    }
}

/// The numeric value of a digit character, or ten for any other character.
pub open spec fn dval(c: char) -> nat {
    if c == '0' {
        0
    } else if c == '1' {
        1
    } else if c == '2' {
        2
    } else if c == '3' {
        3
    } else if c == '4' {
        4
    } else if c == '5' {
        5
    } else if c == '6' {
        6
    } else if c == '7' {
        7
    } else if c == '8' {
        8
    } else if c == '9' {
        9
    } else {
        10
    }
}

/// The text `lit` stands in `s` at position `i`.
pub open spec fn lit_at(s: Seq<char>, i: int, lit: Seq<char>) -> bool {
    0 <= i && i + lit.len() <= s.len() && s.subrange(i, i + lit.len()) == lit
}

/// Scan a name up to its closing quote; the quote is consumed.
pub open spec fn p_name(s: Seq<char>, i: int) -> Option<(Seq<char>, int)>
    decreases s.len() - i,
{
    if !(0 <= i < s.len()) {
        None
    } else if s[i] == '"' {
        Some((Seq::empty(), i + 1))
    } else {
        match p_name(s, i + 1) {
            None => None,
            Some(p) => Some((seq![s[i]] + p.0, p.1)),
        }
    }
}

/// Read a decimal number greedily, folding digits into `acc`.
pub open spec fn p_num(s: Seq<char>, i: int, acc: nat) -> (nat, int)
    decreases s.len() - i,
{
    if !(0 <= i < s.len()) || dval(s[i]) >= 10 {
        (acc, i)
    } else {
        p_num(s, i + 1, acc * 10 + dval(s[i]))
    }
}

/// Parse one serialized tree starting at `i`.
pub open spec fn p_tree(s: Seq<char>, i: int) -> Option<(TreeModel, int)>
    decreases s.len() - i, 2int,
{
    if !lit_at(s, i, "{\"name\":\""@) {
        None
    } else {
        match p_name(s, i + "{\"name\":\""@.len()) {
            None => None,
            Some(np) => {
                let j = np.1;
                if !lit_at(s, j, ",\"actions\":["@) {
                    None
                } else {
                    let k0 = j + ",\"actions\":["@.len();
                    if !(i < k0) {
                        None
                    } else {
                        match p_acts(s, k0) {
                            None => None,
                            Some(ap) => if 0 <= ap.1 < s.len() && s[ap.1] == '}' {
                                Some((TreeModel { name: np.0, acts: ap.0 }, ap.1 + 1))
                            } else {
                                None
                            },
                        }
                    }
                }
            },
        }
    }
}

/// Parse the entries of an action list up to and including its `]`.
pub open spec fn p_acts(s: Seq<char>, i: int) -> Option<(Seq<ActModel>, int)>
    decreases s.len() - i, 1int,
{
    if !(0 <= i < s.len()) {
        None
    } else if s[i] == ']' {
        Some((Seq::empty(), i + 1))
    } else {
        match p_act(s, i) {
            None => None,
            Some(ap) => {
                let j = ap.1;
                if !(i < j && j < s.len()) {
                    None
                } else if s[j] == ']' {
                    Some((seq![ap.0], j + 1))
                } else if s[j] == ',' {
                    match p_acts(s, j + 1) {
                        None => None,
                        Some(rp) => Some((seq![ap.0] + rp.0, rp.1)),
                    }
                } else {
                    None
                }
            },
        }
    }
}

/// Parse one action entry.
pub open spec fn p_act(s: Seq<char>, i: int) -> Option<(ActModel, int)>
    decreases s.len() - i, 0int,
{
    if lit_at(s, i, "{\"Read\":"@) {
        let i8 = i + "{\"Read\":"@.len();
        if !(i8 < s.len() && dval(s[i8]) < 10) {
            None
        } else {
            let np = p_num(s, i8, 0);
            if 0 <= np.1 < s.len() && s[np.1] == '}' {
                Some((ActModel::Read(np.0 as usize), np.1 + 1))
            } else {
                None
            }
        }
    } else if lit_at(s, i, "{\"Seek\":"@) {
        let i8 = i + "{\"Seek\":"@.len();
        if !(i8 < s.len() && dval(s[i8]) < 10) {
            None
        } else {
            let np = p_num(s, i8, 0);
            if 0 <= np.1 < s.len() && s[np.1] == '}' {
                Some((ActModel::Seek(np.0 as usize), np.1 + 1))
            } else {
                None
            }
        }
    } else if lit_at(s, i, "{\"Span\":"@) {
        let i8 = i + "{\"Span\":"@.len();
        if !(i < i8 && i8 <= s.len()) {
            None
        } else {
            match p_tree(s, i8) {
                None => None,
                Some(tp) => if 0 <= tp.1 < s.len() && s[tp.1] == '}' {
                    Some((ActModel::Span(tp.0), tp.1 + 1))
                } else {
                    None
                },
            }
        }
    } else {
        None
    }
}

/// The name contains no double quote (a quote would end the name early).
pub open spec fn no_quote(nm: Seq<char>) -> bool {
    forall|q: int| 0 <= q < nm.len() ==> nm[q] != '"'
}

/// Every name in the tree is free of double quotes.
pub open spec fn plain_tree(t: TreeModel) -> bool
    decreases t, 0int,
{
    no_quote(t.name) && plain_upto(t.acts, t.acts.len() as int)
}

pub open spec fn plain_upto(s: Seq<ActModel>, k: int) -> bool
    decreases s, k,
{
    if k <= 0 || k > s.len() {
        true
    } else {
        plain_upto(s, k - 1) && plain_one(s[k - 1])
    }
}

pub open spec fn plain_one(a: ActModel) -> bool
    decreases a, 0int,
{
    match a {
        ActModel::Read(_) => true,
        ActModel::Seek(_) => true,
        ActModel::Span(t) => plain_tree(t),
    }
}

/// The items from `j` on, each preceded by its separating comma.
pub open spec fn tail_from(s: Seq<ActModel>, j: int) -> Seq<char>
    decreases s.len() - j,
{
    if !(0 <= j < s.len()) {
        Seq::empty()
    } else {
        seq![','] + json_act(s[j]) + tail_from(s, j + 1)
    }
}

/// Ten to the number of decimal digits of `n`.
pub open spec fn dshift(n: nat) -> nat
    decreases n,
{
    if n < 10 {
        10
    } else {
        10 * dshift(n / 10)
    }
}

proof fn lemma_split_at(s: Seq<char>, i: int, x: Seq<char>, y: Seq<char>)
    requires
        0 <= i,
        i + x.len() + y.len() <= s.len(),
        s.subrange(i, i + x.len() + y.len()) == x + y,
    ensures
        s.subrange(i, i + x.len()) == x,
        s.subrange(i + x.len(), i + x.len() + y.len()) == y,
{
    let w = s.subrange(i, i + x.len() + y.len());
    assert forall|q: int| 0 <= q < x.len() implies s.subrange(i, i + x.len())[q] == x[q] by {
        assert(w[q] == (x + y)[q]);
    }
    assert(s.subrange(i, i + x.len()) =~= x);
    assert forall|q: int| 0 <= q < y.len()
        implies s.subrange(i + x.len(), i + x.len() + y.len())[q] == y[q] by {
        assert(w[x.len() + q] == (x + y)[x.len() + q]);
    }
    assert(s.subrange(i + x.len(), i + x.len() + y.len()) =~= y);
}

proof fn lemma_decstr_shape(n: nat)
    ensures
        dec_str(n).len() >= 1,
        forall|q: int| 0 <= q < dec_str(n).len() ==> dval(#[trigger] dec_str(n)[q]) < 10,
    decreases n,
{
    if n < 10 {
        assert(dval(dec_str(n)[0]) < 10);
    } else {
        lemma_decstr_shape(n / 10);
        assert forall|q: int| 0 <= q < dec_str(n).len()
            implies dval(#[trigger] dec_str(n)[q]) < 10 by {
            if q < dec_str(n / 10).len() {
                assert(dec_str(n)[q] == dec_str(n / 10)[q]);
            } else {
                assert(dec_str(n)[q] == digit(n % 10));
            }
        }
    }
}

proof fn lemma_plain_index(s: Seq<ActModel>, m: int, q: int)
    requires
        plain_upto(s, m),
        0 <= q < m <= s.len(),
    ensures
        plain_one(s[q]),
    decreases m,
{
    if q < m - 1 {
        lemma_plain_index(s, m - 1, q);
    }
}

proof fn lemma_rt_name(nm: Seq<char>, s: Seq<char>, i: int)
    requires
        no_quote(nm),
        0 <= i,
        i + nm.len() < s.len(),
        s.subrange(i, i + nm.len()) == nm,
        s[i + nm.len()] == '"',
    ensures
        p_name(s, i) == Some((nm, i + nm.len() + 1)),
    decreases nm.len(),
{
    if nm.len() == 0 {
        assert(s[i] == '"');
    } else {
        assert(s[i] == nm[0]);
        assert(nm[0] != '"');
        assert(s.subrange(i + 1, i + 1 + nm.skip(1).len()) =~= nm.skip(1));
        assert forall|q: int| 0 <= q < nm.skip(1).len() implies nm.skip(1)[q] != '"' by {
            assert(nm[q + 1] != '"');
        }
        lemma_rt_name(nm.skip(1), s, i + 1);
        assert(seq![s[i]] + nm.skip(1) =~= nm);
    }
}

proof fn lemma_rt_num(n: nat, acc: nat, s: Seq<char>, i: int)
    requires
        0 <= i,
        i + dec_str(n).len() <= s.len(),
        s.subrange(i, i + dec_str(n).len()) == dec_str(n),
    ensures
        p_num(s, i, acc) == p_num(s, i + dec_str(n).len(), acc * dshift(n) + n),
    decreases n,
{
    lemma_decstr_shape(n);
    if n < 10 {
        assert(s[i] == dec_str(n)[0]);
        assert(dec_str(n)[0] == digit(n));
        assert(dval(digit(n)) == n);
    } else {
        let front = dec_str(n / 10);
        let fl = front.len() as int;
        assert(dec_str(n) =~= front + seq![digit(n % 10)]);
        lemma_split_at(s, i, front, seq![digit(n % 10)]);
        lemma_rt_num(n / 10, acc, s, i);
        let acc1 = acc * dshift(n / 10) + n / 10;
        assert(s.subrange(i + fl, i + fl + 1)[0] == digit(n % 10));
        assert(s[i + fl] == digit(n % 10));
        assert(dval(digit(n % 10)) == n % 10);
        assert(p_num(s, i + fl, acc1) == p_num(s, i + fl + 1, acc1 * 10 + n % 10));
        assert(acc1 * 10 + n % 10 == acc * dshift(n) + n) by (nonlinear_arith)
            requires
                acc1 == acc * dshift(n / 10) + n / 10,
                dshift(n) == 10 * dshift(n / 10),
                n >= 10,
        {
        }
    }
}

proof fn lemma_upto_tail(s: Seq<ActModel>, k: int)
    requires
        1 <= k <= s.len(),
    ensures
        json_upto(s, s.len() as int) == json_upto(s, k) + tail_from(s, k),
    decreases s.len() - k,
{
    reveal_strlit(",");
    if k == s.len() {
        assert(json_upto(s, k) + tail_from(s, k) =~= json_upto(s, k));
    } else {
        lemma_upto_tail(s, k + 1);
        assert(","@ =~= seq![',']);
        assert(json_upto(s, k) + tail_from(s, k) =~= (json_upto(s, k) + ","@ + json_act(s[k]))
            + tail_from(s, k + 1));
        assert(json_upto(s, k + 1) == json_upto(s, k) + ","@ + json_act(s[k]));
    }
}

proof fn lemma_rt_tree(t: TreeModel, s: Seq<char>, i: int)
    requires
        plain_tree(t),
        0 <= i,
        i + json_of(t).len() <= s.len(),
        s.subrange(i, i + json_of(t).len()) == json_of(t),
    ensures
        p_tree(s, i) == Some((t, i + json_of(t).len())),
    decreases t, 0int, 0int,
{
    reveal_strlit("{\"name\":\"");
    reveal_strlit("\",\"actions\":[");
    reveal_strlit(",\"actions\":[");
    reveal_strlit("]}");
    let h1 = "{\"name\":\""@;
    let h2 = "\",\"actions\":["@;
    let l2 = ",\"actions\":["@;
    let nm = t.name;
    let itn = t.acts.len() as int;
    let it = json_upto(t.acts, itn);
    let total = json_of(t);
    assert(h2 =~= seq!['"'] + l2);
    assert("]}"@ =~= seq![']'] + seq!['}']);
    let r1 = nm + (seq!['"'] + (l2 + (it + (seq![']'] + seq!['}']))));
    assert(total =~= h1 + r1);
    lemma_split_at(s, i, h1, r1);
    let p1 = i + h1.len();
    let r2 = seq!['"'] + (l2 + (it + (seq![']'] + seq!['}'])));
    lemma_split_at(s, p1, nm, r2);
    let p2 = p1 + nm.len();
    assert(s.subrange(p2, p2 + r2.len())[0] == '"');
    lemma_rt_name(nm, s, p1);
    let r3 = l2 + (it + (seq![']'] + seq!['}']));
    lemma_split_at(s, p2, seq!['"'], r3);
    let j = p2 + 1;
    let r4 = it + (seq![']'] + seq!['}']);
    lemma_split_at(s, j, l2, r4);
    let k0 = j + l2.len();
    let r5 = seq![']'] + seq!['}'];
    lemma_split_at(s, k0, it, r5);
    let pe = k0 + it.len();
    assert(s.subrange(pe, pe + 2)[0] == ']');
    assert(s.subrange(pe, pe + 2)[1] == '}');
    if t.acts.len() == 0 {
        assert(it =~= Seq::<char>::empty());
        assert(s[k0] == ']');
        assert(p_acts(s, k0) == Some((Seq::<ActModel>::empty(), k0 + 1)));
        assert(s[k0 + 1] == '}');
        assert(Seq::<ActModel>::empty() =~= t.acts);
    } else {
        lemma_upto_tail(t.acts, 1);
        assert(json_upto(t.acts, 0) == Seq::<char>::empty());
        assert(json_upto(t.acts, 1) == json_upto(t.acts, 0) + Seq::<char>::empty() + json_act(
            t.acts[0],
        ));
        assert(json_upto(t.acts, 1) =~= json_act(t.acts[0]));
        let seg = json_act(t.acts[0]) + tail_from(t.acts, 1) + seq![']'];
        assert(r4 =~= seg + seq!['}']);
        lemma_split_at(s, k0, seg, seq!['}']);
        lemma_rt_acts(t.acts, 0, s, k0);
        assert(t.acts.subrange(0, itn) =~= t.acts);
        assert(s.subrange(k0 + seg.len(), k0 + seg.len() + 1)[0] == '}');
        assert(s[k0 + seg.len()] == '}');
    }
}

proof fn lemma_rt_acts(a: Seq<ActModel>, k: int, s: Seq<char>, i: int)
    requires
        plain_upto(a, a.len() as int),
        0 <= k < a.len(),
        0 <= i,
        i + (json_act(a[k]) + tail_from(a, k + 1) + seq![']']).len() <= s.len(),
        s.subrange(i, i + (json_act(a[k]) + tail_from(a, k + 1) + seq![']']).len()) == json_act(
            a[k],
        ) + tail_from(a, k + 1) + seq![']'],
    ensures
        p_acts(s, i) == Some(
            (
                a.subrange(k, a.len() as int),
                i + (json_act(a[k]) + tail_from(a, k + 1) + seq![']']).len(),
            ),
        ),
    decreases a, 1int, a.len() - k,
{
    reveal_strlit("{\"Read\":");
    reveal_strlit("{\"Seek\":");
    reveal_strlit("{\"Span\":");
    reveal_strlit("}");
    let lr = "{\"Read\":"@;
    let ls = "{\"Seek\":"@;
    let lp = "{\"Span\":"@;
    let ja = json_act(a[k]);
    let rest_txt = tail_from(a, k + 1) + seq![']'];
    let seg = ja + rest_txt;
    assert((ja + tail_from(a, k + 1)) + seq![']'] =~= seg);
    lemma_split_at(s, i, ja, rest_txt);
    lemma_plain_index(a, a.len() as int, k);
    let jend = i + ja.len();
    match a[k] {
        ActModel::Read(u) => {
            let d = dec_str(u as nat);
            assert(ja =~= lr + (d + seq!['}']));
            lemma_split_at(s, i, lr, d + seq!['}']);
            let i8 = i + lr.len();
            lemma_split_at(s, i8, d, seq!['}']);
            lemma_decstr_shape(u as nat);
            assert(s.subrange(i8, i8 + d.len())[0] == d[0]);
            assert(dval(s[i8]) < 10);
            lemma_rt_num(u as nat, 0, s, i8);
            let jn = i8 + d.len();
            assert(s.subrange(jn, jn + 1)[0] == '}');
            assert(s[jn] == '}');
            assert(p_num(s, i8, 0) == p_num(s, jn, 0 * dshift(u as nat) + (u as nat)));
            assert(0 * dshift(u as nat) + (u as nat) == u as nat);
            assert(p_num(s, jn, u as nat) == (u as nat, jn));
            assert(p_act(s, i) == Some((ActModel::Read(u), jn + 1)));
            assert(jend == jn + 1);
            assert(s[i] == lr[0]);
        },
        ActModel::Seek(u) => {
            let d = dec_str(u as nat);
            assert(ja =~= ls + (d + seq!['}']));
            lemma_split_at(s, i, ls, d + seq!['}']);
            assert(s.subrange(i, i + ls.len())[2] == ls[2]);
            assert(!lit_at(s, i, lr)) by {
                if lit_at(s, i, lr) {
                    assert(s.subrange(i, i + lr.len())[2] == lr[2]);
                }
            }
            let i8 = i + ls.len();
            lemma_split_at(s, i8, d, seq!['}']);
            lemma_decstr_shape(u as nat);
            assert(s.subrange(i8, i8 + d.len())[0] == d[0]);
            assert(dval(s[i8]) < 10);
            lemma_rt_num(u as nat, 0, s, i8);
            let jn = i8 + d.len();
            assert(s.subrange(jn, jn + 1)[0] == '}');
            assert(s[jn] == '}');
            assert(p_num(s, i8, 0) == p_num(s, jn, 0 * dshift(u as nat) + (u as nat)));
            assert(0 * dshift(u as nat) + (u as nat) == u as nat);
            assert(p_num(s, jn, u as nat) == (u as nat, jn));
            assert(p_act(s, i) == Some((ActModel::Seek(u), jn + 1)));
            assert(jend == jn + 1);
            assert(s[i] == ls[0]);
        },
        ActModel::Span(sub) => {
            assert(ja =~= lp + (json_of(sub) + seq!['}']));
            lemma_split_at(s, i, lp, json_of(sub) + seq!['}']);
            assert(s.subrange(i, i + lp.len())[2] == lp[2]);
            assert(s.subrange(i, i + lp.len())[3] == lp[3]);
            assert(!lit_at(s, i, lr)) by {
                if lit_at(s, i, lr) {
                    assert(s.subrange(i, i + lr.len())[2] == lr[2]);
                }
            }
            assert(!lit_at(s, i, ls)) by {
                if lit_at(s, i, ls) {
                    assert(s.subrange(i, i + ls.len())[3] == ls[3]);
                }
            }
            let i8 = i + lp.len();
            lemma_split_at(s, i8, json_of(sub), seq!['}']);
            lemma_rt_tree(sub, s, i8);
            let jn = i8 + json_of(sub).len();
            assert(s.subrange(jn, jn + 1)[0] == '}');
            assert(s[jn] == '}');
            assert(p_act(s, i) == Some((ActModel::Span(sub), jn + 1)));
            assert(jend == jn + 1);
            assert(s[i] == lp[0]);
        },
    }
    assert(s[i] == '{');
    assert(p_act(s, i) == Some((a[k], jend)));
    if k == a.len() - 1 {
        assert(tail_from(a, k + 1) =~= Seq::<char>::empty());
        assert(rest_txt =~= seq![']']);
        assert(s.subrange(jend, jend + rest_txt.len())[0] == ']');
        assert(s[jend] == ']');
        assert(seq![a[k]] =~= a.subrange(k, a.len() as int));
    } else {
        let seg2 = json_act(a[k + 1]) + tail_from(a, k + 2) + seq![']'];
        assert(tail_from(a, k + 1) == seq![','] + json_act(a[k + 1]) + tail_from(a, k + 2));
        assert(rest_txt =~= seq![','] + seg2);
        lemma_split_at(s, jend, seq![','], seg2);
        assert(s.subrange(jend, jend + 1)[0] == ',');
        assert(s[jend] == ',');
        lemma_rt_acts(a, k + 1, s, jend + 1);
        assert(seq![a[k]] + a.subrange(k + 1, a.len() as int) =~= a.subrange(k, a.len() as int));
    }
}

/// Round trip: parsing the serialized text of a tree yields the tree back,
/// provided no span name contains a double quote (such a name serializes,
/// but the text no longer marks where the name ends).
pub proof fn lemma_round_trip(t: TreeModel)
    requires
        plain_tree(t),
    ensures
        p_tree(json_of(t), 0) == Some((t, json_of(t).len() as int)),
{
    let s = json_of(t);
    assert(s.subrange(0, s.len() as int) =~= s);
    lemma_rt_tree(t, s, 0);
}

/// One decimal digit as borrowed text.
fn digit_str(d: usize) -> (r: &'static str)
    requires
        d < 10,
    ensures
        r@ == seq![digit(d as nat)],
{
    let r: &'static str = if d == 0 {
        "0"
    } else if d == 1 {
        "1"
    } else if d == 2 {
        "2"
    } else if d == 3 {
        "3"
    } else if d == 4 {
        "4"
    } else if d == 5 {
        "5"
    } else if d == 6 {
        "6"
    } else if d == 7 {
        "7"
    } else if d == 8 {
        "8"
    } else {
        "9"
    };
    proof {
        reveal_strlit("0");
        reveal_strlit("1");
        reveal_strlit("2");
        reveal_strlit("3");
        reveal_strlit("4");
        reveal_strlit("5");
        reveal_strlit("6");
        reveal_strlit("7");
        reveal_strlit("8");
        reveal_strlit("9");
        assert(r@ =~= seq![digit(d as nat)]);
    }
    r
}

/// Append the decimal digits of `n`.
fn push_num(s: &mut String, n: usize)
    ensures
        final(s)@ == old(s)@ + dec_str(n as nat),
    decreases n,
{
    if n < 10 {
        s.append(digit_str(n));
    } else {
        push_num(s, n / 10);
        s.append(digit_str(n % 10));
        proof {
            assert(final(s)@ =~= old(s)@ + dec_str(n as nat));
        }
    }
}

/// Append the serialized form of `t`.
fn push_tree(s: &mut String, t: &TreeSpan)
    ensures
        final(s)@ == old(s)@ + json_of(tree_view(*t)),
    decreases *t,
{
    let ghost tv = tree_view(*t);
    let ghost av = acts_view(t.actions@, 0);
    proof {
        lemma_acts_view_props(t.actions@, 0);
    }
    s.append("{\"name\":\"");
    s.append(t.name.as_str());
    s.append("\",\"actions\":[");
    let ghost header = s@;
    proof {
        assert(s@ =~= old(s)@ + ("{\"name\":\""@ + tv.name + "\",\"actions\":["@));
        assert(json_upto(av, 0) =~= Seq::<char>::empty());
        assert(s@ =~= header + json_upto(av, 0));
    }
    let mut k: usize = 0;
    let n = t.actions.len();
    while k < n
        invariant
            n == t.actions@.len(),
            k <= n,
            av == acts_view(t.actions@, 0),
            av.len() == n,
            forall|j: int| 0 <= j < n ==> av[j] == act_view(#[trigger] t.actions@[j]),
            s@ == header + json_upto(av, k as int),
        decreases n - k,
    {
        let ghost before = s@;
        if k > 0 {
            s.append(",");
            proof {
                reveal_strlit(",");
                assert(s@ =~= before + ","@);
            }
        }
        let ghost sep = s@;
        match &t.actions[k] {
            TreeAction::Read(sz) => {
                s.append("{\"Read\":");
                push_num(s, *sz);
                s.append("}");
                proof {
                    assert(s@ =~= sep + json_act(av[k as int]));
                }
            },
            TreeAction::Seek(off) => {
                s.append("{\"Seek\":");
                push_num(s, *off);
                s.append("}");
                proof {
                    assert(s@ =~= sep + json_act(av[k as int]));
                }
            },
            TreeAction::Span(sub) => {
                s.append("{\"Span\":");
                push_tree(s, sub);
                s.append("}");
                proof {
                    assert(s@ =~= sep + json_act(av[k as int]));
                }
            },
        }
        proof {
            if k > 0 {
                assert(s@ =~= header + json_upto(av, k + 1));
            } else {
                assert(s@ =~= header + json_upto(av, 1));
            }
        }
        k += 1;
    }
    s.append("]}");
    proof {
        assert(s@ =~= old(s)@ + json_of(tv));
    }
}

/// The serialized text of a finished tree, as written to the trace artifact.
pub fn to_json(t: &TreeSpan) -> (s: String)
    ensures
        s@ == json_of(tree_view(*t)),
{
    let mut s = String::new();
    push_tree(&mut s, t);
    proof {
        assert(s@ =~= json_of(tree_view(*t)));
    }
    s
}

} // verus!
