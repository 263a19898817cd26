use vstd::prelude::*;
use crate::rule::dedup_either;
use crate::simplify::{RuleKind, rewrite_by};
use crate::model::{CondModel, PatModel, count, count_list, product, queues, queues_list, satisfies};

verus! {

broadcast use vstd::seq::group_seq_axioms;

pub proof fn lemma_product_len(s: Seq<Seq<char>>, t: Seq<Seq<char>>)
    ensures
        product(s, t).len() == s.len() * t.len(),
    decreases s.len(),
{
    if s.len() > 0 {
        lemma_product_len(s.drop_last(), t);
        assert(s.len() * t.len() == (s.len() - 1) * t.len() + t.len()) by (nonlinear_arith);
    }
}

/// The count of every pattern equals the length of its queue list.
pub proof fn lemma_count_is_length(p: PatModel, w: Seq<char>)
    ensures
        count(p, w) == queues(p, w).len(),
    decreases p, 0nat,
{
    match p {
        PatModel::Either(a, b) => {
            lemma_count_is_length(*a, w);
            lemma_count_is_length(*b, w);
        },
        PatModel::Concat(a, b) => {
            lemma_count_is_length(*a, w);
            lemma_count_is_length(*b, w);
            lemma_product_len(queues(*a, w), queues(*b, w));
        },
        PatModel::Any(v) => lemma_count_list_is_length(v, w),
        PatModel::Group(c) => lemma_count_is_length(*c, w),
        _ => {},
    }
}

proof fn lemma_count_list_is_length(v: Seq<PatModel>, w: Seq<char>)
    ensures
        count_list(v, w) == queues_list(v, w).len(),
    decreases v, 1nat,
{
    if v.len() > 0 {
        lemma_count_is_length(v.last(), w);
        lemma_count_list_is_length(v.drop_last(), w);
    }
}

/// Selecting as many queues as a pattern counts is the full permutation.
pub proof fn lemma_take_count_is_all(p: PatModel, w: Seq<char>)
    ensures
        queues(PatModel::Take(Box::new(p), count(p, w)), w) == queues(PatModel::All(Box::new(p)), w),
        count(PatModel::Take(Box::new(p), count(p, w)), w) == count(PatModel::All(Box::new(p)), w),
{
    lemma_count_is_length(p, w);
}


/// Patterns built from symbols, wildcards, concatenations, alternations,
/// lists, groups and conditions, and the selections of no symbol or of every
/// symbol from a wildcard: their queue set is fixed by the queue sets of
/// their parts, whatever the order or repetition within them.
pub open spec fn set_determined(p: PatModel) -> bool
    decreases p,
{
    match p {
        PatModel::Either(a, b) => set_determined(*a) && set_determined(*b),
        PatModel::Concat(a, b) => set_determined(*a) && set_determined(*b),
        PatModel::Any(v) => forall|i: int| 0 <= i < v.len() ==> set_determined(#[trigger] v[i]),
        PatModel::Group(c) => set_determined(*c),
        PatModel::Condition(i, _) => set_determined(*i),
        PatModel::Take(c, k) => k == 0 && *c == PatModel::Wildcard,
        PatModel::All(c) => *c == PatModel::Wildcard,
        PatModel::Unique(_) => false,
        _ => true,
    }
}

pub proof fn lemma_empty_selection_determined()
    ensures
        set_determined(PatModel::Take(Box::new(PatModel::Wildcard), 0)),
{
}

pub proof fn lemma_single_determined(c: char)
    ensures
        set_determined(PatModel::Single(c)),
{
}

pub proof fn lemma_pair_determined(a: PatModel, b: PatModel)
    requires
        set_determined(a),
        set_determined(b),
    ensures
        set_determined(PatModel::Concat(Box::new(a), Box::new(b))),
        set_determined(PatModel::Either(Box::new(a), Box::new(b))),
{
}

/// The two patterns denote the same set of queues.
pub open spec fn same_set(p: PatModel, q: PatModel, w: Seq<char>) -> bool {
    queues(p, w).to_set() == queues(q, w).to_set()
}

pub proof fn lemma_same_set_intro(p: PatModel, q: PatModel, w: Seq<char>)
    requires
        forall|x: Seq<char>| queues(p, w).contains(x) <==> queues(q, w).contains(x),
    ensures
        same_set(p, q, w),
{
    assert(queues(p, w).to_set() =~= queues(q, w).to_set());
}

pub proof fn lemma_same_set_elim(p: PatModel, q: PatModel, w: Seq<char>)
    requires
        same_set(p, q, w),
    ensures
        forall|x: Seq<char>| queues(p, w).contains(x) <==> queues(q, w).contains(x),
{
    assert forall|x: Seq<char>| queues(p, w).contains(x) <==> queues(q, w).contains(x) by {
        assert(queues(p, w).to_set().contains(x) == queues(q, w).to_set().contains(x));
    }
}

pub proof fn lemma_product_contains(s: Seq<Seq<char>>, t: Seq<Seq<char>>, x: Seq<char>)
    ensures
        product(s, t).contains(x) <==> exists|i: int, j: int|
            0 <= i < s.len() && 0 <= j < t.len() && x == #[trigger] s[i] + #[trigger] t[j],
    decreases s.len(),
{
    if s.len() > 0 {
        lemma_product_contains(s.drop_last(), t, x);
        let rest = product(s.drop_last(), t);
        let tail = t.map_values(|y: Seq<char>| s.last() + y);
        if product(s, t).contains(x) {
            let k = choose|k: int| 0 <= k < product(s, t).len() && product(s, t)[k] == x;
            if k < rest.len() {
                assert(rest[k] == x);
                let (i, j) = choose|i: int, j: int|
                    0 <= i < s.drop_last().len() && 0 <= j < t.len() && x == #[trigger] s.drop_last()[i] + #[trigger] t[j];
                assert(s[i] == s.drop_last()[i]);
            } else {
                let j = k - rest.len();
                assert(tail[j] == x);
                assert(x == s[s.len() - 1] + t[j]);
            }
        }
        if exists|i: int, j: int| 0 <= i < s.len() && 0 <= j < t.len() && x == #[trigger] s[i] + #[trigger] t[j] {
            let (i, j) = choose|i: int, j: int|
                0 <= i < s.len() && 0 <= j < t.len() && x == #[trigger] s[i] + #[trigger] t[j];
            if i < s.len() - 1 {
                assert(s.drop_last()[i] == s[i]);
                assert(rest.contains(x));
                let k = choose|k: int| 0 <= k < rest.len() && rest[k] == x;
                assert(product(s, t)[k] == x);
            } else {
                assert(tail[j] == x);
                assert(product(s, t)[rest.len() + j] == x);
            }
        }
    }
}

pub proof fn lemma_list_contains(v: Seq<PatModel>, w: Seq<char>, x: Seq<char>)
    ensures
        queues_list(v, w).contains(x) <==> exists|i: int| 0 <= i < v.len() && queues(#[trigger] v[i], w).contains(x),
    decreases v.len(),
{
    if v.len() > 0 {
        lemma_list_contains(v.drop_last(), w, x);
        let rest = queues_list(v.drop_last(), w);
        let last = queues(v.last(), w);
        if queues_list(v, w).contains(x) {
            let k = choose|k: int| 0 <= k < queues_list(v, w).len() && queues_list(v, w)[k] == x;
            if k < rest.len() {
                assert(rest[k] == x);
                let i = choose|i: int| 0 <= i < v.drop_last().len() && queues(#[trigger] v.drop_last()[i], w).contains(x);
                assert(v[i] == v.drop_last()[i]);
            } else {
                assert(last[k - rest.len()] == x);
                assert(queues(v[v.len() - 1], w).contains(x));
            }
        }
        if exists|i: int| 0 <= i < v.len() && queues(#[trigger] v[i], w).contains(x) {
            let i = choose|i: int| 0 <= i < v.len() && queues(#[trigger] v[i], w).contains(x);
            if i < v.len() - 1 {
                assert(v.drop_last()[i] == v[i]);
                let k = choose|k: int| 0 <= k < rest.len() && rest[k] == x;
                assert(queues_list(v, w)[k] == x);
            } else {
                let k = choose|k: int| 0 <= k < last.len() && last[k] == x;
                assert(queues_list(v, w)[rest.len() + k] == x);
            }
        }
    }
}

pub proof fn lemma_list_concat(a: Seq<PatModel>, c: Seq<PatModel>, w: Seq<char>)
    ensures
        queues_list(a + c, w) == queues_list(a, w) + queues_list(c, w),
    decreases c.len(),
{
    if c.len() == 0 {
        assert(a + c =~= a);
        assert(queues_list(a, w) + queues_list(c, w) =~= queues_list(a, w));
    } else {
        lemma_list_concat(a, c.drop_last(), w);
        assert((a + c).drop_last() =~= a + c.drop_last());
        assert(queues_list(a + c, w) =~= queues_list(a, w) + queues_list(c, w));
    }
}

pub proof fn lemma_filter_member(s: Seq<Seq<char>>, f: spec_fn(Seq<char>) -> bool, x: Seq<char>)
    ensures
        s.filter(f).contains(x) <==> s.contains(x) && f(x),
    decreases s.len(),
{
    reveal(Seq::filter);
    if s.len() > 0 {
        lemma_filter_member(s.drop_last(), f, x);
        let rest = s.drop_last().filter(f);
        if s.filter(f).contains(x) {
            let k = choose|k: int| 0 <= k < s.filter(f).len() && s.filter(f)[k] == x;
            if k < rest.len() {
                assert(rest[k] == x);
                let j = choose|j: int| 0 <= j < s.drop_last().len() && s.drop_last()[j] == x;
                assert(s[j] == x);
            } else {
                assert(x == s.last());
            }
        }
        if s.contains(x) && f(x) {
            let j = choose|j: int| 0 <= j < s.len() && s[j] == x;
            if j < s.len() - 1 {
                assert(s.drop_last()[j] == x);
                let k = choose|k: int| 0 <= k < rest.len() && rest[k] == x;
                assert(s.filter(f)[k] == x);
            } else {
                assert(s.filter(f)[rest.len() as int] == x);
            }
        }
    }
}


proof fn lemma_product_split_right(s: Seq<Seq<char>>, b: Seq<Seq<char>>, c: Seq<Seq<char>>, x: Seq<char>)
    ensures
        product(s, b + c).contains(x) <==> product(s, b).contains(x) || product(s, c).contains(x),
{
    lemma_product_contains(s, b + c, x);
    lemma_product_contains(s, b, x);
    lemma_product_contains(s, c, x);
    if product(s, b + c).contains(x) {
        let (i, j) = choose|i: int, j: int|
            0 <= i < s.len() && 0 <= j < (b + c).len() && x == #[trigger] s[i] + #[trigger] (b + c)[j];
        if j < b.len() {
            assert(x == s[i] + b[j]);
        } else {
            assert(x == s[i] + c[j - b.len()]);
        }
    }
    if product(s, b).contains(x) {
        let (i, j) = choose|i: int, j: int| 0 <= i < s.len() && 0 <= j < b.len() && x == #[trigger] s[i] + #[trigger] b[j];
        assert(x == s[i] + (b + c)[j]);
    }
    if product(s, c).contains(x) {
        let (i, j) = choose|i: int, j: int| 0 <= i < s.len() && 0 <= j < c.len() && x == #[trigger] s[i] + #[trigger] c[j];
        assert(x == s[i] + (b + c)[b.len() + j]);
    }
}

proof fn lemma_product_split_left(s: Seq<Seq<char>>, u: Seq<Seq<char>>, b: Seq<Seq<char>>, x: Seq<char>)
    ensures
        product(s + u, b).contains(x) <==> product(s, b).contains(x) || product(u, b).contains(x),
{
    lemma_product_contains(s + u, b, x);
    lemma_product_contains(s, b, x);
    lemma_product_contains(u, b, x);
    if product(s + u, b).contains(x) {
        let (i, j) = choose|i: int, j: int|
            0 <= i < (s + u).len() && 0 <= j < b.len() && x == #[trigger] (s + u)[i] + #[trigger] b[j];
        if i < s.len() {
            assert(x == s[i] + b[j]);
        } else {
            assert(x == u[i - s.len()] + b[j]);
        }
    }
    if product(s, b).contains(x) {
        let (i, j) = choose|i: int, j: int| 0 <= i < s.len() && 0 <= j < b.len() && x == #[trigger] s[i] + #[trigger] b[j];
        assert(x == (s + u)[i] + b[j]);
    }
    if product(u, b).contains(x) {
        let (i, j) = choose|i: int, j: int| 0 <= i < u.len() && 0 <= j < b.len() && x == #[trigger] u[i] + #[trigger] b[j];
        assert(x == (s + u)[s.len() + i] + b[j]);
    }
}

/// Replacing the parts of an alternation or a concatenation by parts with
/// the same queue sets keeps the queue set.
pub proof fn lemma_pair_congruence(a: PatModel, b: PatModel, a2: PatModel, b2: PatModel, w: Seq<char>)
    requires
        same_set(a, a2, w),
        same_set(b, b2, w),
    ensures
        same_set(
            PatModel::Either(Box::new(a), Box::new(b)),
            PatModel::Either(Box::new(a2), Box::new(b2)),
            w,
        ),
        same_set(
            PatModel::Concat(Box::new(a), Box::new(b)),
            PatModel::Concat(Box::new(a2), Box::new(b2)),
            w,
        ),
{
    lemma_same_set_elim(a, a2, w);
    lemma_same_set_elim(b, b2, w);
    let (qa, qb, qa2, qb2) = (queues(a, w), queues(b, w), queues(a2, w), queues(b2, w));
    assert forall|x: Seq<char>| (qa + qb).contains(x) <==> (qa2 + qb2).contains(x) by {
        if (qa + qb).contains(x) {
            let k = choose|k: int| 0 <= k < (qa + qb).len() && (qa + qb)[k] == x;
            if k < qa.len() {
                assert(qa[k] == x);
                assert(qa.contains(x));
                assert(qa2.contains(x));
                let m = choose|m: int| 0 <= m < qa2.len() && qa2[m] == x;
                assert((qa2 + qb2)[m] == x);
            } else {
                assert(qb[k - qa.len()] == x);
                assert(qb.contains(x));
                assert(qb2.contains(x));
                let m = choose|m: int| 0 <= m < qb2.len() && qb2[m] == x;
                assert((qa2 + qb2)[qa2.len() + m] == x);
            }
        }
        if (qa2 + qb2).contains(x) {
            let k = choose|k: int| 0 <= k < (qa2 + qb2).len() && (qa2 + qb2)[k] == x;
            if k < qa2.len() {
                assert(qa2[k] == x);
                assert(qa2.contains(x));
                assert(qa.contains(x));
                let m = choose|m: int| 0 <= m < qa.len() && qa[m] == x;
                assert((qa + qb)[m] == x);
            } else {
                assert(qb2[k - qa2.len()] == x);
                assert(qb2.contains(x));
                assert(qb.contains(x));
                let m = choose|m: int| 0 <= m < qb.len() && qb[m] == x;
                assert((qa + qb)[qa.len() + m] == x);
            }
        }
    }
    lemma_same_set_intro(
        PatModel::Either(Box::new(a), Box::new(b)),
        PatModel::Either(Box::new(a2), Box::new(b2)),
        w,
    );
    assert forall|x: Seq<char>| product(qa, qb).contains(x) <==> product(qa2, qb2).contains(x) by {
        lemma_product_contains(qa, qb, x);
        lemma_product_contains(qa2, qb2, x);
        if product(qa, qb).contains(x) {
            let (i, j) = choose|i: int, j: int| 0 <= i < qa.len() && 0 <= j < qb.len() && x == #[trigger] qa[i] + #[trigger] qb[j];
            assert(qa.contains(qa[i]) && qb.contains(qb[j]));
            let i2 = choose|i2: int| 0 <= i2 < qa2.len() && qa2[i2] == qa[i];
            let j2 = choose|j2: int| 0 <= j2 < qb2.len() && qb2[j2] == qb[j];
            assert(x == qa2[i2] + qb2[j2]);
        }
        if product(qa2, qb2).contains(x) {
            let (i, j) = choose|i: int, j: int| 0 <= i < qa2.len() && 0 <= j < qb2.len() && x == #[trigger] qa2[i] + #[trigger] qb2[j];
            assert(qa2.contains(qa2[i]) && qb2.contains(qb2[j]));
            let i2 = choose|i2: int| 0 <= i2 < qa.len() && qa[i2] == qa2[i];
            let j2 = choose|j2: int| 0 <= j2 < qb.len() && qb[j2] == qb2[j];
            assert(x == qa[i2] + qb[j2]);
        }
    }
    lemma_same_set_intro(
        PatModel::Concat(Box::new(a), Box::new(b)),
        PatModel::Concat(Box::new(a2), Box::new(b2)),
        w,
    );
}

/// Replacing the members of a list by members with the same queue sets
/// keeps the queue set.
pub proof fn lemma_list_congruence(v: Seq<PatModel>, v2: Seq<PatModel>, w: Seq<char>)
    requires
        v.len() == v2.len(),
        forall|i: int| 0 <= i < v.len() ==> same_set(#[trigger] v[i], v2[i], w),
    ensures
        same_set(PatModel::Any(v), PatModel::Any(v2), w),
{
    assert forall|x: Seq<char>| queues_list(v, w).contains(x) <==> queues_list(v2, w).contains(x) by {
        lemma_list_contains(v, w, x);
        lemma_list_contains(v2, w, x);
        if queues_list(v, w).contains(x) {
            let i = choose|i: int| 0 <= i < v.len() && queues(#[trigger] v[i], w).contains(x);
            lemma_same_set_elim(v[i], v2[i], w);
            assert(queues(v2[i], w).contains(x));
        }
        if queues_list(v2, w).contains(x) {
            let i = choose|i: int| 0 <= i < v2.len() && queues(#[trigger] v2[i], w).contains(x);
            lemma_same_set_elim(v[i], v2[i], w);
            assert(queues(v[i], w).contains(x));
        }
    }
    assert(queues(PatModel::Any(v), w) == queues_list(v, w));
    assert(queues(PatModel::Any(v2), w) == queues_list(v2, w));
    lemma_same_set_intro(PatModel::Any(v), PatModel::Any(v2), w);
}

/// Replacing the filtered pattern of a condition by one with the same queue
/// set keeps the queue set.
pub proof fn lemma_condition_congruence(i: PatModel, i2: PatModel, c: CondModel, w: Seq<char>)
    requires
        same_set(i, i2, w),
    ensures
        same_set(
            PatModel::Condition(Box::new(i), Box::new(c)),
            PatModel::Condition(Box::new(i2), Box::new(c)),
            w,
        ),
{
    lemma_same_set_elim(i, i2, w);
    let f = satisfies(c, w);
    assert forall|x: Seq<char>| queues(i, w).filter(f).contains(x) <==> queues(i2, w).filter(f).contains(x) by {
        lemma_filter_member(queues(i, w), f, x);
        lemma_filter_member(queues(i2, w), f, x);
    }
    lemma_same_set_intro(
        PatModel::Condition(Box::new(i), Box::new(c)),
        PatModel::Condition(Box::new(i2), Box::new(c)),
        w,
    );
}


proof fn lemma_add_contains(a: Seq<Seq<char>>, b: Seq<Seq<char>>, x: Seq<char>)
    ensures
        (a + b).contains(x) <==> a.contains(x) || b.contains(x),
{
    if (a + b).contains(x) {
        let k = choose|k: int| 0 <= k < (a + b).len() && (a + b)[k] == x;
        if k < a.len() {
            assert(a[k] == x);
        } else {
            assert(b[k - a.len()] == x);
        }
    }
    if a.contains(x) {
        let k = choose|k: int| 0 <= k < a.len() && a[k] == x;
        assert((a + b)[k] == x);
    }
    if b.contains(x) {
        let k = choose|k: int| 0 <= k < b.len() && b[k] == x;
        assert((a + b)[a.len() + k] == x);
    }
}

proof fn lemma_either_self(a: PatModel, w: Seq<char>)
    ensures
        same_set(PatModel::Either(Box::new(a), Box::new(a)), a, w),
{
    assert forall|x: Seq<char>| queues(PatModel::Either(Box::new(a), Box::new(a)), w).contains(x) <==> queues(a, w).contains(x) by {
        lemma_add_contains(queues(a, w), queues(a, w), x);
    }
    lemma_same_set_intro(PatModel::Either(Box::new(a), Box::new(a)), a, w);
}

proof fn lemma_dedup_keeps_set(p: PatModel, w: Seq<char>)
    requires
        set_determined(p),
    ensures
        set_determined(dedup_either(p)),
        same_set(dedup_either(p), p, w),
    decreases p,
{
    if let PatModel::Either(l, r) = p {
        lemma_dedup_keeps_set(*l, w);
        lemma_dedup_keeps_set(*r, w);
        let a = dedup_either(*l);
        let b = dedup_either(*r);
        lemma_pair_congruence(a, b, *l, *r, w);
        if a == b {
            lemma_either_self(a, w);
        }
    }
}

/// Every rule keeps the queue set of a set-determined pattern, and keeps it
/// set-determined.
pub proof fn lemma_rewrite_keeps_set(k: RuleKind, p: PatModel, w: Seq<char>)
    requires
        set_determined(p),
    ensures
        set_determined(rewrite_by(k, p, w)),
        same_set(rewrite_by(k, p, w), p, w),
{
    let r = rewrite_by(k, p, w);
    match k {
        RuleKind::SharedPrefix => {
            if let PatModel::Either(l, rr) = p {
                if let (PatModel::Concat(t, b), PatModel::Concat(u, c)) = (*l, *rr) {
                    if t == u {
                        let (qt, qb, qc) = (queues(*t, w), queues(*b, w), queues(*c, w));
                        let e = PatModel::Either(b, c);
                        let g = PatModel::Group(Box::new(e));
                        assert(r == PatModel::Concat(t, Box::new(g)));
                        assert(set_determined(*l) && set_determined(*rr));
                        assert(set_determined(*t) && set_determined(*b) && set_determined(*c));
                        assert(set_determined(e));
                        assert(set_determined(g));
                        assert(queues(e, w) == qb + qc);
                        assert(queues(g, w) == qb + qc);
                        assert(queues(*l, w) == product(qt, qb));
                        assert(queues(*rr, w) == product(qt, qc));
                        assert(queues(r, w) == product(qt, qb + qc));
                        assert(queues(p, w) == product(qt, qb) + product(qt, qc));
                        assert forall|x: Seq<char>| queues(r, w).contains(x) <==> queues(p, w).contains(x) by {
                            lemma_product_split_right(qt, qb, qc, x);
                            lemma_add_contains(product(qt, qb), product(qt, qc), x);
                        }
                        lemma_same_set_intro(r, p, w);
                        return;
                    }
                }
            }
        },
        RuleKind::SharedSuffix => {
            if let PatModel::Either(l, rr) = p {
                if let (PatModel::Concat(t, b), PatModel::Concat(u, c)) = (*l, *rr) {
                    if b == c {
                        let (qt, qu, qb) = (queues(*t, w), queues(*u, w), queues(*b, w));
                        let e = PatModel::Either(t, u);
                        let g = PatModel::Group(Box::new(e));
                        assert(r == PatModel::Concat(Box::new(g), b));
                        assert(set_determined(*l) && set_determined(*rr));
                        assert(set_determined(*t) && set_determined(*b) && set_determined(*u));
                        assert(set_determined(e));
                        assert(set_determined(g));
                        assert(queues(e, w) == qt + qu);
                        assert(queues(g, w) == qt + qu);
                        assert(queues(*l, w) == product(qt, qb));
                        assert(queues(*rr, w) == product(qu, qb));
                        assert(queues(r, w) == product(qt + qu, qb));
                        assert(queues(p, w) == product(qt, qb) + product(qu, qb));
                        assert forall|x: Seq<char>| queues(r, w).contains(x) <==> queues(p, w).contains(x) by {
                            lemma_product_split_left(qt, qu, qb, x);
                            lemma_add_contains(product(qt, qb), product(qu, qb), x);
                        }
                        lemma_same_set_intro(r, p, w);
                        return;
                    }
                }
            }
        },
        RuleKind::DedupEither => {
            lemma_dedup_keeps_set(p, w);
            return;
        },
        RuleKind::JoinAnyAny => {
            if let PatModel::Either(l, rr) = p {
                if let (PatModel::Any(a), PatModel::Any(c)) = (*l, *rr) {
                    lemma_list_concat(a, c, w);
                    assert(queues(r, w) == queues_list(a + c, w));
                    assert(queues(*l, w) == queues_list(a, w));
                    assert(queues(*rr, w) == queues_list(c, w));
                    assert(queues(p, w) == queues_list(a, w) + queues_list(c, w));
                    assert(set_determined(*l) && set_determined(*rr));
                    assert forall|i: int| 0 <= i < (a + c).len() implies set_determined(#[trigger] (a + c)[i]) by {
                        if i < a.len() {
                            assert(set_determined(a[i]));
                        } else {
                            assert(set_determined(c[i - a.len()]));
                        }
                    }
                    return;
                }
            }
        },
        RuleKind::JoinSingleAny => {
            if let PatModel::Either(l, rr) = p {
                match (*l, *rr) {
                    (PatModel::Single(c), PatModel::Any(a)) => {
                        let one = seq![PatModel::Single(c)];
                        lemma_list_concat(one, a, w);
                        assert(one.drop_last() =~= Seq::<PatModel>::empty());
                        assert(queues_list(Seq::<PatModel>::empty(), w) == Seq::<Seq<char>>::empty());
                        assert(queues(PatModel::Single(c), w) == seq![seq![c]]);
                        assert(queues_list(one, w) =~= seq![seq![c]]);
                        assert(queues(r, w) == queues_list(one + a, w));
                        assert(queues(*l, w) == seq![seq![c]]);
                        assert(queues(*rr, w) == queues_list(a, w));
                        assert(queues(p, w) == seq![seq![c]] + queues_list(a, w));
                        assert(set_determined(*rr));
                        assert forall|i: int| 0 <= i < (one + a).len() implies set_determined(#[trigger] (one + a)[i]) by {
                            if i >= 1 {
                                assert(set_determined(a[i - 1]));
                            }
                        }
                        return;
                    },
                    (PatModel::Any(a), PatModel::Single(c)) => {
                        let one = seq![PatModel::Single(c)];
                        lemma_list_concat(one, a, w);
                        assert(one.drop_last() =~= Seq::<PatModel>::empty());
                        assert(queues_list(Seq::<PatModel>::empty(), w) == Seq::<Seq<char>>::empty());
                        assert(queues(PatModel::Single(c), w) == seq![seq![c]]);
                        assert(queues_list(one, w) =~= seq![seq![c]]);
                        assert(queues(r, w) == queues_list(one + a, w));
                        assert(queues(r, w) == seq![seq![c]] + queues_list(a, w));
                        assert(queues(*rr, w) == seq![seq![c]]);
                        assert(queues(*l, w) == queues_list(a, w));
                        assert(queues(p, w) == queues_list(a, w) + seq![seq![c]]);
                        assert(set_determined(*l));
                        assert forall|x: Seq<char>| queues(r, w).contains(x) <==> queues(p, w).contains(x) by {
                            lemma_add_contains(seq![seq![c]], queues_list(a, w), x);
                            lemma_add_contains(queues_list(a, w), seq![seq![c]], x);
                        }
                        lemma_same_set_intro(r, p, w);
                        assert forall|i: int| 0 <= i < (one + a).len() implies set_determined(#[trigger] (one + a)[i]) by {
                            if i >= 1 {
                                assert(set_determined(a[i - 1]));
                            }
                        }
                        return;
                    },
                    _ => {},
                }
            }
        },
        RuleKind::JoinSingleSingle => {
            if let PatModel::Either(l, rr) = p {
                if let (PatModel::Single(a), PatModel::Single(b)) = (*l, *rr) {
                    let v = seq![PatModel::Single(a), PatModel::Single(b)];
                    assert(v.drop_last() =~= seq![PatModel::Single(a)]);
                    assert(v.drop_last().drop_last() =~= Seq::<PatModel>::empty());
                    assert(queues_list(Seq::<PatModel>::empty(), w) == Seq::<Seq<char>>::empty());
                    assert(queues(PatModel::Single(a), w) == seq![seq![a]]);
                    assert(queues(PatModel::Single(b), w) == seq![seq![b]]);
                    assert(queues_list(v.drop_last(), w) =~= seq![seq![a]]);
                    assert(queues(r, w) == queues_list(v, w));
                    assert(queues_list(v, w) =~= seq![seq![a], seq![b]]);
                    assert(queues(p, w) =~= seq![seq![a], seq![b]]);
                    return;
                }
            }
        },
        RuleKind::TakeMax => {
            if let PatModel::Take(c, n) = p {
                lemma_count_is_length(*c, w);
                assert(queues(r, w) == queues(p, w));
            }
        },
        RuleKind::UnusedGroup => {},
    }
}


pub proof fn lemma_product_concat_left(s: Seq<Seq<char>>, u: Seq<Seq<char>>, b: Seq<Seq<char>>)
    ensures
        product(s + u, b) == product(s, b) + product(u, b),
    decreases u.len(),
{
    if u.len() == 0 {
        assert(s + u =~= s);
        assert(product(s, b) + product(u, b) =~= product(s, b));
    } else {
        lemma_product_concat_left(s, u.drop_last(), b);
        assert((s + u).drop_last() =~= s + u.drop_last());
        assert((s + u).last() == u.last());
        assert(product(s + u, b) =~= product(s, b) + product(u, b));
    }
}

pub proof fn lemma_product_concat_right(s: Seq<Seq<char>>, b: Seq<Seq<char>>, c: Seq<Seq<char>>)
    ensures
        product(s, b + c).to_multiset() == (product(s, b) + product(s, c)).to_multiset(),
    decreases s.len(),
{
    broadcast use vstd::multiset::group_multiset_axioms, vstd::seq_lib::lemma_multiset_commutative;

    if s.len() == 0 {
        assert(product(s, b) + product(s, c) =~= product(s, b + c));
    } else {
        lemma_product_concat_right(s.drop_last(), b, c);
        let f = |y: Seq<char>| s.last() + y;
        assert((b + c).map_values(f) =~= b.map_values(f) + c.map_values(f));
        let (pb, pc, pbc) = (product(s.drop_last(), b), product(s.drop_last(), c), product(
            s.drop_last(),
            b + c,
        ));
        assert(product(s, b + c) == pbc + (b + c).map_values(f));
        assert(product(s, b) == pb + b.map_values(f));
        assert(product(s, c) == pc + c.map_values(f));
        assert((pbc + (b.map_values(f) + c.map_values(f))).to_multiset() =~= ((pb + b.map_values(f))
            + (pc + c.map_values(f))).to_multiset());
        assert(pbc + (b + c).map_values(f) =~= pbc + (b.map_values(f) + c.map_values(f)));
    }
}

/// What each rule does to the queue list, for every pattern: the list is
/// kept as it is, or reordered, or (collapsing equal alternatives) kept as a set.
pub proof fn lemma_rewrite_keeps_queues(k: RuleKind, p: PatModel, w: Seq<char>)
    ensures
        (k == RuleKind::SharedSuffix || k == RuleKind::JoinAnyAny || k == RuleKind::JoinSingleSingle
            || k == RuleKind::TakeMax || k == RuleKind::UnusedGroup) ==> queues(rewrite_by(k, p, w), w)
            == queues(p, w),
        (k == RuleKind::SharedPrefix || k == RuleKind::JoinSingleAny) ==> queues(rewrite_by(k, p, w), w).to_multiset()
            == queues(p, w).to_multiset(),
        k == RuleKind::DedupEither ==> same_set(rewrite_by(k, p, w), p, w),
{
    broadcast use vstd::seq_lib::lemma_seq_union_to_multiset_commutative;

    let r = rewrite_by(k, p, w);
    match k {
        RuleKind::SharedPrefix => {
            if let PatModel::Either(l, rr) = p {
                if let (PatModel::Concat(t, b), PatModel::Concat(u, c)) = (*l, *rr) {
                    if t == u {
                        let (qt, qb, qc) = (queues(*t, w), queues(*b, w), queues(*c, w));
                        let e = PatModel::Either(b, c);
                        let g = PatModel::Group(Box::new(e));
                        assert(r == PatModel::Concat(t, Box::new(g)));
                        assert(queues(e, w) == qb + qc);
                        assert(queues(g, w) == qb + qc);
                        assert(queues(*l, w) == product(qt, qb));
                        assert(queues(*rr, w) == product(qt, qc));
                        assert(queues(r, w) == product(qt, qb + qc));
                        lemma_product_concat_right(qt, qb, qc);
                    }
                }
            }
        },
        RuleKind::SharedSuffix => {
            if let PatModel::Either(l, rr) = p {
                if let (PatModel::Concat(t, b), PatModel::Concat(u, c)) = (*l, *rr) {
                    if b == c {
                        let (qt, qu, qb) = (queues(*t, w), queues(*u, w), queues(*b, w));
                        let e = PatModel::Either(t, u);
                        let g = PatModel::Group(Box::new(e));
                        assert(r == PatModel::Concat(Box::new(g), b));
                        assert(queues(e, w) == qt + qu);
                        assert(queues(g, w) == qt + qu);
                        assert(queues(*l, w) == product(qt, qb));
                        assert(queues(*rr, w) == product(qu, qb));
                        assert(queues(r, w) == product(qt + qu, qb));
                        lemma_product_concat_left(qt, qu, qb);
                    }
                }
            }
        },
        RuleKind::DedupEither => {
            lemma_dedup_keeps_set_always(p, w);
        },
        RuleKind::JoinAnyAny => {
            if let PatModel::Either(l, rr) = p {
                if let (PatModel::Any(a), PatModel::Any(c)) = (*l, *rr) {
                    lemma_list_concat(a, c, w);
                    assert(queues(*l, w) == queues_list(a, w));
                    assert(queues(*rr, w) == queues_list(c, w));
                }
            }
        },
        RuleKind::JoinSingleAny => {
            if let PatModel::Either(l, rr) = p {
                match (*l, *rr) {
                    (PatModel::Single(c), PatModel::Any(a)) => {
                        let one = seq![PatModel::Single(c)];
                        lemma_list_concat(one, a, w);
                        assert(one.drop_last() =~= Seq::<PatModel>::empty());
                        assert(queues_list(Seq::<PatModel>::empty(), w) == Seq::<Seq<char>>::empty());
                        assert(queues(PatModel::Single(c), w) == seq![seq![c]]);
                        assert(queues_list(one, w) =~= seq![seq![c]]);
                        assert(queues(*l, w) == seq![seq![c]]);
                        assert(queues(*rr, w) == queues_list(a, w));
                    },
                    (PatModel::Any(a), PatModel::Single(c)) => {
                        let one = seq![PatModel::Single(c)];
                        lemma_list_concat(one, a, w);
                        assert(one.drop_last() =~= Seq::<PatModel>::empty());
                        assert(queues_list(Seq::<PatModel>::empty(), w) == Seq::<Seq<char>>::empty());
                        assert(queues(PatModel::Single(c), w) == seq![seq![c]]);
                        assert(queues_list(one, w) =~= seq![seq![c]]);
                        assert(queues(r, w) == seq![seq![c]] + queues_list(a, w));
                        assert(queues(*rr, w) == seq![seq![c]]);
                        assert(queues(*l, w) == queues_list(a, w));
                        assert(queues(p, w) == queues_list(a, w) + seq![seq![c]]);
                    },
                    _ => {},
                }
            }
        },
        RuleKind::JoinSingleSingle => {
            if let PatModel::Either(l, rr) = p {
                if let (PatModel::Single(a), PatModel::Single(b)) = (*l, *rr) {
                    let v = seq![PatModel::Single(a), PatModel::Single(b)];
                    assert(v.drop_last() =~= seq![PatModel::Single(a)]);
                    assert(v.drop_last().drop_last() =~= Seq::<PatModel>::empty());
                    assert(queues_list(Seq::<PatModel>::empty(), w) == Seq::<Seq<char>>::empty());
                    assert(queues(PatModel::Single(a), w) == seq![seq![a]]);
                    assert(queues(PatModel::Single(b), w) == seq![seq![b]]);
                    assert(queues_list(v.drop_last(), w) =~= seq![seq![a]]);
                    assert(queues(r, w) == queues_list(v, w));
                    assert(queues_list(v, w) =~= seq![seq![a], seq![b]]);
                    assert(queues(p, w) =~= seq![seq![a], seq![b]]);
                }
            }
        },
        RuleKind::TakeMax => {
            if let PatModel::Take(c, n) = p {
                lemma_count_is_length(*c, w);
            }
        },
        RuleKind::UnusedGroup => {},
    }
}

proof fn lemma_dedup_keeps_set_always(p: PatModel, w: Seq<char>)
    ensures
        same_set(dedup_either(p), p, w),
    decreases p,
{
    if let PatModel::Either(l, r) = p {
        lemma_dedup_keeps_set_always(*l, w);
        lemma_dedup_keeps_set_always(*r, w);
        let a = dedup_either(*l);
        let b = dedup_either(*r);
        lemma_pair_congruence(a, b, *l, *r, w);
        if a == b {
            lemma_either_self(a, w);
        }
    }
}

} // verus!
