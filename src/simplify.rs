use vstd::prelude::*;
use crate::bag::Bag;
use crate::laws::{
    lemma_condition_congruence, lemma_list_congruence, lemma_pair_congruence, lemma_rewrite_keeps_queues,
    lemma_rewrite_keeps_set,
    same_set, set_determined,
};
use crate::model::{PatModel, queues};
use crate::pattern::{Pattern, lemma_list_view, lemma_list_view_push, list_view, pat_view};
use crate::rule::{
    DedupEither, JoinAnyAny, JoinSingleAny, JoinSingleSingle, Rule, SharedPrefix, SharedSuffix,
    TakeMax, UnusedGroup, dedup_either, join_any_any, join_single_any, join_single_single,
    shared_prefix, shared_suffix, take_max, unused_group, weight, weight_list,
};

verus! {

broadcast use vstd::seq::group_seq_axioms, vstd::std_specs::vec::group_vec_axioms;

/// The rewrite rules, by name.
#[derive(Clone, Copy, Debug, PartialEq, Eq, Structural)]
pub enum RuleKind {
    SharedPrefix,
    SharedSuffix,
    DedupEither,
    JoinAnyAny,
    JoinSingleAny,
    JoinSingleSingle,
    TakeMax,
    UnusedGroup,
}

pub open spec fn rewrite_by(k: RuleKind, p: PatModel, w: Seq<char>) -> PatModel {
    match k {
        RuleKind::SharedPrefix => shared_prefix(p),
        RuleKind::SharedSuffix => shared_suffix(p),
        RuleKind::DedupEither => dedup_either(p),
        RuleKind::JoinAnyAny => join_any_any(p),
        RuleKind::JoinSingleAny => join_single_any(p),
        RuleKind::JoinSingleSingle => join_single_single(p),
        RuleKind::TakeMax => take_max(p, w),
        RuleKind::UnusedGroup => unused_group(p),
    }
}

/// The name of each rule.
pub open spec fn rule_name(k: RuleKind) -> Seq<char> {
    match k {
        RuleKind::SharedPrefix => "shared_prefix"@,
        RuleKind::SharedSuffix => "shared_suffix"@,
        RuleKind::DedupEither => "dedup_either"@,
        RuleKind::JoinAnyAny => "join_any_any"@,
        RuleKind::JoinSingleAny => "join_single_any"@,
        RuleKind::JoinSingleSingle => "join_single_single"@,
        RuleKind::TakeMax => "take_max"@,
        RuleKind::UnusedGroup => "unused_group"@,
    }
}

/// The rules in the order they are tried.
pub open spec fn rule_order() -> Seq<RuleKind> {
    seq![
        RuleKind::SharedPrefix,
        RuleKind::SharedSuffix,
        RuleKind::DedupEither,
        RuleKind::JoinAnyAny,
        RuleKind::JoinSingleAny,
        RuleKind::JoinSingleSingle,
        RuleKind::TakeMax,
        RuleKind::UnusedGroup,
    ]
}

/// The result of the first rule of `rs` that changes `p`, or `p` if none does.
pub open spec fn first_change(rs: Seq<RuleKind>, p: PatModel, w: Seq<char>) -> PatModel
    decreases rs.len(),
{
    if rs.len() == 0 {
        p
    } else if rewrite_by(rs[0], p, w) != p {
        rewrite_by(rs[0], p, w)
    } else {
        first_change(rs.drop_first(), p, w)
    }
}

/// No rule changes `p` at its root.
pub open spec fn rules_quiet(p: PatModel, w: Seq<char>) -> bool {
    first_change(rule_order(), p, w) == p
}

/// The children that simplification visits are in normal form.
pub open spec fn children_normal(p: PatModel, w: Seq<char>) -> bool
    decreases p, 1nat,
{
    match p {
        PatModel::Either(a, b) => normal(*a, w) && normal(*b, w),
        PatModel::Concat(a, b) => normal(*a, w) && normal(*b, w),
        PatModel::Any(v) => forall|i: int| 0 <= i < v.len() ==> normal(#[trigger] v[i], w),
        PatModel::Group(c) => normal(*c, w),
        PatModel::Take(c, _) => normal(*c, w),
        PatModel::All(c) => normal(*c, w),
        PatModel::Condition(i, _) => normal(*i, w),
        PatModel::Unique(c) => normal(*c, w),
        _ => true,
    }
}

/// Normal form: no rule applies at the root, nor at any node that
/// simplification descends into.
pub open spec fn normal(p: PatModel, w: Seq<char>) -> bool
    decreases p, 2nat,
{
    rules_quiet(p, w) && children_normal(p, w)
}

/// The rules applied at the root until none changes the pattern.
pub open spec fn rules_fixpoint(p: PatModel, w: Seq<char>) -> PatModel
    decreases weight(p),
{
    let n = first_change(rule_order(), p, w);
    if n != p && weight(n) < weight(p) {
        rules_fixpoint(n, w)
    } else {
        p
    }
}

/// `p` with each child that simplification visits replaced by its normal form.
pub open spec fn rebuilt(p: PatModel, w: Seq<char>) -> PatModel
    decreases weight(p), 0nat,
{
    match p {
        PatModel::Either(a, b) => PatModel::Either(
            Box::new(simplified(*a, w)),
            Box::new(simplified(*b, w)),
        ),
        PatModel::Concat(a, b) => PatModel::Concat(
            Box::new(simplified(*a, w)),
            Box::new(simplified(*b, w)),
        ),
        PatModel::Any(v) => PatModel::Any(simplified_list(v, w)),
        PatModel::Group(c) => PatModel::Group(Box::new(simplified(*c, w))),
        PatModel::Take(c, n) => PatModel::Take(Box::new(simplified(*c, w)), n),
        PatModel::All(c) => PatModel::All(Box::new(simplified(*c, w))),
        PatModel::Condition(i, c) => PatModel::Condition(Box::new(simplified(*i, w)), c),
        PatModel::Unique(c) => PatModel::Unique(Box::new(simplified(*c, w))),
        _ => p,
    }
}

/// One round: children to normal form, then the rules at the root.
pub open spec fn simplify_step(p: PatModel, w: Seq<char>) -> PatModel
    decreases weight(p), 1nat,
{
    rules_fixpoint(rebuilt(p, w), w)
}

/// The normal form that simplification reaches: rounds until one changes nothing.
pub open spec fn simplified(p: PatModel, w: Seq<char>) -> PatModel
    decreases weight(p), 2nat,
{
    let n = simplify_step(p, w);
    if n != p && weight(n) < weight(p) {
        simplified(n, w)
    } else {
        p
    }
}

/// Each member of a list in normal form.
pub open spec fn simplified_list(v: Seq<PatModel>, w: Seq<char>) -> Seq<PatModel>
    decreases weight_list(v), 3nat,
{
    if v.len() == 0 {
        seq![]
    } else if weight_list(v.drop_last()) < weight_list(v) {
        simplified_list(v.drop_last(), w).push(simplified(v.last(), w))
    } else {
        seq![]
    }
}

/// A wildcard is in normal form.
pub proof fn lemma_wildcard_normal(w: Seq<char>)
    ensures
        normal(PatModel::Wildcard, w),
{
    reveal_with_fuel(first_change, 9);
    let p = PatModel::Wildcard;
    assert(rule_order().drop_first().drop_first().drop_first().drop_first().drop_first().drop_first().drop_first().drop_first()
        =~= Seq::<RuleKind>::empty());
    assert(first_change(rule_order(), p, w) == p);
}

pub proof fn lemma_weight_positive(p: PatModel)
    ensures
        weight(p) >= 1,
{
}

pub proof fn lemma_weight_list_concat(a: Seq<PatModel>, b: Seq<PatModel>)
    ensures
        weight_list(a + b) == weight_list(a) + weight_list(b),
    decreases b.len(),
{
    if b.len() == 0 {
        assert(a + b =~= a);
    } else {
        lemma_weight_list_concat(a, b.drop_last());
        assert((a + b).drop_last() =~= a + b.drop_last());
    }
}

pub proof fn lemma_dedup_either_weight(p: PatModel)
    ensures
        dedup_either(p) == p || weight(dedup_either(p)) < weight(p),
        weight(dedup_either(p)) <= weight(p),
    decreases p,
{
    if let PatModel::Either(l, r) = p {
        lemma_dedup_either_weight(*l);
        lemma_dedup_either_weight(*r);
    }
}

/// Every rule leaves a pattern unchanged or makes it strictly lighter.
pub proof fn lemma_rewrite_weight(k: RuleKind, p: PatModel, w: Seq<char>)
    ensures
        rewrite_by(k, p, w) == p || weight(rewrite_by(k, p, w)) < weight(p),
{
    reveal_with_fuel(weight_list, 3);
    reveal_with_fuel(weight, 3);
    match k {
        RuleKind::SharedPrefix => {
            if let PatModel::Either(l, r) = p {
                if let (PatModel::Concat(t, _), PatModel::Concat(_, _)) = (*l, *r) {
                    lemma_weight_positive(*t);
                }
            }
        },
        RuleKind::SharedSuffix => {
            if let PatModel::Either(l, r) = p {
                if let (PatModel::Concat(_, b), PatModel::Concat(_, _)) = (*l, *r) {
                    lemma_weight_positive(*b);
                }
            }
        },
        RuleKind::DedupEither => lemma_dedup_either_weight(p),
        RuleKind::JoinAnyAny => {
            if let PatModel::Either(l, r) = p {
                if let (PatModel::Any(a), PatModel::Any(c)) = (*l, *r) {
                    lemma_weight_list_concat(a, c);
                }
            }
        },
        RuleKind::JoinSingleAny => {
            if let PatModel::Either(l, r) = p {
                match (*l, *r) {
                    (PatModel::Single(c), PatModel::Any(a)) => {
                        lemma_weight_list_concat(seq![PatModel::Single(c)], a);
                        assert(seq![PatModel::Single(c)].drop_last() =~= Seq::<PatModel>::empty());
                        assert(weight_list(seq![PatModel::Single(c)]) == 1);
                    },
                    (PatModel::Any(a), PatModel::Single(c)) => {
                        lemma_weight_list_concat(seq![PatModel::Single(c)], a);
                        assert(seq![PatModel::Single(c)].drop_last() =~= Seq::<PatModel>::empty());
                        assert(weight_list(seq![PatModel::Single(c)]) == 1);
                    },
                    _ => {},
                }
            }
        },
        RuleKind::JoinSingleSingle => {
            if let PatModel::Either(l, r) = p {
                if let (PatModel::Single(a), PatModel::Single(b)) = (*l, *r) {
                    let v = seq![PatModel::Single(a), PatModel::Single(b)];
                    assert(v.drop_last() =~= seq![PatModel::Single(a)]);
                    assert(v.drop_last().drop_last() =~= Seq::<PatModel>::empty());
                    assert(weight_list(Seq::<PatModel>::empty()) == 0);
                    assert(weight_list(v.drop_last()) == 1);
                    assert(weight_list(v) == 2);
                    assert(weight(join_single_single(p)) == 3);
                    assert(weight(p) == 4);
                }
            }
        },
        RuleKind::TakeMax => {},
        RuleKind::UnusedGroup => {},
    }
}

/// Each member of a list weighs no more than the list.
pub proof fn lemma_member_weight(v: Seq<Pattern>)
    ensures
        forall|i: int| 0 <= i < v.len() ==> weight(#[trigger] pat_view(v[i])) <= weight_list(list_view(v)),
    decreases v.len(),
{
    if v.len() > 0 {
        lemma_member_weight(v.drop_last());
        assert forall|i: int| 0 <= i < v.len() implies weight(#[trigger] pat_view(v[i])) <= weight_list(list_view(v)) by {
            lemma_list_view(v);
            assert(list_view(v).drop_last() =~= list_view(v.drop_last()));
            assert(list_view(v).last() == pat_view(v.last()));
            if i < v.len() - 1 {
                assert(v.drop_last()[i] == v[i]);
            }
        }
    }
}

impl RuleKind {
    /// The rule's name.
    pub fn name(&self) -> (r: &'static str)
        ensures
            r@ == rule_name(*self),
    {
        match self {
            RuleKind::SharedPrefix => "shared_prefix",
            RuleKind::SharedSuffix => "shared_suffix",
            RuleKind::DedupEither => "dedup_either",
            RuleKind::JoinAnyAny => "join_any_any",
            RuleKind::JoinSingleAny => "join_single_any",
            RuleKind::JoinSingleSingle => "join_single_single",
            RuleKind::TakeMax => "take_max",
            RuleKind::UnusedGroup => "unused_group",
        }
    }

    pub fn apply<B: Bag>(&self, pat: &Pattern) -> (r: Pattern)
        ensures
            r@ == rewrite_by(*self, pat@, B::alphabet()),
            (*self == RuleKind::SharedSuffix || *self == RuleKind::JoinAnyAny || *self
                == RuleKind::JoinSingleSingle || *self == RuleKind::TakeMax || *self
                == RuleKind::UnusedGroup) ==> queues(r@, B::alphabet()) == queues(pat@, B::alphabet()),
            (*self == RuleKind::SharedPrefix || *self == RuleKind::JoinSingleAny) ==> queues(
                r@,
                B::alphabet(),
            ).to_multiset() == queues(pat@, B::alphabet()).to_multiset(),
            *self == RuleKind::DedupEither ==> same_set(r@, pat@, B::alphabet()),
    {
        proof {
            lemma_rewrite_keeps_queues(*self, pat@, B::alphabet());
        }
        match self {
            RuleKind::SharedPrefix => SharedPrefix.apply::<B>(pat),
            RuleKind::SharedSuffix => SharedSuffix.apply::<B>(pat),
            RuleKind::DedupEither => DedupEither.apply::<B>(pat),
            RuleKind::JoinAnyAny => JoinAnyAny.apply::<B>(pat),
            RuleKind::JoinSingleAny => JoinSingleAny.apply::<B>(pat),
            RuleKind::JoinSingleSingle => JoinSingleSingle.apply::<B>(pat),
            RuleKind::TakeMax => TakeMax.apply::<B>(pat),
            RuleKind::UnusedGroup => UnusedGroup.apply::<B>(pat),
        }
    }
}


/// Simplifies each pattern of `ps`.
fn simplify_list<B: Bag>(ps: &Vec<Pattern>) -> (r: Vec<Pattern>)
    ensures
        weight_list(list_view(r@)) <= weight_list(list_view(ps@)),
        list_view(r@) != list_view(ps@) ==> weight_list(list_view(r@)) < weight_list(
            list_view(ps@),
        ),
        forall|i: int| 0 <= i < r@.len() ==> normal(#[trigger] list_view(r@)[i], B::alphabet()),
        list_view(r@).len() == r@.len(),
        (forall|i: int| 0 <= i < ps@.len() ==> normal(#[trigger] list_view(ps@)[i], B::alphabet()))
            ==> list_view(r@) == list_view(ps@),
        r@.len() == ps@.len(),
        list_view(r@) == simplified_list(list_view(ps@), B::alphabet()),
        (forall|i: int| 0 <= i < ps@.len() ==> set_determined(#[trigger] pat_view(ps@[i]))) ==> forall|i: int|
            0 <= i < r@.len() ==> set_determined(#[trigger] pat_view(r@[i])) && same_set(
                pat_view(r@[i]),
                pat_view(ps@[i]),
                B::alphabet(),
            ),
    decreases weight_list(list_view(ps@)), 2nat,
{
    let ghost w = B::alphabet();
    proof {
        lemma_member_weight(ps@);
        lemma_list_view(ps@);
    }
    let mut out: Vec<Pattern> = Vec::new();
    let mut i: usize = 0;
    while i < ps.len()
        invariant
            i <= ps@.len(),
            out@.len() == i,
            w == B::alphabet(),
            list_view(ps@).len() == ps@.len(),
            forall|j: int| 0 <= j < ps@.len() ==> #[trigger] list_view(ps@)[j] == pat_view(ps@[j]),
            forall|j: int| 0 <= j < ps@.len() ==> weight(#[trigger] pat_view(ps@[j])) <= weight_list(list_view(ps@)),
            weight_list(list_view(out@)) <= weight_list(list_view(ps@.take(i as int))),
            list_view(out@) != list_view(ps@.take(i as int)) ==> weight_list(list_view(out@))
                < weight_list(list_view(ps@.take(i as int))),
            forall|j: int| 0 <= j < i ==> normal(#[trigger] pat_view(out@[j]), w),
            list_view(out@) == simplified_list(list_view(ps@.take(i as int)), w),
            (forall|j: int| 0 <= j < ps@.len() ==> set_determined(#[trigger] pat_view(ps@[j]))) ==> forall|j: int|
                0 <= j < i ==> set_determined(#[trigger] pat_view(out@[j])) && same_set(
                    pat_view(out@[j]),
                    pat_view(ps@[j]),
                    w,
                ),
            (forall|j: int| 0 <= j < ps@.len() ==> normal(#[trigger] list_view(ps@)[j], w))
                ==> list_view(out@) == list_view(ps@.take(i as int)),
        decreases ps@.len() - i,
    {
        let x = ps[i].simplify::<B>();
        proof {
            if forall|j: int| 0 <= j < ps@.len() ==> set_determined(#[trigger] pat_view(ps@[j])) {
                assert(set_determined(pat_view(ps@[i as int])));
            }
            assert(ps@.take(i + 1) =~= ps@.take(i as int).push(ps@[i as int]));
            lemma_list_view_push(ps@.take(i as int), ps@[i as int]);
            lemma_list_view_push(out@, x);
            let lo = list_view(out@);
            let lp = list_view(ps@.take(i as int));
            assert(lo.push(x@).drop_last() =~= lo);
            assert(lp.push(pat_view(ps@[i as int])).drop_last() =~= lp);
            lemma_weight_positive(pat_view(ps@[i as int]));
            assert(weight_list(lp.push(pat_view(ps@[i as int]))) == weight_list(lp) + weight(pat_view(ps@[i as int])));
            if lo.push(x@) != lp.push(pat_view(ps@[i as int])) {
                assert(lo != lp || x@ != pat_view(ps@[i as int]));
            }
            if forall|j: int| 0 <= j < ps@.len() ==> normal(#[trigger] list_view(ps@)[j], w) {
                assert(normal(list_view(ps@)[i as int], w));
                assert(x@ == pat_view(ps@[i as int]));
            }
        }
        out.push(x);
        i += 1;
    }
    proof {
        assert(ps@.take(i as int) =~= ps@);
        lemma_list_view(out@);
        assert forall|j: int| 0 <= j < out@.len() implies normal(#[trigger] list_view(out@)[j], w) by {
            assert(list_view(out@)[j] == pat_view(out@[j]));
        }
    }
    out
}

impl Pattern {
    /// The rewrite rules in the order they are tried.
    pub fn rules() -> (r: Vec<RuleKind>)
        ensures
            r@ == rule_order(),
    {
        let r = vec![
            RuleKind::SharedPrefix,
            RuleKind::SharedSuffix,
            RuleKind::DedupEither,
            RuleKind::JoinAnyAny,
            RuleKind::JoinSingleAny,
            RuleKind::JoinSingleSingle,
            RuleKind::TakeMax,
            RuleKind::UnusedGroup,
        ];
        assert(r@ =~= rule_order());
        r
    }

    /// Applies the first rule that changes the pattern, again and again from
    /// the first rule, until none does.
    fn apply_all_rules<B: Bag>(pattern: &Pattern) -> (r: Pattern)
        ensures
            rules_quiet(r@, B::alphabet()),
            weight(r@) <= weight(pattern@),
            r@ != pattern@ ==> weight(r@) < weight(pattern@),
            rules_quiet(pattern@, B::alphabet()) ==> r@ == pattern@,
            set_determined(pattern@) ==> set_determined(r@) && same_set(r@, pattern@, B::alphabet()),
            r@ == rules_fixpoint(pattern@, B::alphabet()),
    {
        let ghost w = B::alphabet();
        let rules = Self::rules();
        let mut current = pattern.copy();
        let mut changed = true;
        while changed
            invariant
                w == B::alphabet(),
                rules@ == rule_order(),
                weight(current@) <= weight(pattern@),
                current@ != pattern@ ==> weight(current@) < weight(pattern@),
                rules_quiet(pattern@, w) ==> current@ == pattern@,
                !changed ==> rules_quiet(current@, w),
                set_determined(pattern@) ==> set_determined(current@) && same_set(current@, pattern@, w),
                rules_fixpoint(current@, w) == rules_fixpoint(pattern@, w),
                !changed ==> current@ == rules_fixpoint(pattern@, w),
            decreases 2 * weight(current@) + if changed { 1int } else { 0int },
        {
            changed = false;
            let ghost start = current@;
            assert(rule_order().subrange(0, 8) =~= rule_order());
            let mut i: usize = 0;
            while i < rules.len() && !changed
                invariant
                    w == B::alphabet(),
                    rules@ == rule_order(),
                    i <= rules@.len(),
                    weight(start) <= weight(pattern@),
                    start != pattern@ ==> weight(start) < weight(pattern@),
                    rules_quiet(pattern@, w) ==> start == pattern@,
                    changed ==> current@ != start && weight(current@) < weight(start),
                    changed ==> current@ == first_change(rule_order(), start, w),
                    rules_fixpoint(start, w) == rules_fixpoint(pattern@, w),
                    rules_quiet(pattern@, w) ==> !changed,
                    set_determined(pattern@) ==> set_determined(start) && same_set(start, pattern@, w),
                    set_determined(pattern@) ==> set_determined(current@) && same_set(current@, pattern@, w),
                    !changed ==> current@ == start,
                    !changed ==> first_change(rule_order(), start, w) == first_change(
                        rule_order().subrange(i as int, 8),
                        start,
                        w,
                    ),
                decreases rules@.len() - i,
            {
                let next = rules[i].apply::<B>(&current);
                assert(rule_order().subrange(i as int, 8).drop_first() =~= rule_order().subrange(
                    i + 1,
                    8,
                ));
                if !next.same(&current) {
                    proof {
                        lemma_rewrite_weight(rules@[i as int], start, w);
                        if set_determined(pattern@) {
                            lemma_rewrite_keeps_set(rules@[i as int], start, w);
                        }
                        assert(rule_order().subrange(i as int, 8)[0] == rules@[i as int]);
                        assert(first_change(rule_order().subrange(i as int, 8), start, w) == next@);
                    }
                    current = next;
                    changed = true;
                }
                i += 1;
            }
            proof {
                if !changed {
                    assert(rule_order().subrange(i as int, 8) =~= Seq::<RuleKind>::empty());
                    assert(first_change(rule_order(), start, w) == start);
                } else {
                    assert(rules_fixpoint(start, w) == rules_fixpoint(current@, w));
                }
            }
        }
        current
    }

    /// One round of simplification: the children that are simplified are
    /// brought to normal form, then the rules are applied at the root.
    pub fn simplify_one<B: Bag>(&self) -> (r: Pattern)
        ensures
            weight(r@) <= weight(self@),
            r@ != self@ ==> weight(r@) < weight(self@),
            r@ == self@ ==> normal(self@, B::alphabet()),
            normal(self@, B::alphabet()) ==> r@ == self@,
            set_determined(self@) ==> set_determined(r@) && same_set(r@, self@, B::alphabet()),
            r@ == simplify_step(self@, B::alphabet()),
        decreases weight(self@), 0nat,
    {
        let ghost w = B::alphabet();
        let post = match self {
            Pattern::Single(c) => Pattern::Single(*c),
            Pattern::Wildcard => Pattern::Wildcard,
            Pattern::Either(a, b) => {
                let x = a.simplify::<B>();
                let y = b.simplify::<B>();
                proof {
                    if set_determined(self@) {
                        lemma_pair_congruence(x@, y@, (**a)@, (**b)@, w);
                    }
                }
                Pattern::Either(Box::new(x), Box::new(y))
            },
            Pattern::Concat(a, b) => {
                let x = a.simplify::<B>();
                let y = b.simplify::<B>();
                proof {
                    if set_determined(self@) {
                        lemma_pair_congruence(x@, y@, (**a)@, (**b)@, w);
                    }
                }
                Pattern::Concat(Box::new(x), Box::new(y))
            },
            Pattern::Any(ps) => {
                proof {
                    lemma_list_view(ps@);
                }
                let v = simplify_list::<B>(ps);
                proof {
                    lemma_list_view(v@);
                    if set_determined(self@) {
                        assert forall|i: int| 0 <= i < ps@.len() implies set_determined(#[trigger] pat_view(ps@[i])) by {
                            assert(list_view(ps@)[i] == pat_view(ps@[i]));
                        }
                        assert forall|i: int| 0 <= i < list_view(v@).len() implies same_set(
                            #[trigger] list_view(v@)[i],
                            list_view(ps@)[i],
                            w,
                        ) by {
                            assert(list_view(v@)[i] == pat_view(v@[i]));
                            assert(list_view(ps@)[i] == pat_view(ps@[i]));
                        }
                        lemma_list_congruence(list_view(v@), list_view(ps@), w);
                        assert forall|i: int| 0 <= i < list_view(v@).len() implies set_determined(#[trigger] list_view(v@)[i]) by {
                            assert(list_view(v@)[i] == pat_view(v@[i]));
                        }
                    }
                }
                Pattern::Any(v)
            },
            Pattern::Group(c) => Pattern::Group(Box::new(c.simplify::<B>())),
            Pattern::Take(i, c) => {
                proof {
                    lemma_wildcard_normal(w);
                }
                Pattern::Take(Box::new(i.simplify::<B>()), *c)
            },
            Pattern::All(i) => {
                proof {
                    lemma_wildcard_normal(w);
                }
                Pattern::All(Box::new(i.simplify::<B>()))
            },
            Pattern::Condition(i, c) => {
                let x = i.simplify::<B>();
                let y = c.copy();
                proof {
                    if set_determined(self@) {
                        lemma_condition_congruence(x@, (**i)@, (**c)@, w);
                    }
                }
                Pattern::Condition(Box::new(x), Box::new(y))
            },
            Pattern::Unique(c) => Pattern::Unique(Box::new(c.simplify::<B>())),
        };
        assert(set_determined(self@) ==> set_determined(post@) && same_set(post@, self@, w));
        assert(post@ == rebuilt(self@, w));
        assert(children_normal(post@, w));
        assert(weight(post@) <= weight(self@));
        assert(post@ != self@ ==> weight(post@) < weight(self@));
        assert(children_normal(self@, w) ==> post@ == self@);
        Self::apply_all_rules::<B>(&post)
    }

    /// The normal form of this pattern: rounds of simplification until one
    /// changes nothing.
    pub fn simplify<B: Bag>(&self) -> (r: Pattern)
        ensures
            normal(r@, B::alphabet()),
            normal(self@, B::alphabet()) ==> r@ == self@,
            weight(r@) <= weight(self@),
            r@ != self@ ==> weight(r@) < weight(self@),
            set_determined(self@) ==> set_determined(r@) && same_set(r@, self@, B::alphabet()),
            r@ == simplified(self@, B::alphabet()),
        decreases weight(self@), 1nat,
    {
        let mut current = self.copy();
        loop
            invariant
                weight(current@) <= weight(self@),
                current@ != self@ ==> weight(current@) < weight(self@),
                normal(self@, B::alphabet()) ==> current@ == self@,
                simplified(current@, B::alphabet()) == simplified(self@, B::alphabet()),
                set_determined(self@) ==> set_determined(current@) && same_set(
                    current@,
                    self@,
                    B::alphabet(),
                ),
            ensures
                normal(current@, B::alphabet()),
                current@ == simplified(self@, B::alphabet()),
            decreases weight(current@),
        {
            let next = current.simplify_one::<B>();
            if next.same(&current) {
                break;
            }
            current = next;
        }
        current
    }
}

} // verus!
