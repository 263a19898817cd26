use vstd::prelude::*;
use crate::bag::Bag;
use crate::laws::lemma_count_is_length;
use crate::model::{PatModel, count, pat_nodes, queues};
use crate::pattern::{Pattern, copy_list, lemma_list_view, lemma_list_view_push, list_view, pat_view};

verus! {

broadcast use vstd::seq::group_seq_axioms, vstd::std_specs::vec::group_vec_axioms;

/// The measure every rewrite strictly lowers: an alternation of two weighs
/// more than a list of the same members, a selection more than a full permutation.
pub open spec fn weight(p: PatModel) -> nat
    decreases p,
{
    match p {
        PatModel::Either(a, b) => 2 + weight(*a) + weight(*b),
        PatModel::Concat(a, b) => 1 + weight(*a) + weight(*b),
        PatModel::Any(v) => 1 + weight_list(v),
        PatModel::Group(c) => 1 + weight(*c),
        PatModel::Take(c, _) => 2 + weight(*c),
        PatModel::All(c) => 1 + weight(*c),
        PatModel::Condition(i, _) => 1 + weight(*i),
        PatModel::Unique(c) => 1 + weight(*c),
        _ => 1,
    }
}

pub open spec fn weight_list(v: Seq<PatModel>) -> nat
    decreases v,
{
    if v.len() == 0 {
        0
    } else {
        weight_list(v.drop_last()) + weight(v.last())
    }
}

/// `AB;AC` becomes `A(B;C)`.
pub open spec fn shared_prefix(p: PatModel) -> PatModel {
    match p {
        PatModel::Either(l, r) => match (*l, *r) {
            (PatModel::Concat(t, b), PatModel::Concat(u, c)) => if t == u {
                PatModel::Concat(t, Box::new(PatModel::Group(Box::new(PatModel::Either(b, c)))))
            } else {
                p
            },
            _ => p,
        },
        _ => p,
    }
}

/// `AC;BC` becomes `(A;B)C`.
pub open spec fn shared_suffix(p: PatModel) -> PatModel {
    match p {
        PatModel::Either(l, r) => match (*l, *r) {
            (PatModel::Concat(t, b), PatModel::Concat(u, c)) => if b == c {
                PatModel::Concat(Box::new(PatModel::Group(Box::new(PatModel::Either(t, u)))), b)
            } else {
                p
            },
            _ => p,
        },
        _ => p,
    }
}

/// Within a chain of alternations, `A;A` becomes `A`.
pub open spec fn dedup_either(p: PatModel) -> PatModel
    decreases p,
{
    match p {
        PatModel::Either(l, r) => {
            let a = dedup_either(*l);
            let b = dedup_either(*r);
            if a == b {
                a
            } else {
                PatModel::Either(Box::new(a), Box::new(b))
            }
        },
        _ => p,
    }
}

/// `[A];[B]` becomes `[AB]`.
pub open spec fn join_any_any(p: PatModel) -> PatModel {
    match p {
        PatModel::Either(l, r) => match (*l, *r) {
            (PatModel::Any(a), PatModel::Any(c)) => PatModel::Any(a + c),
            _ => p,
        },
        _ => p,
    }
}

/// `T;[A]` and `[A];T` become `[TA]`.
pub open spec fn join_single_any(p: PatModel) -> PatModel {
    match p {
        PatModel::Either(l, r) => match (*l, *r) {
            (PatModel::Single(c), PatModel::Any(a)) => PatModel::Any(seq![PatModel::Single(c)] + a),
            (PatModel::Any(a), PatModel::Single(c)) => PatModel::Any(seq![PatModel::Single(c)] + a),
            _ => p,
        },
        _ => p,
    }
}

/// `T;O` becomes `[TO]`.
pub open spec fn join_single_single(p: PatModel) -> PatModel {
    match p {
        PatModel::Either(l, r) => match (*l, *r) {
            (PatModel::Single(a), PatModel::Single(b)) => PatModel::Any(
                seq![PatModel::Single(a), PatModel::Single(b)],
            ),
            _ => p,
        },
        _ => p,
    }
}

/// A selection of as many queues as the inner pattern counts becomes a full
/// permutation; any other selection is left as it is.
pub open spec fn take_max(p: PatModel, w: Seq<char>) -> PatModel {
    match p {
        PatModel::Take(c, n) => if count(*c, w) == n {
            PatModel::All(c)
        } else {
            p
        },
        _ => p,
    }
}

/// `(A)` becomes `A`.
pub open spec fn unused_group(p: PatModel) -> PatModel {
    match p {
        PatModel::Group(c) => *c,
        _ => p,
    }
}

/// A rewrite rule: a function on patterns that leaves every pattern of
/// another shape unchanged.
pub trait Rule {
    spec fn rewrite(p: PatModel, w: Seq<char>) -> PatModel;

    fn name(&self) -> &'static str;

    fn apply<B: Bag>(&self, pat: &Pattern) -> (r: Pattern)
        ensures
            r@ == Self::rewrite(pat@, B::alphabet()),
    ;
}

pub struct SharedPrefix;

pub struct SharedSuffix;

pub struct DedupEither;

pub struct JoinAnyAny;

pub struct JoinSingleAny;

pub struct JoinSingleSingle;

pub struct TakeMax;

pub struct UnusedGroup;

impl Rule for SharedPrefix {
    open spec fn rewrite(p: PatModel, w: Seq<char>) -> PatModel {
        shared_prefix(p)
    }

    fn name(&self) -> &'static str {
        "shared_prefix"
    }

    fn apply<B: Bag>(&self, pat: &Pattern) -> (r: Pattern) {
        proof {
            reveal_with_fuel(pat_view, 3);
        }
        if let Pattern::Either(l, r) = pat {
            if let (Pattern::Concat(t, b), Pattern::Concat(u, c)) = (&**l, &**r) {
                if t.same(u) {
                    return Pattern::Concat(
                        Box::new(t.copy()),
                        Box::new(
                            Pattern::Group(
                                Box::new(Pattern::Either(Box::new(b.copy()), Box::new(c.copy()))),
                            ),
                        ),
                    );
                }
            }
        }
        pat.copy()
    }
}

impl Rule for SharedSuffix {
    open spec fn rewrite(p: PatModel, w: Seq<char>) -> PatModel {
        shared_suffix(p)
    }

    fn name(&self) -> &'static str {
        "shared_suffix"
    }

    fn apply<B: Bag>(&self, pat: &Pattern) -> (r: Pattern) {
        proof {
            reveal_with_fuel(pat_view, 3);
        }
        if let Pattern::Either(l, r) = pat {
            if let (Pattern::Concat(t, b), Pattern::Concat(u, c)) = (&**l, &**r) {
                if b.same(c) {
                    return Pattern::Concat(
                        Box::new(
                            Pattern::Group(
                                Box::new(Pattern::Either(Box::new(t.copy()), Box::new(u.copy()))),
                            ),
                        ),
                        Box::new(b.copy()),
                    );
                }
            }
        }
        pat.copy()
    }
}

/// The alternation chain of `pat` with equal branches collapsed, bottom-up.
/// Branches are compared as trees.
fn collapse_either(pat: &Pattern) -> (r: Pattern)
    ensures
        r@ == dedup_either(pat@),
    decreases pat_nodes(pat@),
{
    proof {
        reveal_with_fuel(pat_view, 2);
    }
    match pat {
        Pattern::Either(l, r) => {
            let a = collapse_either(l);
            let b = collapse_either(r);
            if a.same(&b) {
                a
            } else {
                Pattern::Either(Box::new(a), Box::new(b))
            }
        },
        _ => pat.copy(),
    }
}

impl Rule for DedupEither {
    open spec fn rewrite(p: PatModel, w: Seq<char>) -> PatModel {
        dedup_either(p)
    }

    fn name(&self) -> &'static str {
        "dedup_either"
    }

    fn apply<B: Bag>(&self, pat: &Pattern) -> (r: Pattern) {
        proof {
            reveal_with_fuel(pat_view, 3);
        }
        collapse_either(pat)
    }
}

impl Rule for JoinAnyAny {
    open spec fn rewrite(p: PatModel, w: Seq<char>) -> PatModel {
        join_any_any(p)
    }

    fn name(&self) -> &'static str {
        "join_any_any"
    }

    fn apply<B: Bag>(&self, pat: &Pattern) -> (r: Pattern) {
        proof {
            reveal_with_fuel(pat_view, 3);
        }
        if let Pattern::Either(l, r) = pat {
            if let (Pattern::Any(a), Pattern::Any(c)) = (&**l, &**r) {
                let mut out = copy_list(a);
                let mut rest = copy_list(c);
                let ghost (x, y) = (out@, rest@);
                out.append(&mut rest);
                proof {
                    lemma_list_view_concat(x, y);
                }
                return Pattern::Any(out);
            }
        }
        pat.copy()
    }
}

impl Rule for JoinSingleAny {
    open spec fn rewrite(p: PatModel, w: Seq<char>) -> PatModel {
        join_single_any(p)
    }

    fn name(&self) -> &'static str {
        "join_single_any"
    }

    fn apply<B: Bag>(&self, pat: &Pattern) -> (r: Pattern) {
        proof {
            reveal_with_fuel(pat_view, 3);
        }
        if let Pattern::Either(l, r) = pat {
            match (&**l, &**r) {
                (Pattern::Single(c), Pattern::Any(a)) | (Pattern::Any(a), Pattern::Single(c)) => {
                    let mut out: Vec<Pattern> = Vec::new();
                    out.push(Pattern::Single(*c));
                    let mut rest = copy_list(a);
                    let ghost (x, y) = (out@, rest@);
                    out.append(&mut rest);
                    proof {
                        lemma_list_view_concat(x, y);
                        lemma_list_view_push(Seq::empty(), Pattern::Single(*c));
                        assert(Seq::<Pattern>::empty().push(Pattern::Single(*c)) =~= x);
                        assert(list_view(Seq::<Pattern>::empty()) =~= Seq::<PatModel>::empty());
                        assert(list_view(x) =~= seq![PatModel::Single(*c)]);
                    }
                    return Pattern::Any(out);
                },
                _ => {},
            }
        }
        pat.copy()
    }
}

impl Rule for JoinSingleSingle {
    open spec fn rewrite(p: PatModel, w: Seq<char>) -> PatModel {
        join_single_single(p)
    }

    fn name(&self) -> &'static str {
        "join_single_single"
    }

    fn apply<B: Bag>(&self, pat: &Pattern) -> (r: Pattern) {
        proof {
            reveal_with_fuel(pat_view, 3);
        }
        if let Pattern::Either(l, r) = pat {
            if let (Pattern::Single(a), Pattern::Single(b)) = (&**l, &**r) {
                let v = vec![Pattern::Single(*a), Pattern::Single(*b)];
                proof {
                    lemma_list_view(v@);
                    assert(list_view(v@) =~= seq![PatModel::Single(*a), PatModel::Single(*b)]);
                }
                return Pattern::Any(v);
            }
        }
        pat.copy()
    }
}

impl Rule for TakeMax {
    open spec fn rewrite(p: PatModel, w: Seq<char>) -> PatModel {
        take_max(p, w)
    }

    fn name(&self) -> &'static str {
        "take_max"
    }

    fn apply<B: Bag>(&self, pat: &Pattern) -> (r: Pattern) {
        proof {
            reveal_with_fuel(pat_view, 3);
        }
        if let Pattern::Take(c, n) = pat {
            let qs = c.queues::<B>();
            proof {
                lemma_count_is_length(pat_view(**c), B::alphabet());
            }
            if qs.len() == *n {
                return Pattern::All(Box::new(c.copy()));
            }
        }
        pat.copy()
    }
}

impl Rule for UnusedGroup {
    open spec fn rewrite(p: PatModel, w: Seq<char>) -> PatModel {
        unused_group(p)
    }

    fn name(&self) -> &'static str {
        "unused_group"
    }

    fn apply<B: Bag>(&self, pat: &Pattern) -> (r: Pattern) {
        proof {
            reveal_with_fuel(pat_view, 3);
        }
        if let Pattern::Group(c) = pat {
            return c.copy();
        }
        pat.copy()
    }
}

pub proof fn lemma_list_view_concat(a: Seq<Pattern>, b: Seq<Pattern>)
    ensures
        list_view(a + b) == list_view(a) + list_view(b),
    decreases b.len(),
{
    if b.len() == 0 {
        assert(a + b =~= a);
        assert(list_view(a) + list_view(b) =~= list_view(a));
    } else {
        lemma_list_view_concat(a, b.drop_last());
        assert((a + b).drop_last() =~= a + b.drop_last());
        assert(list_view(a + b) =~= list_view(a) + list_view(b));
    }
}

} // verus!
