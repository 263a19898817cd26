use vstd::prelude::*;
use crate::bag::Bag;
use crate::laws::{lemma_empty_selection_determined, lemma_pair_determined, lemma_single_determined, set_determined};
use crate::model::{
    PatModel, dedup_exact, join_at, lemma_queues_single, permutations_of, product, queues, take_queues,
};
use crate::pattern::{Pattern, all_within, pat_view, views};
use crate::queue::Queue;
use crate::simplify::{normal, simplified};

verus! {

broadcast use vstd::seq::group_seq_axioms;

/// How hard `find` works for a small pattern.
#[derive(Clone, Copy, Debug, PartialEq, Eq, Structural)]
pub enum Optimization {
    /// The literal alternation of the target queues, as it is.
    Fast,
    /// The literal alternation, checked against the target, then simplified.
    Exhaustive,
}

/// Why `find` was given an unusable target.
#[derive(Clone, Copy, Debug, PartialEq, Eq, Structural)]
pub enum FindError {
    /// The target holds no queue.
    EmptyTarget,
    /// The target holds a queue that the universe does not.
    NotInUniverse,
}

/// The pattern that spells out the queue `q`: its symbols in sequence, or,
/// for the empty queue, the selection of no symbol.
pub open spec fn literal_of(q: Seq<char>) -> PatModel
    decreases q.len(),
{
    if q.len() == 0 {
        PatModel::Take(Box::new(PatModel::Wildcard), 0)
    } else if q.len() == 1 {
        PatModel::Single(q[0])
    } else {
        PatModel::Concat(Box::new(literal_of(q.drop_last())), Box::new(PatModel::Single(q.last())))
    }
}

/// The left-folded alternation of the literal patterns of the queues of `qs`.
pub open spec fn literal_set(qs: Seq<Seq<char>>) -> PatModel
    decreases qs.len(),
{
    if qs.len() <= 1 {
        literal_of(qs[0])
    } else {
        PatModel::Either(Box::new(literal_set(qs.drop_last())), Box::new(literal_of(qs.last())))
    }
}

/// What the exhaustive search returns for `target` within `universe`: a
/// distinct error for an empty target and for one outside the universe; no
/// pattern only when the literal alternation fails to denote the target, which
/// cannot happen; otherwise the normal form of the literal alternation, which
/// denotes exactly the target set.
pub open spec fn exhaustive_outcome(
    universe: Seq<Seq<char>>,
    target: Seq<Seq<char>>,
    r: Result<Option<Pattern>, FindError>,
    w: Seq<char>,
) -> bool {
    let usable = target.len() > 0 && target.to_set().subset_of(universe.to_set());
    &&& (r == Err::<Option<Pattern>, FindError>(FindError::EmptyTarget)) == (target.len() == 0)
    &&& (r == Err::<Option<Pattern>, FindError>(FindError::NotInUniverse)) == (target.len() > 0
        && !target.to_set().subset_of(universe.to_set()))
    &&& r is Ok ==> (r == Ok::<Option<Pattern>, FindError>(None)) == (queues(literal_set(target), w).to_set()
        != target.to_set())
    &&& match r {
        Ok(Some(p)) => p@ == simplified(literal_set(target), w) && normal(p@, w) && queues(
            p@,
            w,
        ).to_set() == target.to_set(),
        _ => true,
    }
    &&& usable ==> r is Ok && r != Ok::<Option<Pattern>, FindError>(None)
}

impl Pattern {
    /// The symbols of a queue.
    fn queue_to_chars(queue: &Queue) -> (r: Vec<char>)
        ensures
            r@ == queue@,
    {
        queue.vec().clone()
    }

    /// The pattern that spells out one queue.
    fn queue_to_pattern(queue: &Queue) -> (r: Pattern)
        ensures
            r@ == literal_of(queue@),
    {
        let chars = Self::queue_to_chars(queue);
        assert(chars@ == queue@);
        if chars.len() == 0 {
            let r = Pattern::Take(Box::new(Pattern::Wildcard), 0);
            proof {
                lemma_view_empty_selection();
            }
            return r;
        }
        if chars.len() == 1 {
            assert(literal_of(queue@) == PatModel::Single(queue@[0]));
            let c0 = chars[0];
            let res = Pattern::Single(c0);
            proof {
                lemma_view_single(c0);
            }
            assert(c0 == queue@[0]);
            assert(res@ == PatModel::Single(queue@[0]));
            return res;
        }
        let mut result = Pattern::Single(chars[0]);
        proof {
            lemma_view_single(chars@[0]);
        }
        let mut i: usize = 1;
        assert(chars@.take(1) =~= seq![chars@[0]]);
        while i < chars.len()
            invariant
                1 <= i <= chars@.len(),
                chars@ == queue@,
                result@ == literal_of(chars@.take(i as int)),
            decreases chars@.len() - i,
        {
            assert(chars@.take(i + 1).drop_last() =~= chars@.take(i as int));
            assert(chars@.take(i + 1).last() == chars@[i as int]);
            proof {
                lemma_view_single(chars@[i as int]);
                lemma_view_pair(result, Pattern::Single(chars@[i as int]));
            }
            result = Pattern::Concat(Box::new(result), Box::new(Pattern::Single(chars[i])));
            i += 1;
        }
        assert(chars@.take(i as int) =~= chars@);
        result
    }

    /// The left-folded alternation that spells out each queue of `queues`.
    fn create_literal_pattern(queues: &[Queue]) -> (r: Pattern)
        requires
            queues@.len() >= 1,
        ensures
            r@ == literal_set(views(queues@)),
    {
        let mut result = Self::queue_to_pattern(&queues[0]);
        assert(views(queues@).take(1) =~= seq![views(queues@)[0]]);
        let mut i: usize = 1;
        while i < queues.len()
            invariant
                1 <= i <= queues@.len(),
                result@ == literal_set(views(queues@).take(i as int)),
            decreases queues@.len() - i,
        {
            let next = Self::queue_to_pattern(&queues[i]);
            assert(views(queues@).take(i + 1).drop_last() =~= views(queues@).take(i as int));
            proof {
                lemma_view_pair(result, next);
            }
            result = Pattern::Either(Box::new(result), Box::new(next));
            i += 1;
        }
        assert(views(queues@).take(i as int) =~= views(queues@));
        result
    }

    /// A pattern for exactly the queues of `set`: their literal alternation,
    /// checked to denote `set`, in normal form.
    pub fn find_exhaustive<B: Bag>(universe: &[Queue], set: &[Queue]) -> (r: Result<
        Option<Pattern>,
        FindError,
    >)
        ensures
            exhaustive_outcome(views(universe@), views(set@), r, B::alphabet()),
    {
        if set.len() == 0 {
            return Err(FindError::EmptyTarget);
        }
        if !all_within(set, universe) {
            proof {
                let x = choose|x: Seq<char>| views(set@).contains(x) && !views(universe@).contains(x);
                assert(views(set@).to_set().contains(x));
            }
            return Err(FindError::NotInUniverse);
        }
        assert(views(set@).to_set().subset_of(views(universe@).to_set()));
        let initial_pattern = Self::create_literal_pattern(set);
        proof {
            lemma_literal_set_queues(views(set@), B::alphabet());
        }
        if !initial_pattern.check::<B>(universe, set) {
            return Ok(None);
        }
        proof {
            lemma_literal_set_determined(views(set@));
        }
        Ok(Some(initial_pattern.simplify::<B>()))
    }

    /// A pattern for exactly the queues of `set`, worked for as `opt_level` says.
    pub fn find<B: Bag>(universe: &[Queue], set: &[Queue], opt_level: Optimization) -> (r: Result<
        Option<Pattern>,
        FindError,
    >)
        ensures
            (r == Err::<Option<Pattern>, FindError>(FindError::EmptyTarget)) == (set@.len() == 0),
            opt_level == Optimization::Fast && set@.len() > 0 ==> match r {
                Ok(Some(p)) => p@ == literal_set(views(set@)) && queues(p@, B::alphabet()) == views(
                    set@,
                ),
                _ => false,
            },
            opt_level == Optimization::Exhaustive ==> exhaustive_outcome(
                views(universe@),
                views(set@),
                r,
                B::alphabet(),
            ),
    {
        match opt_level {
            Optimization::Exhaustive => Self::find_exhaustive::<B>(universe, set),
            Optimization::Fast => {
                if set.len() == 0 {
                    Err(FindError::EmptyTarget)
                } else {
                    proof {
                        lemma_literal_set_queues(views(set@), B::alphabet());
                    }
                    Ok(Some(Self::create_literal_pattern(set)))
                }
            },
        }
    }
}


proof fn lemma_literal_of_determined(q: Seq<char>)
    ensures
        set_determined(literal_of(q)),
    decreases q.len(),
{
    if q.len() == 0 {
        lemma_empty_selection_determined();
    } else if q.len() > 1 {
        lemma_literal_of_determined(q.drop_last());
        let p = PatModel::Single(q.last());
        lemma_single_determined(q.last());
        lemma_pair_determined(literal_of(q.drop_last()), p);
        assert(literal_of(q) == PatModel::Concat(Box::new(literal_of(q.drop_last())), Box::new(p)));
    } else {
        assert(literal_of(q) == PatModel::Single(q[0]));
        lemma_single_determined(q[0]);
    }
}

proof fn lemma_literal_set_determined(qs: Seq<Seq<char>>)
    requires
        qs.len() > 0,
    ensures
        set_determined(literal_set(qs)),
    decreases qs.len(),
{
    if qs.len() > 1 {
        lemma_literal_set_determined(qs.drop_last());
        lemma_literal_of_determined(qs.last());
        lemma_pair_determined(literal_set(qs.drop_last()), literal_of(qs.last()));
    } else {
        lemma_literal_of_determined(qs[0]);
    }
}

/// The literal pattern of a queue denotes exactly that queue.
pub proof fn lemma_literal_of_queues(q: Seq<char>, w: Seq<char>)
    ensures
        queues(literal_of(q), w) == seq![q],
    decreases q.len(),
{
    if q.len() == 0 {
        let m = queues(PatModel::Wildcard, w);
        let joined = permutations_of(m.len(), 0).map_values(|idx: Seq<int>| join_at(m, idx));
        assert(permutations_of(m.len(), 0) == seq![Seq::<int>::empty()]);
        assert(join_at(m, Seq::<int>::empty()) == Seq::<char>::empty());
        assert(joined =~= seq![Seq::<char>::empty()]);
        assert(joined.drop_last() =~= Seq::<Seq<char>>::empty());
        assert(dedup_exact(joined.drop_last()) == Seq::<Seq<char>>::empty());
        assert(q =~= Seq::<char>::empty());
        assert(joined.last() == Seq::<char>::empty());
        assert(!Seq::<Seq<char>>::empty().contains(joined.last()));
        assert(dedup_exact(joined) =~= seq![q]);
        assert(queues(literal_of(q), w) == take_queues(m, 0));
    } else if q.len() == 1 {
        assert(literal_of(q) == PatModel::Single(q[0]));
        lemma_queues_single(q[0], w);
        assert(seq![q[0]] =~= q);
    } else {
        lemma_literal_of_queues(q.drop_last(), w);
        let a = literal_of(q.drop_last());
        let b = PatModel::Single(q.last());
        assert(literal_of(q) == PatModel::Concat(Box::new(a), Box::new(b)));
        lemma_queues_single(q.last(), w);
        let s = seq![q.drop_last()];
        let t = seq![seq![q.last()]];
        assert(queues(literal_of(q), w) == product(s, t));
        assert(s.drop_last() =~= Seq::<Seq<char>>::empty());
        assert(product(s.drop_last(), t) == Seq::<Seq<char>>::empty());
        assert(q.drop_last() + seq![q.last()] =~= q);
        assert(product(s, t) =~= seq![q]);
    }
}

/// The literal alternation of queues denotes exactly those queues, in order.
pub proof fn lemma_literal_set_queues(qs: Seq<Seq<char>>, w: Seq<char>)
    requires
        qs.len() > 0,
    ensures
        queues(literal_set(qs), w) == qs,
    decreases qs.len(),
{
    if qs.len() == 1 {
        lemma_literal_of_queues(qs[0], w);
        assert(seq![qs[0]] =~= qs);
    } else {
        lemma_literal_set_queues(qs.drop_last(), w);
        lemma_literal_of_queues(qs.last(), w);
        let a = literal_set(qs.drop_last());
        let b = literal_of(qs.last());
        assert(literal_set(qs) == PatModel::Either(Box::new(a), Box::new(b)));
        assert(queues(literal_set(qs), w) == queues(a, w) + queues(b, w));
        assert(qs.drop_last() + seq![qs.last()] =~= qs);
    }
}

proof fn lemma_view_single(c: char)
    ensures
        pat_view(Pattern::Single(c)) == PatModel::Single(c),
{
}

proof fn lemma_view_pair(a: Pattern, b: Pattern)
    ensures
        pat_view(Pattern::Concat(Box::new(a), Box::new(b))) == PatModel::Concat(
            Box::new(pat_view(a)),
            Box::new(pat_view(b)),
        ),
        pat_view(Pattern::Either(Box::new(a), Box::new(b))) == PatModel::Either(
            Box::new(pat_view(a)),
            Box::new(pat_view(b)),
        ),
{
}

proof fn lemma_view_empty_selection()
    ensures
        pat_view(Pattern::Take(Box::new(Pattern::Wildcard), 0)) == PatModel::Take(
            Box::new(PatModel::Wildcard),
            0,
        ),
{
    reveal_with_fuel(pat_view, 2);
}

} // verus!
