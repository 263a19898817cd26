use vstd::prelude::*;
use crate::bag::Bag;
use crate::condition::{Condition, cond_view};
use crate::laws::lemma_count_is_length;
use crate::model::cond_nodes;
use crate::model::{PatModel, list_text, text_of, count, count_fits, count_list, lemma_count_list_prefix, pat_size, satisfies, list_nodes, pat_nodes, dedup_exact, holds, join_at, loose_eq, product, queues, queues_list, take_queues, unique_loose};
use crate::queue::{Queue, index_permutations, push_decimal, string_of};

verus! {

broadcast use vstd::seq::group_seq_axioms, vstd::std_specs::vec::group_vec_axioms;

/// A pattern: an expression whose meaning is a finite, ordered list of queues.
#[derive(Debug)]
pub enum Pattern {
    /// Exactly one symbol: `T`.
    Single(char),
    /// The queues of the first, then those of the second: `A;B`.
    Either(Box<Pattern>, Box<Pattern>),
    /// Every queue of the first followed by every queue of the second: `AB`.
    Concat(Box<Pattern>, Box<Pattern>),
    /// The queues of each member in turn: `[AB]`.
    Any(Vec<Pattern>),
    /// Parentheses: `(A)`.
    Group(Box<Pattern>),
    /// One symbol, any of the alphabet: `*`.
    Wildcard,
    /// Ordered selections of the given size without replacement: `A3`.
    Take(Box<Pattern>, usize),
    /// Ordered selections of every queue: `A!`.
    All(Box<Pattern>),
    /// The queues that satisfy a condition: `A{C}`.
    Condition(Box<Pattern>, Box<Condition>),
    /// The first queue of each group of queues with the same symbols: `A?`.
    Unique(Box<Pattern>),
}

pub open spec fn pat_view(p: Pattern) -> PatModel
    decreases p,
{
    match p {
        Pattern::Single(c) => PatModel::Single(c),
        Pattern::Either(a, b) => PatModel::Either(Box::new(pat_view(*a)), Box::new(pat_view(*b))),
        Pattern::Concat(a, b) => PatModel::Concat(Box::new(pat_view(*a)), Box::new(pat_view(*b))),
        Pattern::Any(v) => PatModel::Any(list_view(v@)),
        Pattern::Group(c) => PatModel::Group(Box::new(pat_view(*c))),
        Pattern::Wildcard => PatModel::Wildcard,
        Pattern::Take(c, k) => PatModel::Take(Box::new(pat_view(*c)), k as nat),
        Pattern::All(c) => PatModel::All(Box::new(pat_view(*c))),
        Pattern::Condition(i, c) => PatModel::Condition(
            Box::new(pat_view(*i)),
            Box::new(cond_view(*c)),
        ),
        Pattern::Unique(c) => PatModel::Unique(Box::new(pat_view(*c))),
    }
}

pub open spec fn list_view(v: Seq<Pattern>) -> Seq<PatModel>
    decreases v,
{
    if v.len() == 0 {
        seq![]
    } else {
        list_view(v.drop_last()).push(pat_view(v.last()))
    }
}

impl View for Pattern {
    type V = PatModel;

    open spec fn view(&self) -> PatModel {
        pat_view(*self)
    }
}

/// The symbols of each queue of a list.
pub open spec fn views(s: Seq<Queue>) -> Seq<Seq<char>> {
    s.map_values(|q: Queue| q@)
}

pub proof fn lemma_list_view(v: Seq<Pattern>)
    ensures
        list_view(v).len() == v.len(),
        forall|i: int| 0 <= i < v.len() ==> #[trigger] list_view(v)[i] == pat_view(v[i]),
    decreases v.len(),
{
    if v.len() > 0 {
        lemma_list_view(v.drop_last());
    }
}

pub proof fn lemma_views_push(s: Seq<Queue>, q: Queue)
    ensures
        views(s.push(q)) == views(s).push(q@),
{
    assert(views(s.push(q)) =~= views(s).push(q@));
}

/// Each member of an alternation list is smaller than the list.
pub proof fn lemma_member_nodes(v: Seq<Pattern>)
    ensures
        forall|i: int| 0 <= i < v.len() ==> pat_nodes(#[trigger] pat_view(v[i])) <= list_nodes(list_view(v)),
    decreases v.len(),
{
    if v.len() > 0 {
        lemma_member_nodes(v.drop_last());
        assert forall|i: int| 0 <= i < v.len() implies pat_nodes(#[trigger] pat_view(v[i])) <= list_nodes(list_view(v)) by {
            lemma_list_view(v);
            assert(list_view(v).drop_last() =~= list_view(v.drop_last()));
            assert(list_view(v).last() == pat_view(v.last()));
            if i < v.len() - 1 {
                assert(v.drop_last()[i] == v[i]);
            }
        }
    }
}

/// Joins the queues of `m` at the positions `idx`.
fn join_positions(m: &Vec<Queue>, idx: &Vec<usize>) -> (r: Queue)
    requires
        forall|a: int| 0 <= a < idx@.len() ==> idx@[a] < m@.len(),
    ensures
        r@ == join_at(views(m@), idx@.map_values(|i: usize| i as int)),
{
    let ghost ix = idx@.map_values(|i: usize| i as int);
    let mut q = Queue::new(Vec::new());
    let mut t: usize = 0;
    while t < idx.len()
        invariant
            t <= idx@.len(),
            forall|a: int| 0 <= a < idx@.len() ==> idx@[a] < m@.len(),
            ix == idx@.map_values(|i: usize| i as int),
            q@ == join_at(views(m@), ix.take(t as int)),
        decreases idx@.len() - t,
    {
        let part = m[idx[t]].copy();
        assert(ix.take(t + 1).drop_last() =~= ix.take(t as int));
        q = q.join(part);
        t += 1;
    }
    assert(ix.take(t as int) =~= ix);
    q
}

/// Removal of every exact repetition of an earlier element, first
/// occurrences kept in order.
pub trait FullDedup: Sized {
    spec fn deduplicates(r: Self, s: Self) -> bool;

    fn full_dedup(self) -> (r: Self)
        ensures
            Self::deduplicates(r, self),
    ;
}

impl FullDedup for Vec<Queue> {
    open spec fn deduplicates(r: Self, s: Self) -> bool {
        views(r@) == dedup_exact(views(s@))
    }

    fn full_dedup(self) -> (r: Self) {
        dedup_queues(self)
    }
}

/// Removes every exact repetition of an earlier queue.
fn dedup_queues(v: Vec<Queue>) -> (r: Vec<Queue>)
    ensures
        views(r@) == dedup_exact(views(v@)),
{
    let mut out: Vec<Queue> = Vec::new();
    let mut i: usize = 0;
    while i < v.len()
        invariant
            i <= v@.len(),
            views(out@) == dedup_exact(views(v@).take(i as int)),
        decreases v@.len() - i,
    {
        let mut seen = false;
        let mut j: usize = 0;
        while j < out.len()
            invariant
                j <= out@.len(),
                i < v@.len(),
                seen == exists|a: int| 0 <= a < j && out@[a]@ == v@[i as int]@,
            decreases out@.len() - j,
        {
            if out[j].same(&v[i]) {
                seen = true;
            }
            j += 1;
        }
        let ghost prev = views(out@);
        assert(views(v@).take(i + 1).drop_last() =~= views(v@).take(i as int));
        if seen {
            proof {
                let a = choose|a: int| 0 <= a < j && out@[a]@ == v@[i as int]@;
                assert(prev[a] == v@[i as int]@);
            }
        } else {
            assert(!prev.contains(v@[i as int]@)) by {
                if prev.contains(v@[i as int]@) {
                    let a = choose|a: int| 0 <= a < prev.len() && prev[a] == v@[i as int]@;
                    assert(out@[a]@ == v@[i as int]@);
                }
            }
            out.push(v[i].copy());
            assert(views(out@) =~= prev.push(v@[i as int]@));
        }
        i += 1;
    }
    assert(views(v@).take(i as int) =~= views(v@));
    out
}

/// The ordered `k`-selections of the queues of `m`, each joined, without repeats.
fn take_from(m: &Vec<Queue>, k: usize) -> (r: Vec<Queue>)
    ensures
        views(r@) == take_queues(views(m@), k as nat),
        k > m@.len() ==> r@.len() == 0,
{
    let perms = index_permutations(m.len(), k);
    let ghost pv = perms@.map_values(|p: Vec<usize>| p@.map_values(|i: usize| i as int));
    let ghost f = |idx: Seq<int>| join_at(views(m@), idx);
    let mut joined: Vec<Queue> = Vec::new();
    let mut i: usize = 0;
    while i < perms.len()
        invariant
            i <= perms@.len(),
            pv == perms@.map_values(|p: Vec<usize>| p@.map_values(|i: usize| i as int)),
            forall|j: int|
                0 <= j < perms@.len() ==> (#[trigger] perms@[j])@.len() == k && forall|a: int|
                    0 <= a < k ==> perms@[j]@[a] < m@.len(),
            f == (|idx: Seq<int>| join_at(views(m@), idx)),
            views(joined@) == pv.take(i as int).map_values(f),
        decreases perms@.len() - i,
    {
        let q = join_positions(m, &perms[i]);
        assert(pv[i as int] == perms@[i as int]@.map_values(|i: usize| i as int));
        assert(q@ == f(pv[i as int]));
        proof {
            lemma_views_push(joined@, q);
        }
        joined.push(q);
        assert(views(joined@) =~= pv.take(i + 1).map_values(f));
        i += 1;
    }
    assert(pv.take(i as int) =~= pv);
    let r = joined.full_dedup();
    proof {
        if k > m@.len() {
            assert(views(joined@) =~= Seq::<Seq<char>>::empty());
            assert(views(r@).len() == 0);
        }
    }
    r
}

impl Pattern {
    /// The queues this pattern denotes, in generation order.
    pub fn queues<B: Bag>(&self) -> (r: Vec<Queue>)
        ensures
            views(r@) == queues(self@, B::alphabet()),
            match self@ {
                PatModel::Take(c, k) => k > queues(*c, B::alphabet()).len() ==> r@.len() == 0,
                _ => true,
            },
        decreases pat_nodes(self@), 0nat,
    {
        let ghost w = B::alphabet();
        match self {
            Pattern::Single(c) => {
                let q = Queue::new(vec![*c]);
                assert(q@ =~= seq![*c]);
                let mut r: Vec<Queue> = Vec::new();
                r.push(q);
                assert(views(r@) =~= queues(self@, w));
                r
            },
            Pattern::Either(a, b) => {
                let mut r = a.queues::<B>();
                let mut s = b.queues::<B>();
                let ghost (r0, s0) = (r@, s@);
                r.append(&mut s);
                assert(views(r@) =~= views(r0) + views(s0));
                r
            },
            Pattern::Concat(a, b) => {
                let ta = a.queues::<B>();
                let tb = b.queues::<B>();
                let ghost (va, vb) = (views(ta@), views(tb@));
                let mut r: Vec<Queue> = Vec::new();
                let mut i: usize = 0;
                while i < ta.len()
                    invariant
                        i <= ta@.len(),
                        va == views(ta@),
                        vb == views(tb@),
                        views(r@) == product(va.take(i as int), vb),
                    decreases ta@.len() - i,
                {
                    let ghost before = views(r@);
                    let mut j: usize = 0;
                    while j < tb.len()
                        invariant
                            i < ta@.len(),
                            j <= tb@.len(),
                            va == views(ta@),
                            vb == views(tb@),
                            views(r@) == before + vb.take(j as int).map_values(
                                |y: Seq<char>| va[i as int] + y,
                            ),
                        decreases tb@.len() - j,
                    {
                        let q = ta[i].join(tb[j].copy());
                        assert(q@ == va[i as int] + vb[j as int]);
                        proof {
                            lemma_views_push(r@, q);
                        }
                        r.push(q);
                        assert(views(r@) =~= before + vb.take(j + 1).map_values(
                            |y: Seq<char>| va[i as int] + y,
                        ));
                        j += 1;
                    }
                    assert(va.take(i + 1).drop_last() =~= va.take(i as int));
                    assert(vb.take(j as int) =~= vb);
                    i += 1;
                }
                assert(va.take(i as int) =~= va);
                assert(views(r@) == queues(self@, w));
                r
            },
            Pattern::Any(members) => {
                let ghost ms = members@;
                let mut r: Vec<Queue> = Vec::new();
                proof {
                    lemma_member_nodes(ms);
                }
                let mut i: usize = 0;
                while i < members.len()
                    invariant
                        i <= ms.len(),
                        self@ == PatModel::Any(list_view(ms)),
                        forall|j: int| 0 <= j < ms.len() ==> pat_nodes(#[trigger] pat_view(ms[j])) < pat_nodes(self@),
                        ms == members@,
                        views(r@) == queues_list(list_view(ms.take(i as int)), w),
                        w == B::alphabet(),
                    decreases ms.len() - i,
                {
                    let mut s = members[i].queues::<B>();
                    let ghost (r0, s0) = (r@, s@);
                    r.append(&mut s);
                    assert(ms.take(i + 1).drop_last() =~= ms.take(i as int));
                    proof {
                        lemma_list_view(ms.take(i + 1));
                    }
                    assert(list_view(ms.take(i + 1)).drop_last() =~= list_view(ms.take(i as int)));
                    assert(views(r@) =~= views(r0) + views(s0));
                    i += 1;
                }
                assert(ms.take(i as int) =~= ms);
                assert(views(r@) == queues(self@, w));
                r
            },
            Pattern::Group(c) => c.queues::<B>(),
            Pattern::Wildcard => {
                let syms = B::wildcard();
                let mut r: Vec<Queue> = Vec::new();
                let mut i: usize = 0;
                while i < syms.len()
                    invariant
                        i <= syms@.len(),
                        syms@ == w,
                        w == B::alphabet(),
                        views(r@) == w.take(i as int).map_values(|c: char| seq![c]),
                    decreases syms@.len() - i,
                {
                    let q = Queue::new(vec![syms[i]]);
                    assert(q@ =~= seq![w[i as int]]);
                    proof {
                        lemma_views_push(r@, q);
                    }
                    r.push(q);
                    assert(views(r@) =~= w.take(i + 1).map_values(|c: char| seq![c]));
                    i += 1;
                }
                assert(w.take(i as int) =~= w);
                assert(views(r@) == queues(self@, w));
                r
            },
            Pattern::Take(c, k) => {
                let m = c.queues::<B>();
                take_from(&m, *k)
            },
            Pattern::All(c) => {
                let m = c.queues::<B>();
                take_from(&m, m.len())
            },
            Pattern::Condition(inner, cond) => {
                let qs = inner.queues::<B>();
                let ghost vq = views(qs@);
                let ghost f = satisfies(cond_view(**cond), w);
                assert(cond_nodes(cond_view(**cond)) < pat_nodes(self@));
                let mut r: Vec<Queue> = Vec::new();
                let mut i: usize = 0;
                while i < qs.len()
                    invariant
                        i <= qs@.len(),
                        vq == views(qs@),
                        w == B::alphabet(),
                        f == satisfies(cond_view(**cond), w),
                        cond_nodes(cond_view(**cond)) < pat_nodes(self@),
                        views(r@) == vq.take(i as int).filter(f),
                    decreases qs@.len() - i,
                {
                    let keep = cond.has::<B>(&qs[i]);
                    let ghost r0 = views(r@);
                    assert(vq.take(i + 1).drop_last() =~= vq.take(i as int));
                    reveal(Seq::filter);
                    if keep {
                        r.push(qs[i].copy());
                        assert(views(r@) =~= r0.push(vq[i as int]));
                    }
                    i += 1;
                }
                assert(vq.take(i as int) =~= vq);
                r
            },
            Pattern::Unique(c) => {
                let qs = c.queues::<B>();
                let ghost vq = views(qs@);
                let mut r: Vec<Queue> = Vec::new();
                let mut i: usize = 0;
                while i < qs.len()
                    invariant
                        i <= qs@.len(),
                        vq == views(qs@),
                        views(r@) == unique_loose(vq.take(i as int)),
                    decreases qs@.len() - i,
                {
                    let mut seen = false;
                    let mut j: usize = 0;
                    while j < r.len()
                        invariant
                            j <= r@.len(),
                            i < qs@.len(),
                            seen == exists|a: int| 0 <= a < j && loose_eq(r@[a]@, qs@[i as int]@),
                        decreases r@.len() - j,
                    {
                        if r[j].loose_eq(&qs[i]) {
                            seen = true;
                        }
                        j += 1;
                    }
                    let ghost prev = views(r@);
                    assert(vq.take(i + 1).drop_last() =~= vq.take(i as int));
                    if seen {
                        proof {
                            let a = choose|a: int| 0 <= a < j && loose_eq(r@[a]@, qs@[i as int]@);
                            assert(loose_eq(prev[a], vq[i as int]));
                        }
                    } else {
                        assert forall|a: int| 0 <= a < prev.len() implies !loose_eq(#[trigger] prev[a], vq[i as int]) by {
                            assert(prev[a] == r@[a]@);
                        }
                        r.push(qs[i].copy());
                        assert(views(r@) =~= prev.push(vq[i as int]));
                    }
                    i += 1;
                }
                assert(vq.take(i as int) =~= vq);
                assert(views(r@) == queues(self@, w));
                r
            },
        }
    }
}


/// Whether `q` is one of the queues of `v`.
pub fn contains_queue(v: &[Queue], q: &Queue) -> (r: bool)
    ensures
        r == views(v@).contains(q@),
{
    let mut i: usize = 0;
    while i < v.len()
        invariant
            i <= v@.len(),
            forall|j: int| 0 <= j < i ==> v@[j]@ != q@,
        decreases v@.len() - i,
    {
        if v[i].same(q) {
            assert(views(v@)[i as int] == q@);
            return true;
        }
        i += 1;
    }
    assert forall|j: int| 0 <= j < views(v@).len() implies views(v@)[j] != q@ by {
        assert(views(v@)[j] == v@[j]@);
    }
    false
}

/// Whether every queue of `a` is one of `b`.
pub(crate) fn all_within(a: &[Queue], b: &[Queue]) -> (r: bool)
    ensures
        r == forall|x: Seq<char>| views(a@).contains(x) ==> views(b@).contains(x),
{
    let mut i: usize = 0;
    while i < a.len()
        invariant
            i <= a@.len(),
            forall|j: int| 0 <= j < i ==> views(b@).contains(#[trigger] views(a@)[j]),
        decreases a@.len() - i,
    {
        if !contains_queue(b, &a[i]) {
            assert(views(a@).contains(views(a@)[i as int]));
            return false;
        }
        i += 1;
    }
    true
}

impl Pattern {
    /// The size of the queue list, by closed forms where there are any.
    pub fn count<B: Bag>(&self) -> (r: usize)
        requires
            count_fits(self@, B::alphabet()),
        ensures
            r == count(self@, B::alphabet()),
            match self@ {
                PatModel::Take(c, k) => k > count(*c, B::alphabet()) ==> r == 0,
                _ => true,
            },
        decreases pat_nodes(self@),
    {
        let ghost w = B::alphabet();
        proof {
            if let PatModel::Take(c, _) = self@ {
                lemma_count_is_length(*c, w);
            }
        }
        match self {
            Pattern::Single(_) => 1,
            Pattern::Either(a, b) => a.count::<B>() + b.count::<B>(),
            Pattern::Concat(a, b) => a.count::<B>() * b.count::<B>(),
            Pattern::Any(members) => {
                let ghost ms = members@;
                proof {
                    lemma_member_nodes(ms);
                    lemma_list_view(ms);
                }
                let mut total: usize = 0;
                let mut i: usize = 0;
                while i < members.len()
                    invariant
                        i <= ms.len(),
                        ms == members@,
                        self@ == PatModel::Any(list_view(ms)),
                        count_fits(self@, w),
                        w == B::alphabet(),
                        list_view(ms).len() == ms.len(),
                        forall|j: int| 0 <= j < ms.len() ==> #[trigger] list_view(ms)[j] == pat_view(ms[j]),
                        forall|j: int| 0 <= j < ms.len() ==> pat_nodes(#[trigger] pat_view(ms[j])) < pat_nodes(self@),
                        total == count_list(list_view(ms).take(i as int), w),
                    decreases ms.len() - i,
                {
                    assert(count_fits(list_view(ms)[i as int], w));
                    let c = members[i].count::<B>();
                    proof {
                        lemma_count_list_prefix(list_view(ms), w, i + 1);
                        assert(list_view(ms).take(i + 1).drop_last() =~= list_view(ms).take(i as int));
                    }
                    total = total + c;
                    i += 1;
                }
                assert(list_view(ms).take(i as int) =~= list_view(ms));
                total
            },
            Pattern::Group(c) => c.count::<B>(),
            Pattern::Wildcard => B::wildcard().len(),
            Pattern::Take(..) | Pattern::All(..) | Pattern::Condition(..) | Pattern::Unique(..) => self.queues::<B>().len(),
        }
    }

    /// The distinct queues of this pattern, in order of first generation.
    pub fn set<B: Bag>(&self) -> (r: Vec<Queue>)
        ensures
            views(r@) == dedup_exact(queues(self@, B::alphabet())),
    {
        self.queues::<B>().full_dedup()
    }

    /// Whether this pattern denotes exactly the queues of `set`, compared as sets.
    pub fn check<B: Bag>(&self, _universe: &[Queue], set: &[Queue]) -> (r: bool)
        ensures
            r == (queues(self@, B::alphabet()).to_set() == views(set@).to_set()),
    {
        let qs = self.queues::<B>();
        let ghost a = queues(self@, B::alphabet());
        let inside = all_within(qs.as_slice(), set);
        let covers = all_within(set, qs.as_slice());
        proof {
            assert(views(qs@) == a);
            if inside && covers {
                assert(a.to_set() =~= views(set@).to_set());
            } else if !inside {
                let x = choose|x: Seq<char>| views(qs@).contains(x) && !views(set@).contains(x);
                assert(a.to_set().contains(x));
            } else {
                let x = choose|x: Seq<char>| views(set@).contains(x) && !views(qs@).contains(x);
                assert(views(set@).to_set().contains(x));
            }
        }
        inside && covers
    }

    /// The size measure of this pattern.
    pub fn size(&self) -> (r: usize)
        requires
            pat_size(self@) <= usize::MAX,
        ensures
            r == pat_size(self@),
        decreases self@,
    {
        match self {
            Pattern::All(c) => 1 + c.size(),
            Pattern::Any(c) => {
                proof {
                    lemma_list_view(c@);
                }
                1 + c.len()
            },
            Pattern::Condition(c, p) => 1 + c.size() + p.size(),
            Pattern::Either(a, b) => 1 + a.size() + b.size(),
            Pattern::Group(c) => 1 + c.size(),
            Pattern::Concat(a, b) => 1 + a.size() + b.size(),
            Pattern::Single(..) => 1,
            Pattern::Take(a, ..) => 1 + a.size(),
            Pattern::Unique(a) => 1 + a.size(),
            Pattern::Wildcard => 1,
        }
    }
}


/// Two lists of patterns with the same views member by member have the same view.
pub proof fn lemma_list_view_ext(a: Seq<Pattern>, b: Seq<Pattern>)
    requires
        a.len() == b.len(),
        forall|j: int| 0 <= j < a.len() ==> pat_view(#[trigger] a[j]) == pat_view(b[j]),
    ensures
        list_view(a) == list_view(b),
{
    lemma_list_view(a);
    lemma_list_view(b);
    assert(list_view(a) =~= list_view(b));
}

/// The view of a list grown by one pattern.
pub proof fn lemma_list_view_push(a: Seq<Pattern>, x: Pattern)
    ensures
        list_view(a.push(x)) == list_view(a).push(pat_view(x)),
{
    assert(a.push(x).drop_last() =~= a);
}

impl Pattern {
    /// A copy of this pattern, node by node.
    pub fn copy(&self) -> (r: Pattern)
        ensures
            r@ == self@,
        decreases pat_nodes(self@), 0nat,
    {
        match self {
            Pattern::Single(c) => Pattern::Single(*c),
            Pattern::Either(a, b) => Pattern::Either(Box::new(a.copy()), Box::new(b.copy())),
            Pattern::Concat(a, b) => Pattern::Concat(Box::new(a.copy()), Box::new(b.copy())),
            Pattern::Any(v) => Pattern::Any(copy_list(v)),
            Pattern::Group(c) => Pattern::Group(Box::new(c.copy())),
            Pattern::Wildcard => Pattern::Wildcard,
            Pattern::Take(c, k) => Pattern::Take(Box::new(c.copy()), *k),
            Pattern::All(c) => Pattern::All(Box::new(c.copy())),
            Pattern::Condition(i, c) => Pattern::Condition(Box::new(i.copy()), Box::new(c.copy())),
            Pattern::Unique(c) => Pattern::Unique(Box::new(c.copy())),
        }
    }

    /// Whether the two patterns are the same tree.
    pub fn same(&self, o: &Pattern) -> (r: bool)
        ensures
            r == (self@ == o@),
        decreases pat_nodes(self@), 0nat,
    {
        match (self, o) {
            (Pattern::Single(a), Pattern::Single(b)) => *a == *b,
            (Pattern::Either(a, b), Pattern::Either(c, d)) => {
                let x = a.same(c);
                let y = b.same(d);
                x && y
            },
            (Pattern::Concat(a, b), Pattern::Concat(c, d)) => {
                let x = a.same(c);
                let y = b.same(d);
                x && y
            },
            (Pattern::Any(v), Pattern::Any(u)) => same_list(v, u),
            (Pattern::Group(a), Pattern::Group(b)) => a.same(b),
            (Pattern::Wildcard, Pattern::Wildcard) => true,
            (Pattern::Take(a, k), Pattern::Take(b, n)) => {
                let x = a.same(b);
                x && *k == *n
            },
            (Pattern::All(a), Pattern::All(b)) => a.same(b),
            (Pattern::Condition(a, c), Pattern::Condition(b, d)) => {
                let x = a.same(b);
                let y = c.same(d);
                x && y
            },
            (Pattern::Unique(a), Pattern::Unique(b)) => a.same(b),
            _ => false,
        }
    }
}

/// Copies of each pattern of `v`.
pub fn copy_list(v: &Vec<Pattern>) -> (r: Vec<Pattern>)
    ensures
        list_view(r@) == list_view(v@),
    decreases list_nodes(list_view(v@)), 1nat,
{
    proof {
        lemma_member_nodes(v@);
    }
    let mut out: Vec<Pattern> = Vec::new();
    let mut i: usize = 0;
    while i < v.len()
        invariant
            i <= v@.len(),
            out@.len() == i,
            forall|j: int| 0 <= j < v@.len() ==> pat_nodes(#[trigger] pat_view(v@[j])) <= list_nodes(list_view(v@)),
            forall|j: int| 0 <= j < i ==> pat_view(#[trigger] out@[j]) == pat_view(v@[j]),
        decreases v@.len() - i,
    {
        let c = v[i].copy();
        out.push(c);
        i += 1;
    }
    proof {
        lemma_list_view_ext(out@, v@);
    }
    out
}

/// Whether the two lists hold the same patterns in the same order.
pub fn same_list(v: &Vec<Pattern>, u: &Vec<Pattern>) -> (r: bool)
    ensures
        r == (list_view(v@) == list_view(u@)),
    decreases list_nodes(list_view(v@)), 1nat,
{
    proof {
        lemma_member_nodes(v@);
        lemma_list_view(v@);
        lemma_list_view(u@);
    }
    if v.len() != u.len() {
        return false;
    }
    let mut i: usize = 0;
    while i < v.len()
        invariant
            i <= v@.len(),
            v@.len() == u@.len(),
            list_view(v@).len() == v@.len(),
            list_view(u@).len() == u@.len(),
            forall|j: int| 0 <= j < v@.len() ==> #[trigger] list_view(v@)[j] == pat_view(v@[j]),
            forall|j: int| 0 <= j < u@.len() ==> #[trigger] list_view(u@)[j] == pat_view(u@[j]),
            forall|j: int| 0 <= j < i ==> pat_view(#[trigger] v@[j]) == pat_view(u@[j]),
            forall|j: int| 0 <= j < v@.len() ==> pat_nodes(#[trigger] pat_view(v@[j])) <= list_nodes(list_view(v@)),
        decreases v@.len() - i,
    {
        if !v[i].same(&u[i]) {
            assert(list_view(v@)[i as int] != list_view(u@)[i as int]);
            return false;
        }
        i += 1;
    }
    proof {
        lemma_list_view_ext(v@, u@);
    }
    true
}


impl Pattern {
    /// Appends the text of this pattern.
    pub fn render_into(&self, out: &mut Vec<char>)
        ensures
            final(out)@ == old(out)@ + text_of(self@),
        decreases pat_nodes(self@), 0nat,
    {
        let ghost start = out@;
        match self {
            Pattern::Single(c) => out.push(*c),
            Pattern::Either(a, b) => {
                a.render_into(out);
                out.push(';');
                b.render_into(out);
            },
            Pattern::Concat(a, b) => {
                a.render_into(out);
                b.render_into(out);
            },
            Pattern::Any(v) => {
                out.push('[');
                render_list(v, out);
                out.push(']');
            },
            Pattern::Group(c) => {
                out.push('(');
                c.render_into(out);
                out.push(')');
            },
            Pattern::Wildcard => out.push('*'),
            Pattern::Take(c, n) => {
                c.render_into(out);
                push_decimal(*n, out);
            },
            Pattern::All(c) => {
                c.render_into(out);
                out.push('!');
            },
            Pattern::Condition(i, c) => {
                i.render_into(out);
                out.push('{');
                c.render_into(out);
                out.push('}');
            },
            Pattern::Unique(c) => {
                c.render_into(out);
                out.push('?');
            },
        }
        assert(out@ =~= start + text_of(self@));
    }

    /// The text of this pattern in the surface grammar.
    pub fn render(&self) -> (r: String)
        ensures
            r@ == text_of(self@),
    {
        let mut out: Vec<char> = Vec::new();
        self.render_into(&mut out);
        assert(out@ =~= text_of(self@));
        string_of(&out)
    }
}

/// Appends the texts of the patterns of `v`, one after another.
fn render_list(v: &Vec<Pattern>, out: &mut Vec<char>)
    ensures
        final(out)@ == old(out)@ + list_text(list_view(v@)),
    decreases list_nodes(list_view(v@)), 1nat,
{
    proof {
        lemma_member_nodes(v@);
    }
    let ghost start = out@;
    let mut i: usize = 0;
    while i < v.len()
        invariant
            i <= v@.len(),
            out@ == start + list_text(list_view(v@.take(i as int))),
            forall|j: int| 0 <= j < v@.len() ==> pat_nodes(#[trigger] pat_view(v@[j])) <= list_nodes(list_view(v@)),
        decreases v@.len() - i,
    {
        v[i].render_into(out);
        proof {
            assert(v@.take(i + 1) =~= v@.take(i as int).push(v@[i as int]));
            lemma_list_view_push(v@.take(i as int), v@[i as int]);
            let l = list_view(v@.take(i as int)).push(pat_view(v@[i as int]));
            assert(l.drop_last() =~= list_view(v@.take(i as int)));
        }
        i += 1;
    }
    assert(v@.take(i as int) =~= v@);
}


impl Pattern {
    /// The count, or `None` when it, or a count computed on the way to it,
    /// does not fit in a `usize`.
    pub fn count_checked<B: Bag>(&self) -> (r: Option<usize>)
        ensures
            r == if count_fits(self@, B::alphabet()) {
                Some(count(self@, B::alphabet()) as usize)
            } else {
                None::<usize>
            },
        decreases pat_nodes(self@),
    {
        let ghost w = B::alphabet();
        let r = match self {
            Pattern::Either(a, b) => match (a.count_checked::<B>(), b.count_checked::<B>()) {
                (Some(x), Some(y)) => x.checked_add(y),
                _ => None,
            },
            Pattern::Concat(a, b) => match (a.count_checked::<B>(), b.count_checked::<B>()) {
                (Some(x), Some(y)) => x.checked_mul(y),
                _ => None,
            },
            Pattern::Any(members) => {
                let ghost ms = members@;
                proof {
                    lemma_member_nodes(ms);
                    lemma_list_view(ms);
                }
                let mut total: usize = 0;
                let mut ok = true;
                let mut i: usize = 0;
                while i < members.len()
                    invariant
                        i <= ms.len(),
                        ms == members@,
                        self@ == PatModel::Any(list_view(ms)),
                        w == B::alphabet(),
                        list_view(ms).len() == ms.len(),
                        forall|j: int| 0 <= j < ms.len() ==> #[trigger] list_view(ms)[j] == pat_view(ms[j]),
                        forall|j: int| 0 <= j < ms.len() ==> pat_nodes(#[trigger] pat_view(ms[j])) < pat_nodes(self@),
                        ok ==> total == count_list(list_view(ms).take(i as int), w),
                        ok ==> forall|j: int| 0 <= j < i ==> count_fits(#[trigger] list_view(ms)[j], w),
                        !ok ==> !count_fits(self@, w),
                    decreases ms.len() - i,
                {
                    let c = members[i].count_checked::<B>();
                    proof {
                        lemma_count_list_prefix(list_view(ms), w, i + 1);
                        assert(list_view(ms).take(i + 1).drop_last() =~= list_view(ms).take(i as int));
                    }
                    if ok {
                        match c {
                            Some(x) => match total.checked_add(x) {
                                Some(y) => total = y,
                                None => ok = false,
                            },
                            None => ok = false,
                        }
                    }
                    i += 1;
                }
                assert(list_view(ms).take(i as int) =~= list_view(ms));
                if ok {
                    Some(total)
                } else {
                    None
                }
            },
            Pattern::Group(c) => c.count_checked::<B>(),
            Pattern::Single(_) => Some(1),
            Pattern::Wildcard => Some(B::wildcard().len()),
            Pattern::Take(..) | Pattern::All(..) | Pattern::Condition(..) | Pattern::Unique(..) => Some(
                self.queues::<B>().len(),
            ),
        };
        r
    }
}

} // verus!
