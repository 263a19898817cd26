use vstd::prelude::*;
use crate::bag::Bag;
use crate::model::{CondModel, cond_text, cond_size, cond_nodes, any_prefix, first_match_len, first_offset, greedy_count, holds, is_prefix};
use crate::pattern::{Pattern, pat_view, views};
use crate::queue::{Queue, push_decimal, string_of};

verus! {

broadcast use vstd::seq::group_seq_axioms;

/// A condition on one queue, over sub-patterns.
#[derive(Debug)]
pub enum Condition {
    /// The first pattern occurs, and earlier than the second or without it: `A<B`.
    Before(Pattern, Pattern),
    /// `Before` with the operands swapped: `A>B`.
    After(Pattern, Pattern),
    /// Parentheses: `(C)`.
    Group(Box<Condition>),
    /// The greedy count of occurrences equals the number: `#A=N`.
    Count(Pattern, usize),
    /// The pattern occurs at the given offset: `@A=N`.
    Location(Pattern, usize),
    /// Both hold: `C&D`.
    And(Box<Condition>, Box<Condition>),
    /// Either holds: `C|D`.
    Or(Box<Condition>, Box<Condition>),
}

pub open spec fn cond_view(c: Condition) -> CondModel
    decreases c,
{
    match c {
        Condition::Before(a, b) => CondModel::Before(pat_view(a), pat_view(b)),
        Condition::After(a, b) => CondModel::After(pat_view(a), pat_view(b)),
        Condition::Group(g) => CondModel::Group(Box::new(cond_view(*g))),
        Condition::Count(a, n) => CondModel::Count(pat_view(a), n as nat),
        Condition::Location(a, n) => CondModel::Location(pat_view(a), n as nat),
        Condition::And(a, b) => CondModel::And(Box::new(cond_view(*a)), Box::new(cond_view(*b))),
        Condition::Or(a, b) => CondModel::Or(Box::new(cond_view(*a)), Box::new(cond_view(*b))),
    }
}

impl View for Condition {
    type V = CondModel;

    open spec fn view(&self) -> CondModel {
        cond_view(*self)
    }
}

/// Whether `x` is a prefix of `q` from offset `start`.
fn prefix_at(x: &Queue, q: &Queue, start: usize) -> (r: bool)
    requires
        start <= q@.len(),
    ensures
        r == is_prefix(x@, q@.skip(start as int)),
{
    let xs = x.vec();
    let qs = q.vec();
    if xs.len() > qs.len() - start {
        return false;
    }
    let n = qs.len();
    let mut i: usize = 0;
    while i < xs.len()
        invariant
            i <= xs@.len(),
            n == qs@.len(),
            start <= qs@.len(),
            xs@.len() <= qs@.len() - start,
            xs@ == x@,
            qs@ == q@,
            forall|j: int| 0 <= j < i ==> xs@[j] == qs@[start + j],
        decreases xs@.len() - i,
    {
        let k: usize = start + i;
        if xs[i] != qs[k] {
            assert(q@.skip(start as int).subrange(0, x@.len() as int)[i as int] != x@[i as int]);
            return false;
        }
        i += 1;
    }
    assert(q@.skip(start as int).subrange(0, x@.len() as int) =~= x@);
    true
}

/// Length of the first queue of `pats`, in order, that is a prefix of `q` from `start`.
fn first_match(pats: &Vec<Queue>, q: &Queue, start: usize) -> (r: Option<usize>)
    requires
        start <= q@.len(),
    ensures
        match r {
            Some(n) => first_match_len(views(pats@), q@.skip(start as int), 0) == Some(n as nat),
            None => first_match_len(views(pats@), q@.skip(start as int), 0) is None,
        },
{
    let ghost vp = views(pats@);
    let ghost rest = q@.skip(start as int);
    let mut i: usize = 0;
    while i < pats.len()
        invariant
            i <= pats@.len(),
            start <= q@.len(),
            vp == views(pats@),
            rest == q@.skip(start as int),
            first_match_len(vp, rest, 0) == first_match_len(vp, rest, i as nat),
        decreases pats@.len() - i,
    {
        if prefix_at(&pats[i], q, start) {
            return Some(pats[i].len());
        }
        i += 1;
    }
    None
}

/// Whether some queue of `pats` is a prefix of `q` from `start`.
fn any_prefix_at(pats: &Vec<Queue>, q: &Queue, start: usize) -> (r: bool)
    requires
        start <= q@.len(),
    ensures
        r == any_prefix(views(pats@), q@.skip(start as int)),
{
    let mut i: usize = 0;
    while i < pats.len()
        invariant
            i <= pats@.len(),
            start <= q@.len(),
            forall|j: int| 0 <= j < i ==> !is_prefix(#[trigger] views(pats@)[j], q@.skip(start as int)),
        decreases pats@.len() - i,
    {
        if prefix_at(&pats[i], q, start) {
            assert(is_prefix(views(pats@)[i as int], q@.skip(start as int)));
            return true;
        }
        i += 1;
    }
    false
}

/// The smallest offset at which some queue of `pats` begins in `q`.
fn earliest(pats: &Vec<Queue>, q: &Queue) -> (r: Option<usize>)
    ensures
        match r {
            Some(n) => first_offset(views(pats@), q@, 0) == Some(n as nat),
            None => first_offset(views(pats@), q@, 0) is None,
        },
{
    let ghost vp = views(pats@);
    let mut start: usize = 0;
    while start < q.len()
        invariant
            start <= q@.len(),
            vp == views(pats@),
            first_offset(vp, q@, 0) == first_offset(vp, q@, start as nat),
        decreases q@.len() - start,
    {
        if any_prefix_at(pats, q, start) {
            return Some(start);
        }
        start += 1;
    }
    if any_prefix_at(pats, q, start) {
        Some(start)
    } else {
        assert(first_offset(vp, q@, (start + 1) as nat) is None);
        None
    }
}

impl Condition {
    /// Whether this condition holds of `queue`.
    pub fn has<B: Bag>(&self, queue: &Queue) -> (r: bool)
        ensures
            r == holds(self@, queue@, B::alphabet()),
        decreases cond_nodes(self@), 0nat,
    {
        match self {
            Condition::Group(g) => g.has::<B>(queue),
            Condition::Before(a, b) => {
                let qa = a.queues::<B>();
                let qb = b.queues::<B>();
                match (earliest(&qa, queue), earliest(&qb, queue)) {
                    (Some(x), Some(y)) => x < y,
                    (Some(_), None) => true,
                    _ => false,
                }
            },
            Condition::After(a, b) => {
                let qa = a.queues::<B>();
                let qb = b.queues::<B>();
                match (earliest(&qb, queue), earliest(&qa, queue)) {
                    (Some(x), Some(y)) => x < y,
                    (Some(_), None) => true,
                    _ => false,
                }
            },
            Condition::Count(a, n) => {
                let pats = a.queues::<B>();
                let ghost vp = views(pats@);
                let mut count: usize = 0;
                let mut start: usize = 0;
                while start < queue.len()
                    invariant
                        start <= queue@.len(),
                        count <= start,
                        vp == views(pats@),
                        count + greedy_count(vp, queue@, start as nat) == greedy_count(vp, queue@, 0),
                    decreases queue@.len() - start,
                {
                    let found = first_match(&pats, queue, start);
                    let ghost before = start as nat;
                    match found {
                        Some(len) => {
                            count += 1;
                            if len == 0 {
                                start += 1;
                            } else if len > queue.len() - start {
                                start = queue.len();
                            } else {
                                start += len;
                            }
                        },
                        None => {
                            start += 1;
                        },
                    }
                    assert(greedy_count(vp, queue@, before) == if found is Some {
                        1 + greedy_count(vp, queue@, start as nat)
                    } else {
                        greedy_count(vp, queue@, start as nat)
                    });
                }
                count == *n
            },
            Condition::Location(a, n) => {
                if *n > queue.len() {
                    return false;
                }
                let pats = a.queues::<B>();
                any_prefix_at(&pats, queue, *n)
            },
            Condition::And(a, b) => {
                let x = a.has::<B>(queue);
                let y = b.has::<B>(queue);
                x && y
            },
            Condition::Or(a, b) => {
                let x = a.has::<B>(queue);
                let y = b.has::<B>(queue);
                x || y
            },
        }
    }
}


impl Condition {
    /// The size measure of this condition.
    pub fn size(&self) -> (r: usize)
        requires
            cond_size(self@) <= usize::MAX,
        ensures
            r == cond_size(self@),
        decreases self@,
    {
        match self {
            Condition::After(a, b) | Condition::Before(a, b) => 1 + a.size() + b.size(),
            Condition::And(a, b) | Condition::Or(a, b) => 1 + a.size() + b.size(),
            Condition::Count(a, ..) | Condition::Location(a, ..) => 1 + a.size(),
            Condition::Group(a) => 1 + a.size(),
        }
    }
}


impl Condition {
    /// A copy of this condition, node by node.
    pub fn copy(&self) -> (r: Condition)
        ensures
            r@ == self@,
        decreases cond_nodes(self@), 0nat,
    {
        match self {
            Condition::Before(a, b) => Condition::Before(a.copy(), b.copy()),
            Condition::After(a, b) => Condition::After(a.copy(), b.copy()),
            Condition::Group(g) => Condition::Group(Box::new(g.copy())),
            Condition::Count(a, n) => Condition::Count(a.copy(), *n),
            Condition::Location(a, n) => Condition::Location(a.copy(), *n),
            Condition::And(a, b) => Condition::And(Box::new(a.copy()), Box::new(b.copy())),
            Condition::Or(a, b) => Condition::Or(Box::new(a.copy()), Box::new(b.copy())),
        }
    }

    /// Whether the two conditions are the same tree.
    pub fn same(&self, o: &Condition) -> (r: bool)
        ensures
            r == (self@ == o@),
        decreases cond_nodes(self@), 0nat,
    {
        match (self, o) {
            (Condition::Before(a, b), Condition::Before(c, d)) => {
                let x = a.same(c);
                let y = b.same(d);
                x && y
            },
            (Condition::After(a, b), Condition::After(c, d)) => {
                let x = a.same(c);
                let y = b.same(d);
                x && y
            },
            (Condition::Group(a), Condition::Group(b)) => a.same(b),
            (Condition::Count(a, k), Condition::Count(b, n)) => {
                let x = a.same(b);
                x && *k == *n
            },
            (Condition::Location(a, k), Condition::Location(b, n)) => {
                let x = a.same(b);
                x && *k == *n
            },
            (Condition::And(a, b), Condition::And(c, d)) => {
                let x = a.same(c);
                let y = b.same(d);
                x && y
            },
            (Condition::Or(a, b), Condition::Or(c, d)) => {
                let x = a.same(c);
                let y = b.same(d);
                x && y
            },
            _ => false,
        }
    }
}


impl Condition {
    /// Appends the text of this condition.
    pub fn render_into(&self, out: &mut Vec<char>)
        ensures
            final(out)@ == old(out)@ + cond_text(self@),
        decreases cond_nodes(self@), 0nat,
    {
        let ghost start = out@;
        match self {
            Condition::Before(a, b) => {
                a.render_into(out);
                out.push('<');
                b.render_into(out);
            },
            Condition::After(a, b) => {
                a.render_into(out);
                out.push('>');
                b.render_into(out);
            },
            Condition::Group(g) => {
                out.push('(');
                g.render_into(out);
                out.push(')');
            },
            Condition::Count(a, n) => {
                out.push('#');
                a.render_into(out);
                out.push('=');
                push_decimal(*n, out);
            },
            Condition::Location(a, n) => {
                out.push('@');
                a.render_into(out);
                out.push('=');
                push_decimal(*n, out);
            },
            Condition::And(a, b) => {
                a.render_into(out);
                out.push('&');
                b.render_into(out);
            },
            Condition::Or(a, b) => {
                a.render_into(out);
                out.push('|');
                b.render_into(out);
            },
        }
        assert(out@ =~= start + cond_text(self@));
    }

    /// The text of this condition in the surface grammar.
    pub fn render(&self) -> (r: String)
        ensures
            r@ == cond_text(self@),
    {
        let mut out: Vec<char> = Vec::new();
        self.render_into(&mut out);
        assert(out@ =~= cond_text(self@));
        string_of(&out)
    }
}

} // verus!
