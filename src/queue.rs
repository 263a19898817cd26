use itertools::Itertools;
use vstd::prelude::*;
use crate::model::{decimal, digit_char, loose_eq, permutations_of};

verus! {

broadcast use vstd::seq_lib::group_to_multiset_ensures;

/// A finite ordered sequence of symbols.
#[derive(Clone, Debug, PartialEq, Eq, Hash)]
pub struct Queue(Vec<char>);

impl View for Queue {
    type V = Seq<char>;

    closed spec fn view(&self) -> Seq<char> {
        self.0@
    }
}

/// Relies on itertools' `counts`: each distinct symbol of `v` paired with its
/// number of occurrences (pairs in no particular order).
#[verifier::external_body]
fn symbol_counts(v: &Vec<char>) -> (r: Vec<(char, usize)>)
    ensures
        forall|j: int|
            0 <= j < r@.len() ==> (#[trigger] r@[j]).1 == v@.to_multiset().count(r@[j].0),
        forall|c: char| v@.contains(c) ==> exists|j: int| 0 <= j < r@.len() && (#[trigger] r@[j]).0 == c,
{
    v.iter().counts().into_iter().map(|(c, n)| (*c, n)).collect()
}

/// Relies on itertools' `permutations` over the positions `0..n`: all the
/// k-permutations of the positions, in lexicographic order; each has `k`
/// positions, all below `n`; none is yielded when `k > n`, exactly one (the
/// empty one) when `k == 0`.
#[verifier::external_body]
pub(crate) fn index_permutations(n: usize, k: usize) -> (r: Vec<Vec<usize>>)
    ensures
        r@.map_values(|p: Vec<usize>| p@.map_values(|i: usize| i as int)) == permutations_of(
            n as nat,
            k as nat,
        ),
        forall|j: int|
            0 <= j < r@.len() ==> (#[trigger] r@[j])@.len() == k && forall|a: int|
                0 <= a < k ==> r@[j]@[a] < n,
        k > n ==> r@.len() == 0,
        k == 0 ==> r@.len() == 1,
{
    (0..n).permutations(k).collect()
}

/// Whether every pair of `ca` gives the count that `b` has of its symbol,
/// where `cb` pairs each symbol of `b` with its count.
fn counts_agree(ca: &Vec<(char, usize)>, cb: &Vec<(char, usize)>, b: Ghost<Seq<char>>) -> (r: bool)
    requires
        forall|j: int|
            0 <= j < cb@.len() ==> (#[trigger] cb@[j]).1 == b@.to_multiset().count(cb@[j].0),
        forall|c: char| b@.contains(c) ==> exists|j: int| 0 <= j < cb@.len() && (#[trigger] cb@[j]).0 == c,
    ensures
        r == forall|j: int| 0 <= j < ca@.len() ==> (#[trigger] ca@[j]).1 == b@.to_multiset().count(ca@[j].0),
{
    let mut i: usize = 0;
    while i < ca.len()
        invariant
            i <= ca@.len(),
            forall|j: int| 0 <= j < i ==> (#[trigger] ca@[j]).1 == b@.to_multiset().count(ca@[j].0),
            forall|j: int|
                0 <= j < cb@.len() ==> (#[trigger] cb@[j]).1 == b@.to_multiset().count(cb@[j].0),
            forall|c: char| b@.contains(c) ==> exists|j: int| 0 <= j < cb@.len() && (#[trigger] cb@[j]).0 == c,
        decreases ca@.len() - i,
    {
        let (c, n) = ca[i];
        let mut found: usize = 0;
        let mut hit = false;
        let mut k: usize = 0;
        while k < cb.len()
            invariant
                k <= cb@.len(),
                hit ==> found == b@.to_multiset().count(c),
                !hit ==> found == 0,
                forall|j: int|
                    0 <= j < cb@.len() ==> (#[trigger] cb@[j]).1 == b@.to_multiset().count(cb@[j].0),
                !hit ==> forall|j: int| 0 <= j < k ==> (#[trigger] cb@[j]).0 != c,
            decreases cb@.len() - k,
        {
            if cb[k].0 == c {
                found = cb[k].1;
                hit = true;
            }
            k += 1;
        }
        if !hit {
            assert(!b@.contains(c));
            assert(b@.to_multiset().count(c) == 0);
        }
        if n != found && (hit || n != 0) {
            return false;
        }
        assert(ca@[i as int].0 == c && ca@[i as int].1 == n);
        assert(n == b@.to_multiset().count(c));
        i += 1;
    }
    true
}

impl Queue {
    pub fn new(values: Vec<char>) -> (r: Self)
        ensures
            r@ == values@,
    {
        Queue(values)
    }

    /// Exact equality of the two symbol sequences.
    pub fn same(&self, o: &Self) -> (r: bool)
        ensures
            r == (self@ == o@),
    {
        if self.0.len() != o.0.len() {
            return false;
        }
        let mut i: usize = 0;
        while i < self.0.len()
            invariant
                i <= self@.len(),
                self@.len() == o@.len(),
                forall|j: int| 0 <= j < i ==> self@[j] == o@[j],
            decreases self@.len() - i,
        {
            if self.0[i] != o.0[i] {
                return false;
            }
            i += 1;
        }
        assert(self@ =~= o@);
        true
    }

    pub fn len(&self) -> (r: usize)
        ensures
            r == self@.len(),
    {
        self.0.len()
    }

    pub fn nth(&self, u: usize) -> (r: Option<char>)
        ensures
            r == if u < self@.len() {
                Some(self@[u as int])
            } else {
                None
            },
    {
        if u < self.0.len() {
            Some(self.0[u])
        } else {
            None
        }
    }

    /// A copy of this queue.
    pub fn copy(&self) -> (r: Self)
        ensures
            r@ == self@,
    {
        Queue(self.0.clone())
    }

    pub fn join(&self, u: Self) -> (r: Self)
        ensures
            r@ == self@ + u@,
    {
        let mut v = self.0.clone();
        let mut w = u.0;
        v.append(&mut w);
        Queue(v)
    }

    pub fn vec(&self) -> (r: &Vec<char>)
        ensures
            r@ == self@,
    {
        &self.0
    }

    pub fn par(self, location: usize) -> (r: (Queue, Queue))
        requires
            location <= self@.len(),
        ensures
            r.0@ == self@.take(location as int),
            r.1@ == self@.skip(location as int),
    {
        (self.slice(0, location), self.slice(location, self.0.len()))
    }

    pub fn slice(&self, start: usize, end: usize) -> (r: Queue)
        requires
            start <= end <= self@.len(),
        ensures
            r@ == self@.subrange(start as int, end as int),
    {
        let mut v: Vec<char> = Vec::new();
        let mut i: usize = start;
        while i < end
            invariant
                start <= i <= end <= self@.len(),
                v@ == self@.subrange(start as int, i as int),
            decreases end - i,
        {
            v.push(self.0[i]);
            i += 1;
        }
        Queue(v)
    }

    /// Equal as multisets of symbols, whatever the order.
    pub fn loose_eq(&self, rhs: &Self) -> (r: bool)
        ensures
            r == loose_eq(self@, rhs@),
    {
        let ca = symbol_counts(&self.0);
        let cb = symbol_counts(&rhs.0);
        if !counts_agree(&ca, &cb, Ghost(rhs@)) {
            proof {
                let j = choose|j: int| 0 <= j < ca@.len() && (#[trigger] ca@[j]).1 != rhs@.to_multiset().count(ca@[j].0);
                assert(self@.to_multiset().count(ca@[j].0) != rhs@.to_multiset().count(ca@[j].0));
            }
            return false;
        }
        if !counts_agree(&cb, &ca, Ghost(self@)) {
            proof {
                let j = choose|j: int| 0 <= j < cb@.len() && (#[trigger] cb@[j]).1 != self@.to_multiset().count(cb@[j].0);
                assert(self@.to_multiset().count(cb@[j].0) != rhs@.to_multiset().count(cb@[j].0));
            }
            return false;
        }
        assert forall|c: char| self@.to_multiset().count(c) == rhs@.to_multiset().count(c) by {
            if self@.contains(c) {
                let j = choose|j: int| 0 <= j < ca@.len() && (#[trigger] ca@[j]).0 == c;
                assert(ca@[j].1 == rhs@.to_multiset().count(c));
            } else if rhs@.contains(c) {
                let j = choose|j: int| 0 <= j < cb@.len() && (#[trigger] cb@[j]).0 == c;
                assert(cb@[j].1 == self@.to_multiset().count(c));
            }
        }
        assert(self@.to_multiset() =~= rhs@.to_multiset());
        true
    }
}


/// Relies on `String`'s `FromIterator<char>`: the characters of `v`, in order.
#[verifier::external_body]
pub(crate) fn string_of(v: &Vec<char>) -> (r: String)
    ensures
        r@ == v@,
{
    v.iter().collect()
}

/// Appends the decimal notation of `n`.
pub(crate) fn push_decimal(n: usize, out: &mut Vec<char>)
    ensures
        final(out)@ == old(out)@ + decimal(n as nat),
    decreases n,
{
    if n >= 10 {
        push_decimal(n / 10, out);
    }
    let d = n % 10;
    let c = if d == 0 {
        '0'
    } else if d == 1 {
        '1'
    } else if d == 2 {
        '2'
    } else if d == 3 {
        '3'
    } else if d == 4 {
        '4'
    } else if d == 5 {
        '5'
    } else if d == 6 {
        '6'
    } else if d == 7 {
        '7'
    } else if d == 8 {
        '8'
    } else {
        '9'
    };
    assert(c == digit_char(d as nat));
    out.push(c);
    if n >= 10 {
        assert(final(out)@ =~= old(out)@ + decimal(n as nat));
    } else {
        assert(final(out)@ =~= old(out)@ + decimal(n as nat));
    }
}

} // verus!
