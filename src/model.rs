use vstd::prelude::*;

verus! {

broadcast use vstd::seq::group_seq_axioms;

/// The mathematical form of a pattern: the same tree, with sequences in place of vectors.
pub enum PatModel {
    Single(char),
    Either(Box<PatModel>, Box<PatModel>),
    Concat(Box<PatModel>, Box<PatModel>),
    Any(Seq<PatModel>),
    Group(Box<PatModel>),
    Wildcard,
    Take(Box<PatModel>, nat),
    All(Box<PatModel>),
    Condition(Box<PatModel>, Box<CondModel>),
    Unique(Box<PatModel>),
}

/// The mathematical form of a condition.
pub enum CondModel {
    Before(PatModel, PatModel),
    After(PatModel, PatModel),
    Group(Box<CondModel>),
    Count(PatModel, nat),
    Location(PatModel, nat),
    And(Box<CondModel>, Box<CondModel>),
    Or(Box<CondModel>, Box<CondModel>),
}

/// Number of nodes of a pattern tree, counting the members of an alternation list.
pub open spec fn pat_nodes(p: PatModel) -> nat
    decreases p,
{
    match p {
        PatModel::Either(a, b) => 1 + pat_nodes(*a) + pat_nodes(*b),
        PatModel::Concat(a, b) => 1 + pat_nodes(*a) + pat_nodes(*b),
        PatModel::Any(v) => 1 + list_nodes(v),
        PatModel::Group(c) => 1 + pat_nodes(*c),
        PatModel::Take(c, _) => 1 + pat_nodes(*c),
        PatModel::All(c) => 1 + pat_nodes(*c),
        PatModel::Condition(i, c) => 1 + pat_nodes(*i) + cond_nodes(*c),
        PatModel::Unique(c) => 1 + pat_nodes(*c),
        _ => 1,
    }
}

pub open spec fn list_nodes(v: Seq<PatModel>) -> nat
    decreases v,
{
    if v.len() == 0 {
        0
    } else {
        list_nodes(v.drop_last()) + pat_nodes(v.last())
    }
}

pub open spec fn cond_nodes(c: CondModel) -> nat
    decreases c,
{
    match c {
        CondModel::Before(a, b) => 1 + pat_nodes(a) + pat_nodes(b),
        CondModel::After(a, b) => 1 + pat_nodes(a) + pat_nodes(b),
        CondModel::Group(g) => 1 + cond_nodes(*g),
        CondModel::Count(a, _) => 1 + pat_nodes(a),
        CondModel::Location(a, _) => 1 + pat_nodes(a),
        CondModel::And(a, b) => 1 + cond_nodes(*a) + cond_nodes(*b),
        CondModel::Or(a, b) => 1 + cond_nodes(*a) + cond_nodes(*b),
    }
}

} // verus!

verus! {

/// `x` is a prefix of `q`.
pub open spec fn is_prefix(x: Seq<char>, q: Seq<char>) -> bool {
    x.len() <= q.len() && q.subrange(0, x.len() as int) == x
}

/// Some member of `pats` is a prefix of `q`.
pub open spec fn any_prefix(pats: Seq<Seq<char>>, q: Seq<char>) -> bool {
    exists|i: int| 0 <= i < pats.len() && is_prefix(#[trigger] pats[i], q)
}

/// Length of the first member of `pats`, from index `i` on, that is a prefix of `q`.
pub open spec fn first_match_len(pats: Seq<Seq<char>>, q: Seq<char>, i: nat) -> Option<nat>
    decreases pats.len() - i,
{
    if i >= pats.len() {
        None
    } else if is_prefix(pats[i as int], q) {
        Some(pats[i as int].len())
    } else {
        first_match_len(pats, q, i + 1)
    }
}

/// Smallest offset, from `start` up to the length of `q` inclusive, at which
/// some member of `pats` begins.
pub open spec fn first_offset(pats: Seq<Seq<char>>, q: Seq<char>, start: nat) -> Option<nat>
    decreases q.len() + 1 - start,
{
    if start > q.len() {
        None
    } else if any_prefix(pats, q.skip(start as int)) {
        Some(start)
    } else {
        first_offset(pats, q, start + 1)
    }
}

/// `a` occurs in `q`, and earlier than `b` or with `b` absent.
pub open spec fn before(a: Seq<Seq<char>>, b: Seq<Seq<char>>, q: Seq<char>) -> bool {
    match (first_offset(a, q, 0), first_offset(b, q, 0)) {
        (Some(x), Some(y)) => x < y,
        (Some(_), None) => true,
        _ => false,
    }
}

/// Greedy left-to-right count of the non-overlapping occurrences of members
/// of `pats` in `q` from offset `start`. At each offset the first member in
/// order that matches is taken; an empty match still moves the scan on by one.
pub open spec fn greedy_count(pats: Seq<Seq<char>>, q: Seq<char>, start: nat) -> nat
    decreases q.len() - start,
{
    if start >= q.len() {
        0
    } else {
        match first_match_len(pats, q.skip(start as int), 0) {
            Some(n) => {
                let next: nat = if n == 0 {
                    start + 1
                } else if start + n > q.len() {
                    q.len()
                } else {
                    start + n
                };
                1 + greedy_count(pats, q, next)
            },
            None => greedy_count(pats, q, start + 1),
        }
    }
}

/// Each queue of `s` followed by each queue of `t`, `s` in the outer position.
pub open spec fn product(s: Seq<Seq<char>>, t: Seq<Seq<char>>) -> Seq<Seq<char>>
    decreases s.len(),
{
    if s.len() == 0 {
        seq![]
    } else {
        product(s.drop_last(), t) + t.map_values(|y: Seq<char>| s.last() + y)
    }
}

/// The queues of `m` at the positions `idx`, joined in that order.
pub open spec fn join_at(m: Seq<Seq<char>>, idx: Seq<int>) -> Seq<char>
    decreases idx.len(),
{
    if idx.len() == 0 {
        seq![]
    } else {
        join_at(m, idx.drop_last()) + m[idx.last()]
    }
}

/// The k-permutations of the positions `0..n` (sequences of `k` distinct
/// positions), in lexicographic order.
pub open spec fn permutations_of(n: nat, k: nat) -> Seq<Seq<int>>
    decreases k, n + 2,
{
    if k == 0 {
        seq![seq![]]
    } else {
        permutations_led(n, k, 0)
    }
}

/// The k-permutations of `0..n` whose first position is at least `x`, in
/// lexicographic order: for each first position, the (k-1)-permutations that
/// avoid it, in their own order.
pub open spec fn permutations_led(n: nat, k: nat, x: nat) -> Seq<Seq<int>>
    decreases k, n + 1 - x,
{
    if k == 0 || x >= n {
        seq![]
    } else {
        permutations_of(n, (k - 1) as nat).filter(|s: Seq<int>| !s.contains(x as int)).map_values(
            |s: Seq<int>| seq![x as int] + s,
        ) + permutations_led(n, k, x + 1)
    }
}

/// `s` with every exact repetition of an earlier element removed.
pub open spec fn dedup_exact(s: Seq<Seq<char>>) -> Seq<Seq<char>>
    decreases s.len(),
{
    if s.len() == 0 {
        s
    } else {
        let r = dedup_exact(s.drop_last());
        if r.contains(s.last()) {
            r
        } else {
            r.push(s.last())
        }
    }
}

/// Equal as multisets of symbols.
pub open spec fn loose_eq(a: Seq<char>, b: Seq<char>) -> bool {
    a.to_multiset() == b.to_multiset()
}

/// `s` keeping only the first of every group of loose-equal queues.
pub open spec fn unique_loose(s: Seq<Seq<char>>) -> Seq<Seq<char>>
    decreases s.len(),
{
    if s.len() == 0 {
        s
    } else {
        let r = unique_loose(s.drop_last());
        if exists|i: int| 0 <= i < r.len() && loose_eq(#[trigger] r[i], s.last()) {
            r
        } else {
            r.push(s.last())
        }
    }
}

/// The ordered k-selections of the queues of `m`, joined, exact repeats removed.
pub open spec fn take_queues(m: Seq<Seq<char>>, k: nat) -> Seq<Seq<char>> {
    dedup_exact(permutations_of(m.len(), k).map_values(|idx: Seq<int>| join_at(m, idx)))
}

/// The queues that pattern `p` denotes, in generation order, over the alphabet `w`.
pub open spec fn queues(p: PatModel, w: Seq<char>) -> Seq<Seq<char>>
    decreases p, 0nat,
{
    match p {
        PatModel::Single(c) => seq![seq![c]],
        PatModel::Either(a, b) => queues(*a, w) + queues(*b, w),
        PatModel::Concat(a, b) => product(queues(*a, w), queues(*b, w)),
        PatModel::Any(v) => queues_list(v, w),
        PatModel::Group(c) => queues(*c, w),
        PatModel::Wildcard => w.map_values(|c: char| seq![c]),
        PatModel::Take(c, k) => take_queues(queues(*c, w), k),
        PatModel::All(c) => take_queues(queues(*c, w), queues(*c, w).len()),
        PatModel::Condition(i, c) => queues(*i, w).filter(satisfies(*c, w)),
        PatModel::Unique(c) => unique_loose(queues(*c, w)),
    }
}

/// The queues of each member of `v` in turn.
pub open spec fn queues_list(v: Seq<PatModel>, w: Seq<char>) -> Seq<Seq<char>>
    decreases v, 0nat,
{
    if v.len() == 0 {
        seq![]
    } else {
        queues_list(v.drop_last(), w) + queues(v.last(), w)
    }
}

/// The predicate "condition `c` holds" on queues.
pub open spec fn satisfies(c: CondModel, w: Seq<char>) -> spec_fn(Seq<char>) -> bool
    decreases c, 1nat,
{
    |q: Seq<char>| holds(c, q, w)
}

/// Whether condition `c` holds of queue `q` over the alphabet `w`.
pub open spec fn holds(c: CondModel, q: Seq<char>, w: Seq<char>) -> bool
    decreases c, 0nat,
{
    match c {
        CondModel::Before(a, b) => before(queues(a, w), queues(b, w), q),
        CondModel::After(a, b) => before(queues(b, w), queues(a, w), q),
        CondModel::Group(g) => holds(*g, q, w),
        CondModel::Count(a, n) => greedy_count(queues(a, w), q, 0) == n,
        CondModel::Location(a, n) => n <= q.len() && any_prefix(queues(a, w), q.skip(n as int)),
        CondModel::And(a, b) => holds(*a, q, w) && holds(*b, q, w),
        CondModel::Or(a, b) => holds(*a, q, w) || holds(*b, q, w),
    }
}

} // verus!

verus! {

/// The size of the queue list of `p`, by closed forms where the list has no
/// repeats removed: symbols, wildcards, alternations, lists and concatenations.
pub open spec fn count(p: PatModel, w: Seq<char>) -> nat
    decreases p,
{
    match p {
        PatModel::Single(_) => 1,
        PatModel::Either(a, b) => count(*a, w) + count(*b, w),
        PatModel::Concat(a, b) => count(*a, w) * count(*b, w),
        PatModel::Any(v) => count_list(v, w),
        PatModel::Group(c) => count(*c, w),
        PatModel::Wildcard => w.len(),
        PatModel::Take(_, _) => queues(p, w).len(),
        PatModel::All(_) => queues(p, w).len(),
        PatModel::Condition(_, _) => queues(p, w).len(),
        PatModel::Unique(_) => queues(p, w).len(),
    }
}

pub open spec fn count_list(v: Seq<PatModel>, w: Seq<char>) -> nat
    decreases v,
{
    if v.len() == 0 {
        0
    } else {
        count_list(v.drop_last(), w) + count(v.last(), w)
    }
}

/// Every count computed on the way to the count of `p` fits in a `usize`.
pub open spec fn count_fits(p: PatModel, w: Seq<char>) -> bool
    decreases p,
{
    count(p, w) <= usize::MAX && match p {
        PatModel::Either(a, b) => count_fits(*a, w) && count_fits(*b, w),
        PatModel::Concat(a, b) => count_fits(*a, w) && count_fits(*b, w),
        PatModel::Any(v) => forall|i: int| 0 <= i < v.len() ==> count_fits(#[trigger] v[i], w),
        PatModel::Group(c) => count_fits(*c, w),
        _ => true,
    }
}

pub proof fn lemma_count_list_prefix(v: Seq<PatModel>, w: Seq<char>, i: int)
    requires
        0 <= i <= v.len(),
    ensures
        count_list(v.take(i), w) <= count_list(v, w),
    decreases v.len(),
{
    if i < v.len() {
        lemma_count_list_prefix(v.drop_last(), w, i);
        assert(v.drop_last().take(i) =~= v.take(i));
    } else {
        assert(v.take(i) =~= v);
    }
}

} // verus!

verus! {

/// The size measure of a pattern: one per node, an alternation list counting
/// one per member and not its members' own nodes.
pub open spec fn pat_size(p: PatModel) -> nat
    decreases p,
{
    match p {
        PatModel::Either(a, b) => 1 + pat_size(*a) + pat_size(*b),
        PatModel::Concat(a, b) => 1 + pat_size(*a) + pat_size(*b),
        PatModel::Any(v) => 1 + v.len(),
        PatModel::Group(c) => 1 + pat_size(*c),
        PatModel::Take(c, _) => 1 + pat_size(*c),
        PatModel::All(c) => 1 + pat_size(*c),
        PatModel::Condition(i, c) => 1 + pat_size(*i) + cond_size(*c),
        PatModel::Unique(c) => 1 + pat_size(*c),
        _ => 1,
    }
}

/// The size measure of a condition, counting the sizes of its patterns.
pub open spec fn cond_size(c: CondModel) -> nat
    decreases c,
{
    match c {
        CondModel::Before(a, b) => 1 + pat_size(a) + pat_size(b),
        CondModel::After(a, b) => 1 + pat_size(a) + pat_size(b),
        CondModel::Group(g) => 1 + cond_size(*g),
        CondModel::Count(a, _) => 1 + pat_size(a),
        CondModel::Location(a, _) => 1 + pat_size(a),
        CondModel::And(a, b) => 1 + cond_size(*a) + cond_size(*b),
        CondModel::Or(a, b) => 1 + cond_size(*a) + cond_size(*b),
    }
}

} // verus!

verus! {

/// Every literal symbol of `p` belongs to the alphabet `w`.
pub open spec fn symbols_in(p: PatModel, w: Seq<char>) -> bool
    decreases p,
{
    match p {
        PatModel::Single(c) => w.contains(c),
        PatModel::Either(a, b) => symbols_in(*a, w) && symbols_in(*b, w),
        PatModel::Concat(a, b) => symbols_in(*a, w) && symbols_in(*b, w),
        PatModel::Any(v) => forall|i: int| 0 <= i < v.len() ==> symbols_in(#[trigger] v[i], w),
        PatModel::Group(c) => symbols_in(*c, w),
        PatModel::Wildcard => true,
        PatModel::Take(c, _) => symbols_in(*c, w),
        PatModel::All(c) => symbols_in(*c, w),
        PatModel::Condition(i, c) => symbols_in(*i, w) && cond_symbols_in(*c, w),
        PatModel::Unique(c) => symbols_in(*c, w),
    }
}

pub open spec fn cond_symbols_in(c: CondModel, w: Seq<char>) -> bool
    decreases c,
{
    match c {
        CondModel::Before(a, b) => symbols_in(a, w) && symbols_in(b, w),
        CondModel::After(a, b) => symbols_in(a, w) && symbols_in(b, w),
        CondModel::Group(g) => cond_symbols_in(*g, w),
        CondModel::Count(a, _) => symbols_in(a, w),
        CondModel::Location(a, _) => symbols_in(a, w),
        CondModel::And(a, b) => cond_symbols_in(*a, w) && cond_symbols_in(*b, w),
        CondModel::Or(a, b) => cond_symbols_in(*a, w) && cond_symbols_in(*b, w),
    }
}

} // verus!

verus! {

/// The decimal digit for `d`, below ten.
pub open spec fn digit_char(d: nat) -> char {
    if d == 0 {
        '0'
    } else if d == 1 {
        '1'
    } else if d == 2 {
        '2'
    } else if d == 3 {
        '3'
    } else if d == 4 {
        '4'
    } else if d == 5 {
        '5'
    } else if d == 6 {
        '6'
    } else if d == 7 {
        '7'
    } else if d == 8 {
        '8'
    } else {
        '9'
    }
}

/// The decimal notation of `n`, without leading zeros.
pub open spec fn decimal(n: nat) -> Seq<char>
    decreases n,
{
    if n < 10 {
        seq![digit_char(n)]
    } else {
        decimal(n / 10).push(digit_char(n % 10))
    }
}

/// The text of a pattern in the surface grammar.
pub open spec fn text_of(p: PatModel) -> Seq<char>
    decreases p,
{
    match p {
        PatModel::Single(c) => seq![c],
        PatModel::Either(a, b) => text_of(*a) + seq![';'] + text_of(*b),
        PatModel::Concat(a, b) => text_of(*a) + text_of(*b),
        PatModel::Any(v) => seq!['['] + list_text(v) + seq![']'],
        PatModel::Group(c) => seq!['('] + text_of(*c) + seq![')'],
        PatModel::Wildcard => seq!['*'],
        PatModel::Take(c, n) => text_of(*c) + decimal(n),
        PatModel::All(c) => text_of(*c) + seq!['!'],
        PatModel::Condition(i, c) => text_of(*i) + seq!['{'] + cond_text(*c) + seq!['}'],
        PatModel::Unique(c) => text_of(*c) + seq!['?'],
    }
}

pub open spec fn list_text(v: Seq<PatModel>) -> Seq<char>
    decreases v,
{
    if v.len() == 0 {
        seq![]
    } else {
        list_text(v.drop_last()) + text_of(v.last())
    }
}

/// The text of a condition in the surface grammar.
pub open spec fn cond_text(c: CondModel) -> Seq<char>
    decreases c,
{
    match c {
        CondModel::Before(a, b) => text_of(a) + seq!['<'] + text_of(b),
        CondModel::After(a, b) => text_of(a) + seq!['>'] + text_of(b),
        CondModel::Group(g) => seq!['('] + cond_text(*g) + seq![')'],
        CondModel::Count(a, n) => seq!['#'] + text_of(a) + seq!['='] + decimal(n),
        CondModel::Location(a, n) => seq!['@'] + text_of(a) + seq!['='] + decimal(n),
        CondModel::And(a, b) => cond_text(*a) + seq!['&'] + cond_text(*b),
        CondModel::Or(a, b) => cond_text(*a) + seq!['|'] + cond_text(*b),
    }
}

} // verus!

verus! {

pub open spec fn is_digit_char(c: char) -> bool {
    '0' <= c && c <= '9'
}

/// An alphabet none of whose symbols the grammar reads as a separator,
/// a selection marker or a digit.
pub open spec fn plain_alphabet(w: Seq<char>) -> bool {
    forall|c: char| #[trigger] w.contains(c) ==> c != ',' && c != '\n' && c != 'p' && !is_digit_char(c)
}

/// `t[i]` is a zero and so is every digit before it in its run of digits.
pub open spec fn zero_run(t: Seq<char>, i: int) -> bool
    decreases i,
{
    if i < 0 || i >= t.len() {
        false
    } else {
        t[i] == '0' && (i == 0 || !is_digit_char(t[i - 1]) || zero_run(t, i - 1))
    }
}

/// What the character at `i` contributes to the canonical text: a comma and
/// a selection marker nothing, a line break a semicolon, a leading zero of a
/// number nothing, any other character itself.
pub open spec fn emit(t: Seq<char>, i: int) -> Seq<char> {
    let next_digit = i + 1 < t.len() && is_digit_char(t[i + 1]);
    if t[i] == ',' {
        seq![]
    } else if t[i] == '\n' {
        seq![';']
    } else if t[i] == 'p' && next_digit {
        seq![]
    } else if zero_run(t, i) && next_digit {
        seq![]
    } else {
        seq![t[i]]
    }
}

/// The canonical text of `t[a..b]`.
pub open spec fn canon(t: Seq<char>, a: int, b: int) -> Seq<char>
    decreases b - a,
{
    if b <= a {
        seq![]
    } else {
        canon(t, a, b - 1) + emit(t, b - 1)
    }
}

pub proof fn lemma_canon_split(t: Seq<char>, a: int, b: int, c: int)
    requires
        a <= b <= c,
    ensures
        canon(t, a, c) == canon(t, a, b) + canon(t, b, c),
    decreases c - b,
{
    if b < c {
        lemma_canon_split(t, a, b, c - 1);
    } else {
        assert(canon(t, a, b) + canon(t, b, c) =~= canon(t, a, b));
    }
}

pub proof fn lemma_canon_one(t: Seq<char>, i: int)
    ensures
        canon(t, i, i + 1) == emit(t, i),
{
    assert(canon(t, i, i) == Seq::<char>::empty());
    assert(canon(t, i, i + 1) =~= emit(t, i));
}

} // verus!

verus! {

pub proof fn lemma_text_single(c: char)
    ensures
        text_of(PatModel::Single(c)) == seq![c],
{
}

} // verus!

verus! {

pub proof fn lemma_queues_single(c: char, w: Seq<char>)
    ensures
        queues(PatModel::Single(c), w) == seq![seq![c]],
{
}

} // verus!

verus! {

// The grammar, as a function from a text and an offset to the tree read there
// and the offset after it (`None` where the text does not fit the grammar).
// Alternatives are tried in order and repetitions are greedy, left-folded.

pub open spec fn at_s(t: Seq<char>, i: int, c: char) -> bool {
    0 <= i < t.len() && t[i] == c
}

pub open spec fn starts_atom_s(t: Seq<char>, i: int, w: Seq<char>) -> bool {
    0 <= i < t.len() && (t[i] == '*' || t[i] == '(' || t[i] == '[' || w.contains(t[i]))
}

/// The end of the run of digits that starts at `i`.
pub open spec fn digit_end(t: Seq<char>, i: int) -> int
    decreases t.len() - i,
{
    if 0 <= i < t.len() && is_digit_char(t[i]) {
        digit_end(t, i + 1)
    } else {
        i
    }
}

/// The decimal value of the digits `t[a..b]`.
pub open spec fn digits_value(t: Seq<char>, a: int, b: int) -> nat
    decreases b - a,
{
    if b <= a {
        0
    } else {
        10 * digits_value(t, a, b - 1) + (t[b - 1] as u32 - 48) as nat
    }
}

/// `NUMBER`: a run of digits whose value fits in a `usize`.
pub open spec fn number_s(t: Seq<char>, pos: int) -> Option<(nat, int)> {
    if 0 <= pos < t.len() && is_digit_char(t[pos]) && digits_value(t, pos, digit_end(t, pos))
        <= usize::MAX {
        Some((digits_value(t, pos, digit_end(t, pos)), digit_end(t, pos)))
    } else {
        None
    }
}

/// `atom := S | "*" | "(" pattern ")"`
pub open spec fn atom_s(t: Seq<char>, pos: int, w: Seq<char>) -> Option<(PatModel, int)>
    decreases t.len() - pos, 0nat,
{
    if pos < 0 || pos >= t.len() {
        None
    } else if t[pos] == '*' {
        Some((PatModel::Wildcard, pos + 1))
    } else if t[pos] == '(' {
        match pattern_s(t, pos + 1, w) {
            Some((p, e)) => if at_s(t, e, ')') {
                Some((PatModel::Group(Box::new(p)), e + 1))
            } else {
                None
            },
            None => None,
        }
    } else if w.contains(t[pos]) {
        Some((PatModel::Single(t[pos]), pos + 1))
    } else {
        None
    }
}

/// The atoms of a bracketed list from `i` on, after those already read.
pub open spec fn any_items_s(t: Seq<char>, i: int, items: Seq<PatModel>, w: Seq<char>) -> Option<
    (PatModel, int),
>
    decreases t.len() - i, 1nat,
{
    if at_s(t, i, ']') {
        Some((PatModel::Any(items), i + 1))
    } else if i < 0 || i >= t.len() {
        None
    } else {
        match atom_s(t, i, w) {
            Some((p, e)) => if i < e <= t.len() {
                any_items_s(t, e, items.push(p), w)
            } else {
                None
            },
            None => None,
        }
    }
}

/// `any := "[" atom* "]" | atom`
pub open spec fn any_s(t: Seq<char>, pos: int, w: Seq<char>) -> Option<(PatModel, int)>
    decreases t.len() - pos, 2nat,
{
    if at_s(t, pos, '[') {
        any_items_s(t, pos + 1, seq![], w)
    } else {
        atom_s(t, pos, w)
    }
}

/// `all := any "!"?`
pub open spec fn all_s(t: Seq<char>, pos: int, w: Seq<char>) -> Option<(PatModel, int)>
    decreases t.len() - pos, 3nat,
{
    match any_s(t, pos, w) {
        Some((p, e)) => if at_s(t, e, '!') {
            Some((PatModel::All(Box::new(p)), e + 1))
        } else {
            Some((p, e))
        },
        None => None,
    }
}

/// `take := all ("p"? NUMBER)?`
pub open spec fn take_s(t: Seq<char>, pos: int, w: Seq<char>) -> Option<(PatModel, int)>
    decreases t.len() - pos, 4nat,
{
    match all_s(t, pos, w) {
        Some((p, e)) => {
            let d = if at_s(t, e, 'p') && e + 1 < t.len() && is_digit_char(t[e + 1]) {
                e + 1
            } else {
                e
            };
            if 0 <= d < t.len() && is_digit_char(t[d]) {
                match number_s(t, d) {
                    Some((n, f)) => Some((PatModel::Take(Box::new(p), n), f)),
                    None => None,
                }
            } else {
                Some((p, e))
            }
        },
        None => None,
    }
}

/// `atomc := "#" take "=" NUMBER | "@" take "=" NUMBER | take "<" take
///         | take ">" take | "(" condition ")"`
pub open spec fn cond_atom_s(t: Seq<char>, pos: int, w: Seq<char>) -> Option<(CondModel, int)>
    decreases t.len() - pos, 5nat,
{
    if at_s(t, pos, '#') || at_s(t, pos, '@') {
        match take_s(t, pos + 1, w) {
            Some((p, e)) => if at_s(t, e, '=') {
                match number_s(t, e + 1) {
                    Some((n, f)) => Some(
                        (
                            if t[pos] == '#' {
                                CondModel::Count(p, n)
                            } else {
                                CondModel::Location(p, n)
                            },
                            f,
                        ),
                    ),
                    None => None,
                }
            } else {
                None
            },
            None => None,
        }
    } else {
        let compared = match take_s(t, pos, w) {
            Some((a, e)) => if e >= pos && (at_s(t, e, '<') || at_s(t, e, '>')) {
                match take_s(t, e + 1, w) {
                    Some((b, f)) => Some(
                        (
                            if t[e] == '<' {
                                CondModel::Before(a, b)
                            } else {
                                CondModel::After(a, b)
                            },
                            f,
                        ),
                    ),
                    None => None,
                }
            } else {
                None
            },
            None => None,
        };
        if compared is Some {
            compared
        } else if at_s(t, pos, '(') {
            match condition_s(t, pos + 1, w) {
                Some((c, e)) => if at_s(t, e, ')') {
                    Some((CondModel::Group(Box::new(c)), e + 1))
                } else {
                    None
                },
                None => None,
            }
        } else {
            None
        }
    }
}

/// The rest of `and`, after `acc` read up to `e`.
pub open spec fn and_tail_s(t: Seq<char>, acc: CondModel, e: int, w: Seq<char>) -> Option<
    (CondModel, int),
>
    decreases t.len() - e, 6nat,
{
    if at_s(t, e, '&') {
        match cond_atom_s(t, e + 1, w) {
            Some((c, f)) => if e < f <= t.len() {
                and_tail_s(t, CondModel::And(Box::new(acc), Box::new(c)), f, w)
            } else {
                None
            },
            None => None,
        }
    } else {
        Some((acc, e))
    }
}

/// `and := atomc ("&" atomc)*`
pub open spec fn and_s(t: Seq<char>, pos: int, w: Seq<char>) -> Option<(CondModel, int)>
    decreases t.len() - pos, 7nat,
{
    match cond_atom_s(t, pos, w) {
        Some((c, e)) => if pos < e <= t.len() {
            and_tail_s(t, c, e, w)
        } else {
            None
        },
        None => None,
    }
}

/// The rest of `or`, after `acc` read up to `e`.
pub open spec fn or_tail_s(t: Seq<char>, acc: CondModel, e: int, w: Seq<char>) -> Option<
    (CondModel, int),
>
    decreases t.len() - e, 8nat,
{
    if at_s(t, e, '|') {
        match and_s(t, e + 1, w) {
            Some((c, f)) => if e < f <= t.len() {
                or_tail_s(t, CondModel::Or(Box::new(acc), Box::new(c)), f, w)
            } else {
                None
            },
            None => None,
        }
    } else {
        Some((acc, e))
    }
}

/// `condition := and ("|" and)*`
pub open spec fn condition_s(t: Seq<char>, pos: int, w: Seq<char>) -> Option<(CondModel, int)>
    decreases t.len() - pos, 9nat,
{
    match and_s(t, pos, w) {
        Some((c, e)) => if pos < e <= t.len() {
            or_tail_s(t, c, e, w)
        } else {
            None
        },
        None => None,
    }
}

/// `cond := take ("{" condition "}")?`
pub open spec fn cond_s(t: Seq<char>, pos: int, w: Seq<char>) -> Option<(PatModel, int)>
    decreases t.len() - pos, 10nat,
{
    match take_s(t, pos, w) {
        Some((p, e)) => if !(e >= pos && at_s(t, e, '{')) {
            Some((p, e))
        } else {
            match condition_s(t, e + 1, w) {
                Some((c, f)) => if at_s(t, f, '}') {
                    Some((PatModel::Condition(Box::new(p), Box::new(c)), f + 1))
                } else {
                    None
                },
                None => None,
            }
        },
        None => None,
    }
}

/// The rest of `seq`, after `acc` read up to `e`.
pub open spec fn seq_tail_s(t: Seq<char>, acc: PatModel, e: int, w: Seq<char>) -> Option<
    (PatModel, int),
>
    decreases t.len() - e, 11nat,
{
    let next = if at_s(t, e, ',') {
        e + 1
    } else {
        e
    };
    if !starts_atom_s(t, next, w) {
        Some((acc, e))
    } else {
        match cond_s(t, next, w) {
            Some((p, f)) => if e < f <= t.len() {
                seq_tail_s(t, PatModel::Concat(Box::new(acc), Box::new(p)), f, w)
            } else {
                None
            },
            None => None,
        }
    }
}

/// `seq := cond (","? cond)*`
pub open spec fn seq_s(t: Seq<char>, pos: int, w: Seq<char>) -> Option<(PatModel, int)>
    decreases t.len() - pos, 12nat,
{
    match cond_s(t, pos, w) {
        Some((p, e)) => if pos < e <= t.len() {
            seq_tail_s(t, p, e, w)
        } else {
            None
        },
        None => None,
    }
}

/// `unique := seq "?"?`
pub open spec fn unique_s(t: Seq<char>, pos: int, w: Seq<char>) -> Option<(PatModel, int)>
    decreases t.len() - pos, 13nat,
{
    match seq_s(t, pos, w) {
        Some((p, e)) => if at_s(t, e, '?') {
            Some((PatModel::Unique(Box::new(p)), e + 1))
        } else {
            Some((p, e))
        },
        None => None,
    }
}

/// The rest of `pattern`, after `acc` read up to `e`.
pub open spec fn either_tail_s(t: Seq<char>, acc: PatModel, e: int, w: Seq<char>) -> Option<
    (PatModel, int),
>
    decreases t.len() - e, 14nat,
{
    if at_s(t, e, ';') || at_s(t, e, '\n') {
        match unique_s(t, e + 1, w) {
            Some((p, f)) => if e < f <= t.len() {
                either_tail_s(t, PatModel::Either(Box::new(acc), Box::new(p)), f, w)
            } else {
                None
            },
            None => None,
        }
    } else {
        Some((acc, e))
    }
}

/// `pattern := unique (("\n" | ";") unique)*`
pub open spec fn pattern_s(t: Seq<char>, pos: int, w: Seq<char>) -> Option<(PatModel, int)>
    decreases t.len() - pos, 15nat,
{
    match unique_s(t, pos, w) {
        Some((p, e)) => if pos < e <= t.len() {
            either_tail_s(t, p, e, w)
        } else {
            None
        },
        None => None,
    }
}

/// The pattern that the whole text `t` spells, if it fits the grammar.
pub open spec fn parses_s(t: Seq<char>, w: Seq<char>) -> Option<PatModel> {
    match pattern_s(t, 0, w) {
        Some((p, e)) => if e == t.len() {
            Some(p)
        } else {
            None
        },
        None => None,
    }
}

} // verus!
