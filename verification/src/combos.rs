//! Choosing `k` positions out of `n`, and the positions left over.

use itertools::Itertools;
use vstd::prelude::*;

verus! {

/// Whether `c` lists `k` positions below `n` in strictly increasing order.
pub open spec fn is_combination(c: Seq<usize>, n: nat, k: nat) -> bool {
    &&& c.len() == k
    &&& forall|i: int| 0 <= i < c.len() ==> #[trigger] c[i] < n
    &&& forall|i: int, j: int| 0 <= i < j < c.len() ==> c[i] < c[j]
}

/// Whether `a` comes before `b` in lexicographic order: at the first place
/// where they differ, `a` holds the smaller position.
pub open spec fn lex_less(a: Seq<usize>, b: Seq<usize>) -> bool {
    exists|p: int|
        0 <= p < a.len() && p < b.len() && a.take(p) == b.take(p) && #[trigger] a[p] < b[p]
}

/// Whether `cs` lists every way to choose `k` positions out of `n`, each way
/// once, in lexicographic order.
pub open spec fn is_enumeration(cs: Seq<Seq<usize>>, n: nat, k: nat) -> bool {
    &&& forall|i: int| 0 <= i < cs.len() ==> is_combination(#[trigger] cs[i], n, k)
    &&& forall|i: int, j: int| 0 <= i < j < cs.len() ==> lex_less(cs[i], cs[j])
    &&& forall|c: Seq<usize>|
        is_combination(c, n, k) ==> exists|i: int| 0 <= i < cs.len() && #[trigger] cs[i] == c
}

/// The views of the vectors of `v`.
pub open spec fn views(v: Seq<Vec<usize>>) -> Seq<Seq<usize>> {
    Seq::new(v.len(), |i: int| v[i]@)
}

/// All ways to choose `k` positions out of `0..n`.
///
/// Calls `Itertools::combinations` on the range `0..n` and collects what it
/// yields. The contract claims what that adaptor does on a range: it yields
/// every `k`-element selection exactly once, each as a vector of increasing
/// positions, and the selections come in lexicographic order. For `k == 0`
/// that is the single empty selection, for `k > n` nothing.
#[verifier::external_body]
pub(crate) fn index_combinations(n: usize, k: usize) -> (r: Vec<Vec<usize>>)
    ensures
        is_enumeration(views(r@), n as nat, k as nat),
{
    (0..n).combinations(k).collect()
}

/// The positions below `n` at which `keep` holds, in increasing order.
pub open spec fn select(n: nat, keep: spec_fn(int) -> bool) -> Seq<usize>
    decreases n,
{
    if n == 0 {
        Seq::empty()
    } else {
        let before = select((n - 1) as nat, keep);
        if keep(n - 1) {
            before.push((n - 1) as usize)
        } else {
            before
        }
    }
}

/// The positions below `n` that `c` does not hold, in increasing order.
pub open spec fn complement(c: Seq<usize>, n: nat) -> Seq<usize> {
    select(n, |i: int| !c.contains(i as usize))
}

/// What `select` lists: positions below `n` that meet the condition, in
/// strictly increasing order, and every position that meets it.
pub proof fn lemma_select(n: nat, keep: spec_fn(int) -> bool)
    requires
        n <= usize::MAX,
    ensures
        select(n, keep).len() <= n,
        forall|i: int| 0 <= i < select(n, keep).len() ==> #[trigger] select(n, keep)[i] < n,
        forall|i: int| 0 <= i < select(n, keep).len() ==> keep(#[trigger] select(n, keep)[i] as int),
        forall|i: int, j: int|
            0 <= i < j < select(n, keep).len() ==> select(n, keep)[i] < select(n, keep)[j],
        forall|p: int| 0 <= p < n && #[trigger] keep(p) ==> select(n, keep).contains(p as usize),
    decreases n,
{
    if n > 0 {
        let before = select((n - 1) as nat, keep);
        lemma_select((n - 1) as nat, keep);
        let now = select(n, keep);
        assert forall|p: int| 0 <= p < n && #[trigger] keep(p) implies now.contains(p as usize) by {
            if p < n - 1 {
                let i = choose|i: int| 0 <= i < before.len() && before[i] == p as usize;
                assert(now[i] == p as usize);
            } else {
                assert(now[now.len() - 1] == p as usize);
            }
        }
    }
}

/// `select` depends on its condition only below `n`.
pub proof fn lemma_select_agrees(n: nat, f: spec_fn(int) -> bool, g: spec_fn(int) -> bool)
    requires
        forall|i: int| 0 <= i < n ==> #[trigger] f(i) == g(i),
    ensures
        select(n, f) == select(n, g),
    decreases n,
{
    if n > 0 {
        lemma_select_agrees((n - 1) as nat, f, g);
    }
}

/// A condition and its opposite divide the positions between them.
pub proof fn lemma_select_partition(n: nat, f: spec_fn(int) -> bool, g: spec_fn(int) -> bool)
    requires
        forall|i: int| 0 <= i < n ==> #[trigger] f(i) != g(i),
    ensures
        select(n, f).len() + select(n, g).len() == n,
    decreases n,
{
    if n > 0 {
        lemma_select_partition((n - 1) as nat, f, g);
    }
}

/// Lexicographic order admits no two sequences that precede each other.
pub proof fn lemma_lex_less_asymmetric(a: Seq<usize>, b: Seq<usize>)
    requires
        lex_less(a, b),
    ensures
        !lex_less(b, a),
        a != b,
{
    let p = choose|p: int|
        0 <= p < a.len() && p < b.len() && a.take(p) == b.take(p) && #[trigger] a[p] < b[p];
    if lex_less(b, a) {
        let q = choose|q: int|
            0 <= q < b.len() && q < a.len() && b.take(q) == a.take(q) && #[trigger] b[q] < a[q];
        if q < p {
            assert(a.take(p)[q] == b.take(p)[q]);
        } else if p < q {
            assert(a.take(q)[p] == b.take(q)[p]);
        }
    }
}

/// Of two different sequences of one length, one precedes the other.
pub proof fn lemma_lex_less_total(a: Seq<usize>, b: Seq<usize>)
    requires
        a.len() == b.len(),
        a != b,
    ensures
        lex_less(a, b) || lex_less(b, a),
{
    assert(a.take(0) =~= b.take(0));
    lemma_first_difference(a, b, 0);
}

proof fn lemma_first_difference(a: Seq<usize>, b: Seq<usize>, from: int)
    requires
        a.len() == b.len(),
        0 <= from <= a.len(),
        a.take(from) == b.take(from),
        a != b,
    ensures
        lex_less(a, b) || lex_less(b, a),
    decreases a.len() - from,
{
    if from == a.len() {
        assert(a.take(from) =~= a);
        assert(b.take(from) =~= b);
    } else if a[from] < b[from] {
    } else if b[from] < a[from] {
    } else {
        assert(a.take(from + 1) =~= a.take(from).push(a[from]));
        assert(b.take(from + 1) =~= b.take(from).push(b[from]));
        lemma_first_difference(a, b, from + 1);
    }
}

/// Two enumerations of the same choices are the same list.
pub proof fn lemma_enumeration_unique(xs: Seq<Seq<usize>>, ys: Seq<Seq<usize>>, n: nat, k: nat)
    requires
        is_enumeration(xs, n, k),
        is_enumeration(ys, n, k),
    ensures
        xs == ys,
{
    lemma_enumeration_prefix(xs, ys, n, k, xs.len() as int);
    lemma_enumeration_prefix(ys, xs, n, k, ys.len() as int);
    if xs.len() <= ys.len() {
        assert(xs =~= ys.take(xs.len() as int));
        if xs.len() < ys.len() {
            let extra = ys[xs.len() as int];
            let i = choose|i: int| 0 <= i < xs.len() && #[trigger] xs[i] == extra;
            assert(ys[i] == xs[i]);
            lemma_lex_less_asymmetric(ys[i], ys[xs.len() as int]);
        }
    } else {
        let extra = xs[ys.len() as int];
        let i = choose|i: int| 0 <= i < ys.len() && #[trigger] ys[i] == extra;
        assert(xs[i] == ys[i]);
        lemma_lex_less_asymmetric(xs[i], xs[ys.len() as int]);
    }
}

/// Two enumerations of the same choices agree place by place, as far as both
/// reach.
proof fn lemma_enumeration_prefix(xs: Seq<Seq<usize>>, ys: Seq<Seq<usize>>, n: nat, k: nat, m: int)
    requires
        is_enumeration(xs, n, k),
        is_enumeration(ys, n, k),
        0 <= m <= xs.len(),
    ensures
        forall|i: int| 0 <= i < m && i < ys.len() ==> xs[i] == ys[i],
    decreases m,
{
    if m > 0 {
        lemma_enumeration_prefix(xs, ys, n, k, m - 1);
        let i = m - 1;
        if i < ys.len() && xs[i] != ys[i] {
            // Each list holds the other's entry at place `i` somewhere else.
            let jx = choose|j: int| 0 <= j < xs.len() && #[trigger] xs[j] == ys[i];
            let jy = choose|j: int| 0 <= j < ys.len() && #[trigger] ys[j] == xs[i];
            if jx < i {
                // ys[jx] == xs[jx] == ys[i]: ys would repeat an entry.
                lemma_lex_less_asymmetric(ys[jx], ys[i]);
            }
            if jy < i {
                lemma_enumeration_prefix(ys, xs, n, k, i);
                lemma_lex_less_asymmetric(xs[jy], xs[i]);
            }
            // Both sit later: xs[i] < xs[jx] == ys[i] < ys[jy] == xs[i].
            lemma_lex_less_asymmetric(xs[i], xs[jx]);
        }
    }
}

} // verus!
