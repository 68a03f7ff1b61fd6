//! Sums and selections: how a count that was built up step by step relates to what it counts.

use vstd::prelude::*;

verus! {

/// The numbers of a list, added up.
pub open spec fn total(xs: Seq<nat>) -> nat {
    xs.fold_left(0nat, |sum: nat, x: nat| sum + x)
}

/// The numbers that the first `n` places stand for, added up.
pub open spec fn sum(n: nat, each: spec_fn(int) -> nat) -> nat {
    total(Seq::new(n, each))
}

/// How many of the first `n` places meet a condition.
pub open spec fn count(n: nat, meets: spec_fn(int) -> bool) -> nat {
    sum(
        n,
        |i: int|
            if meets(i) {
                1nat
            } else {
                0
            },
    )
}

/// A number, held at the largest one that fits.
pub open spec fn held_at(n: nat, most: nat) -> nat {
    if n > most {
        most
    } else {
        n
    }
}

pub proof fn lemma_total_push(xs: Seq<nat>, x: nat)
    ensures
        total(xs.push(x)) == total(xs) + x,
        total(Seq::<nat>::empty()) == 0,
{
    assert(xs.push(x).drop_last() =~= xs);
}

pub proof fn lemma_total_add(a: Seq<nat>, b: Seq<nat>)
    ensures
        total(a + b) == total(a) + total(b),
    decreases b.len(),
{
    if b.len() == 0 {
        assert(a + b =~= a);
        lemma_total_push(a, 0);
        assert(b =~= Seq::<nat>::empty());
    } else {
        let front = b.drop_last();
        lemma_total_add(a, front);
        assert(a + b =~= (a + front).push(b.last()));
        lemma_total_push(a + front, b.last());
        assert(b =~= front.push(b.last()));
        lemma_total_push(front, b.last());
    }
}

/// A sum over one more place.
pub proof fn lemma_sum(n: nat, each: spec_fn(int) -> nat)
    ensures
        sum(0, each) == 0,
        sum(n + 1, each) == sum(n, each) + each(n as int),
{
    let xs = Seq::new(n, each);
    assert(Seq::new(n + 1, each) =~= xs.push(each(n as int)));
    lemma_total_push(xs, each(n as int));
    assert(Seq::new(0, each) =~= Seq::<nat>::empty());
}

/// Equal numbers have equal sums.
pub proof fn lemma_sum_same(n: nat, a: spec_fn(int) -> nat, b: spec_fn(int) -> nat)
    requires
        forall|i: int| 0 <= i < n ==> #[trigger] a(i) == b(i),
    ensures
        sum(n, a) == sum(n, b),
{
    assert(Seq::new(n, a) =~= Seq::new(n, b));
}

/// A count over one more place.
pub proof fn lemma_count(n: nat, meets: spec_fn(int) -> bool)
    ensures
        count(0, meets) == 0,
        count(n + 1, meets) == count(n, meets) + if meets(n as int) {
            1nat
        } else {
            0
        },
        count(n, meets) <= n,
    decreases n,
{
    lemma_sum(
        n,
        |i: int|
            if meets(i) {
                1nat
            } else {
                0
            },
    );
    if n > 0 {
        lemma_count((n - 1) as nat, meets);
    }
}

/// Conditions met at the same places are met equally often.
pub proof fn lemma_count_same(n: nat, a: spec_fn(int) -> bool, b: spec_fn(int) -> bool)
    requires
        forall|i: int| 0 <= i < n ==> #[trigger] a(i) == b(i),
    ensures
        count(n, a) == count(n, b),
    decreases n,
{
    if n > 0 {
        let m = (n - 1) as nat;
        lemma_count_same(m, a, b);
        lemma_count(m, a);
        lemma_count(m, b);
        assert(a(n - 1) == b(n - 1));
    } else {
        lemma_count(0, a);
        lemma_count(0, b);
    }
}

proof fn lemma_total_remove<T>(b: Seq<T>, g: spec_fn(T) -> nat, k: int)
    requires
        0 <= k < b.len(),
    ensures
        total(b.map_values(g)) == total(b.remove(k).map_values(g)) + g(b[k]),
{
    let (front, back) = (b.take(k), b.skip(k + 1));
    assert(b.map_values(g) =~= front.map_values(g).push(g(b[k])) + back.map_values(g));
    assert(b.remove(k).map_values(g) =~= front.map_values(g) + back.map_values(g));
    lemma_total_add(front.map_values(g).push(g(b[k])), back.map_values(g));
    lemma_total_add(front.map_values(g), back.map_values(g));
    lemma_total_push(front.map_values(g), g(b[k]));
}

/// A sum does not depend on the order in which things are listed.
pub proof fn lemma_total_any_order<T>(a: Seq<T>, b: Seq<T>, g: spec_fn(T) -> nat)
    requires
        a.no_duplicates(),
        b.no_duplicates(),
        forall|x: T| #[trigger] a.contains(x) <==> b.contains(x),
    ensures
        a.len() == b.len(),
        total(a.map_values(g)) == total(b.map_values(g)),
    decreases a.len(),
{
    if a.len() == 0 {
        if b.len() > 0 {
            assert(b.contains(b[0]));
            assert(a.contains(b[0]));
        }
        assert(a.map_values(g) =~= b.map_values(g));
    } else {
        let x = a.last();
        let front = a.drop_last();
        assert(a.contains(x));
        let k = choose|k: int| 0 <= k < b.len() && b[k] == x;
        let rest = b.remove(k);
        assert forall|y: T| #[trigger] front.contains(y) <==> rest.contains(y) by {
            if front.contains(y) {
                let i = choose|i: int| 0 <= i < front.len() && front[i] == y;
                assert(a[i] == y);
                assert(a.contains(y));
                let j = choose|j: int| 0 <= j < b.len() && b[j] == y;
                assert(j != k);
                assert(rest[if j < k {
                    j
                } else {
                    j - 1
                }] == y);
            }
            if rest.contains(y) {
                let i = choose|i: int| 0 <= i < rest.len() && rest[i] == y;
                let j = if i < k {
                    i
                } else {
                    i + 1
                };
                assert(b[j] == y && j != k);
                assert(b.contains(y));
                assert(a.contains(y));
                let m = choose|m: int| 0 <= m < a.len() && a[m] == y;
                assert(m != a.len() - 1);
                assert(front[m] == y);
            }
        }
        assert forall|i: int, j: int|
            0 <= i < rest.len() && 0 <= j < rest.len() && i != j implies rest[i] != rest[j] by {}
        lemma_total_any_order(front, rest, g);
        lemma_total_remove(b, g, k);
        assert(a.map_values(g) =~= front.map_values(g).push(g(x)));
        lemma_total_push(front.map_values(g), g(x));
    }
}

/// What was picked from a list and what was not add up to the list.
pub proof fn lemma_filter_counts<T>(xs: Seq<T>, keep: spec_fn(T) -> bool)
    ensures
        xs.filter(keep).len() + count(xs.len(), |i: int| !keep(xs[i])) == xs.len(),
        forall|x: T| #[trigger] xs.filter(keep).contains(x) <==> xs.contains(x) && keep(x),
    decreases xs.len(),
{
    reveal(Seq::filter);
    let drop = |i: int| !keep(xs[i]);
    if xs.len() == 0 {
        lemma_count(0, drop);
    } else {
        let front = xs.drop_last();
        let last = xs.last();
        lemma_filter_counts(front, keep);
        lemma_count(front.len(), drop);
        lemma_count_same(front.len(), drop, |i: int| !keep(front[i]));
        assert(xs == front.push(last));
        let (a, b) = (front.filter(keep), xs.filter(keep));
        assert forall|x: T| #[trigger] b.contains(x) <==> xs.contains(x) && keep(x) by {
            assert(a.contains(x) <==> front.contains(x) && keep(x));
            if front.contains(x) {
                let i = choose|i: int| 0 <= i < front.len() && front[i] == x;
                assert(xs[i] == x);
            }
            if xs.contains(x) && x != last {
                let i = choose|i: int| 0 <= i < xs.len() && xs[i] == x;
                assert(front[i] == x);
            }
            if keep(last) {
                assert(b[b.len() - 1] == last);
                if a.contains(x) {
                    let i = choose|i: int| 0 <= i < a.len() && a[i] == x;
                    assert(b[i] == x);
                }
                if b.contains(x) && x != last {
                    let i = choose|i: int| 0 <= i < b.len() && b[i] == x;
                    assert(a[i] == x);
                }
            }
            assert(xs[xs.len() - 1] == last);
        }
    }
}

} // verus!
