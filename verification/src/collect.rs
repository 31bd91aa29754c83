//! Small vocabulary for sequences: comprehensions, counting, and the ascending order in which
//! sorted collections hand out their keys.
use std::collections::{BTreeMap, BTreeSet};
use vstd::prelude::*;
use vstd::std_specs::cmp::OrdSpec;
use vstd::std_specs::iter::IteratorSpec;

verus! {

broadcast use vstd::laws_cmp::group_laws_cmp;

/// The values `f(i)` for the indices `i` below `n` that satisfy `p`, in index order.
pub open spec fn picked<A>(n: nat, p: spec_fn(int) -> bool, f: spec_fn(int) -> A) -> Seq<A>
    decreases n,
{
    if n == 0 {
        Seq::empty()
    } else {
        let rest = picked((n - 1) as nat, p, f);
        if p(n - 1) {
            rest.push(f(n - 1))
        } else {
            rest
        }
    }
}

/// Each index stands for itself.
pub open spec fn itself() -> spec_fn(int) -> int {
    |i: int| i
}

/// Every picked value comes from an index that satisfies the predicate.
pub proof fn picked_sound<A>(
    n: nat,
    p: spec_fn(int) -> bool,
    f: spec_fn(int) -> A,
    k: int,
) -> (i: int)
    requires
        0 <= k < picked(n, p, f).len(),
    ensures
        0 <= i < n,
        p(i),
        f(i) == picked(n, p, f)[k],
    decreases n,
{
    let m = (n - 1) as nat;
    if k < picked(m, p, f).len() {
        picked_sound(m, p, f, k)
    } else {
        n - 1
    }
}

/// Every index that satisfies the predicate contributes its value.
pub proof fn picked_complete<A>(n: nat, p: spec_fn(int) -> bool, f: spec_fn(int) -> A, i: int)
    requires
        0 <= i < n,
        p(i),
    ensures
        picked(n, p, f).contains(f(i)),
    decreases n,
{
    let m = (n - 1) as nat;
    let whole = picked(n, p, f);
    if i == n - 1 {
        assert(whole[whole.len() - 1] == f(i));
    } else {
        picked_complete(m, p, f, i);
        let k = choose|k: int| 0 <= k < picked(m, p, f).len() && picked(m, p, f)[k] == f(i);
        assert(whole[k] == f(i));
    }
}

/// How many entries are true.
pub open spec fn tally(s: Seq<bool>) -> nat
    decreases s.len(),
{
    if s.len() == 0 {
        0
    } else {
        tally(s.drop_last()) + if s.last() {
            1nat
        } else {
            0nat
        }
    }
}

pub proof fn tally_bounds(s: Seq<bool>)
    ensures
        tally(s) <= s.len(),
        tally(s) > 0 <==> exists|i: int| 0 <= i < s.len() && s[i],
    decreases s.len(),
{
    if s.len() > 0 {
        tally_bounds(s.drop_last());
        if tally(s) > 0 {
            if s.last() {
                assert(s[s.len() - 1]);
            } else {
                let i = choose|i: int| 0 <= i < s.drop_last().len() && s.drop_last()[i];
                assert(s[i]);
            }
        }
        if exists|i: int| 0 <= i < s.len() && s[i] {
            let i = choose|i: int| 0 <= i < s.len() && s[i];
            if i < s.len() - 1 {
                assert(s.drop_last()[i]);
            }
        }
    }
}

/// One more entry.
pub proof fn tally_push(s: Seq<bool>, n: int)
    requires
        0 <= n < s.len(),
    ensures
        tally(s.take(n + 1)) == tally(s.take(n)) + if s[n] {
            1nat
        } else {
            0nat
        },
{
    assert(s.take(n + 1).drop_last() =~= s.take(n));
}

/// Fewer true entries never count more.
pub proof fn tally_monotone(a: Seq<bool>, b: Seq<bool>)
    requires
        a.len() == b.len(),
        forall|i: int| 0 <= i < a.len() && a[i] ==> b[i],
    ensures
        tally(a) <= tally(b),
    decreases a.len(),
{
    if a.len() > 0 {
        assert forall|i: int| 0 <= i < a.drop_last().len() && a.drop_last()[i] implies
            b.drop_last()[i] by {
            assert(a[i]);
        }
        tally_monotone(a.drop_last(), b.drop_last());
        assert(a.last() ==> b.last());
    }
}

/// A strictly larger set of true entries counts more.
pub proof fn tally_strictly_monotone(a: Seq<bool>, b: Seq<bool>, k: int)
    requires
        a.len() == b.len(),
        forall|i: int| 0 <= i < a.len() && a[i] ==> b[i],
        0 <= k < a.len(),
        !a[k],
        b[k],
    ensures
        tally(a) < tally(b),
    decreases a.len(),
{
    let (x, y) = (a.drop_last(), b.drop_last());
    assert forall|i: int| 0 <= i < x.len() && x[i] implies y[i] by {
        assert(a[i]);
    }
    assert(a.last() ==> b.last());
    if k == a.len() - 1 {
        tally_monotone(x, y);
    } else {
        tally_strictly_monotone(x, y, k);
    }
}

/// What two predicates cover together counts at most the sum of both.
pub proof fn tally_of_union(a: Seq<bool>, b: Seq<bool>, c: Seq<bool>)
    requires
        a.len() == b.len() == c.len(),
        forall|i: int| 0 <= i < c.len() && c[i] ==> a[i] || b[i],
    ensures
        tally(c) <= tally(a) + tally(b),
    decreases c.len(),
{
    if c.len() > 0 {
        let (x, y, z) = (a.drop_last(), b.drop_last(), c.drop_last());
        assert forall|i: int| 0 <= i < z.len() && z[i] implies x[i] || y[i] by {
            assert(c[i]);
        }
        tally_of_union(x, y, z);
        assert(c.last() ==> a.last() || b.last());
    }
}

/// What two predicates cover without overlap counts the sum of both.
pub proof fn tally_of_disjoint(a: Seq<bool>, b: Seq<bool>, c: Seq<bool>)
    requires
        a.len() == b.len() == c.len(),
        forall|i: int| 0 <= i < c.len() ==> #[trigger] c[i] == (a[i] || b[i]),
        forall|i: int| 0 <= i < c.len() ==> !(#[trigger] a[i] && b[i]),
    ensures
        tally(c) == tally(a) + tally(b),
    decreases c.len(),
{
    if c.len() > 0 {
        tally_of_disjoint(a.drop_last(), b.drop_last(), c.drop_last());
        assert(c.last() == (a.last() || b.last()));
        assert(!(a[a.len() - 1] && b[b.len() - 1]));
    }
}

/// Where every entry is true, all are counted.
pub proof fn tally_of_all(a: Seq<bool>)
    requires
        forall|i: int| 0 <= i < a.len() ==> a[i],
    ensures
        tally(a) == a.len(),
    decreases a.len(),
{
    if a.len() > 0 {
        assert(a[a.len() - 1]);
        tally_of_all(a.drop_last());
    }
}

/// At most one true entry counts at most one.
pub proof fn tally_of_one(a: Seq<bool>)
    requires
        forall|i: int, j: int| 0 <= i < a.len() && 0 <= j < a.len() && a[i] && a[j] ==> i == j,
    ensures
        tally(a) <= 1,
    decreases a.len(),
{
    if a.len() > 0 {
        let x = a.drop_last();
        assert forall|i: int, j: int|
            0 <= i < x.len() && 0 <= j < x.len() && x[i] && x[j] implies i == j by {
            assert(a[i] && a[j]);
        }
        if a.last() {
            tally_bounds(x);
            if tally(x) > 0 {
                let i = choose|i: int| 0 <= i < x.len() && x[i];
                assert(a[i] && a[a.len() - 1]);
            }
        } else {
            tally_of_one(x);
        }
    }
}

/// A comprehension is as long as its predicate is often true.
pub proof fn picked_length<A>(n: nat, p: spec_fn(int) -> bool, f: spec_fn(int) -> A)
    ensures
        picked(n, p, f).len() == tally(Seq::new(n, p)),
    decreases n,
{
    if n > 0 {
        picked_length((n - 1) as nat, p, f);
        assert(Seq::new(n, p).drop_last() =~= Seq::new((n - 1) as nat, p));
    }
}

/// Strictly increasing.
pub open spec fn ascending(s: Seq<i32>) -> bool {
    forall|i: int, j: int| 0 <= i < j < s.len() ==> s[i] < s[j]
}

/// The lexicographic order of pairs.
pub open spec fn pair_below(a: (i32, i32), b: (i32, i32)) -> bool {
    a.0 < b.0 || (a.0 == b.0 && a.1 < b.1)
}

/// Strictly increasing pairs.
pub open spec fn ascending_pairs(s: Seq<(i32, i32)>) -> bool {
    forall|i: int, j: int| 0 <= i < j < s.len() ==> #[trigger] pair_below(s[i], s[j])
}

/// The members of a set in increasing order.
pub open spec fn in_order(keys: Set<i32>) -> Seq<i32> {
    choose|s: Seq<i32>| ascending(s) && s.to_set() == keys
}

/// The pairs of a set in increasing order.
pub open spec fn pairs_in_order(keys: Set<(i32, i32)>) -> Seq<(i32, i32)> {
    choose|s: Seq<(i32, i32)>| ascending_pairs(s) && s.to_set() == keys
}

/// A set has one ascending arrangement.
pub proof fn ascending_is_unique(a: Seq<i32>, b: Seq<i32>)
    requires
        ascending(a),
        ascending(b),
        a.to_set() == b.to_set(),
    ensures
        a == b,
    decreases a.len(),
{
    if a.len() == 0 {
        if b.len() > 0 {
            assert(b.to_set().contains(b[0]));
            assert(a.to_set().contains(b[0]));
        }
        assert(a =~= b);
    } else {
        assert(a.to_set().contains(a[0]));
        assert(b.to_set().contains(a[0]));
        assert(b.len() > 0);
        let (la, lb) = (a.last(), b.last());
        assert(a.to_set().contains(la));
        assert(b.to_set().contains(lb));
        assert(b.contains(la));
        assert(a.contains(lb));
        let i = choose|i: int| 0 <= i < b.len() && b[i] == la;
        let j = choose|j: int| 0 <= j < a.len() && a[j] == lb;
        assert(la <= lb && lb <= la);
        let (ra, rb) = (a.drop_last(), b.drop_last());
        assert forall|x: i32| ra.to_set().contains(x) <==> rb.to_set().contains(x) by {
            if ra.contains(x) {
                let k = choose|k: int| 0 <= k < ra.len() && ra[k] == x;
                assert(a[k] == x && x < la);
                assert(a.to_set().contains(x));
                assert(b.contains(x));
                let l = choose|l: int| 0 <= l < b.len() && b[l] == x;
                assert(rb[l] == x);
            }
            if rb.contains(x) {
                let k = choose|k: int| 0 <= k < rb.len() && rb[k] == x;
                assert(b[k] == x && x < lb);
                assert(b.to_set().contains(x));
                assert(a.contains(x));
                let l = choose|l: int| 0 <= l < a.len() && a[l] == x;
                assert(ra[l] == x);
            }
        }
        assert(ra.to_set() =~= rb.to_set());
        ascending_is_unique(ra, rb);
        assert(a =~= ra.push(la));
        assert(b =~= rb.push(lb));
    }
}

/// A set of pairs has one ascending arrangement.
pub proof fn ascending_pairs_is_unique(a: Seq<(i32, i32)>, b: Seq<(i32, i32)>)
    requires
        ascending_pairs(a),
        ascending_pairs(b),
        a.to_set() == b.to_set(),
    ensures
        a == b,
    decreases a.len(),
{
    if a.len() == 0 {
        if b.len() > 0 {
            assert(b.to_set().contains(b[0]));
            assert(a.to_set().contains(b[0]));
        }
        assert(a =~= b);
    } else {
        assert(a.to_set().contains(a[0]));
        assert(b.to_set().contains(a[0]));
        assert(b.len() > 0);
        let (la, lb) = (a.last(), b.last());
        assert(a.to_set().contains(la));
        assert(b.to_set().contains(lb));
        assert(b.contains(la));
        assert(a.contains(lb));
        let i = choose|i: int| 0 <= i < b.len() && b[i] == la;
        let j = choose|j: int| 0 <= j < a.len() && a[j] == lb;
        if i < b.len() - 1 {
            assert(pair_below(b[i], b[b.len() - 1]));
        }
        if j < a.len() - 1 {
            assert(pair_below(a[j], a[a.len() - 1]));
        }
        assert(la == lb);
        let (ra, rb) = (a.drop_last(), b.drop_last());
        assert forall|x: (i32, i32)| ra.to_set().contains(x) <==> rb.to_set().contains(x) by {
            if ra.contains(x) {
                let k = choose|k: int| 0 <= k < ra.len() && ra[k] == x;
                assert(a[k] == x);
                assert(pair_below(a[k], a[a.len() - 1]));
                assert(a.to_set().contains(x));
                assert(b.contains(x));
                let l = choose|l: int| 0 <= l < b.len() && b[l] == x;
                assert(rb[l] == x);
            }
            if rb.contains(x) {
                let k = choose|k: int| 0 <= k < rb.len() && rb[k] == x;
                assert(b[k] == x);
                assert(pair_below(b[k], b[b.len() - 1]));
                assert(b.to_set().contains(x));
                assert(a.contains(x));
                let l = choose|l: int| 0 <= l < a.len() && a[l] == x;
                assert(ra[l] == x);
            }
        }
        assert(ra.to_set() =~= rb.to_set());
        assert forall|i: int, j: int| 0 <= i < j < ra.len() implies #[trigger] pair_below(
            ra[i],
            ra[j],
        ) by {
            assert(pair_below(a[i], a[j]));
        }
        assert forall|i: int, j: int| 0 <= i < j < rb.len() implies #[trigger] pair_below(
            rb[i],
            rb[j],
        ) by {
            assert(pair_below(b[i], b[j]));
        }
        ascending_pairs_is_unique(ra, rb);
        assert(a =~= ra.push(la));
        assert(b =~= rb.push(lb));
    }
}

/// A value placed into an ascending sequence.
spec fn placed(s: Seq<i32>, x: i32) -> Seq<i32>
    decreases s.len(),
{
    if s.len() == 0 || s.last() < x {
        s.push(x)
    } else {
        placed(s.drop_last(), x).push(s.last())
    }
}

proof fn placed_is_ascending(s: Seq<i32>, x: i32)
    requires
        ascending(s),
        !s.contains(x),
    ensures
        ascending(placed(s, x)),
        forall|y: i32| #[trigger] placed(s, x).contains(y) <==> s.contains(y) || y == x,
    decreases s.len(),
{
    let r = placed(s, x);
    if s.len() == 0 || s.last() < x {
        assert forall|y: i32| #[trigger] r.contains(y) <==> s.contains(y) || y == x by {
            if s.contains(y) {
                let k = choose|k: int| 0 <= k < s.len() && s[k] == y;
                assert(r[k] == y);
            }
            assert(r[s.len() as int] == x);
        }
    } else {
        let t = s.drop_last();
        assert(s[s.len() - 1] == s.last());
        assert(s.last() != x);
        assert(!t.contains(x)) by {
            if t.contains(x) {
                let k = choose|k: int| 0 <= k < t.len() && t[k] == x;
                assert(s[k] == x);
            }
        }
        placed_is_ascending(t, x);
        let q = placed(t, x);
        assert forall|y: i32| #[trigger] r.contains(y) <==> s.contains(y) || y == x by {
            if r.contains(y) {
                let k = choose|k: int| 0 <= k < r.len() && r[k] == y;
                if k < q.len() {
                    assert(q[k] == y);
                    assert(q.contains(y));
                    if t.contains(y) {
                        let l = choose|l: int| 0 <= l < t.len() && t[l] == y;
                        assert(s[l] == y);
                    }
                } else {
                    assert(s[s.len() - 1] == y);
                }
            }
            if s.contains(y) {
                let k = choose|k: int| 0 <= k < s.len() && s[k] == y;
                if k < t.len() {
                    assert(t[k] == y);
                    assert(q.contains(y));
                    let l = choose|l: int| 0 <= l < q.len() && q[l] == y;
                    assert(r[l] == y);
                } else {
                    assert(r[q.len() as int] == y);
                }
            }
            if y == x {
                assert(q.contains(x));
                let l = choose|l: int| 0 <= l < q.len() && q[l] == x;
                assert(r[l] == x);
            }
        }
        assert forall|i: int, j: int| 0 <= i < j < r.len() implies r[i] < r[j] by {
            if j < q.len() {
                assert(r[i] == q[i] && r[j] == q[j]);
            } else {
                assert(r[i] == q[i]);
                assert(q.contains(q[i]));
                if t.contains(q[i]) {
                    let l = choose|l: int| 0 <= l < t.len() && t[l] == q[i];
                    assert(s[l] < s[s.len() - 1]);
                }
            }
        }
    }
}

/// A finite set has an ascending arrangement.
pub proof fn in_order_of_finite(keys: Set<i32>)
    requires
        keys.finite(),
    ensures
        ascending(in_order(keys)),
        in_order(keys).to_set() == keys,
    decreases keys.len(),
{
    let s: Seq<i32> = if keys.len() == 0 {
        Seq::empty()
    } else {
        let x = keys.choose();
        let rest = keys.remove(x);
        in_order_of_finite(rest);
        let t = in_order(rest);
        assert(!t.contains(x)) by {
            assert(!t.to_set().contains(x));
        }
        placed_is_ascending(t, x);
        assert forall|y: i32| keys.contains(y) <==> placed(t, x).contains(y) by {
            assert(t.to_set().contains(y) <==> rest.contains(y));
        }
        placed(t, x)
    };
    assert(s.to_set() =~= keys);
    assert(ascending(s));
}

/// A finite set of pairs has an ascending arrangement.
pub proof fn pairs_in_order_of_finite(keys: Set<(i32, i32)>)
    requires
        keys.finite(),
    ensures
        ascending_pairs(pairs_in_order(keys)),
        pairs_in_order(keys).to_set() == keys,
    decreases keys.len(),
{
    let s: Seq<(i32, i32)> = if keys.len() == 0 {
        Seq::empty()
    } else {
        let r = |a: (i32, i32), b: (i32, i32)| a == b || pair_below(a, b);
        assert(vstd::relations::total_ordering(r));
        keys.find_unique_maximal_ensures(r);
        let x = keys.find_unique_maximal(r);
        let rest = keys.remove(x);
        pairs_in_order_of_finite(rest);
        let t = pairs_in_order(rest);
        let s = t.push(x);
        assert forall|i: int, j: int| 0 <= i < j < s.len() implies #[trigger] pair_below(
            s[i],
            s[j],
        ) by {
            if j == t.len() {
                assert(t.to_set().contains(t[i]));
                assert(keys.contains(t[i]) && t[i] != x);
                assert(r(x, t[i]) ==> r(t[i], x));
                assert(r(t[i], x) || r(x, t[i]));
            } else {
                assert(pair_below(t[i], t[j]));
            }
        }
        assert forall|y: (i32, i32)| keys.contains(y) <==> s.contains(y) by {
            assert(t.to_set().contains(y) <==> rest.contains(y));
            if t.contains(y) {
                let k = choose|k: int| 0 <= k < t.len() && t[k] == y;
                assert(s[k] == y);
            }
            assert(s[t.len() as int] == x);
            if s.contains(y) && y != x {
                let k = choose|k: int| 0 <= k < s.len() && s[k] == y;
                assert(t[k] == y);
            }
        }
        s
    };
    assert(s.to_set() =~= keys);
    assert(ascending_pairs(s));
}

/// The keys of a map, smallest first.
pub fn ordered_keys<V>(m: &BTreeMap<i32, V>) -> (r: Vec<i32>)
    ensures
        r@ == in_order(m@.dom()),
        ascending(r@),
        r@.to_set() == m@.dom(),
{
    let mut r: Vec<i32> = Vec::new();
    let ghost whole = m.keys().remaining().unref();
    for k in it: m.keys()
        invariant
            it.seq().unref() == whole,
            r@ == whole.take(it.index()),
    {
        assert(whole.take(it.index() + 1) =~= whole.take(it.index()).push(whole[it.index()]));
        r.push(*k);
    }
    proof {
        assert(r@ =~= whole);
        let refs = m.keys().remaining();
        assert(vstd::laws_cmp::obeys_cmp::<&i32>());
        assert forall|i: int, j: int| 0 <= i < j < r@.len() implies r@[i] < r@[j] by {
            assert(OrdSpec::cmp_spec(&refs[i], &refs[j]) is Less);
        }
        ascending_is_unique(r@, in_order(m@.dom()));
    }
    r
}

/// The pairs that key a map, smallest first.
pub fn ordered_pairs<V>(m: &BTreeMap<(i32, i32), V>) -> (r: Vec<(i32, i32)>)
    ensures
        r@ == pairs_in_order(m@.dom()),
        ascending_pairs(r@),
        r@.to_set() == m@.dom(),
{
    let mut r: Vec<(i32, i32)> = Vec::new();
    let ghost whole = m.keys().remaining().unref();
    assert(vstd::laws_cmp::obeys_cmp::<(i32, i32)>());
    for k in it: m.keys()
        invariant
            it.seq().unref() == whole,
            r@ == whole.take(it.index()),
    {
        assert(whole.take(it.index() + 1) =~= whole.take(it.index()).push(whole[it.index()]));
        r.push(*k);
    }
    proof {
        assert(r@ =~= whole);
        let refs = m.keys().remaining();
        assert(vstd::laws_cmp::obeys_cmp::<&(i32, i32)>());
        assert forall|i: int, j: int| 0 <= i < j < r@.len() implies #[trigger] pair_below(
            r@[i],
            r@[j],
        ) by {
            assert(OrdSpec::cmp_spec(&refs[i], &refs[j]) is Less);
        }
        ascending_pairs_is_unique(r@, pairs_in_order(m@.dom()));
    }
    r
}

/// The members of a set, smallest first.
pub fn ordered_members(m: &BTreeSet<i32>) -> (r: Vec<i32>)
    ensures
        r@ == in_order(m@),
        ascending(r@),
        r@.to_set() == m@,
{
    let mut r: Vec<i32> = Vec::new();
    let ghost whole = m.iter().remaining().unref();
    for k in it: m.iter()
        invariant
            it.seq().unref() == whole,
            r@ == whole.take(it.index()),
    {
        assert(whole.take(it.index() + 1) =~= whole.take(it.index()).push(whole[it.index()]));
        r.push(*k);
    }
    proof {
        assert(r@ =~= whole);
        let refs = m.iter().remaining();
        assert(vstd::laws_cmp::obeys_cmp::<&i32>());
        assert forall|i: int, j: int| 0 <= i < j < r@.len() implies r@[i] < r@[j] by {
            assert(OrdSpec::cmp_spec(&refs[i], &refs[j]) is Less);
        }
        ascending_is_unique(r@, in_order(m@));
    }
    r
}

/// What is picked stays in order.
pub proof fn picked_in_order<A>(
    n: nat,
    p: spec_fn(int) -> bool,
    f: spec_fn(int) -> A,
    a: int,
    b: int,
) -> (r: (int, int))
    requires
        0 <= a < b < picked(n, p, f).len(),
    ensures
        0 <= r.0 < r.1 < n,
        p(r.0) && p(r.1),
        f(r.0) == picked(n, p, f)[a],
        f(r.1) == picked(n, p, f)[b],
    decreases n,
{
    let rest = picked((n - 1) as nat, p, f);
    if b < rest.len() {
        picked_in_order((n - 1) as nat, p, f, a, b)
    } else {
        (picked_sound((n - 1) as nat, p, f, a), n - 1)
    }
}

} // verus!
