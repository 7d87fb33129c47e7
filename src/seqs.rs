use vstd::multiset::Multiset;
use vstd::prelude::*;
use vstd::seq_lib::{lemma_flatten_concat, lemma_multiset_commutative};

use crate::func::concatenate;

verus! {

/// The views of a sequence of vectors.
pub open spec fn views(gs: Seq<Vec<u32>>) -> Seq<Seq<u32>> {
    gs.map_values(|v: Vec<u32>| v@)
}

/// Every value of `s` occurs in `x`.
pub open spec fn drawn_from(s: Seq<u32>, x: Seq<u32>) -> bool {
    forall|k: int| 0 <= k < s.len() ==> x.contains(#[trigger] s[k])
}

/// Drawing from a sequence that is itself drawn from `c` draws from `c`.
pub proof fn lemma_drawn_trans(a: Seq<u32>, b: Seq<u32>, c: Seq<u32>)
    requires
        drawn_from(a, b),
        drawn_from(b, c),
    ensures
        drawn_from(a, c),
{
    assert forall|k: int| 0 <= k < a.len() implies c.contains(#[trigger] a[k]) by {
        assert(b.contains(a[k]));
        let w = choose|w: int| 0 <= w < b.len() && b[w] == a[k];
        assert(c.contains(b[w]));
    }
}

/// Two sequences drawn from `x` give a concatenation drawn from `x`.
pub proof fn lemma_drawn_concat(a: Seq<u32>, b: Seq<u32>, x: Seq<u32>)
    requires
        drawn_from(a, x),
        drawn_from(b, x),
    ensures
        drawn_from(a + b, x),
{
    assert forall|k: int| 0 <= k < (a + b).len() implies x.contains(#[trigger] (a + b)[k]) by {
        if k < a.len() {
            assert(x.contains(a[k]));
        } else {
            assert(x.contains(b[k - a.len()]));
        }
    }
}

/// A group's element occurs among the elements of all the groups.
pub proof fn lemma_flatten_contains(gs: Seq<Seq<u32>>, b: int, k: int)
    requires
        0 <= b < gs.len(),
        0 <= k < gs[b].len(),
    ensures
        gs.flatten().contains(gs[b][k]),
    decreases gs.len(),
{
    let f = gs.flatten();
    if b == 0 {
        assert(f == gs[0] + gs.drop_first().flatten());
        assert(f[k] == gs[0][k]);
    } else {
        let rest = gs.drop_first();
        assert(rest[b - 1] == gs[b]);
        lemma_flatten_contains(rest, b - 1, k);
        let w = choose|w: int| 0 <= w < rest.flatten().len() && rest.flatten()[w] == gs[b][k];
        assert(f == gs[0] + rest.flatten());
        assert(f[w + gs[0].len()] == gs[b][k]);
    }
}

/// Putting `a` in front of `s` adds `a` to what `s` contains.
pub proof fn lemma_prepend_contains(s: Seq<u32>, a: u32)
    ensures
        forall|e: u32| #[trigger] s.insert(0, a).contains(e) <==> e == a || s.contains(e),
{
    assert forall|e: u32| #[trigger] s.insert(0, a).contains(e) <==> e == a || s.contains(e) by {
        let t = s.insert(0, a);
        if t.contains(e) {
            let w = choose|w: int| 0 <= w < t.len() && t[w] == e;
            if w > 0 {
                assert(s[w - 1] == e);
            }
        }
        if s.contains(e) {
            let w = choose|w: int| 0 <= w < s.len() && s[w] == e;
            assert(t[w + 1] == e);
        }
        if e == a {
            assert(t[0] == e);
        }
    }
}

/// A concatenation contains what either part contains.
pub proof fn lemma_concat_contains(a: Seq<u32>, b: Seq<u32>)
    ensures
        forall|e: u32| #[trigger] (a + b).contains(e) <==> a.contains(e) || b.contains(e),
{
    assert forall|e: u32| #[trigger] (a + b).contains(e) <==> a.contains(e) || b.contains(e) by {
        let t = a + b;
        if t.contains(e) {
            let w = choose|w: int| 0 <= w < t.len() && t[w] == e;
            if w >= a.len() {
                assert(b[w - a.len()] == e);
            }
        }
        if a.contains(e) {
            let w = choose|w: int| 0 <= w < a.len() && a[w] == e;
            assert(t[w] == e);
        }
        if b.contains(e) {
            let w = choose|w: int| 0 <= w < b.len() && b[w] == e;
            assert(t[w + a.len()] == e);
        }
    }
}

/// A reversed sequence contains what the sequence contains.
pub proof fn lemma_reverse_contains(s: Seq<u32>)
    ensures
        forall|e: u32| #[trigger] s.reverse().contains(e) <==> s.contains(e),
{
    assert forall|e: u32| #[trigger] s.reverse().contains(e) <==> s.contains(e) by {
        let t = s.reverse();
        if t.contains(e) {
            let w = choose|w: int| 0 <= w < t.len() && t[w] == e;
            assert(s[s.len() - 1 - w] == e);
        }
        if s.contains(e) {
            let w = choose|w: int| 0 <= w < s.len() && s[w] == e;
            assert(t[s.len() - 1 - w] == e);
        }
    }
}

/// The values of `v` in reverse order.
pub fn reversed(v: &Vec<u32>) -> (r: Vec<u32>)
    ensures
        r@ == v@.reverse(),
{
    let mut r: Vec<u32> = Vec::new();
    let mut k: usize = v.len();
    while k > 0
        invariant
            k <= v@.len(),
            r@ =~= v@.skip(k as int).reverse(),
        decreases k,
    {
        k = k - 1;
        r.push(v[k]);
    }
    r
}

/// The elements of `gs[from..to]`, group after group.
pub fn flatten_range(gs: &Vec<Vec<u32>>, from: usize, to: usize) -> (r: Vec<u32>)
    requires
        from <= to <= gs@.len(),
    ensures
        r@ == views(gs@).subrange(from as int, to as int).flatten(),
{
    let mut r: Vec<u32> = Vec::new();
    let mut k: usize = from;
    while k < to
        invariant
            from <= k <= to,
            to <= gs@.len(),
            r@ == views(gs@).subrange(from as int, k as int).flatten(),
        decreases to - k,
    {
        let ghost sub = views(gs@).subrange(from as int, k as int);
        proof {
            assert(views(gs@).subrange(from as int, k + 1) == sub.push(gs@[k as int]@));
            sub.lemma_flatten_push(gs@[k as int]@);
        }
        r = concatenate(r, &gs[k]);
        k = k + 1;
    }
    r
}

/// `s` without any occurrence of `q`, the other values kept in order.
pub open spec fn without(s: Seq<u32>, q: u32) -> Seq<u32>
    decreases s.len(),
{
    if s.len() == 0 {
        s
    } else {
        let rest = without(s.drop_last(), q);
        if s.last() != q {
            rest.push(s.last())
        } else {
            rest
        }
    }
}

/// `v` without any occurrence of `q`.
pub fn remove_all(v: &Vec<u32>, q: u32) -> (r: Vec<u32>)
    ensures
        r@ == without(v@, q),
        forall|k: int| 0 <= k < r@.len() ==> #[trigger] r@[k] != q && v@.contains(r@[k]),
        forall|k: int| 0 <= k < v@.len() && #[trigger] v@[k] != q ==> r@.contains(v@[k]),
        r@.len() <= v@.len(),
        v@.contains(q) ==> r@.len() < v@.len(),
{
    let mut r: Vec<u32> = Vec::new();
    let mut i: usize = 0;
    let ghost mut seen = false;
    while i < v.len()
        invariant
            i <= v@.len(),
            forall|k: int| 0 <= k < r@.len() ==> #[trigger] r@[k] != q && v@.contains(r@[k]),
            forall|k: int| 0 <= k < i && #[trigger] v@[k] != q ==> r@.contains(v@[k]),
            r@.len() <= i,
            seen ==> r@.len() < i,
            seen <==> v@.take(i as int).contains(q),
            r@ == without(v@.take(i as int), q),
        decreases v@.len() - i,
    {
        proof {
            let t0 = v@.take(i as int);
            let t1 = v@.take(i + 1);
            assert(t1 == t0.push(v@[i as int]));
            assert(t1.drop_last() == t0);
            if t0.contains(q) {
                let w = choose|w: int| 0 <= w < t0.len() && t0[w] == q;
                assert(t1[w] == q);
            }
            if v@[i as int] == q {
                assert(t1[i as int] == q);
            } else if t1.contains(q) {
                let w = choose|w: int| 0 <= w < t1.len() && t1[w] == q;
                assert(t0[w] == q);
            }
        }
        if v[i] != q {
            let ghost r0 = r@;
            r.push(v[i]);
            proof {
                assert(r@[r0.len() as int] == v@[i as int]);
                assert forall|k: int| 0 <= k < i && #[trigger] v@[k] != q implies r@.contains(v@[k]) by {
                    let w = choose|w: int| 0 <= w < r0.len() && r0[w] == v@[k];
                    assert(r@[w] == v@[k]);
                }
            }
        } else {
            proof {
                seen = true;
            }
        }
        i = i + 1;
    }
    proof {
        assert(v@.take(i as int) == v@);
    }
    r
}

/// Two strictly increasing sequences holding the same values are equal.
pub proof fn lemma_sorted_unique(a: Seq<u32>, b: Seq<u32>)
    requires
        forall|i: int, j: int| 0 <= i < j < a.len() ==> a[i] < a[j],
        forall|i: int, j: int| 0 <= i < j < b.len() ==> b[i] < b[j],
        forall|k: u32| a.contains(k) <==> b.contains(k),
    ensures
        a == b,
    decreases a.len(),
{
    if a.len() == 0 {
        if b.len() > 0 {
            assert(b.contains(b[0]));
        }
        assert(a =~= b);
    } else {
        assert(a.contains(a[0]));
        let j = choose|j: int| 0 <= j < b.len() && b[j] == a[0];
        assert(b.contains(b[0]));
        let i = choose|i: int| 0 <= i < a.len() && a[i] == b[0];
        assert(a[0] == b[0]);
        let a1 = a.drop_first();
        let b1 = b.drop_first();
        assert forall|k: u32| a1.contains(k) <==> b1.contains(k) by {
            if a1.contains(k) {
                let x = choose|x: int| 0 <= x < a1.len() && a1[x] == k;
                assert(a[x + 1] == k);
                assert(a.contains(k));
                let y = choose|y: int| 0 <= y < b.len() && b[y] == k;
                assert(y != 0);
                assert(b1[y - 1] == k);
            }
            if b1.contains(k) {
                let x = choose|x: int| 0 <= x < b1.len() && b1[x] == k;
                assert(b[x + 1] == k);
                assert(b.contains(k));
                let y = choose|y: int| 0 <= y < a.len() && a[y] == k;
                assert(y != 0);
                assert(a1[y - 1] == k);
            }
        }
        lemma_sorted_unique(a1, b1);
        assert(a =~= seq![a[0]] + a1);
        assert(b =~= seq![b[0]] + b1);
    }
}

/// An empty sequence holds no element.
pub proof fn lemma_empty_bag(s: Seq<u32>)
    requires
        s.len() == 0,
    ensures
        s.to_multiset() == Multiset::<u32>::empty(),
{
    vstd::seq_lib::to_multiset_len(s);
    vstd::multiset::lemma_multiset_empty_len(s.to_multiset());
}

/// Reversing a sequence of groups keeps the elements they hold together.
pub proof fn lemma_flatten_reverse_bag(a: Seq<Seq<u32>>)
    ensures
        a.reverse().flatten().to_multiset() == a.flatten().to_multiset(),
    decreases a.len(),
{
    broadcast use vstd::multiset::group_multiset_axioms;

    if a.len() > 0 {
        let init = a.drop_last();
        lemma_flatten_reverse_bag(init);
        assert(a.reverse() == seq![a.last()] + init.reverse());
        lemma_flatten_concat(seq![a.last()], init.reverse());
        seq![a.last()].lemma_flatten_singleton();
        assert(init.push(a.last()) == a);
        init.lemma_flatten_push(a.last());
        lemma_multiset_commutative(a.last(), init.reverse().flatten());
        lemma_multiset_commutative(init.flatten(), a.last());
        assert(a.reverse().flatten().to_multiset() =~= a.flatten().to_multiset());
    }
}

} // verus!
