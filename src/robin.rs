use vstd::prelude::*;
use vstd::multiset::Multiset;
use vstd::seq_lib::{lemma_flatten_concat, lemma_multiset_commutative};

use crate::func::{concatenate, get_index};
use crate::seqs::{
    drawn_from, flatten_range, lemma_concat_contains, lemma_drawn_concat, lemma_drawn_trans,
    lemma_empty_bag, lemma_flatten_contains, lemma_sorted_unique, lemma_flatten_reverse_bag, lemma_prepend_contains,
    lemma_reverse_contains, remove_all, reversed, views, without,
};
use crate::matrix::{is_square, lemma_robinson_reordered, DistanceMatrice};
use crate::ordered_map::{groups_of, map_entries, map_get, map_insert, map_new};

verus! {

/// Why a `Robin` could not be built.
#[derive(Debug, Clone, Copy, PartialEq, Eq, Structural)]
pub enum RobinError {
    /// Some row's length differs from the number of rows.
    InvalidShape,
}

/// An anchor element and the ordered block of elements that it stands for.
pub struct VecPoint {
    pub point: u32,
    pub vec: Vec<u32>,
}

/// Searches a compatible order of its `DistanceMatrice`: `resolve_robin`
/// reports whether one was found and keeps the candidate in `solved_permut`.
pub struct Robin {
    pub dist: DistanceMatrice,
    pub solved_permut: Option<Vec<u32>>,
}

impl Robin {
    /// The distance matrix is square.
    pub open spec fn wf(&self) -> bool {
        self.dist.wf()
    }

    /// The distance between elements `a` and `b`.
    pub open spec fn dist(&self, a: int, b: int) -> u32 {
        self.dist.dist(a, b)
    }

    /// Every value of `s` names an element.
    pub open spec fn all_elems(&self, s: Seq<u32>) -> bool {
        self.dist.all_elems(s)
    }

    /// The elements of `s` at distance `k` from `q`, the last one first.
    pub open spec fn rev_group(&self, q: int, s: Seq<u32>, k: u32) -> Seq<u32>
        decreases s.len(),
    {
        if s.len() == 0 {
            Seq::empty()
        } else {
            let rest = self.rev_group(q, s.drop_last(), k);
            if self.dist(q, s.last() as int) == k {
                seq![s.last()] + rest
            } else {
                rest
            }
        }
    }

    /// The groups that refining `s` around `q` yields: one for each distance
    /// from `q` found in `s`, by increasing distance, each holding the
    /// elements at that distance in reverse order of `s`.
    pub open spec fn is_refinement(&self, q: int, s: Seq<u32>, r: Seq<Seq<u32>>) -> bool {
        &&& forall|i: int| 0 <= i < r.len() ==> #[trigger] r[i].len() > 0
        &&& forall|i: int|
            0 <= i < r.len() ==> #[trigger] r[i] == self.rev_group(q, s, self.dist(q, r[i][0] as int))
        &&& forall|i: int, j: int|
            0 <= i < j < r.len() ==> self.dist(q, #[trigger] r[i][0] as int) < self.dist(
                q,
                #[trigger] r[j][0] as int,
            )
        &&& forall|e: int|
            0 <= e < s.len() ==> self.has_group(q, r, self.dist(q, #[trigger] s[e] as int))
    }

    /// Some group of `r` lies at distance `k` from `q`.
    pub open spec fn has_group(&self, q: int, r: Seq<Seq<u32>>, k: u32) -> bool {
        exists|i: int| 0 <= i < r.len() && self.dist(q, #[trigger] r[i][0] as int) == k
    }

    /// The groups of refining `s` around `q`; `is_refinement` admits no other.
    pub open spec fn refine_spec(&self, q: int, s: Seq<u32>) -> Seq<Seq<u32>> {
        choose|r: Seq<Seq<u32>>| self.is_refinement(q, s, r)
    }

    /// Two refinements of the same sequence around the same element are equal.
    pub proof fn lemma_refinement_unique(&self, q: int, s: Seq<u32>, r1: Seq<Seq<u32>>, r2: Seq<Seq<u32>>)
        requires
            self.is_refinement(q, s, r1),
            self.is_refinement(q, s, r2),
        ensures
            r1 == r2,
    {
        let k1 = self.group_keys(q, r1);
        let k2 = self.group_keys(q, r2);
        assert forall|k: u32| k1.contains(k) implies k2.contains(k) by {
            let i = choose|i: int| 0 <= i < k1.len() && k1[i] == k;
            self.lemma_rev_group_members(q, s, k);
            assert(r1[i] == self.rev_group(q, s, k));
            assert(s.contains(r1[i][0]));
            let e = choose|e: int| 0 <= e < s.len() && s[e] == r1[i][0];
            assert(self.dist(q, s[e] as int) == k);
            assert(self.has_group(q, r2, self.dist(q, s[e] as int)));
            let j = choose|j: int| 0 <= j < r2.len() && self.dist(q, #[trigger] r2[j][0] as int) == k;
            assert(k2[j] == k);
        }
        assert forall|k: u32| k2.contains(k) implies k1.contains(k) by {
            let i = choose|i: int| 0 <= i < k2.len() && k2[i] == k;
            self.lemma_rev_group_members(q, s, k);
            assert(r2[i] == self.rev_group(q, s, k));
            assert(s.contains(r2[i][0]));
            let e = choose|e: int| 0 <= e < s.len() && s[e] == r2[i][0];
            assert(self.dist(q, s[e] as int) == k);
            assert(self.has_group(q, r1, self.dist(q, s[e] as int)));
            let j = choose|j: int| 0 <= j < r1.len() && self.dist(q, #[trigger] r1[j][0] as int) == k;
            assert(k1[j] == k);
        }
        assert forall|a: int, b: int| 0 <= a < b < k1.len() implies k1[a] < k1[b] by {
            assert(self.dist(q, r1[a][0] as int) < self.dist(q, r1[b][0] as int));
        }
        assert forall|a: int, b: int| 0 <= a < b < k2.len() implies k2[a] < k2[b] by {
            assert(self.dist(q, r2[a][0] as int) < self.dist(q, r2[b][0] as int));
        }
        lemma_sorted_unique(k1, k2);
        assert forall|i: int| 0 <= i < r1.len() implies r1[i] == r2[i] by {
            assert(k1[i] == k2[i]);
            assert(r1[i] == self.rev_group(q, s, k1[i]));
            assert(r2[i] == self.rev_group(q, s, k2[i]));
        }
        assert(r1 =~= r2);
    }

    /// The position of the first group, from `j` on, whose first element is
    /// farther from `q` than `p` is; the number of groups if there is none.
    pub open spec fn first_far(&self, p: u32, q: u32, gs: Seq<Seq<u32>>, j: int) -> int
        decreases gs.len() - j,
    {
        if j < 0 || j >= gs.len() {
            gs.len() as int
        } else if self.dist(gs[j][0] as int, q as int) > self.dist(p as int, q as int) {
            j
        } else {
            self.first_far(p, q, gs, j + 1)
        }
    }

    /// The groups around `q` in the order the constrained refinement takes
    /// them: where `q` lies after the block, the groups before the first one
    /// farther from `q` than `p` is come in reverse order.
    pub open spec fn ordered_groups(&self, p: u32, q: u32, out: Seq<u32>, gs: Seq<Seq<u32>>) -> Seq<Seq<u32>> {
        if out.contains(q) {
            let a = self.first_far(p, q, gs, 0);
            gs.take(a).reverse() + gs.skip(a)
        } else {
            gs
        }
    }

    /// The pivot of one step of the constrained refinement: the first element
    /// of `inl` if any, else the first of `out`.
    pub open spec fn step_pivot(inl: Seq<u32>, out: Seq<u32>) -> u32 {
        if inl.len() > 0 {
            inl[0]
        } else {
            out[0]
        }
    }

    /// The blocks that the constrained refinement gives for each group, in
    /// the order of the groups.
    #[verifier::opaque]
    pub open spec fn block_parts(&self, p: u32, inl: Seq<u32>, s: Seq<u32>, out: Seq<u32>) -> Seq<Seq<Seq<u32>>>
        decreases inl.len() + s.len() + out.len(), 0nat,
    {
        let q = Self::step_pivot(inl, out);
        let order = self.ordered_groups(p, q, out, self.refine_spec(q as int, s));
        let in_new = without(inl, q);
        let out_new = without(out, q);
        Seq::new(
            order.len(),
            |i: int|
                {
                    let ini = order.take(i).flatten() + in_new;
                    let outi = order.subrange(i + 1, order.len() as int).flatten() + out_new;
                    if inl.len() + out.len() > 0 && ini.len() + order[i].len() + outi.len() < inl.len()
                        + s.len() + out.len() {
                        self.blocks_of(p, ini, order[i], outi)
                    } else {
                        Seq::empty()
                    }
                },
        )
    }

    /// The blocks of `s` that the constrained refinement around the pivot `p`
    /// gives, with `inl` placed before `s` and `out` after it.
    #[verifier::opaque]
    pub open spec fn blocks_of(&self, p: u32, inl: Seq<u32>, s: Seq<u32>, out: Seq<u32>) -> Seq<Seq<u32>>
        decreases inl.len() + s.len() + out.len(), 1nat,
    {
        if inl.len() == 0 && out.len() == 0 {
            seq![s]
        } else {
            self.block_parts(p, inl, s, out).flatten()
        }
    }

    /// Builds a `Robin` on a square matrix.
    pub fn new(distance_mat: Vec<Vec<u32>>) -> (r: Result<Robin, RobinError>)
        ensures
            r is Err <==> !is_square(distance_mat@),
            r matches Err(e) ==> e == RobinError::InvalidShape,
            r matches Ok(rob) ==> rob.dist.distance_mat@ == distance_mat@ && rob.solved_permut is None
                && rob.wf(),
    {
        let n = distance_mat.len();
        let mut i: usize = 0;
        while i < n
            invariant
                n == distance_mat@.len(),
                i <= n,
                forall|k: int| 0 <= k < i ==> #[trigger] distance_mat@[k]@.len() == n,
            decreases n - i,
        {
            if distance_mat[i].len() != n {
                return Err(RobinError::InvalidShape);
            }
            i = i + 1;
        }
        Ok(Robin { dist: DistanceMatrice { distance_mat }, solved_permut: None })
    }

    /// Every element of a group has the group's distance, and comes from `s`.
    pub proof fn lemma_rev_group_members(&self, q: int, s: Seq<u32>, k: u32)
        ensures
            forall|x: int|
                0 <= x < self.rev_group(q, s, k).len() ==> self.dist(
                    q,
                    #[trigger] self.rev_group(q, s, k)[x] as int,
                ) == k && s.contains(self.rev_group(q, s, k)[x]),
            self.rev_group(q, s, k).len() <= s.len(),
        decreases s.len(),
    {
        if s.len() > 0 {
            self.lemma_rev_group_members(q, s.drop_last(), k);
            let g = self.rev_group(q, s, k);
            let rest = self.rev_group(q, s.drop_last(), k);
            assert forall|x: int| 0 <= x < g.len() implies self.dist(q, #[trigger] g[x] as int) == k
                && s.contains(g[x]) by {
                if self.dist(q, s.last() as int) == k {
                    if x == 0 {
                        assert(s[s.len() - 1] == g[x]);
                    } else {
                        assert(g[x] == rest[x - 1]);
                        let w = choose|w: int| 0 <= w < s.drop_last().len() && s.drop_last()[w] == rest[x - 1];
                        assert(s[w] == g[x]);
                    }
                } else {
                    let w = choose|w: int| 0 <= w < s.drop_last().len() && s.drop_last()[w] == rest[x];
                    assert(s[w] == g[x]);
                }
            }
        }
    }

    /// Groups `s_list` by distance to `q`, by increasing distance; within a
    /// group an element comes before those that precede it in `s_list`.
    pub fn refine(&self, q: u32, s_list: Vec<u32>) -> (r: Vec<Vec<u32>>)
        requires
            self.wf(),
            self.dist.is_elem(q as int),
            self.all_elems(s_list@),
        ensures
            self.is_refinement(q as int, s_list@, views(r@)),
            views(r@) == self.refine_spec(q as int, s_list@),
    {
        let mut tree = map_new();
        let mut i: usize = 0;
        while i < s_list.len()
            invariant
                self.wf(),
                self.dist.is_elem(q as int),
                self.all_elems(s_list@),
                i <= s_list.len(),
                forall|k: u32|
                    groups_of(tree).contains_key(k) ==> groups_of(tree)[k] == self.rev_group(
                        q as int,
                        s_list@.take(i as int),
                        k,
                    ) && groups_of(tree)[k].len() > 0,
                forall|k: u32|
                    !groups_of(tree).contains_key(k) ==> self.rev_group(
                        q as int,
                        s_list@.take(i as int),
                        k,
                    ).len() == 0,
            decreases s_list.len() - i,
        {
            let elem = s_list[i];
            let key = self.dist.d(q, elem);
            let ghost before = groups_of(tree);
            match map_get(&tree, key) {
                Some(l) => {
                    let mut g: Vec<u32> = vec![elem];
                    let mut l = l;
                    g.append(&mut l);
                    map_insert(&mut tree, key, g);
                },
                None => {
                    map_insert(&mut tree, key, vec![elem]);
                },
            }
            proof {
                let t0 = s_list@.take(i as int);
                let t1 = s_list@.take(i + 1);
                assert(t1.drop_last() == t0);
                assert(t1.last() == elem);
                assert forall|k: u32| k != key implies self.rev_group(q as int, t1, k)
                    == self.rev_group(q as int, t0, k) by {}
                assert(self.rev_group(q as int, t1, key) == seq![elem] + self.rev_group(
                    q as int,
                    t0,
                    key,
                ));
            }
            i = i + 1;
        }
        assert(s_list@.take(i as int) == s_list@);
        let entries = map_entries(&tree);
        let mut refined: Vec<Vec<u32>> = Vec::new();
        let mut j: usize = 0;
        while j < entries.len()
            invariant
                j <= entries@.len(),
                refined@.len() == j,
                forall|a: int| 0 <= a < j ==> #[trigger] refined@[a]@ == entries@[a].1@,
            decreases entries.len() - j,
        {
            refined.push(entries[j].1.clone());
            j = j + 1;
        }
        proof {
            let r = views(refined@);
            let m = groups_of(tree);
            assert(r.len() == entries@.len());
            assert forall|a: int| 0 <= a < r.len() implies #[trigger] r[a] == entries@[a].1@ && r[a].len()
                > 0 by {
                assert(m.contains_key(entries@[a].0));
            }
            assert forall|a: int| 0 <= a < r.len() implies self.dist(q as int, #[trigger] r[a][0] as int)
                == entries@[a].0 && r[a].len() > 0 && r[a] == self.rev_group(
                q as int,
                s_list@,
                self.dist(q as int, r[a][0] as int),
            ) by {
                assert(m.contains_key(entries@[a].0));
                self.lemma_rev_group_members(q as int, s_list@, entries@[a].0);
                assert(r[a] == self.rev_group(q as int, s_list@, entries@[a].0));
                assert(r[a][0] == self.rev_group(q as int, s_list@, entries@[a].0)[0]);
            }
            assert forall|a: int, b: int| 0 <= a < b < r.len() implies self.dist(
                q as int,
                #[trigger] r[a][0] as int,
            ) < self.dist(q as int, #[trigger] r[b][0] as int) by {
                assert(self.dist(q as int, r[a][0] as int) == entries@[a].0);
                assert(self.dist(q as int, r[b][0] as int) == entries@[b].0);
            }
            assert forall|e: int| 0 <= e < s_list@.len() implies self.has_group(
                q as int,
                r,
                self.dist(q as int, #[trigger] s_list@[e] as int),
            ) by {
                let k = self.dist(q as int, s_list@[e] as int);
                if !m.contains_key(k) {
                    self.lemma_rev_group_in(q as int, s_list@, e);
                }
                let a = choose|a: int| 0 <= a < entries@.len() && #[trigger] entries@[a].0 == k;
                assert(self.dist(q as int, r[a][0] as int) == k);
            }
        }
        proof {
            let r = views(refined@);
            assert(self.is_refinement(q as int, s_list@, r));
            self.lemma_refinement_unique(q as int, s_list@, r, self.refine_spec(q as int, s_list@));
        }
        refined
    }

    /// Each element of `s` lies in the group of its own distance.
    pub proof fn lemma_rev_group_in(&self, q: int, s: Seq<u32>, e: int)
        requires
            0 <= e < s.len(),
        ensures
            self.rev_group(q, s, self.dist(q, s[e] as int)).len() > 0,
        decreases s.len(),
    {
        if e < s.len() - 1 {
            self.lemma_rev_group_in(q, s.drop_last(), e);
            assert(s.drop_last()[e] == s[e]);
        }
    }

    /// The distances to `q` of the groups' first elements.
    pub open spec fn group_keys(&self, q: int, gs: Seq<Seq<u32>>) -> Seq<u32> {
        gs.map_values(|g: Seq<u32>| self.dist(q, g[0] as int))
    }

    /// The groups of a refinement hold as many elements as the refined
    /// sequence, and each of them comes from it.
    pub proof fn lemma_refinement_len(&self, q: int, s: Seq<u32>, gs: Seq<Seq<u32>>)
        requires
            self.is_refinement(q, s, gs),
        ensures
            gs.flatten().len() == s.len(),
            forall|i: int, x: int|
                0 <= i < gs.len() && 0 <= x < gs[i].len() ==> s.contains(#[trigger] gs[i][x]),
    {
        self.lemma_refinement_bag(q, s, gs);
        vstd::seq_lib::to_multiset_len(gs.flatten());
        vstd::seq_lib::to_multiset_len(s);
        assert forall|i: int, x: int| 0 <= i < gs.len() && 0 <= x < gs[i].len() implies s.contains(
            #[trigger] gs[i][x],
        ) by {
            self.lemma_rev_group_members(q, s, self.dist(q, gs[i][0] as int));
        }
    }

    /// Cutting `x` between positions `y` and `y + 1` leaves two copoints
    /// around the pivot `p`.
    pub open spec fn splits_at(&self, p: int, x: Seq<u32>, y: int) -> bool {
        let l = self.dist(p, x[0] as int);
        &&& self.dist(x[0] as int, x[y] as int) <= l
        &&& self.dist(x[y + 1] as int, x.last() as int) <= l
        &&& self.dist(x[y] as int, x[y + 1] as int) >= l
    }

    /// What separating the ordered block `x` around `p` gives: nothing for
    /// an empty block; the whole block anchored at its first element when its
    /// ends are no farther apart than its first element is from `p`; else the
    /// two halves of the first cut that `splits_at` admits, anchored at the
    /// block's two ends; and `None` where there is no such cut.
    pub open spec fn is_separation(&self, p: int, x: Seq<u32>, r: Option<Seq<VecPoint>>) -> bool {
        if x.len() == 0 {
            r == Some(Seq::<VecPoint>::empty())
        } else if self.dist(x[0] as int, x.last() as int) <= self.dist(p, x[0] as int) {
            r matches Some(v) && v.len() == 1 && v[0].point == x[0] && v[0].vec@ == x
        } else {
            &&& r is None <==> forall|y: int| 0 <= y < x.len() - 1 ==> !#[trigger] self.splits_at(p, x, y)
            &&& r matches Some(v) ==> exists|y: int|
                0 <= y < x.len() - 1 && #[trigger] self.splits_at(p, x, y) && (forall|z: int|
                    0 <= z < y ==> !#[trigger] self.splits_at(p, x, z)) && v.len() == 2 && v[0].point
                    == x[0] && v[0].vec@ == x.take(y + 1) && v[1].point == x.last() && v[1].vec@
                    == x.skip(y + 1)
        }
    }

    /// `y` is the first position at which `splits_at` admits a cut.
    pub open spec fn first_split(&self, p: int, x: Seq<u32>, y: int) -> bool {
        &&& 0 <= y < x.len() - 1
        &&& self.splits_at(p, x, y)
        &&& forall|z: int| 0 <= z < y ==> !#[trigger] self.splits_at(p, x, z)
    }

    /// The copoints, as anchor and members, that separating `x` around `p`
    /// gives, or `None` where `x` cannot be separated.
    pub open spec fn sep_of(&self, p: u32, x: Seq<u32>) -> Option<Seq<(u32, Seq<u32>)>> {
        if x.len() == 0 {
            Some(Seq::empty())
        } else if self.dist(x[0] as int, x.last() as int) <= self.dist(p as int, x[0] as int) {
            Some(seq![(x[0], x)])
        } else if exists|y: int| #[trigger] self.first_split(p as int, x, y) {
            let y = choose|y: int| #[trigger] self.first_split(p as int, x, y);
            Some(seq![(x[0], x.take(y + 1)), (x.last(), x.skip(y + 1))])
        } else {
            None
        }
    }

    /// Separates the ordered block `x_prime` into at most two copoints around
    /// the pivot `p`, or `None` where it cannot be separated.
    pub fn separate_if_separable(&self, p: u32, x_prime: Vec<u32>) -> (r: Option<Vec<VecPoint>>)
        requires
            self.wf(),
            self.dist.is_elem(p as int),
            self.all_elems(x_prime@),
        ensures
            self.is_separation(
                p as int,
                x_prime@,
                match r {
                    Some(v) => Some(v@),
                    None => None,
                },
            ),
            match r {
                Some(v) => self.sep_of(p, x_prime@) == Some(cp_views(v@)),
                None => self.sep_of(p, x_prime@) is None,
            },
    {
        let n = x_prime.len();
        if n == 0 {
            let r: Vec<VecPoint> = Vec::new();
            assert(r@ == Seq::<VecPoint>::empty());
            assert(cp_views(r@) =~= Seq::<(u32, Seq<u32>)>::empty());
            return Some(r);
        }
        let x_min = x_prime[0];
        let x_max = x_prime[n - 1];
        let b_delta = self.dist.d(x_min, x_max);
        let l_delta = self.dist.d(p, x_min);
        if b_delta <= l_delta {
            let ghost xv = x_prime@;
            let r = vec![VecPoint { point: x_min, vec: x_prime }];
            assert(cp_views(r@) =~= seq![(xv[0], xv)]);
            return Some(r);
        }
        let mut y_ind: usize = 0;
        while y_ind + 1 < n
            invariant
                self.wf(),
                self.dist.is_elem(p as int),
                self.all_elems(x_prime@),
                n == x_prime@.len(),
                n > 0,
                x_min == x_prime@[0],
                x_max == x_prime@.last(),
                l_delta == self.dist(p as int, x_min as int),
                b_delta == self.dist(x_min as int, x_max as int),
                b_delta > l_delta,
                y_ind < n,
                forall|z: int| 0 <= z < y_ind ==> !#[trigger] self.splits_at(p as int, x_prime@, z),
            decreases n - y_ind,
        {
            let y = x_prime[y_ind];
            let z = x_prime[y_ind + 1];
            if self.dist.d(x_min, y) <= l_delta && self.dist.d(z, x_max) <= l_delta && self.dist.d(y, z)
                >= l_delta {
                assert(self.splits_at(p as int, x_prime@, y_ind as int));
                let mut u1_vec: Vec<u32> = Vec::new();
                let mut u2_vec: Vec<u32> = Vec::new();
                let mut k: usize = 0;
                while k < n
                    invariant
                        n == x_prime@.len(),
                        y_ind + 1 < n,
                        k <= n,
                        k <= y_ind + 1 ==> u1_vec@ == x_prime@.take(k as int) && u2_vec@.len() == 0,
                        k > y_ind + 1 ==> u1_vec@ == x_prime@.take(y_ind + 1) && u2_vec@
                            == x_prime@.subrange(y_ind + 1, k as int),
                    decreases n - k,
                {
                    if k <= y_ind {
                        u1_vec.push(x_prime[k]);
                        assert(x_prime@.take(k + 1) == x_prime@.take(k as int).push(x_prime@[k as int]));
                    } else {
                        u2_vec.push(x_prime[k]);
                        assert(x_prime@.subrange(y_ind + 1, k + 1) == x_prime@.subrange(
                            y_ind + 1,
                            k as int,
                        ).push(x_prime@[k as int]));
                    }
                    k = k + 1;
                }
                assert(x_prime@.subrange(y_ind + 1, n as int) == x_prime@.skip(y_ind + 1));
                let r = vec![
                    VecPoint { point: x_min, vec: u1_vec },
                    VecPoint { point: x_max, vec: u2_vec },
                ];
                assert(r@[0].vec@ == x_prime@.take(y_ind + 1));
                assert(r@[1].vec@ == x_prime@.skip(y_ind + 1));
                assert(r@.len() == 2 && r@[0].point == x_prime@[0] && r@[1].point == x_prime@.last());
                assert(0 <= y_ind < n - 1 && self.splits_at(p as int, x_prime@, y_ind as int));
                proof {
                    assert(self.first_split(p as int, x_prime@, y_ind as int));
                    let y = choose|y: int| #[trigger] self.first_split(p as int, x_prime@, y);
                    if y < y_ind {
                        assert(!self.splits_at(p as int, x_prime@, y));
                    }
                    if y_ind < y {
                        assert(!self.splits_at(p as int, x_prime@, y_ind as int));
                    }
                    assert(y == y_ind);
                    assert(cp_views(r@) =~= seq![
                        (x_prime@[0], x_prime@.take(y + 1)),
                        (x_prime@.last(), x_prime@.skip(y + 1)),
                    ]);
                }
                return Some(r);
            }
            y_ind = y_ind + 1;
        }
        None
    }

    /// The groups of refining around `q` in the order that the constrained
    /// refinement takes them.
    fn order_groups(&self, p: u32, q: u32, groups: Vec<Vec<u32>>, out_list: &Vec<u32>) -> (order: Vec<Vec<u32>>)
        requires
            self.wf(),
            self.dist.is_elem(p as int),
            self.dist.is_elem(q as int),
            forall|g: int| 0 <= g < groups@.len() ==> self.all_elems(#[trigger] groups@[g]@),
            forall|g: int| 0 <= g < groups@.len() ==> #[trigger] groups@[g]@.len() > 0,
        ensures
            views(order@) == self.ordered_groups(p, q, out_list@, views(groups@)),
            views(order@).flatten().len() == views(groups@).flatten().len(),
            views(order@).flatten().to_multiset() == views(groups@).flatten().to_multiset(),
            forall|g: int| 0 <= g < order@.len() ==> self.all_elems(#[trigger] order@[g]@),
            forall|g: int| 0 <= g < order@.len() ==> #[trigger] order@[g]@.len() > 0,
    {
        let mut order: Vec<Vec<u32>> = Vec::new();
        if get_index(out_list, q).is_some() {
            let n = groups.len();
            let mut alpha: usize = n;
            let mut j: usize = 0;
            while j < alpha
                invariant
                    alpha == n ==> self.first_far(p, q, views(groups@), 0) == self.first_far(
                        p,
                        q,
                        views(groups@),
                        j as int,
                    ),
                    alpha < n ==> self.first_far(p, q, views(groups@), 0) == alpha && alpha == j,
                    self.wf(),
                    self.dist.is_elem(p as int),
                    self.dist.is_elem(q as int),
                    n == groups@.len(),
                    alpha <= n,
                    j <= alpha,
                    forall|g: int| 0 <= g < n ==> self.all_elems(#[trigger] groups@[g]@),
                    forall|g: int| 0 <= g < n ==> #[trigger] groups@[g]@.len() > 0,
                decreases alpha - j,
            {
                assert(views(groups@)[j as int].len() > 0);
                assert(views(groups@)[j as int][0] == groups@[j as int]@[0]);
                if self.dist.d(groups[j][0], q) > self.dist.d(p, q) {
                    alpha = j;
                } else {
                    j = j + 1;
                }
            }
            let ghost front = views(groups@).take(alpha as int);
            let ghost back = views(groups@).skip(alpha as int);
            let mut k: usize = 0;
            while k < alpha
                invariant
                    alpha <= n,
                    n == groups@.len(),
                    k <= alpha,
                    front == views(groups@).take(alpha as int),
                    views(order@) =~= front.reverse().take(k as int),
                decreases alpha - k,
            {
                let ghost prev = views(order@);
                order.push(groups[alpha - 1 - k].clone());
                proof {
                    assert(views(order@) =~= prev.push(groups@[alpha - 1 - k]@));
                    assert(front.reverse()[k as int] == groups@[alpha - 1 - k]@);
                }
                k = k + 1;
            }
            let mut k: usize = alpha;
            while k < n
                invariant
                    alpha <= k <= n,
                    n == groups@.len(),
                    front == views(groups@).take(alpha as int),
                    back == views(groups@).skip(alpha as int),
                    views(order@) =~= front.reverse() + back.take(k - alpha),
                decreases n - k,
            {
                let ghost prev = views(order@);
                order.push(groups[k].clone());
                proof {
                    assert(views(order@) =~= prev.push(groups@[k as int]@));
                    assert(back[k - alpha] == groups@[k as int]@);
                }
                k = k + 1;
            }
            proof {
                assert(back.take(n - alpha) == back);
                assert(front + back == views(groups@));
                lemma_flatten_concat(front.reverse(), back);
                lemma_flatten_concat(front, back);
                lemma_flatten_reverse_bag(front);
                vstd::seq_lib::to_multiset_len(front.reverse().flatten() + back.flatten());
                vstd::seq_lib::to_multiset_len(front.flatten() + back.flatten());
                lemma_multiset_commutative(front.reverse().flatten(), back.flatten());
                lemma_multiset_commutative(front.flatten(), back.flatten());
                assert forall|g: int| 0 <= g < order@.len() implies self.all_elems(#[trigger] order@[g]@)
                    && order@[g]@.len() > 0 by {
                    assert(views(order@)[g] == order@[g]@);
                    if g < alpha {
                        assert(front.reverse()[g] == groups@[alpha - 1 - g]@);
                    } else {
                        assert(back[g - alpha] == groups@[g]@);
                    }
                }
            }
        } else {
            order = groups;
        }
        order
    }

    /// Splits the candidate order of `s_list` into blocks that stay
    /// contiguous, given the elements `in_list` placed before `s_list` and
    /// `out_list` placed after it, relative to the pivot `p`.
    #[verifier::spinoff_prover]
    #[verifier::rlimit(50)]
    pub fn recursive_refine(
        &self,
        p: u32,
        in_list: Vec<u32>,
        s_list: Vec<u32>,
        out_list: Vec<u32>,
    ) -> (r: Vec<Vec<u32>>)
        requires
            self.wf(),
            self.dist.is_elem(p as int),
            self.all_elems(in_list@),
            self.all_elems(s_list@),
            self.all_elems(out_list@),
        ensures
            forall|b: int| 0 <= b < r@.len() ==> self.all_elems(#[trigger] r@[b]@),
            views(r@).flatten().len() == s_list@.len(),
            views(r@).flatten().to_multiset() == s_list@.to_multiset(),
            in_list@.len() > 0 || out_list@.len() > 0 || s_list@.len() > 0 ==> forall|b: int|
                0 <= b < r@.len() ==> #[trigger] r@[b]@.len() > 0,
            in_list@.len() == 0 && out_list@.len() == 0 ==> views(r@) == seq![s_list@],
            views(r@) == self.blocks_of(p, in_list@, s_list@, out_list@),
        decreases in_list@.len() + s_list@.len() + out_list@.len(),
    {
        if in_list.len() == 0 && out_list.len() == 0 {
            let ghost s = s_list@;
            let r = vec![s_list];
            proof {
                assert(views(r@) =~= seq![s]);
                views(r@).lemma_flatten_singleton();
                reveal(Robin::blocks_of);
            }
            return r;
        }
        let q: u32 = if in_list.len() > 0 {
            in_list[0]
        } else {
            out_list[0]
        };
        let ghost s = s_list@;
        let groups = self.refine(q, s_list);
        proof {
            self.lemma_refinement_len(q as int, s, views(groups@));
            self.lemma_refinement_bag(q as int, s, views(groups@));
            assert forall|g: int| 0 <= g < groups@.len() implies #[trigger] groups@[g]@.len() > 0 by {
                assert(views(groups@)[g].len() > 0);
            }
            assert forall|g: int| 0 <= g < groups@.len() implies self.all_elems(#[trigger] groups@[g]@) by {
                assert forall|x: int| 0 <= x < groups@[g]@.len() implies self.dist.is_elem(
                    #[trigger] groups@[g]@[x] as int,
                ) by {
                    assert(views(groups@)[g][x] == groups@[g]@[x]);
                    assert(s.contains(groups@[g]@[x]));
                }
            }
        }
        let order = self.order_groups(p, q, groups, &out_list);
        let ghost parts = self.block_parts(p, in_list@, s, out_list@);
        proof {
            reveal(Robin::blocks_of);
            reveal(Robin::block_parts);
            assert(self.blocks_of(p, in_list@, s, out_list@) == parts.flatten());
            assert(views(order@) == self.ordered_groups(
                p,
                q,
                out_list@,
                self.refine_spec(q as int, s),
            ));
            assert(parts.len() == order@.len());
        }
        assert(in_list@.len() + out_list@.len() > 0);
        let in_new = remove_all(&in_list, q);
        let out_new = remove_all(&out_list, q);
        proof {
            if in_list@.len() > 0 {
                assert(in_list@.contains(q));
            } else {
                assert(out_list@.contains(q));
            }
        }
        let mut result: Vec<Vec<u32>> = Vec::new();
        let mut i: usize = 0;
        while i < order.len()
            invariant
                self.wf(),
                self.dist.is_elem(p as int),
                self.all_elems(in_new@),
                self.all_elems(out_new@),
                in_new@.len() + out_new@.len() < in_list@.len() + out_list@.len(),
                views(order@).flatten().len() == s.len(),
                views(order@).flatten().to_multiset() == s.to_multiset(),
                s == s_list@,
                forall|g: int| 0 <= g < order@.len() ==> self.all_elems(#[trigger] order@[g]@),
                i <= order@.len(),
                views(result@).flatten().len() == views(order@).take(i as int).flatten().len(),
                views(result@).flatten().to_multiset() == views(order@).take(
                    i as int,
                ).flatten().to_multiset(),
                forall|b: int| 0 <= b < result@.len() ==> self.all_elems(#[trigger] result@[b]@),
                forall|g: int| 0 <= g < order@.len() ==> #[trigger] order@[g]@.len() > 0,
                forall|b: int| 0 <= b < result@.len() ==> #[trigger] result@[b]@.len() > 0,
                parts.len() == order@.len(),
                views(result@) == parts.take(i as int).flatten(),
                in_new@ == without(in_list@, q),
                out_new@ == without(out_list@, q),
                in_list@.len() + out_list@.len() > 0,
                forall|k: int|
                    0 <= k < order@.len() ==> #[trigger] parts[k] == (if (views(order@).take(k).flatten()
                        + in_new@).len() + views(order@)[k].len() + (views(order@).subrange(
                        k + 1,
                        order@.len() as int,
                    ).flatten() + out_new@).len() < in_list@.len() + s.len() + out_list@.len() {
                        self.blocks_of(
                            p,
                            views(order@).take(k).flatten() + in_new@,
                            views(order@)[k],
                            views(order@).subrange(k + 1, order@.len() as int).flatten() + out_new@,
                        )
                    } else {
                        Seq::empty()
                    }),
            decreases order@.len() - i,
        {
            let ghost vo = views(order@);
            let before = flatten_range(&order, 0, i);
            let after = flatten_range(&order, i + 1, order.len());
            proof {
                assert(vo.subrange(0, i as int) == vo.take(i as int));
                assert(vo.take(i + 1) == vo.take(i as int).push(vo[i as int]));
                vo.take(i as int).lemma_flatten_push(vo[i as int]);
                assert(vo.take(i + 1) + vo.subrange(i + 1, vo.len() as int) == vo);
                lemma_flatten_concat(vo.take(i + 1), vo.subrange(i + 1, vo.len() as int));
                assert forall|g: int| 0 <= g < vo.len() implies self.all_elems(#[trigger] vo[g]) by {
                    assert(vo[g] == order@[g]@);
                }
                self.lemma_flatten_elems(vo.take(i as int));
                self.lemma_flatten_elems(vo.subrange(i + 1, vo.len() as int));
                assert(vo[i as int] == order@[i as int]@);
            }
            let ini = concatenate(before, &in_new);
            let outi = concatenate(after, &out_new);
            let mut sub = self.recursive_refine(p, ini, order[i].clone(), outi);
            proof {
                assert(parts[i as int] == views(sub@));
                assert(parts.take(i + 1) == parts.take(i as int).push(parts[i as int]));
                parts.take(i as int).lemma_flatten_push(parts[i as int]);
                assert(views(result@ + sub@) =~= views(result@) + views(sub@));
                lemma_flatten_concat(views(result@), views(sub@));
                lemma_multiset_commutative(views(result@).flatten(), views(sub@).flatten());
                lemma_multiset_commutative(vo.take(i as int).flatten(), vo[i as int]);
            }
            result.append(&mut sub);
            i = i + 1;
        }
        proof {
            assert(views(order@).take(i as int) == views(order@));
            assert(parts.take(i as int) =~= parts);
            reveal(Robin::blocks_of);
            reveal(Robin::block_parts);
        }
        result
    }

    /// The left list, right list and deferred elements after comparing the
    /// undecided elements `u[j..]` with the anchor `q`: an element as far from
    /// `q` as `p` is deferred; another goes left when it lies on the side of
    /// `q` that `q` itself took (`dl`, `dr`), right otherwise, and takes the
    /// deferred elements to the opposite side.
    pub open spec fn bip_inner(
        &self,
        p: u32,
        q: u32,
        dl: bool,
        dr: bool,
        u: Seq<u32>,
        j: int,
        l: Seq<u32>,
        r: Seq<u32>,
        sk: Seq<u32>,
    ) -> (Seq<u32>, Seq<u32>, Seq<u32>)
        decreases u.len() - j,
    {
        if j < 0 || j >= u.len() {
            (l, r, sk)
        } else {
            let e = u[j];
            let dxq = self.dist(e as int, q as int);
            let dpq = self.dist(p as int, q as int);
            if dxq == dpq {
                self.bip_inner(p, q, dl, dr, u, j + 1, l, r, sk.insert(0, e))
            } else if (dxq < dpq && dl) || (dxq > dpq && dr) {
                self.bip_inner(p, q, dl, dr, u, j + 1, l.insert(0, e), sk + r, Seq::empty())
            } else {
                self.bip_inner(p, q, dl, dr, u, j + 1, sk + l, r.insert(0, e), Seq::empty())
            }
        }
    }

    /// The left and right lists after taking the anchors `order[t..]` in
    /// turn, with `und` still undecided.
    pub open spec fn bip_outer(
        &self,
        p: u32,
        order: Seq<u32>,
        t: int,
        l: Seq<u32>,
        r: Seq<u32>,
        und: Seq<u32>,
    ) -> (Seq<u32>, Seq<u32>)
        decreases order.len() - t,
    {
        if t < 0 || t >= order.len() {
            (l, r)
        } else {
            let q = order[t];
            let r1 = if und.contains(q) {
                r.insert(0, q)
            } else {
                r
            };
            let u1 = if und.contains(q) {
                without(und, q)
            } else {
                und
            };
            let res = self.bip_inner(p, q, l.contains(q), r1.contains(q), u1, 0, l, r1, Seq::empty());
            self.bip_outer(p, order, t + 1, res.0, res.1, res.2.reverse())
        }
    }

    /// The order that sorting the anchors `x` by bipartition around `p`
    /// gives: the anchors are taken from the last one back, and the result
    /// is the left list reversed, then `p`, then the right list.
    pub open spec fn bipartition_of(&self, p: u32, x: Seq<u32>) -> Seq<u32> {
        let lr = self.bip_outer(p, x.reverse(), 0, Seq::empty(), Seq::empty(), x.reverse());
        lr.0.reverse() + seq![p] + lr.1
    }

    /// Orders the anchors `x_list` around the pivot `p` by their distances to
    /// one another and to `p`; the result holds `p` between the anchors
    /// placed on its left and those placed on its right.
    #[verifier::rlimit(50)]
    pub fn sort_by_bipartition(&self, p: u32, x_list: Vec<u32>) -> (r: Vec<u32>)
        requires
            self.wf(),
            self.dist.is_elem(p as int),
            self.all_elems(x_list@),
        ensures
            forall|k: int| 0 <= k < r@.len() ==> #[trigger] r@[k] == p || x_list@.contains(r@[k]),
            r@.contains(p),
            forall|e: u32| x_list@.contains(e) ==> #[trigger] r@.contains(e),
            r@ == self.bipartition_of(p, x_list@),
    {
        let ghost x = x_list@;
        let mut l_list: Vec<u32> = Vec::new();
        let mut r_list: Vec<u32> = Vec::new();
        let mut undecided = reversed(&x_list);
        let order = reversed(&x_list);
        proof {
            lemma_reverse_contains(x);
        }
        let mut t: usize = 0;
        while t < order.len()
            invariant
                self.wf(),
                self.dist.is_elem(p as int),
                self.all_elems(x),
                order@ == x.reverse(),
                t <= order@.len(),
                drawn_from(order@, x),
                drawn_from(undecided@, x),
                drawn_from(l_list@, x),
                drawn_from(r_list@, x),
                forall|e: u32|
                    #[trigger] x.contains(e) ==> l_list@.contains(e) || r_list@.contains(e)
                        || undecided@.contains(e),
                forall|k: int| 0 <= k < t ==> !undecided@.contains(#[trigger] order@[k]),
                self.bip_outer(p, order@, 0, Seq::empty(), Seq::empty(), order@) == self.bip_outer(
                    p,
                    order@,
                    t as int,
                    l_list@,
                    r_list@,
                    undecided@,
                ),
            decreases order@.len() - t,
        {
            let q = order[t];
            let ghost l_start = l_list@;
            let ghost r_start = r_list@;
            let ghost u_start = undecided@;
            proof {
                lemma_drawn_elems(self, order@, x);
            }
            if get_index(&undecided, q).is_some() {
                let ghost r0 = r_list@;
                let ghost u0 = undecided@;
                r_list.insert(0, q);
                undecided = remove_all(&undecided, q);
                proof {
                    lemma_prepend_contains(r0, q);
                    assert forall|e: u32| u0.contains(e) && e != q implies #[trigger] undecided@.contains(e) by {
                        let w = choose|w: int| 0 <= w < u0.len() && u0[w] == e;
                        assert(u0[w] != q);
                    }
                    assert forall|k: int| 0 <= k < t implies !undecided@.contains(#[trigger] order@[k]) by {
                        if undecided@.contains(order@[k]) {
                            let w = choose|w: int| 0 <= w < undecided@.len() && undecided@[w] == order@[k];
                            assert(u0.contains(undecided@[w]));
                        }
                    }
                }
            }
            proof {
                if undecided@.contains(q) {
                    let w = choose|w: int| 0 <= w < undecided@.len() && undecided@[w] == q;
                    assert(undecided@[w] != q);
                }
            }
            let ghost u = undecided@;
            let ghost r1 = r_list@;
            proof {
                if u_start.contains(q) {
                    assert(r1 == r_start.insert(0, q));
                    assert(u == without(u_start, q));
                } else {
                    assert(r1 == r_start);
                    assert(u == u_start);
                }
            }
            assert(u.skip(0) =~= u);
            let mut skipped: Vec<u32> = Vec::new();
            let does_l_contain_q = get_index(&l_list, q).is_some();
            let does_r_contain_q = get_index(&r_list, q).is_some();
            let mut j: usize = 0;
            while j < undecided.len()
                invariant
                    self.wf(),
                    self.dist.is_elem(p as int),
                    self.dist.is_elem(q as int),
                    self.all_elems(x),
                    undecided@ == u,
                    j <= u.len(),
                    drawn_from(undecided@, x),
                    drawn_from(skipped@, x),
                    drawn_from(l_list@, x),
                    drawn_from(r_list@, x),
                    forall|e: u32|
                        #[trigger] x.contains(e) ==> l_list@.contains(e) || r_list@.contains(e)
                            || skipped@.contains(e) || u.skip(j as int).contains(e),
                    forall|e: u32| #[trigger] skipped@.contains(e) ==> u.contains(e),
                    does_l_contain_q == l_start.contains(q),
                    does_r_contain_q == r1.contains(q),
                    self.bip_inner(p, q, does_l_contain_q, does_r_contain_q, u, 0, l_start, r1, Seq::empty())
                        == self.bip_inner(
                        p,
                        q,
                        does_l_contain_q,
                        does_r_contain_q,
                        u,
                        j as int,
                        l_list@,
                        r_list@,
                        skipped@,
                    ),
                decreases undecided@.len() - j,
            {
                let e = undecided[j];
                proof {
                    lemma_drawn_elems(self, undecided@, x);
                    assert forall|f: u32| u.skip(j as int).contains(f) implies f == e || u.skip(j + 1).contains(
                        f,
                    ) by {
                        let w = choose|w: int| 0 <= w < u.skip(j as int).len() && u.skip(j as int)[w] == f;
                        if w > 0 {
                            assert(u.skip(j + 1)[w - 1] == f);
                        }
                    }
                    assert(u.contains(u[j as int]));
                }
                let ghost l0 = l_list@;
                let ghost r0 = r_list@;
                let ghost s0 = skipped@;
                let dxq = self.dist.d(e, q);
                let dpq = self.dist.d(p, q);
                if dxq == dpq {
                    skipped.insert(0, e);
                    proof {
                        lemma_prepend_contains(s0, e);
                    }
                } else {
                    if (dxq < dpq && does_l_contain_q) || (dxq > dpq && does_r_contain_q) {
                        l_list.insert(0, e);
                        r_list = concatenate(skipped.clone(), &r_list);
                        proof {
                            lemma_prepend_contains(l0, e);
                            lemma_concat_contains(s0, r0);
                        }
                    } else {
                        r_list.insert(0, e);
                        l_list = concatenate(skipped.clone(), &l_list);
                        proof {
                            lemma_prepend_contains(r0, e);
                            lemma_concat_contains(s0, l0);
                        }
                    }
                    skipped = Vec::new();
                }
                j = j + 1;
            }
            let ghost sk = skipped@;
            proof {
                assert(self.bip_outer(p, order@, t as int, l_start, r_start, u_start) == self.bip_outer(
                    p,
                    order@,
                    t + 1,
                    l_list@,
                    r_list@,
                    sk.reverse(),
                ));
            }
            undecided = reversed(&skipped);
            proof {
                lemma_reverse_contains(sk);
                assert(u.skip(j as int).len() == 0);
                assert forall|k: int| 0 <= k <= t implies !undecided@.contains(#[trigger] order@[k]) by {
                    if undecided@.contains(order@[k]) {
                        assert(sk.contains(order@[k]));
                    }
                }
            }
            t = t + 1;
        }
        let ghost lf = l_list@;
        let mut result = reversed(&l_list);
        result.push(p);
        let ghost front = result@;
        let result = concatenate(result, &r_list);
        proof {
            assert(result@[l_list@.len() as int] == p);
            lemma_reverse_contains(lf);
            lemma_concat_contains(front, r_list@);
            assert forall|e: u32| x.contains(e) implies #[trigger] result@.contains(e) by {
                let w = choose|w: int| 0 <= w < x.len() && x[w] == e;
                assert(order@[x.len() - 1 - w] == e);
                if lf.contains(e) {
                    assert(lf.reverse().contains(e));
                    let v = choose|v: int| 0 <= v < lf.reverse().len() && lf.reverse()[v] == e;
                    assert(front[v] == e);
                    assert(front.contains(e));
                }
            }
        }
        result
    }

    /// The members taken for the anchor `target`: from position `k` on, each
    /// copoint anchored at `target` hands over its members, which are
    /// appended to `acc`, and is left empty.
    pub open spec fn take_matching(
        ps: Seq<u32>,
        k: int,
        target: u32,
        vecs: Seq<Seq<u32>>,
        acc: Seq<u32>,
    ) -> (Seq<Seq<u32>>, Seq<u32>)
        decreases ps.len() - k,
    {
        if k < 0 || k >= ps.len() {
            (vecs, acc)
        } else if ps[k] == target {
            Self::take_matching(ps, k + 1, target, vecs.update(k, Seq::empty()), acc + vecs[k])
        } else {
            Self::take_matching(ps, k + 1, target, vecs, acc)
        }
    }

    /// The order laid out from the sorted anchors `sorted[t..]`: the pivot
    /// stands for itself, any other anchor for the members of its copoints.
    pub open spec fn assemble(
        p: u32,
        sorted: Seq<u32>,
        t: int,
        ps: Seq<u32>,
        vecs: Seq<Seq<u32>>,
        acc: Seq<u32>,
    ) -> Seq<u32>
        decreases sorted.len() - t,
    {
        if t < 0 || t >= sorted.len() {
            acc
        } else if sorted[t] == p {
            Self::assemble(p, sorted, t + 1, ps, vecs, acc.push(p))
        } else {
            let res = Self::take_matching(ps, 0, sorted[t], vecs, acc);
            Self::assemble(p, sorted, t + 1, ps, res.0, res.1)
        }
    }

    /// The copoints of the blocks `blocks[i..]` around the first element of
    /// `x`, each block ordered by `order_of` first; a block that cannot be
    /// separated gives none.
    #[verifier::opaque]
    pub open spec fn parts_from(&self, x: Seq<u32>, blocks: Seq<Seq<u32>>, i: int) -> Seq<(u32, Seq<u32>)>
        decreases x.len(), 0nat, blocks.len() - i,
    {
        if i < 0 || i >= blocks.len() {
            Seq::empty()
        } else {
            let part = if x.len() > 0 && blocks[i].len() < x.len() {
                self.part_of(x[0], blocks[i])
            } else {
                Seq::empty()
            };
            part + self.parts_from(x, blocks, i + 1)
        }
    }

    /// The copoints of the block `b` around `p`, once `b` is ordered by
    /// `order_of`; none where it cannot be separated.
    #[verifier::opaque]
    pub open spec fn part_of(&self, p: u32, b: Seq<u32>) -> Seq<(u32, Seq<u32>)>
        decreases b.len(), 2nat, 0nat,
    {
        match self.sep_of(p, self.order_of(b)) {
            Some(v) => v,
            None => Seq::empty(),
        }
    }

    /// The candidate compatible order of `x`: the copoints of the blocks
    /// around the first element `p`, laid out in the order that the
    /// bipartition sort gives their anchors around `p`.
    #[verifier::opaque]
    pub open spec fn order_of(&self, x: Seq<u32>) -> Seq<u32>
        decreases x.len(), 1nat, 0nat,
    {
        if x.len() == 0 {
            Seq::empty()
        } else {
            let blocks = self.blocks_of(x[0], seq![x[0]], x.skip(1), Seq::empty());
            let cps = self.parts_from(x, blocks, 0);
            let points = cps.map_values(|c: (u32, Seq<u32>)| c.0);
            let vecs = cps.map_values(|c: (u32, Seq<u32>)| c.1);
            Self::assemble(x[0], self.bipartition_of(x[0], points), 0, points, vecs, Seq::empty())
        }
    }

    /// Builds a candidate compatible order of the elements `x_list`: its first
    /// element is the pivot, the blocks that `recursive_refine` finds around
    /// it are ordered recursively and separated into copoints, and the
    /// copoints' blocks are laid out in the order that `sort_by_bipartition`
    /// gives their anchors. A block that cannot be separated is left out.
    #[verifier::spinoff_prover]
    #[verifier::rlimit(50)]
    pub fn find_compatible_order(&self, x_list: Vec<u32>) -> (r: Vec<u32>)
        requires
            self.wf(),
            self.all_elems(x_list@),
        ensures
            self.all_elems(r@),
            drawn_from(r@, x_list@),
            x_list@.len() == 0 ==> r@.len() == 0,
            x_list@.len() > 0 ==> r@.contains(x_list@[0]),
            r@ == self.order_of(x_list@),
        decreases x_list@.len(),
    {
        if x_list.len() == 0 {
            proof {
                reveal(Robin::order_of);
            }
            return Vec::new();
        }
        let p = x_list[0];
        let mut x_prime_list: Vec<u32> = Vec::new();
        let mut k: usize = 1;
        while k < x_list.len()
            invariant
                1 <= k <= x_list@.len(),
                x_prime_list@ == x_list@.subrange(1, k as int),
            decreases x_list@.len() - k,
        {
            x_prime_list.push(x_list[k]);
            assert(x_list@.subrange(1, k + 1) == x_list@.subrange(1, k as int).push(x_list@[k as int]));
            k = k + 1;
        }
        let ghost rest = x_prime_list@;
        assert(self.all_elems(rest)) by {
            assert forall|e: int| 0 <= e < rest.len() implies self.dist.is_elem(#[trigger] rest[e] as int) by {
                assert(rest[e] == x_list@[e + 1]);
            }
        }
        let in0: Vec<u32> = vec![p];
        let out0: Vec<u32> = Vec::new();
        assert(in0@ =~= seq![p]);
        assert(out0@ =~= Seq::<u32>::empty());
        let c_list = self.recursive_refine(p, in0, x_prime_list, out0);
        proof {
            assert forall|b: int| 0 <= b < c_list@.len() implies #[trigger] c_list@[b]@.len() < x_list@.len() by {
                let vc = views(c_list@);
                vc.lemma_flatten_and_flatten_alt_are_equivalent();
                vc.lemma_flatten_length_ge_single_element_length(b);
                assert(vc[b] == c_list@[b]@);
            }
            assert forall|b: int| 0 <= b < c_list@.len() implies drawn_from(
                #[trigger] c_list@[b]@,
                x_list@,
            ) by {
                let vc = views(c_list@);
                assert(vc[b] == c_list@[b]@);
                assert forall|k: int| 0 <= k < c_list@[b]@.len() implies x_list@.contains(
                    #[trigger] c_list@[b]@[k],
                ) by {
                    let e = c_list@[b]@[k];
                    lemma_flatten_contains(vc, b, k);
                    vstd::seq_lib::to_multiset_contains(vc.flatten(), e);
                    vstd::seq_lib::to_multiset_contains(rest, e);
                    let w = choose|w: int| 0 <= w < rest.len() && rest[w] == e;
                    assert(x_list@[w + 1] == e);
                }
            }
        }
        let ghost blocks = views(c_list@);
        proof {
            assert(rest =~= x_list@.skip(1));
            assert(blocks == self.blocks_of(p, seq![p], x_list@.skip(1), Seq::empty()));
        }
        let mut represented_copoints: Vec<VecPoint> = Vec::new();
        proof {
            reveal(Robin::parts_from);
            assert(cp_views(represented_copoints@) =~= Seq::<(u32, Seq<u32>)>::empty());
        }
        let mut i: usize = c_list.len();
        while i > 0
            invariant
                self.wf(),
                self.dist.is_elem(p as int),
                i <= c_list@.len(),
                forall|b: int| 0 <= b < c_list@.len() ==> self.all_elems(#[trigger] c_list@[b]@),
                forall|b: int| 0 <= b < c_list@.len() ==> #[trigger] c_list@[b]@.len() < x_list@.len(),
                forall|b: int| 0 <= b < c_list@.len() ==> drawn_from(#[trigger] c_list@[b]@, x_list@),
                forall|c: int|
                    0 <= c < represented_copoints@.len() ==> #[trigger] copoint_ok(
                        self,
                        represented_copoints@[c],
                        x_list@,
                    ),
                blocks == views(c_list@),
                x_list@.len() > 0 && p == x_list@[0],
                cp_views(represented_copoints@) == self.parts_from(x_list@, blocks, i as int),
            decreases i,
        {
            i = i - 1;
            let block = c_list[i].clone();
            assert(block@ == c_list@[i as int]@);
            let c_prime_i = self.find_compatible_order(block);
            let ghost cpv = c_prime_i@;
            assert(cpv == self.order_of(c_list@[i as int]@));
            let ghost prev_cps = represented_copoints@;
            proof {
                reveal(Robin::parts_from);
                reveal(Robin::part_of);
                assert(blocks[i as int] == c_list@[i as int]@);
                assert(self.parts_from(x_list@, blocks, i as int) == self.part_of(p, c_list@[i as int]@)
                    + self.parts_from(x_list@, blocks, i + 1));
            }
            match self.separate_if_separable(p, c_prime_i) {
                Some(l) => {
                    let ghost c = c_prime_i@;
                    proof {
                        lemma_drawn_trans(c, c_list@[i as int]@, x_list@);
                        assert forall|y: int| 0 <= y <= c.len() implies drawn_from(#[trigger] c.take(y), x_list@)
                            && drawn_from(c.skip(y), x_list@) by {
                            assert forall|e: int| 0 <= e < c.take(y).len() implies x_list@.contains(
                                #[trigger] c.take(y)[e],
                            ) by {
                                assert(c.take(y)[e] == c[e]);
                            }
                            assert forall|e: int| 0 <= e < c.skip(y).len() implies x_list@.contains(
                                #[trigger] c.skip(y)[e],
                            ) by {
                                assert(c.skip(y)[e] == c[e + y]);
                            }
                        }
                        if c.len() > 0 {
                            assert(self.dist.is_elem(c[0] as int));
                            assert(self.dist.is_elem(c[c.len() - 1] as int));
                            assert(self.all_elems(c.take(1)));
                            assert forall|y: int| 0 <= y < c.len() implies self.all_elems(c.take(y))
                                && self.all_elems(#[trigger] c.skip(y)) by {
                                assert forall|e: int| 0 <= e < c.skip(y).len() implies self.dist.is_elem(
                                    #[trigger] c.skip(y)[e] as int,
                                ) by {
                                    assert(c.skip(y)[e] == c[e + y]);
                                }
                            }
                            assert forall|y: int| 0 <= y < c.len() implies self.all_elems(
                                #[trigger] c.take(y + 1),
                            ) by {
                                assert forall|e: int| 0 <= e < c.take(y + 1).len() implies self.dist.is_elem(
                                    #[trigger] c.take(y + 1)[e] as int,
                                ) by {
                                    assert(c.take(y + 1)[e] == c[e]);
                                }
                            }
                        }
                    }
                    let mut l = l;
                    let ghost prev = represented_copoints@;
                    let ghost front = l@;
                    assert forall|c: int| 0 <= c < front.len() implies self.dist.is_elem(
                        #[trigger] front[c].point as int,
                    ) && self.all_elems(front[c].vec@) && x_list@.contains(front[c].point) && drawn_from(
                        front[c].vec@,
                        x_list@,
                    ) by {
                        if c_prime_i@.len() > 0 {
                            assert(x_list@.contains(c_prime_i@[0]));
                            assert(x_list@.contains(c_prime_i@[c_prime_i@.len() - 1]));
                            assert(c_prime_i@.take(c_prime_i@.len() as int) == c_prime_i@);
                        }
                        if self.dist(c_prime_i@[0] as int, c_prime_i@.last() as int) > self.dist(
                            p as int,
                            c_prime_i@[0] as int,
                        ) {
                            let y = choose|y: int|
                                0 <= y < c_prime_i@.len() - 1 && #[trigger] self.splits_at(
                                    p as int,
                                    c_prime_i@,
                                    y,
                                ) && (forall|z: int|
                                    0 <= z < y ==> !#[trigger] self.splits_at(p as int, c_prime_i@, z))
                                    && front.len() == 2 && front[0].point == c_prime_i@[0]
                                    && front[0].vec@ == c_prime_i@.take(y + 1) && front[1].point
                                    == c_prime_i@.last() && front[1].vec@ == c_prime_i@.skip(y + 1);
                            assert(self.all_elems(c_prime_i@.skip(y + 1)));
                            assert(drawn_from(c_prime_i@.take(y + 1), x_list@));
                            assert(drawn_from(c_prime_i@.skip(y + 1), x_list@));
                        }
                    }
                    l.append(&mut represented_copoints);
                    represented_copoints = l;
                    proof {
                        assert(represented_copoints@ == front + prev);
                        assert forall|c: int| 0 <= c < represented_copoints@.len() implies #[trigger] copoint_ok(
                            self,
                            represented_copoints@[c],
                            x_list@,
                        ) by {
                            if c < front.len() {
                                assert(represented_copoints@[c] == front[c]);
                            } else {
                                assert(represented_copoints@[c] == prev[c - front.len()]);
                            }
                        }
                        assert(cp_views(represented_copoints@) =~= cp_views(front) + cp_views(prev));
                        reveal(Robin::part_of);
                        reveal(Robin::order_of);
                        assert(block@ == c_list@[i as int]@);
                        assert(self.sep_of(p, cpv) == Some(cp_views(front)));
                        assert(self.part_of(p, c_list@[i as int]@) == cp_views(front));
                    }
                },
                None => {
                    proof {
                        reveal(Robin::part_of);
                        reveal(Robin::order_of);
                        assert(block@ == c_list@[i as int]@);
                        assert(self.sep_of(p, cpv) is None);
                        assert(self.part_of(p, c_list@[i as int]@) == Seq::<(u32, Seq<u32>)>::empty());
                        assert(cp_views(prev_cps) =~= self.part_of(p, c_list@[i as int]@) + cp_views(
                            prev_cps,
                        ));
                    }
                },
            }
        }
        let mut points_list: Vec<u32> = Vec::new();
        let mut vec_list: Vec<Vec<u32>> = Vec::new();
        let mut c: usize = 0;
        while c < represented_copoints.len()
            invariant
                c <= represented_copoints@.len(),
                points_list@.len() == c,
                vec_list@.len() == c,
                forall|a: int|
                    0 <= a < represented_copoints@.len() ==> #[trigger] copoint_ok(
                        self,
                        represented_copoints@[a],
                        x_list@,
                    ),
                forall|a: int| 0 <= a < c ==> self.dist.is_elem(#[trigger] points_list@[a] as int),
                forall|a: int| 0 <= a < c ==> self.all_elems(#[trigger] vec_list@[a]@),
                forall|a: int| 0 <= a < c ==> drawn_from(#[trigger] vec_list@[a]@, x_list@),
                forall|a: int|
                    0 <= a < c ==> #[trigger] points_list@[a] == cp_views(represented_copoints@)[a].0
                        && vec_list@[a]@ == cp_views(represented_copoints@)[a].1,
            decreases represented_copoints@.len() - c,
        {
            assert(copoint_ok(self, represented_copoints@[c as int], x_list@));
            points_list.push(represented_copoints[c].point);
            vec_list.push(represented_copoints[c].vec.clone());
            c = c + 1;
        }
        let ghost cps = cp_views(represented_copoints@);
        let ghost points = cps.map_values(|c: (u32, Seq<u32>)| c.0);
        let ghost vecs = cps.map_values(|c: (u32, Seq<u32>)| c.1);
        proof {
            reveal(Robin::parts_from);
            assert(cps == self.parts_from(x_list@, blocks, 0));
            assert(points_list@ =~= points);
            assert forall|a: int| 0 <= a < vecs.len() implies views(vec_list@)[a] == vecs[a] by {
                assert(points_list@[a] == cps[a].0);
            }
            assert(views(vec_list@) =~= vecs);
            reveal(Robin::order_of);
            assert(self.order_of(x_list@) == Self::assemble(
                p,
                self.bipartition_of(p, points),
                0,
                points,
                vecs,
                Seq::empty(),
            ));
        }
        let points_sorted_list = self.sort_by_bipartition(p, points_list.clone());
        let mut compatible_order: Vec<u32> = Vec::new();
        let ghost w = choose|w: int| 0 <= w < points_sorted_list@.len() && points_sorted_list@[w] == p;
        let mut t: usize = 0;
        while t < points_sorted_list.len()
            invariant
                self.wf(),
                self.dist.is_elem(p as int),
                points_list@.len() == vec_list@.len(),
                forall|a: int| 0 <= a < vec_list@.len() ==> self.all_elems(#[trigger] vec_list@[a]@),
                self.all_elems(compatible_order@),
                forall|a: int| 0 <= a < vec_list@.len() ==> drawn_from(#[trigger] vec_list@[a]@, x_list@),
                drawn_from(compatible_order@, x_list@),
                x_list@.len() > 0 && p == x_list@[0],
                0 <= w < points_sorted_list@.len() && points_sorted_list@[w] == p,
                t <= points_sorted_list@.len(),
                t > w ==> compatible_order@.contains(p),
                points_list@ == points,
                Self::assemble(p, points_sorted_list@, 0, points, vecs, Seq::empty()) == Self::assemble(
                    p,
                    points_sorted_list@,
                    t as int,
                    points,
                    views(vec_list@),
                    compatible_order@,
                ),
            decreases points_sorted_list@.len() - t,
        {
            let point_sorted = points_sorted_list[t];
            if point_sorted == p {
                let ghost c0 = compatible_order@;
                compatible_order.push(p);
                proof {
                    assert(compatible_order@[c0.len() as int] == p);
                    if c0.contains(p) {
                        let v = choose|v: int| 0 <= v < c0.len() && c0[v] == p;
                        assert(compatible_order@[v] == p);
                    }
                    assert(x_list@.contains(x_list@[0]));
                    assert forall|k: int| 0 <= k < compatible_order@.len() implies x_list@.contains(
                        #[trigger] compatible_order@[k],
                    ) by {
                        if k < c0.len() {
                            assert(compatible_order@[k] == c0[k]);
                        }
                    }
                }
            } else {
                let ghost v_t = views(vec_list@);
                let ghost a_t = compatible_order@;
                let mut point_ind: usize = 0;
                while point_ind < points_list.len()
                    invariant
                        self.wf(),
                        points_list@.len() == vec_list@.len(),
                        forall|a: int|
                            0 <= a < vec_list@.len() ==> self.all_elems(#[trigger] vec_list@[a]@),
                        self.all_elems(compatible_order@),
                        forall|a: int|
                            0 <= a < vec_list@.len() ==> drawn_from(#[trigger] vec_list@[a]@, x_list@),
                        drawn_from(compatible_order@, x_list@),
                        t > w ==> compatible_order@.contains(p),
                        point_sorted != p,
                        point_sorted == points_sorted_list@[t as int],
                        Self::take_matching(points_list@, 0, point_sorted, v_t, a_t) == Self::take_matching(
                            points_list@,
                            point_ind as int,
                            point_sorted,
                            views(vec_list@),
                            compatible_order@,
                        ),
                    decreases points_list@.len() - point_ind,
                {
                    if points_list[point_ind] == point_sorted {
                        let ghost v0 = views(vec_list@);
                        let taken = vec_list[point_ind].clone();
                        vec_list.set(point_ind, Vec::new());
                        assert(views(vec_list@) =~= v0.update(point_ind as int, Seq::empty()));
                        assert(taken@ == v0[point_ind as int]);
                        proof {
                            lemma_drawn_concat(compatible_order@, taken@, x_list@);
                            assert forall|a: int| 0 <= a < vec_list@.len() implies drawn_from(
                                #[trigger] vec_list@[a]@,
                                x_list@,
                            ) by {
                                if a == point_ind {
                                    assert(vec_list@[a]@.len() == 0);
                                }
                            }
                        }
                        let ghost c0 = compatible_order@;
                        compatible_order = concatenate(compatible_order, &taken);
                        proof {
                            lemma_concat_contains(c0, taken@);
                        }
                    }
                    point_ind = point_ind + 1;
                }
            }
            t = t + 1;
        }
        compatible_order
    }

    /// The elements `1..=n` in increasing order.
    pub open spec fn identity(n: nat) -> Seq<u32> {
        Seq::new(n, |i: int| (i + 1) as u32)
    }

    /// A `Robin` on `dist` with no candidate yet.
    pub open spec fn fresh(dist: DistanceMatrice) -> Robin {
        Robin { dist, solved_permut: None }
    }

    /// The candidate order that resolving the matrix builds: `order_of` on
    /// the elements `1..=n`. It depends on the matrix alone.
    pub open spec fn candidate(&self) -> Seq<u32> {
        Self::fresh(self.dist).order_of(Self::identity(self.dist.size()))
    }

    /// Searches a compatible order of the matrix, keeps the candidate found in
    /// `solved_permut`, and reports whether the matrix is Robinson under it.
    ///
    /// Where an unseparable block left the candidate short of `n` elements,
    /// the matrix is reported as not Robinson under it (`robinson_under`
    /// asks for all `n` positions) rather than failing.
    pub fn resolve_robin(&mut self) -> (r: bool)
        requires
            old(self).wf(),
            old(self).dist.size() <= u32::MAX,
        ensures
            final(self).dist == old(self).dist,
            final(self).solved_permut matches Some(p) && p@ == old(self).candidate() && r
                == old(self).dist.robinson_under(p@),
    {
        self.solved_permut = None;
        assert(*self == Self::fresh(old(self).dist));
        let n = self.dist.distance_mat.len();
        let mut x_list: Vec<u32> = Vec::new();
        let mut i: usize = 0;
        while i < n
            invariant
                n == self.dist.size(),
                n <= u32::MAX,
                i <= n,
                x_list@.len() == i,
                forall|k: int| 0 <= k < x_list@.len() ==> #[trigger] x_list@[k] == k + 1,
            decreases n - i,
        {
            x_list.push((i + 1) as u32);
            i = i + 1;
        }
        assert(*self == Self::fresh(old(self).dist));
        proof {
            assert(x_list@ =~= Self::identity(n as nat));
            assert(self.all_elems(x_list@));
        }
        let permut_found = self.find_compatible_order(x_list);
        let result = if permut_found.len() == n {
            let result_mat = self.dist.permut_matrice(&permut_found);
            let b = result_mat.is_robinson();
            proof {
                lemma_robinson_reordered(self.dist, permut_found@, result_mat);
            }
            b
        } else {
            false
        };
        self.solved_permut = Some(permut_found);
        result
    }

    /// Resolving twice gives the same result: two `Robin`s on the same matrix,
    /// such as one before and one after a call of `resolve_robin`, build the
    /// same candidate and give the same verdict on it.
    pub proof fn lemma_resolve_idempotent(a: Robin, b: Robin)
        requires
            a.dist == b.dist,
        ensures
            a.candidate() == b.candidate(),
            a.dist.robinson_under(a.candidate()) == b.dist.robinson_under(b.candidate()),
    {
    }

    /// The elements of the groups of `s` at each distance of `ks`.
    pub open spec fn key_bag(&self, q: int, s: Seq<u32>, ks: Seq<u32>) -> Multiset<u32>
        decreases ks.len(),
    {
        if ks.len() == 0 {
            Multiset::empty()
        } else {
            self.rev_group(q, s, ks[0]).to_multiset().add(self.key_bag(q, s, ks.drop_first()))
        }
    }

    /// Appending `e` to `s` adds `e` to the groups exactly when `ks` holds the
    /// distance of `e`.
    pub proof fn lemma_key_bag_push(&self, q: int, s: Seq<u32>, e: u32, ks: Seq<u32>)
        requires
            ks.no_duplicates(),
        ensures
            self.key_bag(q, s.push(e), ks) == if ks.contains(self.dist(q, e as int)) {
                self.key_bag(q, s, ks).insert(e)
            } else {
                self.key_bag(q, s, ks)
            },
        decreases ks.len(),
    {
        broadcast use vstd::multiset::group_multiset_axioms;

        assert(s.push(e).drop_last() == s);
        if ks.len() > 0 {
            let rest = ks.drop_first();
            assert(rest.no_duplicates());
            self.lemma_key_bag_push(q, s, e, rest);
            let k = self.dist(q, e as int);
            if ks[0] == k {
                assert(!rest.contains(ks[0]));
                let g = self.rev_group(q, s, ks[0]);
                lemma_multiset_commutative(seq![e], g);
                assert(seq![e].to_multiset() =~= Multiset::singleton(e)) by {
                    assert(seq![e] == Seq::<u32>::empty().push(e));
                    vstd::seq_lib::to_multiset_build(Seq::<u32>::empty(), e);
                    lemma_empty_bag(Seq::<u32>::empty());
                }
                assert(ks.contains(k));
                assert(self.key_bag(q, s.push(e), ks) =~= self.key_bag(q, s, ks).insert(e));
            } else {
                assert(ks.contains(k) <==> rest.contains(k)) by {
                    if rest.contains(k) {
                        let w = choose|w: int| 0 <= w < rest.len() && rest[w] == k;
                        assert(ks[w + 1] == rest[w]);
                    }
                    if ks.contains(k) {
                        let w = choose|w: int| 0 <= w < ks.len() && ks[w] == k;
                        assert(rest[w - 1] == ks[w]);
                    }
                }
                if rest.contains(k) {
                    assert(self.key_bag(q, s.push(e), ks) =~= self.key_bag(q, s, ks).insert(e));
                }
            }
        }
    }

    /// When `ks` holds each distance found in `s` once, the groups at those
    /// distances hold exactly the elements of `s`.
    pub proof fn lemma_key_bag(&self, q: int, s: Seq<u32>, ks: Seq<u32>)
        requires
            ks.no_duplicates(),
            forall|e: int| 0 <= e < s.len() ==> ks.contains(self.dist(q, #[trigger] s[e] as int)),
        ensures
            self.key_bag(q, s, ks) == s.to_multiset(),
        decreases s.len(),
    {
        broadcast use vstd::multiset::group_multiset_axioms;

        if s.len() == 0 {
            self.lemma_key_bag_empty(q, s, ks);
            lemma_empty_bag(s);
        } else {
            let init = s.drop_last();
            assert(init.push(s.last()) == s);
            assert forall|e: int| 0 <= e < init.len() implies ks.contains(
                self.dist(q, #[trigger] init[e] as int),
            ) by {
                assert(init[e] == s[e]);
            }
            self.lemma_key_bag(q, init, ks);
            self.lemma_key_bag_push(q, init, s.last(), ks);
            assert(s.last() == s[s.len() - 1]);
            vstd::seq_lib::to_multiset_build(init, s.last());
        }
    }

    /// Over an empty sequence every group is empty.
    pub proof fn lemma_key_bag_empty(&self, q: int, s: Seq<u32>, ks: Seq<u32>)
        requires
            s.len() == 0,
        ensures
            self.key_bag(q, s, ks) == Multiset::<u32>::empty(),
        decreases ks.len(),
    {
        broadcast use vstd::multiset::group_multiset_axioms;

        if ks.len() > 0 {
            self.lemma_key_bag_empty(q, s, ks.drop_first());
            lemma_empty_bag(self.rev_group(q, s, ks[0]));
            assert(self.key_bag(q, s, ks) =~= Multiset::empty());
        }
    }

    /// Groups that each are the group of their own distance hold, together,
    /// the elements of `s` at their distances.
    pub proof fn lemma_flatten_key_bag(&self, q: int, s: Seq<u32>, gs: Seq<Seq<u32>>)
        requires
            forall|i: int|
                0 <= i < gs.len() ==> #[trigger] gs[i] == self.rev_group(
                    q,
                    s,
                    self.dist(q, gs[i][0] as int),
                ),
        ensures
            gs.flatten().to_multiset() == self.key_bag(q, s, self.group_keys(q, gs)),
        decreases gs.len(),
    {
        broadcast use vstd::multiset::group_multiset_axioms;

        if gs.len() == 0 {
            lemma_empty_bag(gs.flatten());
        } else {
            let rest = gs.drop_first();
            assert forall|i: int| 0 <= i < rest.len() implies #[trigger] rest[i] == self.rev_group(
                q,
                s,
                self.dist(q, rest[i][0] as int),
            ) by {
                assert(rest[i] == gs[i + 1]);
            }
            self.lemma_flatten_key_bag(q, s, rest);
            assert(self.group_keys(q, gs).drop_first() =~= self.group_keys(q, rest));
            assert(gs[0] == self.rev_group(q, s, self.dist(q, gs[0][0] as int)));
            lemma_multiset_commutative(gs[0], rest.flatten());
        }
    }

    /// The groups of a refinement hold exactly the elements of the refined
    /// sequence.
    pub proof fn lemma_refinement_bag(&self, q: int, s: Seq<u32>, gs: Seq<Seq<u32>>)
        requires
            self.is_refinement(q, s, gs),
        ensures
            gs.flatten().to_multiset() == s.to_multiset(),
    {
        let ks = self.group_keys(q, gs);
        assert(ks.no_duplicates()) by {
            assert forall|a: int, b: int| 0 <= a < ks.len() && 0 <= b < ks.len() && a != b implies ks[a]
                != ks[b] by {
                if a < b {
                    assert(self.dist(q, gs[a][0] as int) < self.dist(q, gs[b][0] as int));
                } else {
                    assert(self.dist(q, gs[b][0] as int) < self.dist(q, gs[a][0] as int));
                }
            }
        }
        assert forall|e: int| 0 <= e < s.len() implies ks.contains(self.dist(q, #[trigger] s[e] as int)) by {
            assert(self.has_group(q, gs, self.dist(q, s[e] as int)));
            let i = choose|i: int| 0 <= i < gs.len() && self.dist(q, #[trigger] gs[i][0] as int) == self.dist(
                q,
                s[e] as int,
            );
            assert(ks[i] == self.dist(q, s[e] as int));
        }
        self.lemma_key_bag(q, s, ks);
        self.lemma_flatten_key_bag(q, s, gs);
    }

    /// Elements of the groups of `gs` name elements when those of each group do.
    pub proof fn lemma_flatten_elems(&self, gs: Seq<Seq<u32>>)
        requires
            forall|i: int| 0 <= i < gs.len() ==> self.all_elems(#[trigger] gs[i]),
        ensures
            self.all_elems(gs.flatten()),
        decreases gs.len(),
    {
        if gs.len() > 0 {
            let rest = gs.drop_first();
            assert forall|i: int| 0 <= i < rest.len() implies self.all_elems(#[trigger] rest[i]) by {
                assert(rest[i] == gs[i + 1]);
            }
            self.lemma_flatten_elems(rest);
            assert(self.all_elems(gs[0]));
            let f = gs.flatten();
            assert(f == gs[0] + rest.flatten());
            assert forall|k: int| 0 <= k < f.len() implies self.dist.is_elem(#[trigger] f[k] as int) by {
                if k >= gs[0].len() {
                    assert(f[k] == rest.flatten()[k - gs[0].len()]);
                }
            }
        }
    }

}

/// The anchors and members of a sequence of copoints.
pub open spec fn cp_views(v: Seq<VecPoint>) -> Seq<(u32, Seq<u32>)> {
    v.map_values(|c: VecPoint| (c.point, c.vec@))
}

/// A copoint whose anchor and members are elements drawn from `x`.
pub open spec fn copoint_ok(rob: &Robin, c: VecPoint, x: Seq<u32>) -> bool {
    &&& rob.dist.is_elem(c.point as int)
    &&& rob.all_elems(c.vec@)
    &&& x.contains(c.point)
    &&& drawn_from(c.vec@, x)
}

/// Values drawn from a sequence of elements are elements.
pub proof fn lemma_drawn_elems(rob: &Robin, s: Seq<u32>, x: Seq<u32>)
    requires
        drawn_from(s, x),
        rob.all_elems(x),
    ensures
        rob.all_elems(s),
{
    assert forall|k: int| 0 <= k < s.len() implies rob.dist.is_elem(#[trigger] s[k] as int) by {
        assert(x.contains(s[k]));
        let w = choose|w: int| 0 <= w < x.len() && x[w] == s[k];
        assert(rob.dist.is_elem(x[w] as int));
    }
}

} // verus!
