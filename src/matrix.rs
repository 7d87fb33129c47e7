use vstd::prelude::*;

use crate::func::max;

verus! {

/// A square matrix of dissimilarities between the elements `1..=n`.
///
/// Only the upper triangle is read: the distance between `a` and `b` is the
/// entry at row `min(a, b)` and column `max(a, b)` (both counted from 1).
pub struct DistanceMatrice {
    pub distance_mat: Vec<Vec<u32>>,
}

/// Whether every row of `m` is as long as `m` has rows.
pub open spec fn is_square(m: Seq<Vec<u32>>) -> bool {
    forall|i: int| 0 <= i < m.len() ==> #[trigger] m[i]@.len() == m.len()
}

/// The larger of two values.
pub open spec fn max_of(x: u32, y: u32) -> u32 {
    if x >= y {
        x
    } else {
        y
    }
}

impl DistanceMatrice {
    /// The number of elements.
    pub open spec fn size(&self) -> nat {
        self.distance_mat@.len()
    }

    /// The matrix is square.
    pub open spec fn wf(&self) -> bool {
        is_square(self.distance_mat@)
    }

    /// The entry at row `i` and column `j`, both counted from 0.
    pub open spec fn entry(&self, i: int, j: int) -> u32 {
        self.distance_mat@[i]@[j]
    }

    /// The distance between elements `a` and `b`, counted from 1.
    pub open spec fn dist(&self, a: int, b: int) -> u32 {
        if a <= b {
            self.entry(a - 1, b - 1)
        } else {
            self.entry(b - 1, a - 1)
        }
    }

    /// `a` names an element of the matrix.
    pub open spec fn is_elem(&self, a: int) -> bool {
        1 <= a <= self.size()
    }

    /// Every value of `s` names an element of the matrix.
    pub open spec fn all_elems(&self, s: Seq<u32>) -> bool {
        forall|k: int| 0 <= k < s.len() ==> self.is_elem(#[trigger] s[k] as int)
    }

    /// The Robinson condition on the pair of positions `(i, j)`.
    pub open spec fn robinson_at(&self, i: int, j: int) -> bool {
        self.dist(i, j) >= max_of(self.dist(i + 1, j), self.dist(i, j - 1))
    }

    /// In the matrix's own order, no distance exceeds that of a pair that
    /// encloses it.
    pub open spec fn robinson(&self) -> bool {
        forall|i: int, j: int| 1 <= i < j <= self.size() ==> #[trigger] self.robinson_at(i, j)
    }

    /// The matrix reordered by `p`: position `(i, j)` with `i <= j` holds the
    /// distance between `p[i]` and `p[j]`, the lower triangle holds zeros.
    pub open spec fn permuted_entry(&self, p: Seq<u32>, i: int, j: int) -> u32 {
        if i <= j {
            self.dist(p[i] as int, p[j] as int)
        } else {
            0
        }
    }

    /// The matrix is Robinson under the order `p`: `p` lists every position,
    /// each naming an element, and the distances between the elements that `p`
    /// puts at positions `i <= j` (counted from 1) satisfy the Robinson
    /// condition, the lower triangle of the reordered matrix holding zeros.
    pub open spec fn robinson_under(&self, p: Seq<u32>) -> bool {
        &&& p.len() == self.size()
        &&& self.all_elems(p)
        &&& forall|i: int, j: int|
            1 <= i < j <= self.size() ==> #[trigger] self.permuted_entry(p, i - 1, j - 1)
                >= max_of(self.permuted_pair(p, i + 1, j), self.permuted_pair(p, i, j - 1))
    }

    /// The distance at positions `i` and `j` (counted from 1) of the matrix
    /// reordered by `p`, read as `DistanceMatrice::dist` reads it.
    pub open spec fn permuted_pair(&self, p: Seq<u32>, i: int, j: int) -> u32 {
        if i <= j {
            self.permuted_entry(p, i - 1, j - 1)
        } else {
            self.permuted_entry(p, j - 1, i - 1)
        }
    }

    /// The distance between elements `a` and `b`, for indices counted from 1.
    fn lookup(&self, a: usize, b: usize) -> (r: u32)
        requires
            self.wf(),
            self.is_elem(a as int),
            self.is_elem(b as int),
        ensures
            r == self.dist(a as int, b as int),
    {
        if a <= b {
            self.distance_mat[a - 1][b - 1]
        } else {
            self.distance_mat[b - 1][a - 1]
        }
    }

    /// The distance between elements `q` and `x`, whichever comes first.
    pub fn d(&self, q: u32, x: u32) -> (r: u32)
        requires
            self.wf(),
            self.is_elem(q as int),
            self.is_elem(x as int),
        ensures
            r == self.dist(q as int, x as int),
    {
        self.lookup(q as usize, x as usize)
    }

    /// A new matrix whose element `i` is element `permut[i]` of this one.
    pub fn permut_matrice(&self, permut: &Vec<u32>) -> (r: DistanceMatrice)
        requires
            self.wf(),
            permut@.len() == self.size(),
            self.all_elems(permut@),
        ensures
            r.wf(),
            r.size() == self.size(),
            forall|i: int, j: int|
                0 <= i < self.size() && 0 <= j < self.size() ==> #[trigger] r.entry(i, j)
                    == self.permuted_entry(permut@, i, j),
    {
        let n = self.distance_mat.len();
        let mut new_matrice: Vec<Vec<u32>> = Vec::new();
        let mut i: usize = 0;
        while i < n
            invariant
                self.wf(),
                n == self.size(),
                permut@.len() == n,
                self.all_elems(permut@),
                i <= n,
                new_matrice@.len() == i,
                forall|k: int| 0 <= k < i ==> #[trigger] new_matrice@[k]@.len() == n,
                forall|a: int, b: int|
                    0 <= a < i && 0 <= b < n ==> #[trigger] new_matrice@[a]@[b]
                        == self.permuted_entry(permut@, a, b),
            decreases n - i,
        {
            let mut row: Vec<u32> = Vec::new();
            let mut j: usize = 0;
            while j < n
                invariant
                    self.wf(),
                    n == self.size(),
                    permut@.len() == n,
                    self.all_elems(permut@),
                    i < n,
                    j <= n,
                    row@.len() == j,
                    forall|b: int| 0 <= b < j ==> #[trigger] row@[b] == self.permuted_entry(
                        permut@,
                        i as int,
                        b,
                    ),
                decreases n - j,
            {
                if j < i {
                    row.push(0);
                } else {
                    let v = self.lookup(permut[i] as usize, permut[j] as usize);
                    row.push(v);
                }
                j = j + 1;
            }
            new_matrice.push(row);
            i = i + 1;
        }
        DistanceMatrice { distance_mat: new_matrice }
    }

    /// Whether the matrix is Robinson in its own order.
    pub fn is_robinson(&self) -> (r: bool)
        requires
            self.wf(),
        ensures
            r == self.robinson(),
    {
        let n = self.distance_mat.len();
        let mut i: usize = 1;
        while i < n
            invariant
                self.wf(),
                n == self.size(),
                1 <= i,
                i <= n || n == 0,
                forall|a: int, b: int| 1 <= a < i && a < b <= n ==> #[trigger] self.robinson_at(a, b),
            decreases n - i,
        {
            let mut k: usize = i;
            while k < n
                invariant
                    self.wf(),
                    n == self.size(),
                    1 <= i < n,
                    i <= k <= n,
                    forall|a: int, b: int| 1 <= a < i && a < b <= n ==> #[trigger] self.robinson_at(a, b),
                    forall|b: int| i < b <= k ==> #[trigger] self.robinson_at(i as int, b),
                decreases n - k,
            {
                let j = k + 1;
                if self.lookup(i, j) < max(self.lookup(i + 1, j), self.lookup(i, j - 1)) {
                    assert(!self.robinson_at(i as int, j as int));
                    return false;
                }
                k = k + 1;
            }
            i = i + 1;
        }
        true
    }
}

/// Reordering then reading position `(i, j)`, for `i <= j`, gives the
/// distance between the elements that the permutation puts there.
pub proof fn lemma_permuted_lookup(t: DistanceMatrice, p: Seq<u32>, r: DistanceMatrice, i: int, j: int)
    requires
        t.wf(),
        p.len() == t.size(),
        t.all_elems(p),
        r.wf(),
        r.size() == t.size(),
        forall|a: int, b: int|
            0 <= a < t.size() && 0 <= b < t.size() ==> #[trigger] r.entry(a, b)
                == t.permuted_entry(p, a, b),
        1 <= i <= j <= t.size(),
    ensures
        r.dist(i, j) == t.dist(p[i - 1] as int, p[j - 1] as int),
{
    assert(r.entry(i - 1, j - 1) == t.permuted_entry(p, i - 1, j - 1));
}

/// Checking the reordered matrix gives the Robinson condition stated directly
/// on the original distances that the reordering puts in place.
pub proof fn lemma_robinson_reordered(t: DistanceMatrice, p: Seq<u32>, r: DistanceMatrice)
    requires
        t.wf(),
        p.len() == t.size(),
        t.all_elems(p),
        r.wf(),
        r.size() == t.size(),
        forall|a: int, b: int|
            0 <= a < t.size() && 0 <= b < t.size() ==> #[trigger] r.entry(a, b)
                == t.permuted_entry(p, a, b),
    ensures
        r.robinson() == t.robinson_under(p),
{
    let n = t.size() as int;
    assert forall|i: int, j: int| 1 <= i < j <= n implies #[trigger] r.robinson_at(i, j) == (
    t.permuted_entry(p, i - 1, j - 1) >= max_of(
        t.permuted_pair(p, i + 1, j),
        t.permuted_pair(p, i, j - 1),
    )) by {
        assert(r.entry(i - 1, j - 1) == t.permuted_entry(p, i - 1, j - 1));
        assert(r.dist(i + 1, j) == t.permuted_pair(p, i + 1, j));
        assert(r.dist(i, j - 1) == t.permuted_pair(p, i, j - 1));
    }
    if r.robinson() {
        assert forall|i: int, j: int| 1 <= i < j <= n implies #[trigger] t.permuted_entry(
            p,
            i - 1,
            j - 1,
        ) >= max_of(t.permuted_pair(p, i + 1, j), t.permuted_pair(p, i, j - 1)) by {
            assert(r.robinson_at(i, j));
        }
    }
    if t.robinson_under(p) {
        assert forall|i: int, j: int| 1 <= i < j <= n implies #[trigger] r.robinson_at(i, j) by {
            assert(t.permuted_entry(p, i - 1, j - 1) >= max_of(
                t.permuted_pair(p, i + 1, j),
                t.permuted_pair(p, i, j - 1),
            ));
        }
    }
}

} // verus!
