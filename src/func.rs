use vstd::prelude::*;

verus! {

/// The larger of two values.
pub fn max(x: u32, y: u32) -> (r: u32)
    ensures
        r == if x >= y { x } else { y },
{
    if x >= y {
        x
    } else {
        y
    }
}

/// The elements of `list_1` followed by those of `list_2`.
pub fn concatenate(list_1: Vec<u32>, list_2: &Vec<u32>) -> (r: Vec<u32>)
    ensures
        r@ == list_1@ + list_2@,
{
    let mut new_list: Vec<u32> = list_1;
    let mut i: usize = 0;
    while i < list_2.len()
        invariant
            i <= list_2.len(),
            new_list@ == list_1@ + list_2@.take(i as int),
        decreases list_2.len() - i,
    {
        new_list.push(list_2[i]);
        i = i + 1;
        assert(list_2@.take(i as int) == list_2@.take(i - 1) + seq![list_2@[i - 1]]);
    }
    assert(list_2@.take(i as int) == list_2@);
    new_list
}

/// An `n` by `n` matrix of zeros.
pub fn get_empty_distance_matrice(n: u32) -> (r: Vec<Vec<u32>>)
    ensures
        r@.len() == n,
        forall|i: int| 0 <= i < n ==> #[trigger] r@[i]@ == Seq::new(n as nat, |j: int| 0u32),
{
    let mut empty_line: Vec<u32> = Vec::new();
    let mut j: u32 = 0;
    while j < n
        invariant
            j <= n,
            empty_line@ == Seq::new(j as nat, |k: int| 0u32),
        decreases n - j,
    {
        empty_line.push(0);
        j = j + 1;
        assert(empty_line@ =~= Seq::new(j as nat, |k: int| 0u32));
    }
    let mut matrice: Vec<Vec<u32>> = Vec::new();
    let mut i: u32 = 0;
    while i < n
        invariant
            i <= n,
            empty_line@ == Seq::new(n as nat, |k: int| 0u32),
            matrice@.len() == i,
            forall|k: int| 0 <= k < i ==> #[trigger] matrice@[k]@ == Seq::new(n as nat, |j: int| 0u32),
        decreases n - i,
    {
        matrice.push(empty_line.clone());
        i = i + 1;
    }
    matrice
}

/// The position of the first occurrence of `x` in `vec`, if any.
pub fn get_index(vec: &Vec<u32>, x: u32) -> (r: Option<usize>)
    ensures
        r is None <==> !vec@.contains(x),
        r matches Some(i) ==> i < vec@.len() && vec@[i as int] == x && forall|k: int|
            0 <= k < i ==> vec@[k] != x,
{
    let mut i: usize = 0;
    while i < vec.len()
        invariant
            i <= vec.len(),
            forall|k: int| 0 <= k < i ==> vec@[k] != x,
        decreases vec.len() - i,
    {
        if vec[i] == x {
            return Some(i);
        }
        i = i + 1;
    }
    None
}

} // verus!
