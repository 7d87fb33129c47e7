use robinson_mmodules::func::{concatenate, get_index, max};
use robinson_mmodules::{DistanceMatrice, Robin, RobinError};

fn robinson_five() -> Vec<Vec<u32>> {
    vec![
        vec![0, 1, 2, 3, 4],
        vec![0, 0, 1, 2, 3],
        vec![0, 0, 0, 1, 2],
        vec![0, 0, 0, 0, 2],
        vec![0, 0, 0, 0, 0],
    ]
}

fn shuffled(mat: Vec<Vec<u32>>, permut: &Vec<u32>) -> Vec<Vec<u32>> {
    DistanceMatrice { distance_mat: mat }
        .permut_matrice(permut)
        .distance_mat
}

#[test]
fn new_rejects_rows_of_unequal_length() {
    let r = Robin::new(vec![vec![0, 1, 2], vec![0, 0], vec![0, 0, 0]]);
    assert!(matches!(r, Err(RobinError::InvalidShape)));
}

#[test]
fn new_rejects_rectangular_matrix() {
    let r = Robin::new(vec![vec![0, 1, 2], vec![0, 0, 1]]);
    assert!(matches!(r, Err(RobinError::InvalidShape)));
}

#[test]
fn new_accepts_empty_and_square_matrices() {
    let empty = Robin::new(vec![]).unwrap();
    assert_eq!(empty.dist.distance_mat.len(), 0);
    assert!(empty.solved_permut.is_none());
    let square = Robin::new(robinson_five()).unwrap();
    assert_eq!(square.dist.distance_mat, robinson_five());
}

#[test]
fn resolve_recognises_a_shuffled_robinson_matrix() {
    let mat = shuffled(robinson_five(), &vec![3, 1, 5, 2, 4]);
    let mut robin = Robin::new(mat).unwrap();
    assert!(robin.resolve_robin());
    let permut = robin.solved_permut.clone().unwrap();
    assert_eq!(permut.len(), 5);
    let mut sorted = permut.clone();
    sorted.sort();
    assert_eq!(sorted, vec![1, 2, 3, 4, 5]);
    assert!(robin.dist.permut_matrice(&permut).is_robinson());
}

#[test]
fn resolve_recognises_another_shuffle() {
    let mat = shuffled(robinson_five(), &vec![5, 4, 1, 3, 2]);
    let mut robin = Robin::new(mat).unwrap();
    assert!(robin.resolve_robin());
    let permut = robin.solved_permut.clone().unwrap();
    assert!(robin.dist.permut_matrice(&permut).is_robinson());
}

#[test]
fn resolve_reports_the_check_on_its_own_candidate() {
    let mat = vec![
        vec![0, 1, 2, 4],
        vec![0, 0, 3, 3],
        vec![0, 0, 0, 1],
        vec![0, 0, 0, 0],
    ];
    let mut robin = Robin::new(mat).unwrap();
    let found = robin.resolve_robin();
    let permut = robin.solved_permut.clone().unwrap();
    let expected = permut.len() == 4 && robin.dist.permut_matrice(&permut).is_robinson();
    assert_eq!(found, expected);
}

#[test]
fn resolve_twice_gives_the_same_result() {
    let mat = shuffled(robinson_five(), &vec![2, 5, 1, 4, 3]);
    let mut robin = Robin::new(mat).unwrap();
    let first = robin.resolve_robin();
    let first_permut = robin.solved_permut.clone();
    let second = robin.resolve_robin();
    assert_eq!(first, second);
    assert_eq!(first_permut, robin.solved_permut);
}

#[test]
fn resolve_on_empty_and_single_matrices() {
    let mut empty = Robin::new(vec![]).unwrap();
    assert!(empty.resolve_robin());
    assert_eq!(empty.solved_permut, Some(vec![]));
    let mut single = Robin::new(vec![vec![0]]).unwrap();
    assert!(single.resolve_robin());
    assert_eq!(single.solved_permut, Some(vec![1]));
}

#[test]
fn reorder_reads_the_original_distances() {
    let t = DistanceMatrice { distance_mat: robinson_five() };
    let p = vec![4, 2, 5, 1, 3];
    let r = t.permut_matrice(&p);
    for i in 1..=5u32 {
        for j in i..=5u32 {
            assert_eq!(r.d(i, j), t.d(p[(i - 1) as usize], p[(j - 1) as usize]));
        }
    }
    assert_eq!(r.distance_mat[3][1], 0);
}

#[test]
fn refine_groups_by_increasing_distance() {
    let rob = Robin::new(robinson_five()).unwrap();
    assert_eq!(rob.refine(3, vec![1, 2, 4, 5]), vec![vec![4, 2], vec![5, 1]]);
    assert_eq!(rob.refine(1, vec![]), Vec::<Vec<u32>>::new());
}

#[test]
fn separate_keeps_a_close_block_whole() {
    let rob = Robin::new(robinson_five()).unwrap();
    let r = rob.separate_if_separable(1, vec![2, 3]).unwrap();
    assert_eq!(r.len(), 1);
    assert_eq!(r[0].point, 2);
    assert_eq!(r[0].vec, vec![2, 3]);
    assert_eq!(rob.separate_if_separable(1, vec![]).unwrap().len(), 0);
}

#[test]
fn separate_cuts_a_wide_block() {
    let mat = vec![
        vec![0, 1, 1, 1],
        vec![0, 0, 1, 3],
        vec![0, 0, 0, 1],
        vec![0, 0, 0, 0],
    ];
    let rob = Robin::new(mat).unwrap();
    let r = rob.separate_if_separable(1, vec![2, 3, 4]).unwrap();
    assert_eq!(r.len(), 2);
    assert_eq!((r[0].point, r[0].vec.clone()), (2, vec![2]));
    assert_eq!((r[1].point, r[1].vec.clone()), (4, vec![3, 4]));
}

#[test]
fn separate_fails_without_a_cut() {
    let mat = vec![
        vec![0, 1, 1, 1],
        vec![0, 0, 2, 3],
        vec![0, 0, 0, 2],
        vec![0, 0, 0, 0],
    ];
    let rob = Robin::new(mat).unwrap();
    assert!(rob.separate_if_separable(1, vec![2, 3, 4]).is_none());
}

#[test]
fn sort_by_bipartition_places_the_pivot_between_sides() {
    let rob = Robin::new(robinson_five()).unwrap();
    let r = rob.sort_by_bipartition(3, vec![1, 5]);
    assert_eq!(r, vec![1, 3, 5]);
}

#[test]
fn find_compatible_order_of_nothing_is_empty() {
    let rob = Robin::new(robinson_five()).unwrap();
    assert_eq!(rob.find_compatible_order(vec![]), Vec::<u32>::new());
}

#[test]
fn helpers_compute_exact_values() {
    assert_eq!(max(7, 3), 7);
    assert_eq!(max(4, 4), 4);
    assert_eq!(concatenate(vec![1, 2], &vec![3]), vec![1, 2, 3]);
    assert_eq!(get_index(&vec![5, 6, 6], 6), Some(1));
    assert_eq!(get_index(&vec![5, 6], 9), None);
}

fn five_by_five() -> Vec<Vec<u32>> {
    vec![
        vec![0, 1, 1, 1, 3],
        vec![0, 0, 2, 3, 4],
        vec![0, 0, 0, 1, 2],
        vec![0, 0, 0, 0, 2],
        vec![0, 0, 0, 0, 0],
    ]
}

#[test]
fn recursive_refine_follows_out_pivots() {
    let rob = Robin::new(five_by_five()).unwrap();
    assert_eq!(
        rob.recursive_refine(1, vec![1], vec![2, 3, 4, 5], vec![]),
        vec![vec![3], vec![4], vec![2], vec![5]]
    );
}

#[test]
fn sort_by_bipartition_example() {
    let rob = Robin::new(five_by_five()).unwrap();
    assert_eq!(rob.sort_by_bipartition(1, vec![3, 4, 2, 5]), vec![2, 1, 3, 4, 5]);
    assert_eq!(rob.sort_by_bipartition(1, vec![]), vec![1]);
    assert_eq!(rob.sort_by_bipartition(1, vec![4]), vec![1, 4]);
}

#[test]
fn find_compatible_order_example() {
    let rob = Robin::new(five_by_five()).unwrap();
    assert_eq!(rob.find_compatible_order(vec![1, 2, 3, 4, 5]), vec![2, 1, 3, 4, 5]);
    assert_eq!(rob.find_compatible_order(vec![3]), vec![3]);
}

#[test]
fn resolve_example_stores_the_traced_candidate() {
    let mut robin = Robin::new(five_by_five()).unwrap();
    assert!(robin.resolve_robin());
    assert_eq!(robin.solved_permut, Some(vec![2, 1, 3, 4, 5]));
}
