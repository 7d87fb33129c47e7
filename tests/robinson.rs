use robinson_mmodules::func::{get_empty_distance_matrice, max};
use robinson_mmodules::{DistanceMatrice, Robin};

#[test]
fn test_is_robinson_true() {
    let dist_mat = DistanceMatrice {
        distance_mat: vec![
            vec![0, 1, 2, 4],
            vec![0, 0, 2, 3],
            vec![0, 0, 0, 1],
            vec![0, 0, 0, 0],
        ],
    };
    assert!(dist_mat.is_robinson());
}

#[test]
fn test_refine() {
    let mat = vec![
        vec![0, 1, 2, 1],
        vec![0, 0, 2, 3],
        vec![0, 0, 0, 1],
        vec![0, 0, 0, 0],
    ];

    let rob = Robin::new(mat).unwrap();

    assert_eq!(rob.refine(1, vec![2, 3, 4]), vec![vec![4, 2], vec![3]]);
}

#[test]
fn test_recursive_refine() {
    let mat = vec![
        vec![0, 1, 1, 1],
        vec![0, 0, 2, 3],
        vec![0, 0, 0, 1],
        vec![0, 0, 0, 0],
    ];

    let rob = Robin::new(mat).unwrap();

    assert_eq!(
        rob.recursive_refine(1, vec![1], vec![4, 3, 2], vec![]),
        vec![vec![2, 3, 4]]
    );
}

#[test]
fn test_d() {
    let dist_mat = DistanceMatrice {
        distance_mat: vec![
            vec![0, 1, 2, 4],
            vec![0, 0, 3, 3],
            vec![0, 0, 0, 1],
            vec![0, 0, 0, 0],
        ],
    };

    assert_eq!(dist_mat.d(1, 3), 2);
    assert_eq!(dist_mat.d(3, 1), 2);
}

#[test]
fn test_permut_matrice() {
    let dist_mat = DistanceMatrice {
        distance_mat: vec![
            vec![0, 2, 2, 3, 4],
            vec![0, 0, 1, 1, 3],
            vec![0, 0, 0, 1, 2],
            vec![0, 0, 0, 0, 1],
            vec![0, 0, 0, 0, 0],
        ],
    };

    assert_eq!(
        dist_mat.permut_matrice(&vec![4, 5, 3, 2, 1]).distance_mat,
        vec![
            vec![0, 1, 1, 1, 3],
            vec![0, 0, 2, 3, 4],
            vec![0, 0, 0, 1, 2],
            vec![0, 0, 0, 0, 2],
            vec![0, 0, 0, 0, 0]
        ]
    )
}

#[test]
fn test_is_robinson_false() {
    let dist_mat = DistanceMatrice {
        distance_mat: vec![
            vec![0, 1, 2, 4],
            vec![0, 0, 3, 3],
            vec![0, 0, 0, 1],
            vec![0, 0, 0, 0],
        ],
    };
    assert!(!dist_mat.is_robinson());
}

#[test]
fn test_get_empty_distance_matrice() {
    assert_eq!(
        get_empty_distance_matrice(3),
        vec![vec![0, 0, 0], vec![0, 0, 0], vec![0, 0, 0]]
    );
}

#[test]
fn test_max() {
    assert_eq!(max(32, 326), 326);
}
