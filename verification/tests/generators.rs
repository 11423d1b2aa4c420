use latin_structures::LatinSquare;
use latin_structures::PartialLatinSquare;
use latin_structures::factorial;
use latin_structures::generate_all_associativity_triplets;
use latin_structures::generate_all_groups;
use latin_structures::generate_all_groups_new;
use latin_structures::generate_all_permutations;
use latin_structures::generate_all_sudocurity_groups;
use latin_structures::generate_all_sudocurity_groups_new;
use latin_structures::generate_sudocurity_permutations;
use latin_structures::group_add_new;
use latin_structures::is_group_associative;
use latin_structures::latin_square_recursion;
use latin_structures::swap_rows_and_columns;

#[test]
fn test_compare_all_group_generation_old_and_new() {
    let n = 6;

    let groups_old = generate_all_groups(n);
    let groups_new = generate_all_groups_new(n);

    assert_eq!(groups_old, groups_new);
}

#[test]
fn test_compare_sudocurity_group_generation_old_and_new() {
    let n = 6;

    let groups_old = generate_all_sudocurity_groups(n);
    let groups_new = generate_all_sudocurity_groups_new(n);

    assert_eq!(groups_old, groups_new);
}

#[test]
fn generators_agree_on_small_orders() {
    for n in 1..=5 {
        assert_eq!(generate_all_groups(n), generate_all_groups_new(n));
        assert_eq!(
            generate_all_sudocurity_groups(n),
            generate_all_sudocurity_groups_new(n)
        );
    }
}

#[test]
fn trivial_order_yields_one_table() {
    assert_eq!(generate_all_groups(1), vec![vec![vec![0]]]);
    assert_eq!(generate_all_groups_new(1), vec![vec![vec![0]]]);
    assert_eq!(generate_all_sudocurity_groups_new(1), vec![vec![vec![0]]]);
}

#[test]
fn order_three_group_tables() {
    // The symmetric associative Latin squares of order 3 are the three
    // relabelings of the cyclic group table.
    let groups = generate_all_groups_new(3);
    assert_eq!(groups.len(), 3);
    for g in &groups {
        assert!(is_group_associative(g));
    }
    // In triangular storage: rows of the table 012/120/201 read [0,1,2],[2,0],[1].
    assert!(groups.contains(&vec![vec![0, 1, 2], vec![2, 0], vec![1]]));
}

#[test]
fn latin_square_generation_counts() {
    assert_eq!(LatinSquare::generate_all(0).len(), 0);
    // Order 1 yields exactly the one trivial square.
    assert_eq!(
        LatinSquare::generate_all(1),
        vec![LatinSquare(vec![vec![0]])]
    );
    assert_eq!(LatinSquare::generate_all(2).len(), 2);
    assert_eq!(LatinSquare::generate_all(3).len(), 12);
    assert_eq!(LatinSquare::generate_all(4).len(), 576);
}

#[test]
fn permutation_generation_is_lexicographic() {
    let perms = generate_all_permutations(3);
    assert_eq!(
        perms,
        vec![
            vec![0, 1, 2],
            vec![0, 2, 1],
            vec![1, 0, 2],
            vec![1, 2, 0],
            vec![2, 0, 1],
            vec![2, 1, 0],
        ]
    );
    assert_eq!(generate_all_permutations(4).len(), 24);
}

#[test]
fn sudocurity_permutations_fix_zero() {
    let perms = generate_sudocurity_permutations(3);
    assert_eq!(perms, vec![vec![0, 1, 2], vec![0, 2, 1]]);
    for p in generate_sudocurity_permutations(4) {
        assert_eq!(p[0], 0);
    }
    assert_eq!(generate_sudocurity_permutations(4).len(), 6);
}

#[test]
fn factorial_values() {
    assert_eq!(factorial(0), 1);
    assert_eq!(factorial(1), 1);
    assert_eq!(factorial(5), 120);
    assert_eq!(factorial(10), 3628800);
}

#[test]
fn associativity_triplets_for_order_three() {
    let unrestricted = generate_all_associativity_triplets(3, false);
    assert_eq!(
        unrestricted,
        vec![[0, 0, 1], [0, 0, 2], [0, 1, 1], [0, 1, 2], [0, 2, 2], [1, 1, 2], [1, 2, 2]]
    );
    let zero_identity = generate_all_associativity_triplets(3, true);
    assert_eq!(zero_identity, vec![[1, 1, 2], [1, 2, 2]]);
}

#[test]
fn group_add_reads_partial_tables() {
    // One complete row and one single cell of an order-3 table.
    let partial = vec![vec![0, 1, 2], vec![2]];
    assert_eq!(group_add_new(&partial, &0, &2), Some(2));
    assert_eq!(group_add_new(&partial, &2, &0), Some(2));
    assert_eq!(group_add_new(&partial, &1, &1), Some(2));
    // The cell 1*2 is not filled yet.
    assert_eq!(group_add_new(&partial, &1, &2), None);
    // Row 2 does not exist yet.
    assert_eq!(group_add_new(&partial, &2, &2), None);
}

#[test]
fn generated_tables_are_in_ascending_order() {
    // The contracts pin the output order: strictly increasing, row-major
    // over the stored rows.
    let groups = generate_all_groups_new(4);
    for w in groups.windows(2) {
        assert!(w[0] < w[1]);
    }
    let fixed = generate_all_sudocurity_groups(5);
    for w in fixed.windows(2) {
        assert!(w[0] < w[1]);
    }
}

#[test]
fn associativity_check_on_concrete_tables() {
    // The cyclic table passes its obligation list.
    assert!(is_group_associative(&vec![vec![0, 1, 2], vec![2, 0], vec![1]]));
    // A commutative quasigroup without associativity fails it.
    assert!(!is_group_associative(&vec![vec![0, 2, 1], vec![1, 0], vec![2]]));
}

#[test]
fn swapping_rows_and_columns_relabels_positions() {
    // Exchanging the labels 1 and 2 of the cyclic table's positions, without
    // relabeling the values.
    let mut t = vec![vec![0, 1, 2], vec![2, 0], vec![1]];
    swap_rows_and_columns(&mut t, 1, 2);
    assert_eq!(t, vec![vec![0, 2, 1], vec![1, 0], vec![2]]);
}

#[test]
fn latin_square_recursion_completes_a_prefix() {
    let result = latin_square_recursion(2, PartialLatinSquare(vec![vec![0]]));
    assert_eq!(result.len(), 1);
    assert_eq!(result[0], LatinSquare(vec![vec![0, 1], vec![1, 0]]));
}
