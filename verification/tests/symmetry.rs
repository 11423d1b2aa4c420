use latin_structures::LatinSquare;
use latin_structures::LatinStructure;
use latin_structures::Permutation;
use latin_structures::apply_permutation_to_group;
use latin_structures::classify_all_latin_squares;
use latin_structures::compose_affine_permutation;
use latin_structures::generate_all_groups_new;
use latin_structures::generate_all_permutations;
use latin_structures::generate_all_sudocurity_groups_new;
use latin_structures::generate_sudocurity_permutations;

fn mod3_table() -> LatinSquare {
    LatinSquare(vec![vec![0, 1, 2], vec![1, 2, 0], vec![2, 0, 1]])
}

#[test]
fn test_apply_permutation_to_group() {
    let table = generate_all_sudocurity_groups_new(5);

    let permutation = vec![0, 2, 3, 4, 1];

    let new_t = apply_permutation_to_group(&table[3], &permutation);

    assert_eq!(new_t, table[2]);
}

#[test]
fn test_apply_permutation_to_group_2() {
    let n = 7;

    let groups = generate_all_sudocurity_groups_new(n);
    let permutations = generate_sudocurity_permutations(n);

    for p in permutations.iter() {
        for g in &groups {
            let test = apply_permutation_to_group(g, p);

            assert!(groups.contains(&test))
        }
    }
}

#[test]
fn swapping_one_and_two_fixes_the_mod3_table() {
    // The relabeling exchanging 1 and 2 is the negation map, an
    // automorphism of the cyclic group of order 3: conjugation returns the
    // very same table.
    let mut square = mod3_table();
    square.apply_permutation(Permutation(vec![0, 2, 1]));
    assert_eq!(square, mod3_table());
}

#[test]
fn conjugating_by_the_identity_changes_nothing() {
    for square in LatinSquare::generate_all(4) {
        let mut conjugated = LatinSquare(square.0.clone());
        conjugated.apply_permutation(Permutation(vec![0, 1, 2, 3]));
        assert_eq!(conjugated, square);
    }
}

#[test]
fn conjugating_twice_composes() {
    let p = Permutation(vec![1, 2, 0]);
    let q = Permutation(vec![0, 2, 1]);
    for square in LatinSquare::generate_all(3) {
        let mut twice = LatinSquare(square.0.clone());
        twice.apply_permutation(Permutation(p.0.clone()));
        twice.apply_permutation(Permutation(q.0.clone()));

        let mut once = LatinSquare(square.0.clone());
        once.apply_permutation(q.compose(&p));
        assert_eq!(twice, once);
    }
}

#[test]
fn generated_squares_are_closed_under_conjugation() {
    let squares = LatinSquare::generate_all(3);
    let perms = Permutation::generate_all(3);
    for s in &squares {
        for p in &perms {
            let mut conjugated = LatinSquare(s.0.clone());
            conjugated.apply_permutation(Permutation(p.0.clone()));
            assert!(squares.contains(&conjugated));
        }
    }
}

#[test]
fn classification_is_a_conjugacy_invariant() {
    let squares = LatinSquare::generate_all(4);
    let perms = Permutation::generate_all(4);
    for s in squares.iter().step_by(16) {
        let class = s.classify();
        for p in &perms {
            let mut conjugated = LatinSquare(s.0.clone());
            conjugated.apply_permutation(Permutation(p.0.clone()));
            assert_eq!(conjugated.classify(), class);
        }
    }
}

#[test]
fn automorphism_flags_match_direct_conjugation() {
    let squares = LatinSquare::generate_all(3);
    let perms = Permutation::generate_all(3);
    let classified = classify_all_latin_squares(&squares, &perms);

    assert_eq!(classified.len(), squares.len());
    for (j, row) in classified.iter().enumerate() {
        assert_eq!(row.index, j);
        assert_eq!(row.square, squares[j]);
        for (i, p) in perms.iter().enumerate() {
            let mut conjugated = LatinSquare(squares[j].0.clone());
            conjugated.apply_permutation(Permutation(p.0.clone()));
            let is_automorphism = conjugated == squares[j];
            assert_eq!(
                row.all_permutations_all_affine_automorphisms[i].0,
                is_automorphism
            );
        }
    }

    // The cyclic table has exactly two automorphisms among the six
    // permutations: the identity and the exchange of 1 and 2.
    let mod3 = mod3_table();
    let j = squares.iter().position(|s| *s == mod3).unwrap();
    let flags: Vec<bool> = classified[j]
        .all_permutations_all_affine_automorphisms
        .iter()
        .map(|c| c.0)
        .collect();
    assert_eq!(flags, vec![true, true, false, false, false, false]);
}

#[test]
fn affine_records_name_real_affine_automorphisms() {
    let squares = LatinSquare::generate_all(3);
    let perms = Permutation::generate_all(3);
    let classified = classify_all_latin_squares(&squares, &perms);

    for (j, row) in classified.iter().enumerate() {
        for (k, cell) in row
            .all_permutations_all_affine_automorphisms
            .iter()
            .enumerate()
        {
            for rec in &cell.1 {
                let (i, v, side) = *rec;
                // The base permutation is an automorphism.
                assert!(row.all_permutations_all_affine_automorphisms[i].0);
                // Translation composed with it lands on permutation k.
                let composed = squares[j].addition_permutation(v, &side).compose(&perms[i]);
                assert_eq!(composed, perms[k]);
            }
        }
    }
}

#[test]
fn composing_affine_permutation_uses_the_table() {
    let groups = generate_all_sudocurity_groups_new(3);
    // The identity-fixed cyclic table: full row 0, then 2 0, then 1.
    let g = &groups[0];
    let perm = vec![0, 1, 2];
    let composed = compose_affine_permutation(&perm, g, &1);
    assert_eq!(composed, vec![1, 2, 0]);
}

#[test]
fn classification_of_known_squares() {
    assert_eq!(mod3_table().classify(), LatinStructure::Abelian);

    let quasigroup = LatinSquare(vec![vec![0, 2, 1], vec![2, 1, 0], vec![1, 0, 2]]);
    assert_eq!(quasigroup.classify(), LatinStructure::Quasigroup);

    let left_only = LatinSquare(vec![vec![0, 1, 2], vec![2, 0, 1], vec![1, 2, 0]]);
    let ty = left_only.classify_structure();
    assert_eq!(ty.structure, LatinStructure::Quasigroup);
    assert!(ty.left_identity);
    assert!(!ty.right_identity);
    assert!(!ty.commutative);

    let right_only = LatinSquare(vec![vec![0, 2, 1], vec![1, 0, 2], vec![2, 1, 0]]);
    let ty = right_only.classify_structure();
    assert_eq!(ty.structure, LatinStructure::Quasigroup);
    assert!(!ty.left_identity);
    assert!(ty.right_identity);
    assert!(!ty.commutative);
}

#[test]
fn loops_and_groups_appear_among_order_five_squares() {
    let squares = LatinSquare::generate_all(5);
    let mut seen_loop = false;
    let mut seen_abelian = false;
    for s in &squares {
        match s.classify() {
            LatinStructure::Loop => seen_loop = true,
            LatinStructure::Abelian => seen_abelian = true,
            _ => {},
        }
        if seen_loop && seen_abelian {
            break;
        }
    }
    assert!(seen_loop);
    assert!(seen_abelian);
}

#[test]
fn generated_triangular_tables_are_closed_under_conjugation() {
    // Closure of the unconstrained triangular sets under conjugation by
    // every permutation, checked at small orders.
    for n in 1..=5 {
        let groups = generate_all_groups_new(n);
        let perms = generate_all_permutations(n);
        for g in &groups {
            for p in &perms {
                let conjugated = apply_permutation_to_group(g, p);
                assert!(groups.contains(&conjugated));
            }
        }
    }
}
