use latin_structures::Bits;
use latin_structures::LatinSquare;
use latin_structures::LatinStructure;
use latin_structures::Permutation;
use latin_structures::SquareInformation;
use latin_structures::classify_all_latin_squares;
use latin_structures::create_complete_table;
use latin_structures::create_summary_table;
use latin_structures::max_length;

#[test]
fn bits_compare_from_the_highest_position() {
    let low = Bits { bits: vec![true, false] };
    let high = Bits { bits: vec![false, true] };
    assert!(low.lt(&high));
    assert!(!high.lt(&low));
    assert!(high.gt(&low));
    let same = Bits { bits: vec![true, false] };
    assert!(!low.lt(&same));
    assert!(!low.gt(&same));
}

#[test]
fn fingerprint_encodes_class_and_automorphisms() {
    let squares = LatinSquare::generate_all(3);
    let perms = Permutation::generate_all(3);
    let classified = classify_all_latin_squares(&squares, &perms);

    for row in &classified {
        let fp = row.fingerprint();
        assert_eq!(fp.bits.len(), 2 + perms.len());
        let class_bits = match row.class.structure {
            LatinStructure::Quasigroup => (true, true),
            LatinStructure::Loop => (false, true),
            LatinStructure::Group => (true, false),
            LatinStructure::Abelian => (false, false),
        };
        assert_eq!(fp.bits[0], class_bits.0);
        assert_eq!(fp.bits[1], class_bits.1);
        let rest = row.fingerprint_no_structure();
        assert_eq!(&fp.bits[2..], &rest.bits[..]);
        for (i, cell) in row.all_permutations_all_affine_automorphisms.iter().enumerate() {
            assert_eq!(rest.bits[i], cell.0);
        }
    }
}

#[test]
fn complete_table_layout() {
    let squares = LatinSquare::generate_all(3);
    let perms = Permutation::generate_all(3);
    let classified = classify_all_latin_squares(&squares, &perms);
    let n_rows = classified.len();

    let table = create_complete_table(classified, &perms);
    assert_eq!(table.table.len(), n_rows + 2);
    for c in 0..3 {
        assert!(matches!(table.table[0][c], SquareInformation::Empty));
        assert!(matches!(table.table[1][c], SquareInformation::Empty));
    }
    for (k, p) in perms.iter().enumerate() {
        match &table.table[0][3 + k] {
            SquareInformation::Permutation(q) => assert_eq!(q.0, p.0),
            _ => panic!("expected a permutation cell"),
        }
        match &table.table[1][3 + k] {
            SquareInformation::PermutationIndex(i) => assert_eq!(*i, k),
            _ => panic!("expected a permutation index cell"),
        }
    }
    // Data rows are sorted by fingerprint; each renders one classification.
    let mut previous: Option<Bits> = None;
    for r in 2..table.table.len() {
        let row = &table.table[r];
        assert_eq!(row.len(), 3 + perms.len());
        assert!(matches!(row[0], SquareInformation::LatinSquare(_)));
        assert!(matches!(row[1], SquareInformation::LatinSquareIndex(_)));
        assert!(matches!(row[2], SquareInformation::Class(_)));
        let mut bits = match &row[2] {
            SquareInformation::Class(ty) => match ty.structure {
                LatinStructure::Quasigroup => vec![true, true],
                LatinStructure::Loop => vec![false, true],
                LatinStructure::Group => vec![true, false],
                LatinStructure::Abelian => vec![false, false],
            },
            _ => panic!("expected a class cell"),
        };
        for k in 0..perms.len() {
            match &row[3 + k] {
                SquareInformation::AllAffineAutomorphisms(a) => bits.push(a.0),
                _ => panic!("expected an affine automorphism cell"),
            }
        }
        let key = Bits { bits };
        if let Some(prev) = previous {
            assert!(!key.lt(&prev));
        }
        previous = Some(key);
    }
}

#[test]
fn summary_table_layout() {
    let squares = LatinSquare::generate_all(3);
    let perms = Permutation::generate_all(3);
    let classified = classify_all_latin_squares(&squares, &perms);
    let total = classified.len();

    let table = create_summary_table(classified, &perms);
    let rows = table.table.len();
    assert!(rows >= 5);
    assert!(matches!(table.table[0][0], SquareInformation::Empty));
    match &table.table[rows - 2][0] {
        SquareInformation::Text(label) => assert_eq!(label, "Sum W/o 0"),
        _ => panic!("expected the first sum row label"),
    }
    match &table.table[rows - 1][0] {
        SquareInformation::Text(label) => assert_eq!(label, "Sum All"),
        _ => panic!("expected the second sum row label"),
    }
    for g in 0..rows - 4 {
        match table.table[2 + g][0] {
            SquareInformation::FingerprintIndex(i) => assert_eq!(i, g),
            _ => panic!("expected a fingerprint index cell"),
        }
        assert_eq!(table.table[2 + g].len(), 1 + perms.len());
    }
    // The grand total row counts every square once under the identity
    // permutation, which is an automorphism of every square.
    match table.table[rows - 1][1] {
        SquareInformation::AutomorphismAndAffineSums((aut, _)) => assert_eq!(aut, total),
        _ => panic!("expected a sums cell"),
    }
}

#[test]
fn max_length_finds_the_longest_row() {
    let rows: Vec<Vec<usize>> = vec![vec![1], vec![1, 2, 3], vec![1, 2]];
    assert_eq!(max_length(&rows), 3);
    let empty: Vec<Vec<usize>> = vec![];
    assert_eq!(max_length(&empty), 0);
}
