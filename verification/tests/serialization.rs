use latin_structures::decode_tables;
use latin_structures::encode_tables;
use latin_structures::generate_all_groups_new;
use latin_structures::generate_all_sudocurity_groups_new;

#[test]
fn round_trip_reproduces_generated_tables() {
    for n in 1..=5 {
        let tables = generate_all_groups_new(n);
        let bytes = encode_tables(&tables);
        assert_eq!(decode_tables(&bytes), Some(tables));

        let fixed = generate_all_sudocurity_groups_new(n);
        let bytes = encode_tables(&fixed);
        assert_eq!(decode_tables(&bytes), Some(fixed));
    }
}

#[test]
fn encoding_is_the_bracketed_decimal_text() {
    let empty: Vec<Vec<Vec<usize>>> = vec![];
    assert_eq!(encode_tables(&empty), b"[]".to_vec());

    let one = vec![vec![vec![0, 1], vec![1, 0]]];
    assert_eq!(encode_tables(&one), b"[[[0,1],[1,0]]]".to_vec());

    let two = vec![vec![vec![12]], vec![vec![3], vec![45, 6]]];
    assert_eq!(encode_tables(&two), b"[[[12]],[[3],[45,6]]]".to_vec());
}

#[test]
fn decoding_accepts_only_canonical_text() {
    assert_eq!(decode_tables(&b"".to_vec()), None);
    assert_eq!(decode_tables(&b"[".to_vec()), None);
    assert_eq!(decode_tables(&b"{}".to_vec()), None);
    assert_eq!(decode_tables(&b"[[[1,2]".to_vec()), None);
    assert_eq!(decode_tables(&b"[[[1,]]]".to_vec()), None);
    assert_eq!(decode_tables(&b"[[[01]]]".to_vec()), None);
    assert_eq!(decode_tables(&b"[[[1]]]x".to_vec()), None);

    assert_eq!(decode_tables(&b"[]".to_vec()), Some(vec![]));
    assert_eq!(
        decode_tables(&b"[[[0,1],[1,0]]]".to_vec()),
        Some(vec![vec![vec![0, 1], vec![1, 0]]])
    );
}
