use levenshtein_diff::distance;
use levenshtein_diff::{levenshtein_memoization, levenshtein_naive, levenshtein_tabulation};

#[test]
fn levenshtein_naive_test() {
    let s1 = String::from("LAWN");
    let s2 = String::from("FFLAWANN");
    let expected_leven = 4;

    let leven_naive = levenshtein_naive(s1.as_bytes(), s2.as_bytes());

    assert_eq!(leven_naive, expected_leven);
}

#[test]
fn levenshtein_memoization_test() {
    let s1 = String::from("LAWN");
    let s2 = String::from("FFLAWANN");
    let expected_leven = 4;

    let (leven_memo, _) = levenshtein_memoization(s1.as_bytes(), s2.as_bytes());

    assert_eq!(leven_memo, expected_leven);
}

#[test]
fn levenshtein_tabulation_test() {
    let s1 = String::from("LAWN");
    let s2 = String::from("FFLAWANN");
    let expected_leven = 4;

    let (leven_tab, _) = levenshtein_tabulation(s1.as_bytes(), s2.as_bytes());

    assert_eq!(leven_tab, expected_leven);
}

#[test]
fn default_distance_test() {
    let s1 = "FLOWER";
    let s2 = "FOLLOWER";

    let expected_dist = 2;

    let (dist, _) = distance(s1.as_bytes(), s2.as_bytes());

    assert_eq!(expected_dist, dist);
}

#[test]
fn saturday_to_sunday_is_three() {
    let source = "SATURDAY".as_bytes();
    let target = "SUNDAY".as_bytes();
    assert_eq!(levenshtein_naive(source, target), 3);
    assert_eq!(levenshtein_tabulation(source, target).0, 3);
    assert_eq!(levenshtein_memoization(source, target).0, 3);
    assert_eq!(distance(source, target).0, 3);
}

#[test]
fn flaw_to_lawn_is_two() {
    let source = "FLAW".as_bytes();
    let target = "LAWN".as_bytes();
    assert_eq!(levenshtein_naive(source, target), 2);
    assert_eq!(levenshtein_tabulation(source, target).0, 2);
    assert_eq!(levenshtein_memoization(source, target).0, 2);
}

#[test]
fn distance_works_on_vectors_of_numbers() {
    let v1 = vec![0, 1, 2];
    let v2 = vec![1, 2, 3, 4];
    let (dist, _) = distance(&v1[..], &v2[..]);
    assert_eq!(dist, 3);
}

#[test]
fn empty_against_nonempty_is_the_length() {
    let empty: &[u8] = &[];
    let abc = "ABC".as_bytes();
    assert_eq!(levenshtein_naive(empty, abc), 3);
    assert_eq!(levenshtein_naive(abc, empty), 3);
    assert_eq!(levenshtein_tabulation(empty, abc).0, 3);
    assert_eq!(levenshtein_tabulation(abc, empty).0, 3);
    assert_eq!(levenshtein_memoization(empty, abc).0, 3);
    assert_eq!(levenshtein_memoization(abc, empty).0, 3);
    assert_eq!(levenshtein_naive(empty, empty), 0);
    assert_eq!(levenshtein_tabulation(empty, empty), (0, vec![vec![0]]));
    assert_eq!(levenshtein_memoization(empty, empty), (0, vec![vec![0]]));
}

#[test]
fn tabulation_fills_the_whole_matrix() {
    let (dist, matrix) = levenshtein_tabulation("SATURDAY".as_bytes(), "SUNDAY".as_bytes());
    let expected = vec![
        vec![0, 1, 2, 3, 4, 5, 6],
        vec![1, 0, 1, 2, 3, 4, 5],
        vec![2, 1, 1, 2, 3, 3, 4],
        vec![3, 2, 2, 2, 3, 4, 4],
        vec![4, 3, 2, 3, 3, 4, 5],
        vec![5, 4, 3, 3, 4, 4, 5],
        vec![6, 5, 4, 4, 3, 4, 5],
        vec![7, 6, 5, 5, 4, 3, 4],
        vec![8, 7, 6, 6, 5, 4, 3],
    ];
    assert_eq!(dist, 3);
    assert_eq!(matrix, expected);
}

#[test]
fn memoization_fills_the_same_matrix_as_tabulation() {
    let pairs = [
        ("SATURDAY", "SUNDAY"),
        ("FLOWER", "FOLLOWER"),
        ("kitten", "sitting"),
        ("", "abc"),
        ("abc", ""),
        ("same", "same"),
        ("ab", "axby"),
    ];
    for (source, target) in pairs {
        let tabulated = levenshtein_tabulation(source.as_bytes(), target.as_bytes());
        let memoized = levenshtein_memoization(source.as_bytes(), target.as_bytes());
        assert_eq!(tabulated, memoized);
        assert_eq!(tabulated.1.len(), source.len() + 1);
        for row in &tabulated.1 {
            assert_eq!(row.len(), target.len() + 1);
        }
    }
}

#[test]
fn the_border_of_the_matrix_counts_up() {
    let (_, matrix) = distance("kitten".as_bytes(), "sitting".as_bytes());
    for (j, cell) in matrix[0].iter().enumerate() {
        assert_eq!(*cell, j);
    }
    for (i, row) in matrix.iter().enumerate() {
        assert_eq!(row[0], i);
    }
}

#[test]
fn the_three_ways_agree_and_either_direction_gives_the_same() {
    let words = ["", "a", "ab", "ba", "abc", "kitten", "sitting", "sunday", "saturday"];
    for a in words {
        for b in words {
            let naive = levenshtein_naive(a.as_bytes(), b.as_bytes());
            let (tabulated, _) = levenshtein_tabulation(a.as_bytes(), b.as_bytes());
            let (memoized, _) = levenshtein_memoization(a.as_bytes(), b.as_bytes());
            assert_eq!(naive, tabulated);
            assert_eq!(naive, memoized);
            let (reversed, _) = levenshtein_tabulation(b.as_bytes(), a.as_bytes());
            assert_eq!(tabulated, reversed);
            assert!(tabulated <= a.len() + b.len());
            assert!(tabulated <= a.len().max(b.len()));
        }
    }
}

#[test]
fn a_sequence_is_at_distance_zero_from_itself() {
    let words = ["", "a", "abc", "saturday"];
    for a in words {
        assert_eq!(levenshtein_naive(a.as_bytes(), a.as_bytes()), 0);
        assert_eq!(levenshtein_tabulation(a.as_bytes(), a.as_bytes()).0, 0);
        assert_eq!(levenshtein_memoization(a.as_bytes(), a.as_bytes()).0, 0);
    }
}

#[test]
fn kitten_to_sitting_is_three() {
    assert_eq!(distance("kitten".as_bytes(), "sitting".as_bytes()).0, 3);
}
