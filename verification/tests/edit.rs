use levenshtein_diff::distance;
use levenshtein_diff::{apply_edits, generate_edits, Edit, LevenshteinError};

// Whether two vectors hold the same items in the same order.
fn do_vecs_match<T: PartialEq>(a: &Vec<T>, b: &Vec<T>) -> bool {
    let matching = a.iter().zip(b.iter()).filter(|&(a, b)| a == b).count();
    matching == a.len() && matching == b.len()
}

fn saturday_sunday_matrix() -> Vec<Vec<usize>> {
    vec![
        vec![0, 1, 2, 3, 4, 5, 6],
        vec![1, 0, 1, 2, 3, 4, 5],
        vec![2, 1, 1, 2, 3, 3, 4],
        vec![3, 2, 2, 2, 3, 4, 4],
        vec![4, 3, 2, 3, 3, 4, 5],
        vec![5, 4, 3, 3, 4, 4, 5],
        vec![6, 5, 4, 4, 3, 4, 5],
        vec![7, 6, 5, 5, 4, 3, 4],
        vec![8, 7, 6, 6, 5, 4, 3],
    ]
}

fn round_trip(source: &str, target: &str) -> (usize, usize, Vec<u8>) {
    let (dist, matrix) = distance(source.as_bytes(), target.as_bytes());
    let edits = match generate_edits(source.as_bytes(), target.as_bytes(), &matrix) {
        Ok(edits) => edits,
        Err(err) => panic!("{}", err.to_string()),
    };
    let applied = apply_edits(source.as_bytes(), &edits);
    (dist, edits.len(), applied)
}

#[test]
fn edit_list_is_correct() {
    let s1 = "SATURDAY";
    let s2 = "SUNDAY";

    // This is the distance matrix for the strings
    // SATURDAY and SUNDAY
    let distances = vec![
        vec![0, 1, 2, 3, 4, 5, 6],
        vec![1, 0, 1, 2, 3, 4, 5],
        vec![2, 1, 1, 2, 3, 3, 4],
        vec![3, 2, 2, 2, 3, 4, 4],
        vec![4, 3, 2, 3, 3, 4, 5],
        vec![5, 4, 3, 3, 4, 4, 5],
        vec![6, 5, 4, 4, 3, 4, 5],
        vec![7, 6, 5, 5, 4, 3, 4],
        vec![8, 7, 6, 6, 5, 4, 3],
    ];

    let expected_edits = vec![
        Edit::<u8>::Substitute(5, 78),
        Edit::<u8>::Delete(3),
        Edit::<u8>::Delete(2),
    ];

    let edits = generate_edits(s1.as_bytes(), s2.as_bytes(), &distances).unwrap();

    assert_eq!(do_vecs_match(&edits, &expected_edits), true);
}

#[test]
fn edits_are_applied_correctly() {
    let s1 = "SATURDAY";
    let expected_s2 = "SUNDAY";

    // Edits that convert SATURDAY to SUNDAY
    let mut edits = vec![
        Edit::<u8>::Substitute(5, 78),
        Edit::<u8>::Delete(3),
        Edit::<u8>::Delete(2),
    ];

    let s2_bytes_vec = apply_edits(s1.as_bytes(), &mut edits);

    let s2 = match std::str::from_utf8(&s2_bytes_vec) {
        Ok(v) => v,
        Err(_) => panic!("Not a valid UTF-8 sequence!"),
    };

    assert_eq!(s2, expected_s2);
}

#[test]
fn flower_to_follower_round_trip() {
    let s1 = "FLOWER";
    let expected_s2 = "FOLLOWER";
    let (_, matrix) = distance(s1.as_bytes(), expected_s2.as_bytes());
    let edits = generate_edits(s1.as_bytes(), expected_s2.as_bytes(), &matrix).unwrap();
    let expected_edits = vec![Edit::<u8>::Insert(2, 76), Edit::<u8>::Insert(1, 79)];
    assert!(do_vecs_match(&edits, &expected_edits));
    let target = apply_edits(s1.as_bytes(), &edits);
    assert_eq!(std::str::from_utf8(&target).unwrap(), expected_s2);
}

#[test]
fn empty_source_gives_only_insertions() {
    let source = "";
    let target = "ABC";
    let (dist, matrix) = distance(source.as_bytes(), target.as_bytes());
    assert_eq!(dist, 3);
    let edits = generate_edits(source.as_bytes(), target.as_bytes(), &matrix).unwrap();
    let expected = vec![
        Edit::<u8>::Insert(0, 67),
        Edit::<u8>::Insert(0, 66),
        Edit::<u8>::Insert(0, 65),
    ];
    assert!(do_vecs_match(&edits, &expected));
    for edit in &edits {
        assert!(matches!(edit, Edit::Insert(_, _)));
    }
    assert_eq!(apply_edits(source.as_bytes(), &edits), target.as_bytes().to_vec());
}

#[test]
fn empty_target_gives_only_deletions() {
    let source = "ABC";
    let target = "";
    let (dist, matrix) = distance(source.as_bytes(), target.as_bytes());
    assert_eq!(dist, 3);
    let edits = generate_edits(source.as_bytes(), target.as_bytes(), &matrix).unwrap();
    let expected = vec![Edit::<u8>::Delete(3), Edit::<u8>::Delete(2), Edit::<u8>::Delete(1)];
    assert!(do_vecs_match(&edits, &expected));
    for edit in &edits {
        assert!(matches!(edit, Edit::Delete(_)));
    }
    assert_eq!(apply_edits(source.as_bytes(), &edits), Vec::<u8>::new());
}

#[test]
fn both_empty_gives_no_edits() {
    let empty: &[u8] = &[];
    let (dist, matrix) = distance(empty, empty);
    assert_eq!(dist, 0);
    let edits = generate_edits(empty, empty, &matrix).unwrap();
    assert_eq!(edits.len(), 0);
    assert_eq!(apply_edits(empty, &edits), Vec::<u8>::new());
}

#[test]
fn insertions_between_kept_elements_land_in_order() {
    let (dist, len, applied) = round_trip("AB", "AXBY");
    assert_eq!(dist, 2);
    assert_eq!(len, 2);
    assert_eq!(applied, "AXBY".as_bytes().to_vec());
}

#[test]
fn applying_the_generated_edits_gives_the_target() {
    let words = [
        "", "a", "b", "ab", "ba", "abc", "axby", "kitten", "sitting", "SUNDAY", "SATURDAY",
        "FLOWER", "FOLLOWER", "aaaa", "aa", "abab", "baba", "intention", "execution",
    ];
    for source in words {
        for target in words {
            let (dist, len, applied) = round_trip(source, target);
            assert_eq!(applied, target.as_bytes().to_vec());
            assert_eq!(len, dist);
        }
    }
}

#[test]
fn apply_edits_defers_insertions_behind_the_marks() {
    let source = [10u32, 20, 30];
    let edits = vec![
        Edit::Insert(3, 99),
        Edit::Substitute(3, 31),
        Edit::Insert(2, 25),
        Edit::Insert(2, 24),
        Edit::Delete(1),
        Edit::Insert(0, 5),
    ];
    assert_eq!(apply_edits(&source, &edits), vec![5, 20, 24, 25, 31, 99]);
}

#[test]
fn apply_edits_without_edits_copies_the_source() {
    let source = [1u8, 2, 3];
    let edits: Vec<Edit<u8>> = Vec::new();
    assert_eq!(apply_edits(&source, &edits), vec![1, 2, 3]);
}

#[test]
fn a_matrix_with_too_few_rows_is_refused() {
    let mut distances = saturday_sunday_matrix();
    distances.pop();
    let result = generate_edits("SATURDAY".as_bytes(), "SUNDAY".as_bytes(), &distances);
    assert!(matches!(result, Err(LevenshteinError::InvalidDistanceMatrixError)));
}

#[test]
fn a_matrix_with_too_many_columns_is_refused() {
    let mut distances = saturday_sunday_matrix();
    for row in distances.iter_mut() {
        row.push(9);
    }
    let result = generate_edits("SATURDAY".as_bytes(), "SUNDAY".as_bytes(), &distances);
    assert!(matches!(result, Err(LevenshteinError::InvalidDistanceMatrixError)));
}

#[test]
fn a_matrix_with_one_short_row_is_refused() {
    let mut distances = saturday_sunday_matrix();
    distances[4].pop();
    let result = generate_edits("SATURDAY".as_bytes(), "SUNDAY".as_bytes(), &distances);
    assert!(matches!(result, Err(LevenshteinError::InvalidDistanceMatrixError)));
}

#[test]
fn an_empty_matrix_is_refused() {
    let distances: Vec<Vec<usize>> = Vec::new();
    let empty: &[u8] = &[];
    let result = generate_edits(empty, empty, &distances);
    assert!(matches!(result, Err(LevenshteinError::InvalidDistanceMatrixError)));
}

#[test]
fn a_matrix_for_other_sequences_is_refused() {
    let (_, matrix) = distance("AB".as_bytes(), "ABC".as_bytes());
    let result = generate_edits("ABC".as_bytes(), "AB".as_bytes(), &matrix);
    assert!(matches!(result, Err(LevenshteinError::InvalidDistanceMatrixError)));
}

#[test]
fn a_cell_that_jumps_by_two_is_refused() {
    let mut distances = saturday_sunday_matrix();
    distances[8][6] = 9;
    let result = generate_edits("SATURDAY".as_bytes(), "SUNDAY".as_bytes(), &distances);
    assert!(matches!(result, Err(LevenshteinError::InvalidDistanceMatrixError)));
}

#[test]
fn a_cell_below_its_neighbours_is_refused() {
    let distances = vec![vec![0, 1], vec![1, 1], vec![2, 0]];
    let result = generate_edits("ab".as_bytes(), "a".as_bytes(), &distances);
    assert!(matches!(result, Err(LevenshteinError::InvalidDistanceMatrixError)));
}

#[test]
fn a_border_cell_equal_to_its_neighbour_is_refused() {
    let distances = vec![vec![0, 1, 1]];
    let empty: &[u8] = &[];
    let result = generate_edits(empty, "ab".as_bytes(), &distances);
    assert!(matches!(result, Err(LevenshteinError::InvalidDistanceMatrixError)));
}

#[test]
fn ties_go_to_insert_then_delete_then_substitute() {
    // All three neighbours of the last cell hold 1: the insertion wins.
    let distances = vec![vec![0, 1, 2], vec![1, 1, 1], vec![2, 1, 2]];
    let edits = generate_edits("ab".as_bytes(), "cd".as_bytes(), &distances).unwrap();
    assert!(matches!(edits[0], Edit::Insert(2, 100)));

    // Insertion is out (3), deletion and substitution tie at 1: the deletion wins.
    let distances = vec![vec![0, 1, 2], vec![1, 1, 1], vec![2, 3, 2]];
    let edits = generate_edits("ab".as_bytes(), "cd".as_bytes(), &distances).unwrap();
    assert!(matches!(edits[0], Edit::Delete(2)));

    // Only the diagonal neighbour holds 1: the substitution is left.
    let distances = vec![vec![0, 1, 2], vec![1, 1, 3], vec![2, 3, 2]];
    let edits = generate_edits("ab".as_bytes(), "cd".as_bytes(), &distances).unwrap();
    assert!(matches!(edits[0], Edit::Substitute(2, 100)));
}

#[test]
fn the_error_has_its_message() {
    let err = LevenshteinError::InvalidDistanceMatrixError;
    assert_eq!(err.to_string(), "Invalid matrix error");
    assert_eq!(format!("{:?}", err), "InvalidDistanceMatrixError");
}

#[test]
fn edits_compare_and_clone() {
    let edit = Edit::Substitute(5, 78u8);
    assert!(edit.clone() == edit);
    assert!(edit != Edit::Insert(5, 78u8));
    assert!(Edit::<u8>::Delete(1) != Edit::<u8>::Delete(2));
}
