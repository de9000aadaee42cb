use levenshtein_diff::util::{get_distance_table, remove_common_affix, up_to_last};
use levenshtein_diff::levenshtein_tabulation;

#[test]
fn up_to_last_drops_the_last_element() {
    let items = [1, 2, 3];
    assert_eq!(up_to_last(&items), &[1, 2]);
    let one = [7];
    assert_eq!(up_to_last(&one).len(), 0);
    let none: [i32; 0] = [];
    assert_eq!(up_to_last(&none).len(), 0);
}

#[test]
fn distance_table_has_a_counting_border_and_blank_cells() {
    let table = get_distance_table(2, 3);
    let blank = usize::MAX;
    assert_eq!(
        table,
        vec![vec![0, 1, 2, 3], vec![1, blank, blank, blank], vec![2, blank, blank, blank]]
    );
    assert_eq!(get_distance_table(0, 0), vec![vec![0]]);
    assert_eq!(get_distance_table(0, 2), vec![vec![0, 1, 2]]);
    assert_eq!(get_distance_table(2, 0), vec![vec![0], vec![1], vec![2]]);
}

#[test]
fn common_affix_is_removed_from_both() {
    let mut s1 = "SATURDAY".as_bytes();
    let mut s2 = "SUNDAY".as_bytes();
    remove_common_affix(&mut s1, &mut s2);
    assert_eq!(s1, "ATUR".as_bytes());
    assert_eq!(s2, "UN".as_bytes());
}

#[test]
fn common_affix_of_equal_slices_leaves_nothing() {
    let mut s1 = "abc".as_bytes();
    let mut s2 = "abc".as_bytes();
    remove_common_affix(&mut s1, &mut s2);
    assert_eq!(s1.len(), 0);
    assert_eq!(s2.len(), 0);
}

#[test]
fn common_suffix_does_not_reach_into_the_prefix() {
    let mut s1 = "aa".as_bytes();
    let mut s2 = "aaa".as_bytes();
    remove_common_affix(&mut s1, &mut s2);
    assert_eq!(s1, "".as_bytes());
    assert_eq!(s2, "a".as_bytes());
}

#[test]
fn slices_without_common_affix_stay_whole() {
    let mut s1 = "abc".as_bytes();
    let mut s2 = "xyz".as_bytes();
    remove_common_affix(&mut s1, &mut s2);
    assert_eq!(s1, "abc".as_bytes());
    assert_eq!(s2, "xyz".as_bytes());
    let mut e1 = "".as_bytes();
    let mut e2 = "xyz".as_bytes();
    remove_common_affix(&mut e1, &mut e2);
    assert_eq!(e1, "".as_bytes());
    assert_eq!(e2, "xyz".as_bytes());
}

#[test]
fn removing_the_common_affix_keeps_the_distance() {
    let words = ["", "a", "ab", "aab", "abab", "FLOWER", "FOLLOWER", "SUNDAY", "SATURDAY"];
    for a in words {
        for b in words {
            let mut s1 = a.as_bytes();
            let mut s2 = b.as_bytes();
            remove_common_affix(&mut s1, &mut s2);
            assert_eq!(a.len() - s1.len(), b.len() - s2.len());
            assert_eq!(
                levenshtein_tabulation(s1, s2).0,
                levenshtein_tabulation(a.as_bytes(), b.as_bytes()).0
            );
        }
    }
}
