use rust_in_action::bitonic::SortOrder::{Ascending, Descending};
use rust_in_action::bitonic::{sort, sort_by, valid_length, SortError, Sorter};
use rust_in_action::util;

#[derive(Debug, Eq, PartialEq)]
struct Student {
    first_name: String,
    last_name: String,
    age: u8,
}

impl Student {
    fn new(first_name: &str, last_name: &str, age: u8) -> Self {
        Self {
            first_name: first_name.to_string(),
            last_name: last_name.to_string(),
            age,
        }
    }
}

#[test]
fn sort_u32_ascending() {
    let mut x: Vec<u32> = vec![10, 30, 11, 20, 4, 330, 21, 110];
    assert_eq!(sort(&mut x, Ascending), Ok(()));
    assert_eq!(x, vec![4, 10, 11, 20, 21, 30, 110, 330]);
}

#[test]
fn sort_u32_descending() {
    let mut x: Vec<u32> = vec![10, 30, 11, 20, 4, 330, 21, 110];
    assert_eq!(sort(&mut x, Descending), Ok(()));
    assert_eq!(x, vec![330, 110, 30, 21, 20, 11, 10, 4]);
}

#[test]
fn sort_str_ascending() {
    let mut x = vec![
        "Rust",
        "is",
        "fast",
        "and",
        "memory-efficient",
        "with",
        "no",
        "GC",
    ];
    assert_eq!(sort(&mut x, Ascending), Ok(()));
    assert_eq!(
        x,
        vec![
            "GC",
            "Rust",
            "and",
            "fast",
            "is",
            "memory-efficient",
            "no",
            "with"
        ]
    );
}

#[test]
fn sort_str_descending() {
    let mut x = vec![
        "Rust",
        "is",
        "fast",
        "and",
        "memory-efficient",
        "with",
        "no",
        "GC",
    ];
    assert_eq!(sort(&mut x, Descending), Ok(()));
    assert_eq!(
        x,
        vec![
            "with",
            "no",
            "memory-efficient",
            "is",
            "fast",
            "and",
            "Rust",
            "GC"
        ]
    );
}

#[test]
fn sort_student_by_age_ascending() {
    let miki = Student::new("Miki", "Hoshii", 15);
    let makoto = Student::new("Makoto", "Kikuchi", 17);
    let mami = Student::new("Mami", "Futami", 13);
    let ritsuko = Student::new("Ritsuko", "Akiduki", 19);
    let mut students = vec![&miki, &makoto, &mami, &ritsuko];
    let expected = vec![&mami, &miki, &makoto, &ritsuko];

    assert_eq!(sort_by(&mut students, &|a, b| a.age.cmp(&b.age)), Ok(()));
    assert_eq!(students, expected);
}

#[test]
fn sort_to_fail() {
    let mut xs = vec![10, 30, 1];
    assert!(sort(&mut xs, Ascending).is_err());
}

#[test]
fn sort_u32_large() {
    {
        let mut arr = util::new_u32_vec(65536);
        assert_eq!(sort(&mut arr, Ascending), Ok(()));
        assert!(util::is_sorted(&arr, Ascending));
    }
    {
        let mut arr = util::new_u32_vec(65536);
        assert_eq!(sort(&mut arr, Descending), Ok(()));
        assert!(util::is_sorted(&arr, Descending));
    }
}

#[test]
fn invalid_length_is_reported_and_input_kept() {
    let mut xs: Vec<u32> = vec![10, 30, 1];
    assert_eq!(sort(&mut xs, Ascending), Err(SortError::InvalidLength(3)));
    assert_eq!(xs, vec![10, 30, 1]);
    let mut ys: Vec<u32> = vec![5, 4, 3, 2, 1];
    assert_eq!(sort(&mut ys, Descending), Err(SortError::InvalidLength(5)));
    assert_eq!(ys, vec![5, 4, 3, 2, 1]);
    let mut zs: Vec<u32> = vec![6, 5, 4, 3, 2, 1];
    assert_eq!(sort_by(&mut zs, &|a: &u32, b: &u32| a.cmp(b)), Err(SortError::InvalidLength(6)));
    assert_eq!(zs, vec![6, 5, 4, 3, 2, 1]);
}

#[test]
fn boundary_lengths() {
    let mut empty: Vec<u32> = vec![];
    assert_eq!(sort(&mut empty, Ascending), Ok(()));
    assert!(empty.is_empty());
    let mut one: Vec<u32> = vec![7];
    assert_eq!(sort(&mut one, Ascending), Ok(()));
    assert_eq!(one, vec![7]);
    let mut two: Vec<u32> = vec![9, 2];
    assert_eq!(sort(&mut two, Ascending), Ok(()));
    assert_eq!(two, vec![2, 9]);
    let mut four: Vec<u32> = vec![3, 1, 4, 1];
    assert_eq!(sort(&mut four, Ascending), Ok(()));
    assert_eq!(four, vec![1, 1, 3, 4]);
    let mut odd: Vec<u32> = (0..1023).rev().collect();
    let kept = odd.clone();
    assert_eq!(sort(&mut odd, Ascending), Err(SortError::InvalidLength(1023)));
    assert_eq!(odd, kept);
    let mut big: Vec<u32> = (0..1024).rev().collect();
    assert_eq!(sort(&mut big, Ascending), Ok(()));
    assert_eq!(big, (0..1024).collect::<Vec<u32>>());
}

#[test]
fn valid_lengths() {
    assert!(valid_length(0));
    assert!(valid_length(1));
    assert!(valid_length(2));
    assert!(valid_length(1024));
    assert!(!valid_length(3));
    assert!(!valid_length(6));
    assert!(!valid_length(1023));
}

#[test]
fn sorting_twice_changes_nothing() {
    let mut x: Vec<u32> = vec![10, 30, 11, 20, 4, 330, 21, 110];
    assert_eq!(sort(&mut x, Ascending), Ok(()));
    let once = x.clone();
    assert_eq!(sort(&mut x, Ascending), Ok(()));
    assert_eq!(x, once);
    assert_eq!(sort(&mut x, Descending), Ok(()));
    let once_down = x.clone();
    assert_eq!(sort(&mut x, Descending), Ok(()));
    assert_eq!(x, once_down);
}

#[test]
fn descending_after_ascending_reverses() {
    let mut x: Vec<u32> = vec![8, 3, 5, 1, 7, 2, 6, 4];
    assert_eq!(sort(&mut x, Ascending), Ok(()));
    let mut reversed = x.clone();
    reversed.reverse();
    assert_eq!(sort(&mut x, Descending), Ok(()));
    assert_eq!(x, reversed);
}

#[test]
fn threshold_does_not_change_result() {
    let input = util::new_u32_vec(4096);
    let mut sequential = input.clone();
    let mut parallel = input.clone();
    assert_eq!(Sorter::new(input.len() + 1).sort(&mut sequential, Ascending), Ok(()));
    assert_eq!(Sorter::new(1).sort(&mut parallel, Ascending), Ok(()));
    assert_eq!(sequential, parallel);
    assert!(util::is_sorted(&parallel, Ascending));
}

#[test]
fn sorter_sort_by_descending_key() {
    let mut pairs: Vec<(u32, char)> = vec![(3, 'c'), (1, 'a'), (4, 'd'), (2, 'b')];
    let sorter = Sorter::new(1);
    assert_eq!(sorter.sort_by(&mut pairs, &|a: &(u32, char), b: &(u32, char)| b.0.cmp(&a.0)), Ok(()));
    assert_eq!(pairs, vec![(4, 'd'), (3, 'c'), (2, 'b'), (1, 'a')]);
}

#[test]
fn duplicates_are_kept() {
    let mut x: Vec<u32> = vec![5, 1, 5, 1, 3, 3, 5, 1];
    assert_eq!(Sorter::new(2).sort(&mut x, Ascending), Ok(()));
    assert_eq!(x, vec![1, 1, 1, 3, 3, 5, 5, 5]);
}

#[test]
fn generated_numbers_have_requested_length() {
    let xs = util::new_u32_vec(16);
    assert_eq!(xs.len(), 16);
    assert!(xs.iter().any(|&x| x != xs[0]));
    assert_eq!(util::new_u32_vec(16), xs);
    assert!(util::new_u32_vec(0).is_empty());
}

#[test]
fn is_sorted_checks_neighbours() {
    assert!(util::is_sorted(&[1u32, 2, 2, 3], Ascending));
    assert!(!util::is_sorted(&[1u32, 3, 2], Ascending));
    assert!(util::is_sorted(&[3u32, 2, 2, 1], Descending));
    assert!(!util::is_sorted(&[3u32, 1, 2], Descending));
    assert!(util::is_sorted::<u32>(&[], Ascending));
    assert!(util::is_sorted(&[4u32], Descending));
}
