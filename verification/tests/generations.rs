use eyd::generation::{
    find_target_path_number, generation_name, latest, parse_decimal, path_file_name_to_number,
};
use eyd::listing::DirEntry;
use eyd::path::Path;

fn dir(name: &str) -> DirEntry {
    DirEntry::new(name, true).unwrap()
}

fn file(name: &str) -> DirEntry {
    DirEntry::new(name, false).unwrap()
}

#[test]
fn numbers_are_read_in_decimal() {
    assert_eq!(parse_decimal("0"), Some(0));
    assert_eq!(parse_decimal("7"), Some(7));
    assert_eq!(parse_decimal("123"), Some(123));
    assert_eq!(parse_decimal("0000000000000001"), Some(1));
    assert_eq!(parse_decimal("0000000000000120"), Some(120));
    assert_eq!(parse_decimal("+5"), Some(5));
}

#[test]
fn what_is_no_number_is_refused() {
    assert_eq!(parse_decimal(""), None);
    assert_eq!(parse_decimal("+"), None);
    assert_eq!(parse_decimal("-1"), None);
    assert_eq!(parse_decimal("++1"), None);
    assert_eq!(parse_decimal("1+"), None);
    assert_eq!(parse_decimal("random_123"), None);
    assert_eq!(parse_decimal("12a"), None);
    assert_eq!(parse_decimal(" 1"), None);
    assert_eq!(parse_decimal("1.5"), None);
}

#[test]
fn numbers_beyond_the_machine_word_are_refused() {
    let max = usize::MAX.to_string();
    assert_eq!(parse_decimal(&max), Some(usize::MAX));
    assert_eq!(parse_decimal(&format!("000{}", max)), Some(usize::MAX));
    assert_eq!(parse_decimal(&format!("{}0", max)), None);
    assert_eq!(
        parse_decimal("99999999999999999999999999999999999999999999"),
        None
    );
    let mut above = max.clone().into_bytes();
    let last = above.len() - 1;
    above[last] += 1;
    assert_eq!(parse_decimal(&String::from_utf8(above).unwrap()), None);
}

#[test]
fn generation_names_are_padded_to_sixteen_digits() {
    assert_eq!(generation_name(0), "0000000000000000");
    assert_eq!(generation_name(1), "0000000000000001");
    assert_eq!(generation_name(2), "0000000000000002");
    assert_eq!(generation_name(10), "0000000000000010");
    assert_eq!(generation_name(1234567890), "0000001234567890");
    assert_eq!(generation_name(9999999999999999), "9999999999999999");
    assert_eq!(generation_name(10000000000000000), "10000000000000000");
    assert_eq!(generation_name(usize::MAX), usize::MAX.to_string());
}

#[test]
fn generation_names_read_back_as_their_number() {
    for n in [0, 1, 9, 10, 99, 100, 4711, 9999999999999999, 10000000000000000, usize::MAX] {
        assert_eq!(parse_decimal(&generation_name(n)), Some(n));
    }
}

#[test]
fn number_of_the_last_component() {
    assert_eq!(
        path_file_name_to_number(&Path::new("/oldroot/0000000000000002")),
        Some(2)
    );
    assert_eq!(path_file_name_to_number(&Path::new("/oldroot/17")), Some(17));
    assert_eq!(
        path_file_name_to_number(&Path::new("/oldroot/random_123")),
        None
    );
    assert_eq!(path_file_name_to_number(&Path::new("/")), None);
    assert_eq!(path_file_name_to_number(&Path::new("/3/..")), None);
    assert_eq!(path_file_name_to_number(&Path::new("/3/oldroot")), None);
}

#[test]
fn first_generation_is_one() {
    assert_eq!(latest(&vec![]), 0);
    assert_eq!(find_target_path_number(&vec![]), Some(1));
}

#[test]
fn next_generation_follows_the_greatest() {
    assert_eq!(
        find_target_path_number(&vec![dir("0000000000000001")]),
        Some(2)
    );
    assert_eq!(
        find_target_path_number(&vec![
            dir("0000000000000007"),
            dir("0000000000000003"),
            dir("0000000000000005"),
        ]),
        Some(8)
    );
    assert_eq!(
        latest(&vec![dir("0000000000000003"), dir("0000000000000007")]),
        7
    );
}

#[test]
fn entries_that_stand_for_no_generation_do_not_count() {
    assert_eq!(
        find_target_path_number(&vec![dir("0000000000000001"), dir("random_123")]),
        Some(2)
    );
    assert_eq!(find_target_path_number(&vec![dir("random_123")]), Some(1));
    assert_eq!(
        find_target_path_number(&vec![dir("0000000000000001"), file("0000000000000009")]),
        Some(2)
    );
}

#[test]
fn generations_increase_by_one() {
    let mut listing = vec![dir("lost+found"), dir("0000000000000004")];
    for expected in 5..9 {
        let next = find_target_path_number(&listing).unwrap();
        assert_eq!(next, expected);
        listing.insert(0, dir(&generation_name(next)));
        listing.push(dir(&format!("note_{}", next)));
    }
}

#[test]
fn no_generation_after_the_greatest_number() {
    let max = usize::MAX.to_string();
    assert_eq!(latest(&vec![dir(&max)]), usize::MAX);
    assert_eq!(find_target_path_number(&vec![dir("1"), dir(&max)]), None);
    let below = (usize::MAX - 1).to_string();
    assert_eq!(
        find_target_path_number(&vec![dir(&below)]),
        Some(usize::MAX)
    );
}

#[test]
fn entries_have_single_names() {
    assert!(DirEntry::new("a/b", true).is_none());
    assert!(DirEntry::new("", false).is_none());
    assert!(DirEntry::new(".", true).is_none());
    let entry = DirEntry::new("etc", true).unwrap();
    assert_eq!(entry.name(), "etc");
    assert!(entry.is_dir());
    assert!(!DirEntry::new("passwd", false).unwrap().is_dir());
}
