use renumber::extract::extract_index_from_file_name;
use renumber::keys::KeyOrder;
use renumber::IndexedFileName;

#[test]
fn no_leading_group_returns_none() {
    assert!(extract_index_from_file_name("readme.md").is_none());
    assert!(extract_index_from_file_name("42").is_none());
    assert!(extract_index_from_file_name("abc.txt").is_none());
    assert!(extract_index_from_file_name("").is_none());
}

#[test]
fn single_group() {
    let e = extract_index_from_file_name("3-foo.txt").unwrap();
    assert_eq!(e.indices, vec![3u32]);
    assert_eq!(e.name, "foo.txt");
}

#[test]
fn empty_group_is_zero() {
    let e = extract_index_from_file_name("-foo.txt").unwrap();
    assert_eq!(e.indices, vec![0u32]);
    assert_eq!(e.name, "foo.txt");
}

#[test]
fn two_groups() {
    let e = extract_index_from_file_name("1-2-bar").unwrap();
    assert_eq!(e.indices, vec![1u32, 2u32]);
    assert_eq!(e.name, "bar");
}

#[test]
fn unclosed_first_group_returns_none() {
    assert!(extract_index_from_file_name("10x-bar").is_none());
}

#[test]
fn unclosed_trailing_group_is_discarded() {
    let e = extract_index_from_file_name("1-2").unwrap();
    assert_eq!(e.indices, vec![1u32]);
    assert_eq!(e.name, "2");
}

#[test]
fn residual_may_hold_digits_and_separators() {
    let e = extract_index_from_file_name("5-2x-y").unwrap();
    assert_eq!(e.indices, vec![5u32]);
    assert_eq!(e.name, "2x-y");
}

#[test]
fn residual_starts_after_last_closed_group() {
    let e = extract_index_from_file_name("5-2-x").unwrap();
    assert_eq!(e.indices, vec![5u32, 2u32]);
    assert_eq!(e.name, "x");
}

#[test]
fn digits_only_name_with_trailing_separator() {
    let e = extract_index_from_file_name("7-").unwrap();
    assert_eq!(e.indices, vec![7u32]);
    assert_eq!(e.name, "");
}

#[test]
fn oversized_group_saturates() {
    let e = extract_index_from_file_name("99999999999-x").unwrap();
    assert_eq!(e.indices, vec![u32::MAX]);
    assert_eq!(e.name, "x");
}

#[test]
fn multi_digit_group_accumulates_base_ten() {
    let e = extract_index_from_file_name("2048-data.bin").unwrap();
    assert_eq!(e.indices, vec![2048u32]);
    assert_eq!(e.name, "data.bin");
}

#[test]
fn cmp_compares_component_wise() {
    let a = IndexedFileName { indices: vec![1, 2], name: String::from("a") };
    let b = IndexedFileName { indices: vec![1, 3], name: String::from("b") };
    assert_eq!(a.cmp(&b), KeyOrder::Less);
    assert_eq!(b.cmp(&a), KeyOrder::Greater);
}

#[test]
fn cmp_shorter_prefix_sorts_first() {
    let a = IndexedFileName { indices: vec![1], name: String::from("zzz") };
    let b = IndexedFileName { indices: vec![1, 0], name: String::from("aaa") };
    assert_eq!(a.cmp(&b), KeyOrder::Less);
    assert_eq!(b.cmp(&a), KeyOrder::Greater);
}

#[test]
fn cmp_ignores_residual_names() {
    let a = IndexedFileName { indices: vec![4], name: String::from("zzz") };
    let b = IndexedFileName { indices: vec![4], name: String::from("aaa") };
    assert_eq!(a.cmp(&b), KeyOrder::Equal);
}
