use bistring::{Alignment, BiString, Bounds, Endpoint};

fn concat_example() -> BiString {
    let mut bs = BiString::chunk("  ", "");
    bs.push_str("Hello");
    bs.push_bistr(&BiString::chunk("  ", " "));
    bs.push_str("world!");
    bs.push_bistr(&BiString::chunk("  ", ""));
    bs
}

#[test]
fn owned_test_concat() {
    let bs = concat_example();

    assert_eq!(bs.original(), "  Hello  world!  ");
    assert_eq!(bs.modified(), "Hello world!");
}

#[test]
fn slice_test_concat() {
    let bs = concat_example();

    let mut slice = bs.slice(Bounds::full());
    slice = slice.index(Endpoint::Unbounded, Endpoint::Unbounded);
    assert_eq!(slice.original(), "  Hello  world!  ");
    assert_eq!(slice.modified(), "Hello world!");

    slice = slice.index(Endpoint::Included(4), Endpoint::Excluded(7));
    assert_eq!(slice.original(), "o  w");
    assert_eq!(slice.modified(), "o w");

    let mut expected = BiString::from_string("o");
    expected.push_bistr(&BiString::chunk("  ", " "));
    expected.push_str("w");
    let whole = expected.slice(Bounds::full());
    assert_eq!(slice.original(), whole.original());
    assert_eq!(slice.modified(), whole.modified());
    assert_eq!(slice.alignment(), whole.alignment());
    assert_eq!(slice.to_owned(), expected);
    assert!(slice.equals(&whole));

    slice = slice.index(Endpoint::Included(1), Endpoint::Excluded(2));
    assert_eq!(slice.original(), "  ");
    assert_eq!(slice.modified(), " ");
}

#[test]
fn new_keeps_its_parts() {
    let a = Alignment::from_pairs(&[(0, 0), (4, 5), (5, 6), (13, 13)]);
    let bs = BiString::new("it's aligned!".to_string(), "it is aligned".to_string(), a.duplicate());
    assert_eq!(bs.original(), "it's aligned!");
    assert_eq!(bs.modified(), "it is aligned");
    assert_eq!(bs.alignment(), &a);
    let s = bs.slice(Bounds::range(0, 5));
    assert_eq!(s.original(), "it's");
    assert_eq!(s.modified(), "it is");
    assert_eq!(s.range(), 0..5);
}

#[test]
fn chunk_aligns_the_ends() {
    let bs = BiString::chunk("ab", "xyz");
    assert_eq!(bs.alignment().iter(), &[(0, 0), (2, 3)]);
    let empty = BiString::chunk("", "");
    assert_eq!(empty.alignment().iter(), &[(0, 0)]);
}

#[test]
fn from_string_aligns_char_boundaries() {
    let bs = BiString::from_string("aé");
    assert_eq!(bs.original(), "aé");
    assert_eq!(bs.modified(), "aé");
    assert_eq!(bs.alignment().iter(), &[(0, 0), (1, 1), (3, 3)]);
}

#[test]
fn push_str_extends_byte_by_byte() {
    let mut bs = BiString::chunk("ab", "x");
    bs.push_str("cd");
    assert_eq!(bs.original(), "abcd");
    assert_eq!(bs.modified(), "xcd");
    assert_eq!(bs.alignment().iter(), &[(0, 0), (2, 1), (3, 2), (4, 3)]);
}

#[test]
fn push_bistr_grows_both_lengths() {
    let mut a = BiString::chunk("abc", "de");
    let b = BiString::chunk("fg", "hij");
    a.push_bistr(&b);
    assert_eq!(a.original().len(), 5);
    assert_eq!(a.modified().len(), 5);
    assert_eq!(a.alignment().iter().last(), Some(&(5, 5)));
    assert_eq!(a.alignment().iter(), &[(0, 0), (3, 2), (5, 5)]);
}

#[test]
fn ascii_case_changes_only_modified_side() {
    let lower = BiString::from_string("HELLO WORLD").to_ascii_lowercase();
    assert_eq!(lower.original(), "HELLO WORLD");
    assert_eq!(lower.modified(), "hello world");
    let s = lower.slice(Bounds::range(1, 4));
    assert_eq!(s.original(), "ELL");
    assert_eq!(s.modified(), "ell");

    let upper = BiString::from_string("héllo").to_ascii_uppercase();
    assert_eq!(upper.original(), "héllo");
    assert_eq!(upper.modified(), "HéLLO");
    assert_eq!(upper.alignment(), BiString::from_string("héllo").alignment());
}

#[test]
fn slice_alignment_starts_at_origin() {
    let bs = concat_example();
    let s = bs.slice(Bounds::range(4, 7));
    assert_eq!(s.alignment().iter(), vec![(0, 0), (1, 1), (3, 2), (4, 3)]);
}

#[test]
fn view_to_owned_keeps_its_triplet() {
    let bs = concat_example();
    let owned = bs.slice(Bounds::range(4, 7)).to_owned();
    assert_eq!(owned.original(), "o  w");
    assert_eq!(owned.modified(), "o w");
    assert_eq!(owned.alignment().iter(), &[(0, 0), (1, 1), (3, 2), (4, 3)]);
    assert_eq!(bs.slice(Bounds::full()).to_owned(), bs);
}

#[test]
fn bistring_equality_compares_all_parts() {
    assert_eq!(BiString::chunk("a", "b"), BiString::chunk("a", "b"));
    assert_ne!(BiString::chunk("a", "b"), BiString::chunk("a", "c"));
    assert_ne!(BiString::from_string("ab"), BiString::chunk("ab", "ab"));
}

#[test]
fn views_differ_when_an_alignment_differs() {
    let fine = BiString::from_string("ab");
    let coarse = BiString::chunk("ab", "ab");
    assert!(fine.slice(Bounds::full()).equals(&fine.slice(Bounds::full())));
    assert!(!fine.slice(Bounds::full()).equals(&coarse.slice(Bounds::full())));
    assert!(!fine.slice(Bounds::range(0, 1)).equals(&fine.slice(Bounds::range(1, 2))));
}
