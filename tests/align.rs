use bistring::align::{unit_cost, Edit, Slice};
use bistring::{Alignment, Bounds, Endpoint};

fn r(a: usize, b: usize) -> Bounds {
    Bounds::range(a, b)
}

fn chars(s: &str) -> Vec<char> {
    s.chars().collect()
}

fn items(slice: &Slice<'_>) -> Vec<(usize, usize)> {
    slice.iter()
}

#[test]
fn test_empty() {
    let alignment = Alignment::identity(&[0]);

    assert_eq!(alignment.iter(), &[(0, 0)]);

    assert_eq!(alignment.original_range(), 0..0);
    assert_eq!(alignment.modified_range(), 0..0);

    assert_eq!(alignment.to_original_range(r(0, 0)), 0..0);
    assert_eq!(alignment.to_modified_range(r(0, 0)), 0..0);
}

#[test]
fn test_identity() {
    let alignment = Alignment::identity(&[1, 2, 3, 4, 5]);

    assert_eq!(
        alignment,
        Alignment::from_pairs(&[(1, 1), (2, 2), (3, 3), (4, 4), (5, 5)]),
    );

    assert_eq!(alignment.original_range(), 1..5);
    assert_eq!(alignment.modified_range(), 1..5);

    assert_eq!(alignment.to_original_range(r(2, 4)), 2..4);
    assert_eq!(alignment.to_modified_range(r(2, 4)), 2..4);
}

#[test]
fn test_aligning() {
    let alignment = Alignment::from_pairs(&[(0, 0), (1, 2), (2, 4), (3, 6)]);

    assert_eq!(alignment.original_range(), 0..3);
    assert_eq!(alignment.modified_range(), 0..6);

    assert_eq!(alignment.to_original_range(r(0, 0)), 0..0);
    assert_eq!(alignment.to_original_range(r(0, 1)), 0..1);
    assert_eq!(alignment.to_original_range(r(0, 2)), 0..1);
    assert_eq!(alignment.to_original_range(r(0, 3)), 0..2);
    assert_eq!(alignment.to_original_range(r(1, 1)), 0..1);
    assert_eq!(alignment.to_original_range(r(1, 3)), 0..2);
    assert_eq!(alignment.to_original_range(r(1, 4)), 0..2);
    assert_eq!(alignment.to_original_range(r(2, 2)), 1..1);
    assert_eq!(alignment.to_original_range(r(2, 4)), 1..2);
    assert_eq!(alignment.to_original_range(r(2, 5)), 1..3);
    assert_eq!(alignment.to_original_range(r(3, 3)), 1..2);

    assert_eq!(alignment.to_modified_range(r(0, 0)), 0..0);
    assert_eq!(alignment.to_modified_range(r(0, 1)), 0..2);
    assert_eq!(alignment.to_modified_range(r(0, 2)), 0..4);
    assert_eq!(alignment.to_modified_range(r(0, 3)), 0..6);
    assert_eq!(alignment.to_modified_range(r(1, 1)), 2..2);
    assert_eq!(alignment.to_modified_range(r(2, 2)), 4..4);
}

#[test]
fn test_slice() {
    let alignment = Alignment::from_pairs(&[(0, 0), (1, 2), (2, 4), (3, 6), (4, 8)]);

    let slice = alignment.slice(r(1, 4));
    assert_eq!(items(&slice), vec![(1, 2), (2, 4), (3, 6)]);
}

#[test]
fn test_canonicalization() {
    assert_eq!(
        Alignment::from_pairs(&[(0, 0), (1, 2), (1, 2), (2, 4)]),
        Alignment::from_pairs(&[(0, 0), (1, 2), (2, 4)]),
    );
}

fn check_composition(first: &Alignment, second: &Alignment) {
    let composed = first.compose(second);

    let ob = composed.original_range();
    let mb = composed.modified_range();

    assert_eq!(ob, first.original_range());
    assert_eq!(mb, second.modified_range());

    let (of, ol) = (ob.start, ob.end);
    let (mf, ml) = (mb.start, mb.end);

    for i in of..=ol {
        for j in i..=ol {
            let inner = first.to_modified_range(r(i, j));
            assert_eq!(
                composed.to_modified_range(r(i, j)),
                second.to_modified_range(r(inner.start, inner.end)),
            );
        }
    }

    for i in mf..=ml {
        for j in i..=ml {
            let inner = second.to_original_range(r(i, j));
            assert_eq!(
                composed.to_original_range(r(i, j)),
                first.to_original_range(r(inner.start, inner.end)),
            );
        }
    }
}

fn doubling(n: usize) -> Alignment {
    let pairs: Vec<(usize, usize)> = (0..=n).map(|i| (i, 2 * i)).collect();
    Alignment::from_pairs(&pairs)
}

#[test]
fn test_compose() {
    let first = doubling(3);
    let second = doubling(6);
    check_composition(&first, &second)
}

fn check_identity_composition(alignment: &Alignment) {
    let or = alignment.original_range();
    let oident: Vec<usize> = (or.start..=or.end).collect();
    let oident = Alignment::identity(&oident);
    check_composition(&oident, alignment);

    let mr = alignment.modified_range();
    let mident: Vec<usize> = (mr.start..=mr.end).collect();
    let mident = Alignment::identity(&mident);
    check_composition(alignment, &mident);
}

#[test]
fn test_compose_identity() {
    let alignment = Alignment::from_pairs(&[(0, 2), (2, 2), (4, 4), (6, 6), (8, 6)]);

    // Modified sequence is smaller
    check_identity_composition(&alignment);

    // Original sequence is smaller
    check_identity_composition(&alignment.inverse());
}

fn identity_upto(n: usize) -> Alignment {
    let ks: Vec<usize> = (0..=n).collect();
    Alignment::identity(&ks)
}

#[test]
fn test_infer() {
    assert_eq!(Alignment::infer(&chars("test"), &chars("test")), identity_upto(4));
    assert_eq!(Alignment::infer(&chars("asdf"), &chars("jkl;")), identity_upto(4));

    assert_eq!(
        Alignment::infer(&chars("color"), &chars("colour")),
        Alignment::from_pairs(&[(0, 0), (1, 1), (2, 2), (3, 3), (4, 4), (4, 5), (5, 6)]),
    );

    assert_eq!(
        Alignment::infer(&chars("color"), &chars("colour")),
        Alignment::infer(&chars("colour"), &chars("color")).inverse(),
    );

    assert_eq!(
        Alignment::infer(&chars("ab---"), &chars("ab")),
        Alignment::from_pairs(&[(0, 0), (1, 1), (2, 2), (3, 2), (4, 2), (5, 2)]),
    );
}

#[test]
fn coarse_mapping_widens() {
    let a = Alignment::from_pairs(&[(0, 0), (4, 5), (5, 6), (13, 13)]);
    assert_eq!(a.to_original_range(r(0, 5)), 0..4);
    assert_eq!(a.to_original_range(r(0, 2)), 0..4);
}

#[test]
fn fine_mapping_is_exact() {
    let a = Alignment::from_pairs(&[
        (0, 0), (1, 1), (2, 2), (4, 5), (5, 6), (6, 7), (7, 8),
        (8, 9), (9, 10), (10, 11), (11, 12), (12, 13), (13, 13),
    ]);
    assert_eq!(a.to_original_range(r(0, 2)), 0..2);
}

#[test]
fn inferred_alignment_maps_inserted_letter() {
    let a = Alignment::infer(&chars("color"), &chars("colour"));
    assert_eq!(a.to_original_range(r(3, 5)), 3..4);
    assert_eq!(Alignment::infer(&chars("color"), &chars("color")), identity_upto(5));
}

#[test]
fn endpoint_forms_of_range_mapping() {
    let pairs: Vec<(usize, usize)> = (0..=8).map(|i| (2 * i, i)).collect();
    let a = Alignment::from_pairs(&pairs);
    let inc = |x, y| Bounds::new(Endpoint::Included(x), Endpoint::Included(y));
    let from = |x| Bounds::new(Endpoint::Included(x), Endpoint::Unbounded);
    let upto = |y| Bounds::new(Endpoint::Unbounded, Endpoint::Included(y));

    assert_eq!(a.to_original_range(r(3, 5)), 6..10);
    assert_eq!(a.to_original_range(inc(3, 5)), 6..12);
    assert_eq!(a.to_original_range(from(3)), 6..16);
    assert_eq!(a.to_original_range(upto(5)), 0..12);

    assert_eq!(a.to_modified_range(r(6, 10)), 3..5);
    assert_eq!(a.to_modified_range(inc(6, 10)), 3..6);
    assert_eq!(a.to_modified_range(from(6)), 3..8);
    assert_eq!(a.to_modified_range(upto(10)), 0..6);
}

#[test]
fn identity_maps_ranges_to_themselves() {
    let a = identity_upto(8);
    assert_eq!(a.to_original_range(r(3, 5)), 3..5);
    assert_eq!(a.to_modified_range(r(3, 5)), 3..5);
}

#[test]
fn slices_by_original_and_modified() {
    let pairs: Vec<(usize, usize)> = (0..=5).map(|i| (i + 1, i)).collect();
    let a = Alignment::from_pairs(&pairs);
    assert_eq!(items(&a.slice_by_original(r(2, 4))), vec![(2, 1), (3, 2), (4, 3)]);
    assert_eq!(items(&a.slice_by_modified(r(1, 3))), vec![(2, 1), (3, 2), (4, 3)]);
}

#[test]
fn slice_clamps_into_requested_range() {
    let a = Alignment::from_pairs(&[(0, 0), (4, 5), (5, 6), (13, 13)]);
    let s = a.slice_by_modified(r(2, 8));
    assert_eq!(items(&s), vec![(0, 2), (4, 5), (5, 6), (13, 8)]);
    assert_eq!(s.len(), 4);
    assert_eq!(s.original_range(), 0..13);
    assert_eq!(s.modified_range(), 2..8);
    assert_eq!(items(&s.shifted_to_origin()), vec![(0, 0), (4, 3), (5, 4), (13, 6)]);
}

#[test]
fn shifting_moves_every_pair() {
    let a = Alignment::from_pairs(&[(2, 3), (4, 4), (6, 9)]);
    assert_eq!(items(&a.shifted(1, 2)), vec![(3, 5), (5, 6), (7, 11)]);
    assert_eq!(items(&a.shifted_to_origin()), vec![(0, 0), (2, 1), (4, 6)]);
    assert_eq!(items(&a.shifted(1, 2).shifted(-1, -2)), a.iter().to_vec());
}

#[test]
fn push_ignores_repeat_of_last_pair() {
    let mut a = Alignment::new();
    assert_eq!(a.len(), 0);
    a.push(0, 0);
    a.push(1, 2);
    a.push(1, 2);
    assert_eq!(a.len(), 2);
    assert_eq!(a.iter(), &[(0, 0), (1, 2)]);
}

#[test]
fn extend_pushes_each_pair() {
    let mut a = Alignment::from_pairs(&[(0, 0), (1, 1)]);
    a.extend(&[(1, 1), (2, 3), (4, 4)]);
    assert_eq!(a.iter(), &[(0, 0), (1, 1), (2, 3), (4, 4)]);
}

#[test]
fn inverse_swaps_and_involutes() {
    let a = Alignment::from_pairs(&[(0, 0), (1, 2), (2, 4), (3, 6)]);
    let inv = a.inverse();
    assert_eq!(inv.iter(), &[(0, 0), (2, 1), (4, 2), (6, 3)]);
    assert_eq!(inv.inverse(), a);
    assert_eq!(inv.to_original_range(r(0, 2)), a.to_modified_range(r(0, 2)));
}

#[test]
fn range_coverage_on_both_sides() {
    let a = Alignment::from_pairs(&[(0, 0), (1, 2), (2, 4), (3, 6)]);
    let m = a.modified_range();
    let o = a.original_range();
    assert_eq!(a.to_original_range(r(m.start, m.end)), o);
    assert_eq!(a.to_modified_range(r(o.start, o.end)), m);
}

#[test]
fn inference_is_symmetric_under_default_costs() {
    let x = chars("kitten");
    let y = chars("sitting");
    assert_eq!(Alignment::infer(&x, &y), Alignment::infer(&y, &x).inverse());
}

#[test]
fn inference_of_empty_sequences() {
    assert_eq!(Alignment::infer(&[], &[]), identity_upto(0));
    assert_eq!(
        Alignment::infer(&chars("ab"), &[]),
        Alignment::from_pairs(&[(0, 0), (1, 0), (2, 0)]),
    );
    assert_eq!(
        Alignment::infer(&[], &chars("ab")),
        Alignment::from_pairs(&[(0, 0), (0, 1), (0, 2)]),
    );
}

#[test]
fn inference_with_custom_costs() {
    // Replacements cost more than a deletion plus an insertion.
    let costly = |e: Edit<&char, &char>| match e {
        Edit::Replacement(t, u) => if t == u { 0 } else { 3 },
        _ => 1,
    };
    let a = Alignment::infer_with_costs(&chars("ab"), &chars("xb"), costly);
    assert_eq!(a.iter(), &[(0, 0), (1, 0), (1, 1), (2, 2)]);
    let plain = Alignment::infer(&chars("ab"), &chars("xb"));
    assert_eq!(plain.iter(), &[(0, 0), (1, 1), (2, 2)]);
}

#[test]
fn unit_cost_prices_edits() {
    assert_eq!(unit_cost(Edit::Replacement(&'a', &'a')), 0);
    assert_eq!(unit_cost(Edit::Replacement(&'a', &'b')), 1);
    assert_eq!(unit_cost(Edit::Deletion(&'a')), 1);
    assert_eq!(unit_cost(Edit::Insertion(&'a')), 1);
}

#[test]
fn edit_inverse_swaps_sides() {
    assert_eq!(Edit::<char, u8>::Replacement('a', 1).inverse(), Edit::Replacement(1, 'a'));
    assert_eq!(Edit::<char, u8>::Deletion('a').inverse(), Edit::Insertion('a'));
    assert_eq!(Edit::<char, u8>::Insertion(1).inverse(), Edit::Deletion(1));
}

#[test]
fn compose_chains_mappings() {
    let first = Alignment::from_pairs(&[(0, 0), (2, 1), (4, 3)]);
    let second = Alignment::from_pairs(&[(0, 0), (1, 2), (3, 3)]);
    let c = first.compose(&second);
    assert_eq!(c.original_range(), 0..4);
    assert_eq!(c.modified_range(), 0..3);
    check_composition(&first, &second);
}

#[test]
fn alignment_from_slice_view() {
    let a = Alignment::from_pairs(&[(0, 0), (4, 5), (5, 6), (13, 13)]);
    let s = a.slice_by_modified(r(2, 8)).shifted_to_origin();
    let b = Alignment::from_slice(&s);
    assert_eq!(b.iter(), &[(0, 0), (4, 3), (5, 4), (13, 6)]);
}

#[test]
fn slice_views_compare_by_shown_pairs() {
    let a = Alignment::from_pairs(&[(2, 3), (4, 4)]);
    let b = Alignment::from_pairs(&[(0, 0), (2, 1)]);
    assert_eq!(a.shifted_to_origin(), b.shifted(0, 0));
    assert_ne!(a.shifted(0, 0), b.shifted(0, 0));
}

#[test]
fn inference_over_other_item_types() {
    let words = ["the", "quick", "fox"];
    let lengths: [usize; 4] = [3, 5, 5, 3];
    // A word matches a length when it has that many letters.
    let a = Alignment::infer_with_costs(&words, &lengths, |e: Edit<&&str, &usize>| match e {
        Edit::Replacement(w, n) => if w.len() == *n { 0 } else { 2 },
        _ => 1,
    });
    assert_eq!(a.iter(), &[(0, 0), (1, 1), (1, 2), (2, 3), (3, 4)]);
}

#[test]
fn inferred_pairs_only_ever_grow() {
    let a = Alignment::infer(&chars("a bird in the hand"), &chars("two in the bush"));
    let pairs = a.iter();
    for k in 1..pairs.len() {
        assert!(pairs[k - 1].0 <= pairs[k].0 && pairs[k - 1].1 <= pairs[k].1);
        assert_ne!(pairs[k - 1], pairs[k]);
    }
    assert_eq!(pairs.first(), Some(&(0, 0)));
    assert_eq!(pairs.last(), Some(&(18, 15)));
}

#[test]
fn compose_skips_into_a_coarse_second_alignment() {
    let first = Alignment::from_pairs(&[(0, 0), (1, 1), (2, 3)]);
    let second = Alignment::from_pairs(&[(0, 0), (2, 5), (3, 6)]);
    let c = first.compose(&second);
    assert_eq!(c.iter(), &[(0, 0), (1, 5), (2, 6)]);
    assert_eq!(c.to_modified_range(r(1, 2)), 5..6);
    let inner = first.to_modified_range(r(1, 2));
    assert_eq!(second.to_modified_range(r(inner.start, inner.end)), 0..6);
}

#[test]
fn compose_with_identity_keeps_the_mapping_of_a_vertical_run() {
    let a = Alignment::from_pairs(&[(0, 0), (0, 1), (0, 2), (1, 3)]);
    let c = identity_upto(1).compose(&a);
    assert_eq!(c.iter(), &[(0, 0), (0, 2), (1, 3)]);
    for (i, j) in [(0, 0), (0, 1), (1, 1)] {
        assert_eq!(c.to_modified_range(r(i, j)), a.to_modified_range(r(i, j)));
    }
}

#[test]
fn range_coverage_with_a_flat_first_run() {
    let a = Alignment::from_pairs(&[(0, 0), (1, 0), (2, 1)]);
    assert_eq!(a.modified_range(), 0..1);
    assert_eq!(a.to_original_range(r(0, 1)), 1..2);
}

#[test]
fn shifted_to_origin_ignores_earlier_shifts() {
    let a = Alignment::from_pairs(&[(2, 3), (4, 4), (6, 9)]);
    let s = a.shifted(1, 0).shifted_to_origin();
    assert_eq!(items(&s), vec![(0, 0), (2, 1), (4, 6)]);
    let c = a.slice_by_modified(r(3, 5)).shifted(5, 5).shifted_to_origin();
    assert_eq!(items(&c).first(), Some(&(0, 0)));
}

#[test]
fn slice_by_empty_range_between_equal_pairs() {
    let a = Alignment::from_pairs(&[(0, 0), (1, 2), (2, 2), (3, 4)]);
    let s = a.slice_by_modified(r(2, 2));
    assert_eq!(s.len(), 0);
    assert_eq!(items(&s), vec![]);
}

#[test]
fn extend_drops_a_repeat_of_the_last_pair() {
    let mut a = Alignment::from_pairs(&[(0, 0), (1, 1)]);
    a.extend(&[(1, 1), (1, 1), (2, 2)]);
    assert_eq!(a, Alignment::from_pairs(&[(0, 0), (1, 1), (2, 2)]));
}

#[test]
fn inferred_alignment_has_the_lowest_unit_cost() {
    let x = chars("intention");
    let y = chars("execution");
    let a = Alignment::infer(&x, &y);
    let pairs = a.iter();
    let mut total = 0;
    for k in 1..pairs.len() {
        let (p, q) = (pairs[k - 1], pairs[k]);
        total += if q.0 == p.0 + 1 && q.1 == p.1 + 1 {
            unit_cost(Edit::Replacement(&x[p.0], &y[p.1]))
        } else if q.0 == p.0 + 1 {
            unit_cost(Edit::Deletion(&x[p.0]))
        } else {
            unit_cost(Edit::Insertion(&y[p.1]))
        };
    }
    assert_eq!(total, 5);
}

#[test]
fn identity_then_alignment_is_the_alignment() {
    let a = Alignment::from_pairs(&[(0, 2), (2, 2), (4, 4), (6, 6), (8, 6)]);
    assert_eq!(identity_upto(8).compose(&a), a);
    let b = Alignment::from_pairs(&[(0, 0), (0, 1), (1, 3), (3, 3), (3, 5)]);
    assert_eq!(identity_upto(3).compose(&b), b);
    assert_eq!(a.compose(&Alignment::identity(&[2, 3, 4, 5, 6])), a);
}
