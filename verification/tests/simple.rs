use numeric_lut::lut;
use numeric_lut::parse::{parse, LutError};

fn sum_body(v: Vec<usize>) -> u32 {
    (v[0] + v[1]) as u32
}

#[test]
fn normal_access() {
    let table = lut(b"|x @ 0..8, y @ 0..16| -> u32 { x + y }", &sum_body).unwrap();
    let x = *table.get(&vec![3, 10]);
    assert_eq!(13, x);
}

#[test]
fn normal_access_all() {
    let table = lut(b"|x @ 0..8, y @ 0..16| -> u32 { x + y }", &sum_body).unwrap();

    for x in 0..8 {
        for y in 0..16 {
            let r = *table.get(&vec![x, y]);
            assert_eq!((x + y) as u32, r);
        }
    }
}

#[test]
fn normal_access_inclusive() {
    let table = lut(b"|x @ 0..=8, y @ 0..=16| -> u32 { x + y }", &sum_body).unwrap();
    let x = *table.get(&vec![8, 16]);
    assert_eq!(24, x);
}

#[test]
fn normal_access_inclusive_all() {
    let table = lut(b"|x @ 0..=8, y @ 0..=16| -> u32 { x + y }", &sum_body).unwrap();

    for x in 0..=8 {
        for y in 0..=16 {
            let r = *table.get(&vec![x, y]);
            assert_eq!((x + y) as u32, r);
        }
    }
}

#[test]
#[should_panic]
fn out_of_bounds() {
    let table = lut(b"|x @ 0..8, y @ 0..16| -> u32 { x + y }", &sum_body).unwrap();
    table.get(&vec![10, 3]);
}

#[test]
fn two_parameter_scenario_shape() {
    let table = lut(b"|x @ 0..8, y @ 0..16| -> u32 { x + y }", &sum_body).unwrap();
    assert_eq!(vec![8, 16], table.shape());
    assert_eq!(128, table.size());
    assert_eq!(0, *table.get(&vec![0, 0]));
    assert_eq!(13, *table.get(&vec![3, 10]));
    assert_eq!(22, *table.get(&vec![7, 15]));
    assert!(table.get_checked(&vec![8, 0]).is_none());
}

#[test]
fn inclusive_scenario_shape() {
    let table = lut(b"|x @ 0..=8, y @ 0..=16| -> u32 { x + y }", &sum_body).unwrap();
    assert_eq!(vec![9, 17], table.shape());
    assert_eq!(153, table.size());
    assert_eq!(24, *table.get(&vec![8, 16]));
}

#[test]
fn boundary_exclusive_vs_inclusive() {
    let identity = |v: Vec<usize>| v[0];
    let exclusive = lut(b"|x @ 0..4| -> usize { x }", &identity).unwrap();
    assert_eq!(4, exclusive.size());
    for i in 0..4 {
        assert_eq!(i, *exclusive.get_checked(&vec![i]).unwrap());
    }
    assert!(exclusive.get_checked(&vec![4]).is_none());

    let inclusive = lut(b"|x @ 0..=4| -> usize { x }", &identity).unwrap();
    assert_eq!(5, inclusive.size());
    for i in 0..=4 {
        assert_eq!(i, *inclusive.get_checked(&vec![i]).unwrap());
    }
    assert!(inclusive.get_checked(&vec![5]).is_none());
}

#[test]
fn checked_lookup_detects_out_of_range() {
    let table = lut(b"|x @ 2..5, y @ 0..=3| -> usize { x * y }", &|v: Vec<usize>| {
        v[0] * v[1]
    })
    .unwrap();
    assert_eq!(vec![3, 4], table.shape());
    assert_eq!(9, *table.get_checked(&vec![1, 3]).unwrap());
    assert!(table.get_checked(&vec![3, 4]).is_none());
    assert!(table.get_checked(&vec![7, 0]).is_none());
    assert!(table.get_checked(&vec![0]).is_none());
    assert!(table.get_checked(&vec![0, 0, 0]).is_none());
}

#[test]
fn order_sensitivity() {
    let body_xy = |v: Vec<usize>| 10 * v[0] + v[1];
    let body_yx = |v: Vec<usize>| 10 * v[1] + v[0];
    let table_xy = lut(b"|x @ 0..3, y @ 5..9| -> usize { 10 * x + y }", &body_xy).unwrap();
    let table_yx = lut(b"|y @ 5..9, x @ 0..3| -> usize { 10 * x + y }", &body_yx).unwrap();
    assert_eq!(vec![3, 4], table_xy.shape());
    assert_eq!(vec![4, 3], table_yx.shape());
    for a in 0..3 {
        for b in 0..4 {
            assert_eq!(table_xy.get(&vec![a, b]), table_yx.get(&vec![b, a]));
        }
    }
}

#[test]
fn lower_bound_offsets_values() {
    let table = lut(b"|x @ 5..8| -> usize { x }", &|v: Vec<usize>| v[0]).unwrap();
    assert_eq!(3, table.size());
    assert_eq!(5, *table.get(&vec![0]));
    assert_eq!(7, *table.get(&vec![2]));
}

#[test]
fn degenerate_empty_parameter_list() {
    let table = lut(b"|| -> u32 { 5 }", &|_v: Vec<usize>| 5u32).unwrap();
    assert_eq!(1, table.size());
    assert_eq!(0, table.shape().len());
    assert_eq!(5, *table.get(&vec![]));
}

#[test]
fn rejects_inverted_range() {
    let r = parse(b"|x @ 1..2, y @ 8..0| -> u32 { x + y }");
    assert!(matches!(r, Err(LutError::InvertedRange { lo: 8, hi: 0, .. })));
}

#[test]
fn rejects_inverted_range_before_building() {
    let r = lut(b"|x @ 1..2, y @ 8..0| -> u32 { x + y }", &sum_body);
    assert!(matches!(r, Err(LutError::InvertedRange { lo: 8, hi: 0, .. })));
}

#[test]
fn rejects_missing_range() {
    let r = parse(b"|x| -> u32 { 1 }");
    assert!(matches!(r, Err(LutError::MissingRange { at: 1 })));
}

#[test]
fn rejects_non_literal_bound() {
    let r = parse(b"|x @ 0..n| -> u32 { x }");
    assert!(matches!(r, Err(LutError::NonLiteralBound { .. })));
    let r = parse(b"|x @ n..3| -> u32 { x }");
    assert!(matches!(r, Err(LutError::NonLiteralBound { .. })));
}

#[test]
fn rejects_non_identifier_pattern() {
    let r = parse(b"|7 @ 0..3| -> u32 { 0 }");
    assert!(matches!(r, Err(LutError::PatternShape { .. })));
    let r = parse(b"|x @ 5| -> u32 { 0 }");
    assert!(matches!(r, Err(LutError::PatternShape { .. })));
}

#[test]
fn rejects_empty_exclusive_range() {
    let r = parse(b"|x @ 1..1| -> u32 { 0 }");
    assert!(matches!(r, Err(LutError::EmptyRange { lo: 1, .. })));
}

#[test]
fn rejects_oversized_bound() {
    let r = parse(b"|x @ 0..99999999999999999999999| -> u32 { 0 }");
    assert!(matches!(r, Err(LutError::BoundTooLarge { .. })));
}

#[test]
fn rejects_structural_faults() {
    assert!(matches!(
        parse(b"x @ 0..2| -> u32 { x }"),
        Err(LutError::Malformed { .. })
    ));
    assert!(matches!(
        parse(b"|x @ 0..2| u32 { x }"),
        Err(LutError::Malformed { .. })
    ));
    assert!(matches!(
        parse(b"|x @ 0..2| -> { x }"),
        Err(LutError::Malformed { .. })
    ));
    assert!(matches!(
        parse(b"|x @ 0..2| -> u32 { x "),
        Err(LutError::Malformed { .. })
    ));
    assert!(matches!(
        parse(b"|x @ 0..2| -> u32 { x } trailing"),
        Err(LutError::Malformed { .. })
    ));
    assert!(matches!(parse(b""), Err(LutError::Malformed { .. })));
}

#[test]
fn captures_fragments_verbatim() {
    let spec = parse(b"|x @ 0..8, y @ 0..16| -> u32 { x + y }").unwrap();
    assert_eq!(2, spec.params.len());
    assert_eq!(b"x".to_vec(), spec.params[0].name);
    assert_eq!(b"y".to_vec(), spec.params[1].name);
    assert_eq!(0, spec.params[0].lo);
    assert_eq!(8, spec.params[0].hi);
    assert!(spec.params[0].exclusive_end);
    assert!(!parse(b"|x @ 0..=8| -> u32 { x }").unwrap().params[0].exclusive_end);
    assert_eq!(b"u32".to_vec(), spec.return_type);
    assert_eq!(b"{ x + y }".to_vec(), spec.body);
}

#[test]
fn nested_braces_in_body() {
    let spec = parse(b"|x @ 0..2| -> u32 { let y = { x }; y }").unwrap();
    assert_eq!(b"{ let y = { x }; y }".to_vec(), spec.body);
}

#[test]
fn tolerates_trailing_comma() {
    let table = lut(b"|x @ 0..2,| -> usize { x }", &|v: Vec<usize>| v[0]).unwrap();
    assert_eq!(2, table.size());
    assert_eq!(1, *table.get(&vec![1]));
}

#[test]
fn tolerates_loose_whitespace() {
    let table = lut(b"  | x @ 1 ..= 3 , y @ 0 .. 2 |  ->  u32  { x + y }  ", &sum_body)
        .unwrap();
    assert_eq!(vec![3, 2], table.shape());
    assert_eq!(4, *table.get(&vec![2, 1]));
}

#[test]
fn enumeration_is_row_major() {
    let spec = parse(b"|x @ 0..2, y @ 0..3| -> usize { 0 }").unwrap();
    let tuples = numeric_lut::table::enumerate_values(&spec.params);
    let flat: Vec<Vec<usize>> = tuples;
    assert_eq!(6, flat.len());
    assert_eq!(vec![0, 0], flat[0]);
    assert_eq!(vec![0, 1], flat[1]);
    assert_eq!(vec![0, 2], flat[2]);
    assert_eq!(vec![1, 0], flat[3]);
    assert_eq!(vec![1, 1], flat[4]);
    assert_eq!(vec![1, 2], flat[5]);
}

#[test]
fn rejects_oversized_table() {
    let r = lut(
        b"|x @ 0..4294967296, y @ 0..4294967296| -> u32 { 0 }",
        &|_v: Vec<usize>| 0u32,
    );
    assert!(matches!(r, Err(LutError::TableTooLarge)));
}

#[test]
fn rejects_wildcard_parameter() {
    let r = parse(b"|_ @ 0..3| -> u32 { 0 }");
    assert!(matches!(r, Err(LutError::PatternShape { at: 1 })));
    let r = parse(b"|x @ 0..2, _ @ 0..3| -> u32 { 0 }");
    assert!(matches!(r, Err(LutError::PatternShape { at: 11 })));
}

#[test]
fn accepts_underscore_prefixed_name() {
    let spec = parse(b"|_foo @ 0..2| -> u32 { 0 }").unwrap();
    assert_eq!(b"_foo".to_vec(), spec.params[0].name);
}

#[test]
fn rejects_float_endpoint_as_non_literal() {
    let r = parse(b"|x @ 0.5..2| -> u32 { 0 }");
    assert!(matches!(r, Err(LutError::NonLiteralBound { at: 5 })));
    let r = parse(b"|x @ 0..2.5| -> u32 { 0 }");
    assert!(matches!(r, Err(LutError::NonLiteralBound { at: 8 })));
}

#[test]
fn rejects_non_range_subpattern_at_its_start() {
    let r = parse(b"|x @ 5| -> u32 { 0 }");
    assert!(matches!(r, Err(LutError::PatternShape { at: 5 })));
    let r = parse(b"|x @ (1, 2)| -> u32 { 0 }");
    assert!(matches!(r, Err(LutError::PatternShape { at: 5 })));
}
