use syl_elab::bound::{DriverBitRange, DriverBound};
use syl_elab::expr::{EirExpr, EirPlace};
use syl_elab::overlap::DriverPlaceOverlap;
use syl_elab::place::{
    DriverExpr, DriverObject, DriverObjectTable, DriverPlace, DriverPlaceError, DriverPlaceResolver,
    ObjectId,
};

#[test]
fn driver_expr_rejects_unsupported_eir_expr() {
    let expr = EirExpr::mux(
        EirExpr::ident("cond"),
        EirExpr::unsupported("bad branch"),
        EirExpr::Int(0),
    );

    assert!(DriverExpr::from_eir_expr(&expr).is_err());
}

#[test]
fn place_resolver_rejects_unsupported_projection_index() {
    let mut objects = DriverObjectTable::new();
    objects.intern("Top", "word");
    let resolver = DriverPlaceResolver::new("Top", &objects);
    let place = EirPlace::Index {
        base: Box::new(EirPlace::Ident("word".to_string())),
        index: EirExpr::unsupported("bad index"),
    };

    assert!(resolver.resolve_place(&place).is_err());
}

#[test]
fn place_resolver_rejects_unknown_ident() {
    let objects = DriverObjectTable::new();
    let resolver = DriverPlaceResolver::new("Top", &objects);
    let place = EirPlace::Ident("missing".to_string());

    let error = resolver
        .resolve_place(&place)
        .expect_err("unknown EIR place root must not become a string fallback");

    assert_eq!(
        error,
        DriverPlaceError::UnknownObject {
            module: "Top".to_string(),
            name: "missing".to_string()
        }
    );
}

#[test]
fn unknown_slice_bounds_are_conservative() {
    let left = DriverPlace::Slice {
        base: Box::new(DriverPlace::Ident("word".to_string())),
        range: DriverBitRange::new("0", "HI"),
    };
    let right = DriverPlace::Slice {
        base: Box::new(DriverPlace::Ident("word".to_string())),
        range: DriverBitRange::new("4", "7"),
    };

    assert!(DriverPlaceOverlap::new(&left, &right).may_overlap());
}

#[test]
fn arithmetic_slice_bounds_resolve_before_overlap_check() {
    let computed_bit_zero = DriverPlace::Slice {
        base: Box::new(DriverPlace::Ident("rsp".to_string())),
        range: DriverBitRange::new("0", "(0) + (1) - 1"),
    };
    let literal_bit_one = DriverPlace::Slice {
        base: Box::new(DriverPlace::Ident("rsp".to_string())),
        range: DriverBitRange::new("1", "1"),
    };

    assert!(!computed_bit_zero.overlaps(&literal_bit_one));
}

#[test]
fn symbolic_high_with_known_low_can_be_disjoint() {
    let generic_upper_field = DriverPlace::Slice {
        base: Box::new(DriverPlace::Ident("rsp".to_string())),
        range: DriverBitRange::new("(0) + (1)", "((0) + (1)) + (W) - 1"),
    };
    let literal_bit_zero = DriverPlace::Slice {
        base: Box::new(DriverPlace::Ident("rsp".to_string())),
        range: DriverBitRange::new("0", "(0) + (1) - 1"),
    };

    assert!(!generic_upper_field.overlaps(&literal_bit_zero));
}

#[test]
fn adjacent_symbolic_field_slices_are_disjoint() {
    let lower_field = DriverPlace::Slice {
        base: Box::new(DriverPlace::Ident("pair".to_string())),
        range: DriverBitRange::new("0", "(0) + (W) - 1"),
    };
    let upper_field = DriverPlace::Slice {
        base: Box::new(DriverPlace::Ident("pair".to_string())),
        range: DriverBitRange::new("(0) + (W)", "((0) + (W)) + (W) - 1"),
    };

    assert!(!lower_field.overlaps(&upper_field));
    assert!(!upper_field.overlaps(&lower_field));
}

#[test]
fn intersecting_symbolic_field_slices_remain_conservative() {
    let left = DriverPlace::Slice {
        base: Box::new(DriverPlace::Ident("word".to_string())),
        range: DriverBitRange::new("0", "(0) + (W) - 1"),
    };
    let right = DriverPlace::Slice {
        base: Box::new(DriverPlace::Ident("word".to_string())),
        range: DriverBitRange::new("(W) - 1", "((W) - 1) + (4) - 1"),
    };

    assert!(left.overlaps(&right));
    assert!(right.overlaps(&left));
}

#[test]
fn object_identity_distinguishes_equal_display_names() {
    let first = DriverPlace::Object(DriverObject::new(ObjectId::new(1), "bus"));
    let second = DriverPlace::Object(DriverObject::new(ObjectId::new(2), "bus"));

    assert_eq!(first.display(), second.display());
    assert!(!first.overlaps(&second));
}

#[test]
fn static_indexed_part_and_slice_can_be_disjoint() {
    let part = DriverPlace::IndexedPartSelect {
        base: Box::new(DriverPlace::Ident("word".to_string())),
        index: DriverExpr::Int(0),
        width: DriverBound::new("4"),
    };
    let slice = DriverPlace::Slice {
        base: Box::new(DriverPlace::Ident("word".to_string())),
        range: DriverBitRange::new("4", "7"),
    };

    assert!(!part.overlaps(&slice));
    assert!(!slice.overlaps(&part));
}

#[test]
fn static_indexed_part_and_slice_overlap_when_ranges_intersect() {
    let part = DriverPlace::IndexedPartSelect {
        base: Box::new(DriverPlace::Ident("word".to_string())),
        index: DriverExpr::Int(1),
        width: DriverBound::new("4"),
    };
    let slice = DriverPlace::Slice {
        base: Box::new(DriverPlace::Ident("word".to_string())),
        range: DriverBitRange::new("6", "9"),
    };

    assert!(part.overlaps(&slice));
    assert!(slice.overlaps(&part));
}
