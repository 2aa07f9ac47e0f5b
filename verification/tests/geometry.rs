use construct_core::mcstructure::geometry::{BoundingBox, Coord, Size};

#[test]
fn the_index_order_is_zyx() {
    // From docs/bedrock-mcstructure-files.md: index = SZ*SY*X + SZ*Y + Z.
    // A 2x3x4 structure: z varies fastest, then y, then x.
    let s = Size { x: 2, y: 3, z: 4 };
    assert_eq!(s.index_of(Coord { x: 0, y: 0, z: 0 }), Some(0));
    assert_eq!(s.index_of(Coord { x: 0, y: 0, z: 1 }), Some(1));
    assert_eq!(s.index_of(Coord { x: 0, y: 1, z: 0 }), Some(4));
    assert_eq!(s.index_of(Coord { x: 1, y: 0, z: 0 }), Some(12));
    assert_eq!(s.index_of(Coord { x: 1, y: 2, z: 3 }), Some(23));
}

#[test]
fn every_index_round_trips_through_coordinates() {
    let s = Size { x: 3, y: 5, z: 7 };
    for i in 0..s.volume() as usize {
        let c = s.coord_of(i).expect("index inside the volume must convert");
        assert_eq!(s.index_of(c), Some(i), "index {i} did not round-trip");
    }
}

#[test]
fn coordinates_outside_the_size_have_no_index() {
    let s = Size { x: 2, y: 2, z: 2 };
    assert_eq!(s.index_of(Coord { x: 2, y: 0, z: 0 }), None);
    assert_eq!(s.index_of(Coord { x: 0, y: -1, z: 0 }), None);
    assert_eq!(s.coord_of(8), None);
}

#[test]
fn a_bounding_box_spans_origin_to_origin_plus_size() {
    let b = BoundingBox::of(Coord { x: 10, y: 0, z: -5 }, Size { x: 2, y: 3, z: 4 });
    assert_eq!(b.min, Coord { x: 10, y: 0, z: -5 });
    assert_eq!(b.max_exclusive, Coord { x: 12, y: 3, z: -1 });
    assert_eq!(b.size(), Size { x: 2, y: 3, z: 4 });
}

#[test]
fn a_union_covers_every_box_including_negative_coordinates() {
    let a = BoundingBox::of(Coord { x: 0, y: 0, z: 0 }, Size { x: 2, y: 2, z: 2 });
    let b = BoundingBox::of(Coord { x: -3, y: 5, z: 1 }, Size { x: 1, y: 1, z: 1 });
    let u = BoundingBox::union(&[a, b]).unwrap();
    assert_eq!(u.min, Coord { x: -3, y: 0, z: 0 });
    assert_eq!(u.max_exclusive, Coord { x: 2, y: 6, z: 2 });
    assert_eq!(u.size(), Size { x: 5, y: 6, z: 2 });
}

#[test]
fn a_union_of_nothing_is_nothing() {
    assert_eq!(BoundingBox::union(&[]), None);
}

#[test]
fn a_volume_that_overflows_i32_is_still_computed_in_i64() {
    // 2000^3 is 8e9, far past i32. Sizes come from a file we did not write,
    // so the arithmetic must not wrap silently.
    let s = Size {
        x: 2000,
        y: 2000,
        z: 2000,
    };
    assert_eq!(s.volume(), 8_000_000_000);
}

#[test]
fn a_size_with_max_dimensions_saturates_volume_and_index_doesnt_panic() {
    // i32::MAX^3 = 9.9×10²⁷ far exceeds i64::MAX = 9.2×10¹⁸.
    // volume() must saturate to i64::MAX, and index_of() must not panic.
    let s = Size {
        x: i32::MAX,
        y: i32::MAX,
        z: i32::MAX,
    };
    assert_eq!(s.volume(), i64::MAX);
    // Test that index_of on an in-range coordinate either returns None or
    // a correct value, but does not panic.
    let result = s.index_of(Coord { x: 0, y: 0, z: 0 });
    // With i32::MAX dimensions, the coordinate (0,0,0) is in range and
    // should produce index 0.
    assert_eq!(result, Some(0));
}

#[test]
fn a_bounding_box_spanning_extreme_coordinates_saturates_size_and_doesnt_panic() {
    // i32::MAX - i32::MIN = 4294967295, which overflows i32::MAX.
    // size() must use saturating_sub to avoid panic.
    let b = BoundingBox {
        min: Coord {
            x: i32::MIN,
            y: i32::MIN,
            z: i32::MIN,
        },
        max_exclusive: Coord {
            x: i32::MAX,
            y: i32::MAX,
            z: i32::MAX,
        },
    };
    let size = b.size();
    // With saturating_sub, each dimension saturates to i32::MAX.
    assert_eq!(size.x, i32::MAX);
    assert_eq!(size.y, i32::MAX);
    assert_eq!(size.z, i32::MAX);
}

#[test]
fn a_size_with_negative_dimensions_has_zero_volume_and_rejects_all_coordinates() {
    // Negative dimensions are invalid but must not panic.
    // volume() treats them as 0 (via .max(0)).
    // index_of() rejects all coordinates via the boundary guard.
    let s = Size { x: -5, y: 3, z: 2 };
    assert_eq!(s.volume(), 0);
    assert_eq!(s.index_of(Coord { x: 0, y: 0, z: 0 }), None);
    assert_eq!(s.index_of(Coord { x: 1, y: 1, z: 1 }), None);
}
