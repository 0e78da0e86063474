use raytracer::{longest_axis, AxisKeys, Dim};

#[test]
fn axis_from_index_maps_numbers() {
    assert_eq!(Dim::from_index(0), Dim::X);
    assert_eq!(Dim::from_index(1), Dim::Y);
    assert_eq!(Dim::from_index(2), Dim::Z);
    assert_eq!(Dim::from_index(7), Dim::X);
}

#[test]
fn axis_index_round_trips() {
    for d in Dim::all() {
        assert_eq!(Dim::from_index(d.index() as u32), d);
    }
    assert_eq!(Dim::all(), [Dim::X, Dim::Y, Dim::Z]);
}

#[test]
fn axis_keys_get_each_axis() {
    let k = AxisKeys { x: 1, y: 2, z: 3 };
    assert_eq!(k.get(Dim::X), 1);
    assert_eq!(k.get(Dim::Y), 2);
    assert_eq!(k.get(Dim::Z), 3);
}

#[test]
fn longest_axis_picks_strictly_longest() {
    assert_eq!(longest_axis(&AxisKeys { x: 9, y: 2, z: 3 }), Dim::X);
    assert_eq!(longest_axis(&AxisKeys { x: 1, y: 9, z: 3 }), Dim::Y);
    assert_eq!(longest_axis(&AxisKeys { x: 1, y: 2, z: 9 }), Dim::Z);
}

#[test]
fn longest_axis_breaks_ties_toward_later_axis() {
    assert_eq!(longest_axis(&AxisKeys { x: 5, y: 5, z: 1 }), Dim::Y);
    assert_eq!(longest_axis(&AxisKeys { x: 5, y: 1, z: 5 }), Dim::Z);
    assert_eq!(longest_axis(&AxisKeys { x: 1, y: 5, z: 5 }), Dim::Z);
    assert_eq!(longest_axis(&AxisKeys { x: 4, y: 4, z: 4 }), Dim::Z);
}

#[test]
fn random_axis_is_one_of_three() {
    let mut seen = [false; 3];
    for _ in 0..300 {
        seen[Dim::random().index()] = true;
    }
    assert_eq!(seen, [true, true, true]);
}
