use raytracer::{nearest, offer, search_bound, Hit};

#[test]
fn nearest_picks_smallest_key() {
    let hits = vec![
        Hit { prim: 0, key: 50 },
        Hit { prim: 1, key: 20 },
        Hit { prim: 2, key: 30 },
    ];
    assert_eq!(nearest(&hits, 100), Some(Hit { prim: 1, key: 20 }));
}

#[test]
fn nearest_ignores_hits_at_or_past_limit() {
    let hits = vec![Hit { prim: 0, key: 100 }, Hit { prim: 1, key: 150 }];
    assert_eq!(nearest(&hits, 100), None);
    let hits = vec![Hit { prim: 0, key: 150 }, Hit { prim: 1, key: 99 }];
    assert_eq!(nearest(&hits, 100), Some(Hit { prim: 1, key: 99 }));
}

#[test]
fn nearest_keeps_first_of_equal_hits() {
    let hits = vec![
        Hit { prim: 3, key: 7 },
        Hit { prim: 4, key: 7 },
        Hit { prim: 5, key: 9 },
    ];
    assert_eq!(nearest(&hits, 10), Some(Hit { prim: 3, key: 7 }));
}

#[test]
fn nearest_of_nothing_is_none() {
    assert_eq!(nearest(&Vec::new(), 10), None);
}

#[test]
fn offer_shrinks_the_bound() {
    let limit = 1000;
    assert_eq!(search_bound(None, limit), 1000);
    let best = offer(None, limit, Hit { prim: 0, key: 400 });
    assert_eq!(best, Some(Hit { prim: 0, key: 400 }));
    assert_eq!(search_bound(best, limit), 400);
    let best = offer(best, limit, Hit { prim: 1, key: 400 });
    assert_eq!(best, Some(Hit { prim: 0, key: 400 }));
    let best = offer(best, limit, Hit { prim: 2, key: 399 });
    assert_eq!(search_bound(best, limit), 399);
    let best = offer(best, limit, Hit { prim: 3, key: 999 });
    assert_eq!(best, Some(Hit { prim: 2, key: 399 }));
}

#[test]
fn nearest_does_not_depend_on_order() {
    let a = vec![
        Hit { prim: 0, key: 8 },
        Hit { prim: 1, key: 3 },
        Hit { prim: 2, key: 5 },
    ];
    let b = vec![a[2], a[0], a[1]];
    assert_eq!(nearest(&a, 10).map(|h| h.key), nearest(&b, 10).map(|h| h.key));
    assert_eq!(nearest(&b, 10).map(|h| h.key), Some(3));
}
