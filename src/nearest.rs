use vstd::prelude::*;

verus! {

/// A reported intersection as the selection sees it: the primitive that
/// reported it and the order key of its ray parameter.
#[derive(Clone, Copy, Debug, PartialEq, Eq, Structural)]
pub struct Hit {
    pub prim: usize,
    pub key: u32,
}

/// The upper end of the search: the key of the best hit so far, or `limit`
/// while there is none.
pub open spec fn bound_of(best: Option<Hit>, limit: u32) -> u32 {
    match best {
        Some(h) => h.key,
        None => limit,
    }
}

/// The best hit after `h` is reported: `h` when it is strictly closer than the
/// current bound, the former best otherwise.
pub open spec fn offer_spec(best: Option<Hit>, limit: u32, h: Hit) -> Option<Hit> {
    if h.key < bound_of(best, limit) {
        Some(h)
    } else {
        best
    }
}

/// The best hit after the hits `hits` are reported in turn.
pub open spec fn nearest_spec(hits: Seq<Hit>, limit: u32) -> Option<Hit>
    decreases hits.len(),
{
    if hits.len() == 0 {
        None
    } else {
        offer_spec(nearest_spec(hits.drop_last(), limit), limit, hits.last())
    }
}

/// The upper end of the search interval for the next primitive.
pub fn search_bound(best: Option<Hit>, limit: u32) -> (r: u32)
    ensures
        r == bound_of(best, limit),
{
    match best {
        Some(h) => h.key,
        None => limit,
    }
}

/// Takes one reported hit into account.
pub fn offer(best: Option<Hit>, limit: u32, h: Hit) -> (r: Option<Hit>)
    ensures
        r == offer_spec(best, limit, h),
{
    if h.key < search_bound(best, limit) {
        Some(h)
    } else {
        best
    }
}

/// The closest of `hits` below `limit`; among equally close ones, the first.
pub fn nearest(hits: &Vec<Hit>, limit: u32) -> (r: Option<Hit>)
    ensures
        r == nearest_spec(hits@, limit),
{
    let mut best: Option<Hit> = None;
    let mut i: usize = 0;
    while i < hits.len()
        invariant
            i <= hits.len(),
            best == nearest_spec(hits@.subrange(0, i as int), limit),
        decreases hits.len() - i,
    {
        assert(hits@.subrange(0, i + 1).drop_last() =~= hits@.subrange(0, i as int));
        best = offer(best, limit, hits[i]);
        i = i + 1;
    }
    assert(hits@.subrange(0, i as int) =~= hits@);
    best
}

/// The selection keeps the closest hit: what it returns lies strictly below
/// `limit`, was reported, is no farther than any reported hit, and is strictly
/// closer than every hit reported before it; it returns nothing only when no
/// hit lies below `limit`.
pub proof fn lemma_nearest_is_closest(hits: Seq<Hit>, limit: u32)
    ensures
        match nearest_spec(hits, limit) {
            Some(h) => {
                &&& h.key < limit
                &&& exists|j: int|
                    0 <= j < hits.len() && hits[j] == h && forall|i: int|
                        0 <= i < j ==> h.key < #[trigger] hits[i].key
                &&& forall|i: int| 0 <= i < hits.len() ==> h.key <= #[trigger] hits[i].key
            },
            None => forall|i: int| 0 <= i < hits.len() ==> limit <= #[trigger] hits[i].key,
        },
    decreases hits.len(),
{
    if hits.len() > 0 {
        let init = hits.drop_last();
        lemma_nearest_is_closest(init, limit);
        let last = hits.len() - 1;
        assert forall|i: int| 0 <= i < last implies hits[i] == init[i] by {}
        match nearest_spec(init, limit) {
            Some(b) => {
                let j = choose|j: int|
                    0 <= j < init.len() && init[j] == b && forall|i: int|
                        0 <= i < j ==> b.key < #[trigger] init[i].key;
                if hits[last].key < b.key {
                    assert(hits[last] == hits[last]);
                } else {
                    assert(hits[j] == b);
                    assert(forall|i: int| 0 <= i < j ==> b.key < #[trigger] hits[i].key);
                }
            },
            None => {
                if hits[last].key < limit {
                    assert(hits[last] == hits[last]);
                }
            },
        }
    }
}

/// The closest hit does not depend on the order in which hits are reported:
/// two lists that hold the same hits below `limit` give a result of the same
/// key, or both give none.
pub proof fn lemma_nearest_order_free(a: Seq<Hit>, b: Seq<Hit>, limit: u32)
    requires
        forall|h: Hit| h.key < limit ==> (a.contains(h) <==> b.contains(h)),
    ensures
        nearest_spec(a, limit) is Some <==> nearest_spec(b, limit) is Some,
        nearest_spec(a, limit) is Some ==> nearest_spec(a, limit).unwrap().key == nearest_spec(
            b,
            limit,
        ).unwrap().key,
{
    lemma_nearest_is_closest(a, limit);
    lemma_nearest_is_closest(b, limit);
    match nearest_spec(a, limit) {
        Some(ha) => {
            let ja = choose|j: int|
                0 <= j < a.len() && a[j] == ha && forall|i: int|
                    0 <= i < j ==> ha.key < #[trigger] a[i].key;
            assert(a.contains(ha));
            assert(b.contains(ha));
            let jb = choose|j: int| 0 <= j < b.len() && b[j] == ha;
            assert(b[jb].key == ha.key);
            match nearest_spec(b, limit) {
                Some(hb) => {
                    let kb = choose|j: int|
                        0 <= j < b.len() && b[j] == hb && forall|i: int|
                            0 <= i < j ==> hb.key < #[trigger] b[i].key;
                    assert(b.contains(hb));
                    assert(a.contains(hb));
                    let ka = choose|j: int| 0 <= j < a.len() && a[j] == hb;
                    assert(a[ka].key == hb.key);
                },
                None => {},
            }
        },
        None => {
            match nearest_spec(b, limit) {
                Some(hb) => {
                    let kb = choose|j: int|
                        0 <= j < b.len() && b[j] == hb && forall|i: int|
                            0 <= i < j ==> hb.key < #[trigger] b[i].key;
                    assert(b.contains(hb));
                    assert(a.contains(hb));
                    let ka = choose|j: int| 0 <= j < a.len() && a[j] == hb;
                    assert(a[ka].key == hb.key);
                },
                None => {},
            }
        },
    }
}

} // verus!
