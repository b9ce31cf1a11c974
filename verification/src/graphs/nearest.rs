//! The order of regions by distance, and the first few regions in that order.

use vstd::prelude::*;

verus! {

/// Region `j` comes before region `k` when the regions are sorted by distance
/// and regions at one distance keep the order of the list.
pub open spec fn nearer(keys: Seq<int>, j: int, k: int) -> bool {
    keys[j] < keys[k] || (keys[j] == keys[k] && j < k)
}

/// Region `j` comes after region `floor` in that order; every region does where
/// `floor` is negative.
pub open spec fn beyond(keys: Seq<int>, floor: int, j: int) -> bool {
    floor < 0 || nearer(keys, floor, j)
}

/// Of the regions before `n` that come after region `floor`, the one that comes
/// first; negative where there is none.
pub open spec fn next_nearest(keys: Seq<int>, floor: int, n: int) -> int
    decreases n,
{
    if n <= 0 {
        -1
    } else {
        let rest = next_nearest(keys, floor, n - 1);
        if beyond(keys, floor, n - 1) && (rest < 0 || nearer(keys, n - 1, rest)) {
            n - 1
        } else {
            rest
        }
    }
}

/// The first `k` regions in the order by distance, fewer where there are fewer.
pub open spec fn nearest(keys: Seq<int>, k: int) -> Seq<int>
    decreases k,
{
    if k <= 0 {
        Seq::empty()
    } else {
        let head = nearest(keys, k - 1);
        if head.len() < k - 1 {
            head
        } else {
            let next = next_nearest(
                keys,
                if k == 1 {
                    -1
                } else {
                    head.last()
                },
                keys.len() as int,
            );
            if next < 0 {
                head
            } else {
                head.push(next)
            }
        }
    }
}

/// The list of the `k` nearest regions holds at most `k` regions, each of them
/// a region of the list of distances.
pub proof fn lemma_nearest_len(keys: Seq<int>, k: int)
    ensures
        nearest(keys, k).len() <= k || k < 0,
        k <= 0 ==> nearest(keys, k).len() == 0,
        forall|r: int|
            0 <= r < nearest(keys, k).len() ==> 0 <= #[trigger] nearest(keys, k)[r] < keys.len(),
    decreases k,
{
    if k > 0 {
        lemma_nearest_len(keys, k - 1);
        let head = nearest(keys, k - 1);
        if head.len() >= k - 1 {
            let floor = if k == 1 {
                -1
            } else {
                head.last()
            };
            lemma_next_nearest_range(keys, floor, keys.len() as int);
        }
    }
}

/// What `next_nearest` finds before `n` is a region before `n`, or nothing.
pub proof fn lemma_next_nearest_range(keys: Seq<int>, floor: int, n: int)
    ensures
        next_nearest(keys, floor, n) < n || n < 0,
        next_nearest(keys, floor, n) >= -1,
    decreases n,
{
    if n > 0 {
        lemma_next_nearest_range(keys, floor, n - 1);
    }
}

/// The list of the nearest regions only grows with the number asked for.
pub proof fn lemma_nearest_chain(keys: Seq<int>, j: int, k: int)
    requires
        0 <= j <= k,
    ensures
        nearest(keys, j).len() <= nearest(keys, k).len(),
    decreases k - j,
{
    if j < k {
        lemma_nearest_chain(keys, j, k - 1);
    }
}

/// Once no region is left to take, asking for more regions yields no more.
pub proof fn lemma_nearest_stops(keys: Seq<int>, j: int, k: int)
    requires
        0 <= j <= k,
        nearest(keys, j).len() == j,
        next_nearest(
            keys,
            if j == 0 {
                -1
            } else {
                nearest(keys, j).last()
            },
            keys.len() as int,
        ) < 0,
    ensures
        nearest(keys, k) == nearest(keys, j),
    decreases k - j,
{
    if j < k {
        lemma_nearest_stops(keys, j, k - 1);
    }
}

/// Number of regions before `n` that come after region `floor`.
pub open spec fn count_beyond(keys: Seq<int>, floor: int, n: int) -> nat
    decreases n,
{
    if n <= 0 {
        0
    } else {
        count_beyond(keys, floor, n - 1) + if beyond(keys, floor, n - 1) {
            1nat
        } else {
            0nat
        }
    }
}

/// `next_nearest` finds nothing only where nothing comes after `floor`, and
/// else finds the region that every other region after `floor` comes after.
pub proof fn lemma_next_nearest(keys: Seq<int>, floor: int, n: int)
    requires
        0 <= n <= keys.len(),
        floor < keys.len(),
    ensures
        next_nearest(keys, floor, n) < 0 ==> forall|j: int|
            0 <= j < n ==> !#[trigger] beyond(keys, floor, j),
        next_nearest(keys, floor, n) >= 0 ==> {
            &&& next_nearest(keys, floor, n) < n
            &&& beyond(keys, floor, next_nearest(keys, floor, n))
            &&& forall|j: int|
                0 <= j < n && #[trigger] beyond(keys, floor, j) && j != next_nearest(keys, floor, n)
                    ==> nearer(keys, next_nearest(keys, floor, n), j)
        },
    decreases n,
{
    if n > 0 {
        lemma_next_nearest(keys, floor, n - 1);
        let rest = next_nearest(keys, floor, n - 1);
        let m = next_nearest(keys, floor, n);
        if m >= 0 {
            assert forall|j: int| 0 <= j < n && #[trigger] beyond(keys, floor, j) && j
                != m implies nearer(keys, m, j) by {
                if j < n - 1 {
                    assert(rest >= 0);
                    if j != rest {
                        assert(nearer(keys, rest, j));
                    }
                }
            }
        }
    }
}

/// After the region that `next_nearest` finds come the regions that come after
/// `floor`, but for that region itself.
pub proof fn lemma_beyond_next(keys: Seq<int>, floor: int, j: int)
    requires
        floor < keys.len(),
        0 <= j < keys.len(),
        next_nearest(keys, floor, keys.len() as int) >= 0,
    ensures
        beyond(keys, next_nearest(keys, floor, keys.len() as int), j) <==> beyond(keys, floor, j)
            && j != next_nearest(keys, floor, keys.len() as int),
{
    lemma_next_nearest(keys, floor, keys.len() as int);
}

/// One region fewer comes after the region that `next_nearest` finds than
/// after `floor`: that region itself.
proof fn lemma_count_next(keys: Seq<int>, floor: int, n: int)
    requires
        floor < keys.len(),
        0 <= n <= keys.len(),
        next_nearest(keys, floor, keys.len() as int) >= 0,
    ensures
        count_beyond(keys, next_nearest(keys, floor, keys.len() as int), n) + (if next_nearest(
            keys,
            floor,
            keys.len() as int,
        ) < n {
            1nat
        } else {
            0nat
        }) == count_beyond(keys, floor, n),
    decreases n,
{
    lemma_next_nearest(keys, floor, keys.len() as int);
    if n > 0 {
        lemma_count_next(keys, floor, n - 1);
        lemma_beyond_next(keys, floor, n - 1);
    }
}

/// Every region comes after a negative `floor`.
proof fn lemma_count_all(keys: Seq<int>, n: int)
    requires
        0 <= n,
    ensures
        count_beyond(keys, -1, n) == n,
    decreases n,
{
    if n > 0 {
        lemma_count_all(keys, n - 1);
    }
}

/// Where a region comes after `floor`, the count of such regions is positive.
proof fn lemma_count_some(keys: Seq<int>, floor: int, n: int, j: int)
    requires
        0 <= j < n,
        beyond(keys, floor, j),
    ensures
        count_beyond(keys, floor, n) > 0,
    decreases n,
{
    if j < n - 1 {
        lemma_count_some(keys, floor, n - 1, j);
    }
}

/// Where no region comes after `floor`, the count of such regions is zero.
proof fn lemma_count_none(keys: Seq<int>, floor: int, n: int)
    requires
        forall|j: int| 0 <= j < n ==> !#[trigger] beyond(keys, floor, j),
    ensures
        count_beyond(keys, floor, n) == 0,
    decreases n,
{
    if n > 0 {
        lemma_count_none(keys, floor, n - 1);
    }
}

/// The region that the list of the `k` nearest ends with; negative for an empty list.
pub open spec fn last_taken(keys: Seq<int>, k: int) -> int {
    if nearest(keys, k).len() == 0 {
        -1
    } else {
        nearest(keys, k).last()
    }
}

/// Asking for `k` regions yields `k` of them, or all where there are fewer; and
/// as many regions come after the last of `k` as were not taken.
pub proof fn lemma_nearest_count(keys: Seq<int>, k: int)
    requires
        0 <= k,
    ensures
        nearest(keys, k).len() == if k <= keys.len() {
            k
        } else {
            keys.len() as int
        },
        last_taken(keys, k) < keys.len(),
        k <= keys.len() ==> count_beyond(keys, last_taken(keys, k), keys.len() as int)
            == keys.len() - k,
    decreases k,
{
    let n = keys.len() as int;
    if k == 0 {
        lemma_count_all(keys, n);
    } else {
        lemma_nearest_count(keys, k - 1);
        let head = nearest(keys, k - 1);
        if head.len() == k - 1 {
            let floor = if k == 1 {
                -1
            } else {
                head.last()
            };
            assert(floor == last_taken(keys, k - 1));
            lemma_next_nearest(keys, floor, n);
            let next = next_nearest(keys, floor, n);
            if next >= 0 {
                lemma_count_some(keys, floor, n, next);
                lemma_count_next(keys, floor, n);
                assert(nearest(keys, k) == head.push(next));
            } else {
                lemma_count_none(keys, floor, n);
            }
        }
    }
}

/// The regions that come after the last of the `k` nearest are those that the
/// list does not hold; the list holds every region where nothing comes after.
pub proof fn lemma_nearest_rest(keys: Seq<int>, k: int, j: int)
    requires
        0 <= k,
        0 <= j < keys.len(),
    ensures
        nearest(keys, k).len() == k ==> (beyond(keys, last_taken(keys, k), j) <==> !nearest(
            keys,
            k,
        ).contains(j)),
        nearest(keys, k).len() < k ==> nearest(keys, k).contains(j),
    decreases k,
{
    let n = keys.len() as int;
    if k > 0 {
        lemma_nearest_rest(keys, k - 1, j);
        lemma_nearest_count(keys, k - 1);
        let head = nearest(keys, k - 1);
        if head.len() == k - 1 {
            let floor = last_taken(keys, k - 1);
            lemma_next_nearest(keys, floor, n);
            let next = next_nearest(keys, floor, n);
            if next >= 0 {
                let all = head.push(next);
                assert(nearest(keys, k) == all);
                lemma_beyond_next(keys, floor, j);
                if head.contains(j) {
                    let r = choose|r: int| 0 <= r < head.len() && head[r] == j;
                    assert(all[r] == j);
                }
                if j == next {
                    assert(all[k - 1] == j);
                }
                if all.contains(j) {
                    let r = choose|r: int| 0 <= r < all.len() && all[r] == j;
                    if r < k - 1 {
                        assert(head[r] == j);
                    }
                }
            } else {
                assert(!beyond(keys, floor, j));
            }
        } else {
            assert(nearest(keys, k) == head);
        }
    }
}

/// The nearest regions stand in the order by distance, and where two of them
/// are equally far, in the order of the list of regions.
pub proof fn lemma_nearest_sorted(keys: Seq<int>, k: int, r: int, s: int)
    requires
        0 <= r < s < nearest(keys, k).len(),
    ensures
        nearer(keys, nearest(keys, k)[r], nearest(keys, k)[s]),
        0 <= nearest(keys, k)[r] < keys.len(),
        0 <= nearest(keys, k)[s] < keys.len(),
    decreases k,
{
    let n = keys.len() as int;
    lemma_nearest_len(keys, k);
    if k > 0 {
        let head = nearest(keys, k - 1);
        lemma_nearest_len(keys, k - 1);
        if s < head.len() {
            lemma_nearest_sorted(keys, k - 1, r, s);
            if head.len() >= k - 1 {
                let floor = last_taken(keys, k - 1);
                let next = next_nearest(keys, floor, n);
                if next >= 0 {
                    assert(nearest(keys, k) == head.push(next));
                }
            }
        } else {
            // the last element; it comes after the last of the head
            lemma_nearest_count(keys, k - 1);
            let floor = last_taken(keys, k - 1);
            lemma_next_nearest(keys, floor, n);
            let next = next_nearest(keys, floor, n);
            assert(nearest(keys, k) == head.push(next));
            assert(beyond(keys, floor, next));
            if r < head.len() - 1 {
                lemma_nearest_sorted(keys, k - 1, r, head.len() - 1);
            }
        }
    }
}

/// No region outside the list of the `k` nearest comes before a region of the list.
pub proof fn lemma_nearest_first(keys: Seq<int>, k: int, r: int, j: int)
    requires
        0 <= k,
        0 <= r < nearest(keys, k).len(),
        0 <= j < keys.len(),
        !nearest(keys, k).contains(j),
    ensures
        nearer(keys, nearest(keys, k)[r], j),
{
    let taken = nearest(keys, k);
    lemma_nearest_count(keys, k);
    lemma_nearest_rest(keys, k, j);
    lemma_nearest_len(keys, k);
    assert(taken.len() == k);
    assert(beyond(keys, taken.last(), j));
    if r < taken.len() - 1 {
        lemma_nearest_sorted(keys, k, r, taken.len() - 1);
    }
}

} // verus!
