//! The windowed pair-sum scan.
//!
//! Given a sequence of large unsigned integers and a window size `w`, the
//! scan walks the sequence from position `w` on and looks for the first
//! value that no two distinct positions of the preceding `w`-element window
//! sum to. Membership in the window is by position: a value that occurs
//! twice in the window counts as two candidates, so a target equal to twice
//! that value is decomposable.

use vstd::prelude::*;
use crate::number_map::NumberMap;

verus! {

/// The window size used for the full puzzle input.
pub const MINE_SCALE: usize = 100;

/// How many positions `p` with `lo <= p < hi` hold the value `v` in `s`.
pub open spec fn count_in(s: Seq<u128>, lo: int, hi: int, v: u128) -> nat
    decreases hi - lo,
{
    if lo >= hi {
        0
    } else if s[hi - 1] == v {
        count_in(s, lo, hi - 1, v) + 1
    } else {
        count_in(s, lo, hi - 1, v)
    }
}

/// Some position of the window `s[i - w .. i]` other than `j` holds the
/// complement of `s[j]` with respect to `s[i]`.
pub open spec fn has_partner(s: Seq<u128>, w: int, i: int, j: int) -> bool {
    exists|k: int| i - w <= k < i && k != j && s[j] + s[k] == s[i]
}

/// Two distinct positions of the window `s[i - w .. i]` hold values that sum
/// to `s[i]`.
pub open spec fn decomposable(s: Seq<u128>, w: int, i: int) -> bool {
    exists|j: int| i - w <= j < i && has_partner(s, w, i, j)
}

/// `i` is the first position at or past the window that is not decomposable
/// with respect to its preceding window.
pub open spec fn is_first_crumble(s: Seq<u128>, w: int, i: int) -> bool {
    &&& w <= i < s.len()
    &&& !decomposable(s, w, i)
    &&& forall|k: int| w <= k < i ==> decomposable(s, w, k)
}

/// A range of positions holds no more values than it has positions.
pub proof fn lemma_count_in_bound(s: Seq<u128>, lo: int, hi: int, v: u128)
    requires
        lo <= hi,
    ensures
        count_in(s, lo, hi, v) <= hi - lo,
    decreases hi - lo,
{
    if lo < hi {
        lemma_count_in_bound(s, lo, hi - 1, v);
    }
}

/// Counting over a range splits at any interior position.
pub proof fn lemma_count_in_split(s: Seq<u128>, lo: int, j: int, hi: int, v: u128)
    requires
        lo <= j < hi,
    ensures
        count_in(s, lo, hi, v) == count_in(s, lo, j, v) + (if s[j] == v {
            1nat
        } else {
            0nat
        }) + count_in(s, j + 1, hi, v),
    decreases hi - j,
{
    if j < hi - 1 {
        lemma_count_in_split(s, lo, j, hi - 1, v);
    }
}

/// A positive count names a position holding the value.
pub proof fn lemma_count_in_pos(s: Seq<u128>, lo: int, hi: int, v: u128)
    requires
        count_in(s, lo, hi, v) > 0,
    ensures
        exists|j: int| lo <= j < hi && s[j] == v,
    decreases hi - lo,
{
    if lo < hi {
        if s[hi - 1] == v {
            assert(lo <= hi - 1 < hi && s[hi - 1] == v);
        } else {
            lemma_count_in_pos(s, lo, hi - 1, v);
        }
    }
}

/// A position holding the value makes the count positive.
pub proof fn lemma_count_in_member(s: Seq<u128>, lo: int, hi: int, v: u128, j: int)
    requires
        lo <= j < hi,
        s[j] == v,
    ensures
        count_in(s, lo, hi, v) >= 1,
{
    lemma_count_in_split(s, lo, j, hi, v);
}

/// Two distinct positions holding the value make the count at least two.
pub proof fn lemma_count_in_two(s: Seq<u128>, lo: int, hi: int, v: u128, j: int, k: int)
    requires
        lo <= j < hi,
        lo <= k < hi,
        j != k,
        s[j] == v,
        s[k] == v,
    ensures
        count_in(s, lo, hi, v) >= 2,
{
    lemma_count_in_split(s, lo, j, hi, v);
    if k < j {
        lemma_count_in_member(s, lo, j, v, k);
    } else {
        lemma_count_in_member(s, j + 1, hi, v, k);
    }
}

/// A count that exceeds the contribution of position `j` names a position
/// other than `j` holding the value.
pub proof fn lemma_count_in_other(s: Seq<u128>, lo: int, hi: int, v: u128, j: int)
    requires
        lo <= j < hi,
        count_in(s, lo, hi, v) >= 2 || (count_in(s, lo, hi, v) >= 1 && s[j] != v),
    ensures
        exists|k: int| lo <= k < hi && k != j && s[k] == v,
{
    lemma_count_in_split(s, lo, j, hi, v);
    if count_in(s, lo, j, v) > 0 {
        lemma_count_in_pos(s, lo, j, v);
        let k = choose|k: int| lo <= k < j && s[k] == v;
        assert(lo <= k < hi && k != j && s[k] == v);
    } else {
        lemma_count_in_pos(s, j + 1, hi, v);
        let k = choose|k: int| j + 1 <= k < hi && s[k] == v;
        assert(lo <= k < hi && k != j && s[k] == v);
    }
}

/// Soundness of the frequency test at one window position: if the complement
/// of `s[j]` occurs in the window — at least twice when it equals `s[j]`
/// itself — then `s[i]` is decomposable.
pub proof fn lemma_pair_found(s: Seq<u128>, w: int, i: int, j: int, diff: u128)
    requires
        w <= i < s.len(),
        i - w <= j < i,
        s[j] <= s[i],
        diff == s[i] - s[j],
        count_in(s, i - w, i, diff) >= 1,
        diff != s[j] || count_in(s, i - w, i, diff) >= 2,
    ensures
        decomposable(s, w, i),
{
    lemma_count_in_other(s, i - w, i, diff, j);
    let k = choose|k: int| i - w <= k < i && k != j && s[k] == diff;
    assert(s[j] + s[k] == s[i]);
    assert(has_partner(s, w, i, j));
}

/// Completeness of the frequency test at one window position: a partner of
/// `j` forces the complement of `s[j]` to be counted in the window — twice
/// when the complement equals `s[j]` itself.
pub proof fn lemma_partner_counts(s: Seq<u128>, w: int, i: int, j: int, k: int)
    requires
        w <= i < s.len(),
        i - w <= j < i,
        i - w <= k < i,
        k != j,
        s[j] + s[k] == s[i],
    ensures
        s[j] <= s[i],
        s[k] == (s[i] - s[j]) as u128,
        count_in(s, i - w, i, (s[i] - s[j]) as u128) >= 1,
        (s[i] - s[j]) as u128 == s[j] ==> count_in(s, i - w, i, (s[i] - s[j]) as u128) >= 2,
{
    lemma_count_in_member(s, i - w, i, s[k], k);
    if s[k] == s[j] {
        lemma_count_in_two(s, i - w, i, s[k], j, k);
    }
}

/// A target that two distinct window positions sum to is never the first
/// crumble: the scan must not report it.
pub proof fn lemma_decomposable_not_reported(s: Seq<u128>, w: int, i: int, j: int, k: int)
    requires
        w <= i < s.len(),
        i - w <= j < i,
        i - w <= k < i,
        j != k,
        s[j] + s[k] == s[i],
    ensures
        !is_first_crumble(s, w, i),
{
    assert(has_partner(s, w, i, j));
    assert(decomposable(s, w, i));
}

/// The reported index is minimal: no position before the first crumble fails
/// the decomposability test.
pub proof fn lemma_first_crumble_minimal(s: Seq<u128>, w: int, i: int, i2: int)
    requires
        is_first_crumble(s, w, i),
        w <= i2 < s.len(),
        !decomposable(s, w, i2),
    ensures
        i <= i2,
{
}

/// Find the first element after the initial `w`-element window that no two
/// distinct window positions sum to, or `None` when every element passes the
/// test. A sequence shorter than the window has no element to test, so the
/// result is `None` as well.
pub fn find_crumble(numbers: &Vec<u128>, w: usize) -> (r: Option<u128>)
    ensures
        match r {
            Some(x) => exists|i: int|
                is_first_crumble(numbers@, w as int, i) && x == numbers@[i],
            None => forall|i: int|
                w <= i < numbers@.len() ==> decomposable(numbers@, w as int, i),
        },
{
    if numbers.len() < w {
        return None;
    }
    let mut map = NumberMap::new();

    let mut i: usize = 0;
    while i < w
        invariant
            i <= w <= numbers@.len(),
            forall|v: u128| map.count(v) == count_in(numbers@, 0, i as int, v),
        decreases w - i,
    {
        let xi = numbers[i];
        proof {
            lemma_count_in_bound(numbers@, 0, i as int, xi);
        }
        map.inc(xi);
        proof {
            assert forall|v: u128| map.count(v) == count_in(numbers@, 0, i + 1, v) by {
                assert(count_in(numbers@, 0, i + 1, v) == count_in(numbers@, 0, i as int, v)
                    + (if numbers@[i as int] == v {
                    1nat
                } else {
                    0nat
                }));
            }
        }
        i = i + 1;
    }

    let mut i: usize = w;
    while i < numbers.len()
        invariant
            w <= i <= numbers@.len(),
            forall|v: u128| map.count(v) == count_in(numbers@, i - w, i as int, v),
            forall|k: int| w <= k < i ==> decomposable(numbers@, w as int, k),
        decreases numbers@.len() - i,
    {
        let xi = numbers[i];

        let mut found = false;
        let mut j: usize = i - w;
        while j < i && !found
            invariant
                w <= i < numbers@.len(),
                i - w <= j <= i,
                xi == numbers@[i as int],
                forall|v: u128| map.count(v) == count_in(numbers@, i - w, i as int, v),
                found ==> decomposable(numbers@, w as int, i as int),
                !found ==> forall|jj: int|
                    i - w <= jj < j ==> !has_partner(numbers@, w as int, i as int, jj),
            decreases i - j,
        {
            let xj = numbers[j];
            if xj <= xi {
                let diff = xi - xj;
                let count = map.get(diff);
                if count > 0 && (diff != xj || count > 1) {
                    found = true;
                    proof {
                        lemma_pair_found(numbers@, w as int, i as int, j as int, diff);
                    }
                } else {
                    proof {
                        if has_partner(numbers@, w as int, i as int, j as int) {
                            let k = choose|k: int|
                                i - w <= k < i && k != j && numbers@[j as int] + numbers@[k]
                                    == numbers@[i as int];
                            lemma_partner_counts(numbers@, w as int, i as int, j as int, k);
                        }
                    }
                }
            } else {
                proof {
                    if has_partner(numbers@, w as int, i as int, j as int) {
                        let k = choose|k: int|
                            i - w <= k < i && k != j && numbers@[j as int] + numbers@[k]
                                == numbers@[i as int];
                        lemma_partner_counts(numbers@, w as int, i as int, j as int, k);
                    }
                }
            }
            j = j + 1;
        }

        if !found {
            proof {
                if decomposable(numbers@, w as int, i as int) {
                    let jj = choose|jj: int|
                        i - w <= jj < i && has_partner(numbers@, w as int, i as int, jj);
                    assert(!has_partner(numbers@, w as int, i as int, jj));
                }
                assert(is_first_crumble(numbers@, w as int, i as int));
            }
            return Some(xi);
        }

        let leaving = numbers[i - w];
        proof {
            assert forall|v: u128|
                #[trigger] count_in(numbers@, i - w, i as int, v) == (if numbers@[i - w] == v {
                    1nat
                } else {
                    0nat
                }) + count_in(numbers@, i - w + 1, i as int, v) by {
                lemma_count_in_split(numbers@, i - w, i - w, i as int, v);
            }
        }
        map.dec(leaving);
        proof {
            assert forall|v: u128| map.count(v) == count_in(numbers@, i - w + 1, i as int, v) by {
            }
            lemma_count_in_bound(numbers@, i - w + 1, i as int, xi);
        }
        map.inc(xi);
        proof {
            assert forall|v: u128| map.count(v) == count_in(numbers@, i + 1 - w, i + 1, v) by {
                assert(count_in(numbers@, i + 1 - w, i + 1, v) == count_in(
                    numbers@,
                    i + 1 - w,
                    i as int,
                    v,
                ) + (if numbers@[i as int] == v {
                    1nat
                } else {
                    0nat
                }));
            }
        }
        i = i + 1;
    }

    None
}

} // verus!
