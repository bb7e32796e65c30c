//! Whether the letters of one word can be rearranged out of another: each
//! lowercase letter must occur in the haystack at least as often as in the
//! target, and the empty target counts as not found.
use vstd::prelude::*;

verus! {

/// How often byte `c` occurs in `s` strictly below index `n`.
pub open spec fn count_below(s: Seq<u8>, c: u8, n: int) -> int
    decreases n,
{
    if n <= 0 {
        0
    } else {
        count_below(s, c, n - 1) + if s[n - 1] == c {
            1int
        } else {
            0int
        }
    }
}

/// How often byte `c` occurs in `s`.
pub open spec fn count_of(s: Seq<u8>, c: u8) -> int {
    count_below(s, c, s.len() as int)
}

/// Whether every letter of `target` can be matched by a distinct letter
/// of `haystack`.
pub open spec fn covers(haystack: Seq<u8>, target: Seq<u8>) -> bool {
    forall|c: u8| 97 <= c <= 122 ==> count_of(target, c) <= count_of(haystack, c)
}

/// Prefix counts never exceed the full count.
proof fn lemma_count_mono(s: Seq<u8>, c: u8, m: int, n: int)
    requires
        m <= n,
    ensures
        count_below(s, c, m) <= count_below(s, c, n),
    decreases n - m,
{
    if m < n {
        lemma_count_mono(s, c, m, n - 1);
    }
}

/// Counts are bounded by the length counted over.
proof fn lemma_count_le_len(s: Seq<u8>, c: u8, n: int)
    ensures
        n >= 0 ==> count_below(s, c, n) <= n,
        0 <= count_below(s, c, n),
    decreases n,
{
    if n > 0 {
        lemma_count_le_len(s, c, n - 1);
    }
}

/// Sum over the alphabet of the matched letters up to haystack prefix `n`:
/// each letter contributes the smaller of its target count and its count
/// in the prefix.
pub open spec fn matched_upto(haystack: Seq<u8>, target: Seq<u8>, n: int, c_hi: int) -> int
    decreases c_hi,
{
    if c_hi <= 97 {
        0
    } else {
        matched_upto(haystack, target, n, c_hi - 1) + min_int(
            count_of(target, (c_hi - 1) as u8),
            count_below(haystack, (c_hi - 1) as u8, n),
        )
    }
}

/// The smaller of two integers.
pub open spec fn min_int(a: int, b: int) -> int {
    if a <= b {
        a
    } else {
        b
    }
}

/// Whether `target` can be assembled from the letters of `haystack`:
/// greedy single-pass matching against a per-letter budget.  Only
/// lowercase ASCII input is meaningful, and an empty target is never
/// found.
pub fn scramble_track_found(haystack: &[u8], target: &[u8]) -> (r: bool)
    requires
        forall|t: int| 0 <= t < haystack@.len() ==> 97 <= #[trigger] haystack@[t] <= 122,
        forall|t: int| 0 <= t < target@.len() ==> 97 <= #[trigger] target@[t] <= 122,
    ensures
        r == (target@.len() > 0 && covers(haystack@, target@)),
{
    let mut lookup: Vec<u64> = Vec::new();
    let mut z: usize = 0;
    while z < 26
        invariant
            lookup@.len() == z,
            z <= 26,
            forall|t: int| 0 <= t < z ==> #[trigger] lookup@[t] == 0,
        decreases 26 - z,
    {
        lookup.push(0);
        z = z + 1;
    }
    proof {
        assert forall|c: u8| 97 <= c <= 122 implies count_below(target@, c, 0) == 0 by {}
    }
    let mut ti: usize = 0;
    while ti < target.len()
        invariant
            lookup@.len() == 26,
            ti <= target@.len(),
            forall|t: int| 0 <= t < target@.len() ==> 97 <= #[trigger] target@[t] <= 122,
            forall|c: u8|
                97 <= c <= 122 ==> #[trigger] lookup@[c - 97] == count_below(
                    target@,
                    c,
                    ti as int,
                ),
            forall|c: u8| #![trigger lookup@[c - 97]] 97 <= c <= 122 ==> lookup@[c - 97] <= ti,
        decreases target@.len() - ti,
    {
        proof {
            assert forall|c: u8| 97 <= c <= 122 implies count_below(target@, c, ti + 1)
                == count_below(target@, c, ti as int) + (if target@[ti as int] == c {
                1int
            } else {
                0int
            }) by {}
        }
        let b = target[ti];
        let slot = (b - 97) as usize;
        let cur = lookup[slot];
        lookup.set(slot, cur + 1);
        ti = ti + 1;
    }
    let ghost target_counts = lookup@;
    proof {
        lemma_matched_zero(haystack@, target@, 123);
        assert forall|c: u8| 97 <= c <= 122 implies 0 <= count_of(target@, c) by {
            lemma_count_le_len(target@, c, target@.len() as int);
        }
    }
    let mut found: usize = 0;
    let mut hi: usize = 0;
    while hi < haystack.len()
        invariant
            lookup@.len() == 26,
            hi <= haystack@.len(),
            found <= hi,
            forall|t: int| 0 <= t < haystack@.len() ==> 97 <= #[trigger] haystack@[t] <= 122,
            forall|t: int| 0 <= t < target@.len() ==> 97 <= #[trigger] target@[t] <= 122,
            forall|c: u8| 97 <= c <= 122 ==> #[trigger] target_counts[c - 97] == count_of(target@, c),
            forall|c: u8| #![trigger target_counts[c - 97]] 97 <= c <= 122 ==> target_counts[c
                - 97] <= target@.len(),
            forall|c: u8|
                97 <= c <= 122 ==> #[trigger] lookup@[c - 97] == count_of(target@, c) - min_int(
                    count_of(target@, c),
                    count_below(haystack@, c, hi as int),
                ),
            found == matched_upto(haystack@, target@, hi as int, 123),
            found < target@.len() || (target@.len() == 0 && found == 0),
        decreases haystack@.len() - hi,
    {
        let b = haystack[hi];
        let slot = (b - 97) as usize;
        proof {
            lemma_count_le_len(haystack@, b, hi as int);
            lemma_count_le_len(target@, b, target@.len() as int);
            assert forall|c: u8| 97 <= c <= 122 implies count_below(haystack@, c, hi + 1)
                == count_below(haystack@, c, hi as int) + (if haystack@[hi as int] == c {
                1int
            } else {
                0int
            }) by {}
            lemma_matched_step(haystack@, target@, hi as int, 123, b);
        }
        let lookup_val = lookup[slot];
        if lookup_val != 0 {
            lookup.set(slot, lookup_val - 1);
            found = found + 1;
            if found == target.len() {
                proof {
                    lemma_matched_full(haystack@, target@, (hi + 1) as int, 123);
                }
                return true;
            }
        }
        hi = hi + 1;
    }
    proof {
        if target@.len() > 0 && covers(haystack@, target@) {
            lemma_matched_covers(haystack@, target@, haystack@.len() as int, 123);
        }
    }
    false
}

/// One haystack letter advances the matched total by one exactly when its
/// budget is not yet spent.
proof fn lemma_matched_step(haystack: Seq<u8>, target: Seq<u8>, n: int, c_hi: int, b: u8)
    requires
        0 <= n < haystack.len(),
        haystack[n] == b,
        97 <= b <= 122,
        97 <= c_hi <= 123,
        forall|c: u8| 97 <= c <= 122 ==> count_below(haystack, c, n + 1) == count_below(
            haystack,
            c,
            n,
        ) + (if b == c {
            1int
        } else {
            0int
        }),
    ensures
        matched_upto(haystack, target, n + 1, c_hi) == matched_upto(haystack, target, n, c_hi) + (
        if b < c_hi && min_int(count_of(target, b), count_below(haystack, b, n)) < count_of(
            target,
            b,
        ) {
            1int
        } else {
            0int
        }),
    decreases c_hi,
{
    if c_hi > 97 {
        lemma_matched_step(haystack, target, n, c_hi - 1, b);
    }
}

/// When the matched total reaches the whole target, every letter's budget
/// is met by the haystack prefix, so the haystack covers the target.
proof fn lemma_matched_full(haystack: Seq<u8>, target: Seq<u8>, n: int, c_hi: int)
    requires
        matched_upto(haystack, target, n, 123) == target.len(),
        forall|t: int| 0 <= t < target.len() ==> 97 <= #[trigger] target[t] <= 122,
        0 <= n <= haystack.len(),
    ensures
        covers(haystack, target),
{
    lemma_matched_le_counts(haystack, target, n, 123);
    lemma_counts_total(target, 123);
    assert forall|c: u8| 97 <= c <= 122 implies count_of(target, c) <= count_of(haystack, c) by {
        lemma_matched_piece_bound(haystack, target, n, 123, c);
        if min_int(count_of(target, c), count_below(haystack, c, n)) < count_of(target, c) {
            assert(matched_upto(haystack, target, n, 123) < counts_total(target, 123)) by {
                lemma_matched_lt_total(haystack, target, n, 123, c);
            }
        }
        lemma_count_mono(haystack, c, n, haystack.len() as int);
    }
}

/// Sum of all per-letter target counts.
pub open spec fn counts_total(target: Seq<u8>, c_hi: int) -> int
    decreases c_hi,
{
    if c_hi <= 97 {
        0
    } else {
        counts_total(target, c_hi - 1) + count_of(target, (c_hi - 1) as u8)
    }
}

/// Each matched piece is at most the letter's target count.
proof fn lemma_matched_le_counts(haystack: Seq<u8>, target: Seq<u8>, n: int, c_hi: int)
    requires
        97 <= c_hi <= 123,
    ensures
        matched_upto(haystack, target, n, c_hi) <= counts_total(target, c_hi),
    decreases c_hi,
{
    if c_hi > 97 {
        lemma_matched_le_counts(haystack, target, n, c_hi - 1);
        lemma_count_le_len(haystack, (c_hi - 1) as u8, n);
        lemma_count_le_len(target, (c_hi - 1) as u8, target.len() as int);
    }
}

/// A letter whose budget is unmet keeps the matched total strictly below
/// the total of the target counts.
proof fn lemma_matched_lt_total(haystack: Seq<u8>, target: Seq<u8>, n: int, c_hi: int, c: u8)
    requires
        97 <= c < c_hi <= 123,
        min_int(count_of(target, c), count_below(haystack, c, n)) < count_of(target, c),
    ensures
        matched_upto(haystack, target, n, c_hi) < counts_total(target, c_hi),
    decreases c_hi,
{
    if c == c_hi - 1 {
        lemma_matched_le_counts(haystack, target, n, c_hi - 1);
    } else {
        lemma_matched_lt_total(haystack, target, n, c_hi - 1, c);
        lemma_count_le_len(haystack, (c_hi - 1) as u8, n);
        lemma_count_le_len(target, (c_hi - 1) as u8, target.len() as int);
    }
}

proof fn lemma_matched_piece_bound(haystack: Seq<u8>, target: Seq<u8>, n: int, c_hi: int, c: u8)
    requires
        97 <= c <= 122,
    ensures
        min_int(count_of(target, c), count_below(haystack, c, n)) <= count_of(target, c),
{
}

/// The per-letter counts sum to the length of a lowercase word.
proof fn lemma_counts_total(target: Seq<u8>, c_hi: int)
    requires
        forall|t: int| 0 <= t < target.len() ==> 97 <= #[trigger] target[t] <= 122,
        c_hi == 123,
    ensures
        counts_total(target, c_hi) == target.len(),
{
    lemma_counts_total_below(target, target.len() as int);
    lemma_total_eq(target, 123);
}

/// The alphabet sum of the full counts is the sum over the whole word.
proof fn lemma_total_eq(target: Seq<u8>, c_hi: int)
    ensures
        counts_total(target, c_hi) == counts_total_below(target, target.len() as int, c_hi),
    decreases c_hi,
{
    if c_hi > 97 {
        lemma_total_eq(target, c_hi - 1);
    }
}

/// Before any haystack letter is read, nothing is matched.
proof fn lemma_matched_zero(haystack: Seq<u8>, target: Seq<u8>, c_hi: int)
    ensures
        matched_upto(haystack, target, 0, c_hi) == 0,
    decreases c_hi,
{
    if c_hi > 97 {
        lemma_matched_zero(haystack, target, c_hi - 1);
        lemma_count_le_len(target, (c_hi - 1) as u8, target.len() as int);
    }
}

/// Summing the prefix counts over the alphabet gives the prefix length.
proof fn lemma_counts_total_below(target: Seq<u8>, n: int)
    requires
        forall|t: int| 0 <= t < target.len() ==> 97 <= #[trigger] target[t] <= 122,
        0 <= n <= target.len(),
    ensures
        counts_total_below(target, n, 123) == n,
    decreases n,
{
    if n > 0 {
        lemma_counts_total_below(target, n - 1);
        lemma_counts_total_step(target, n, 123);
    } else {
        lemma_counts_total_zero(target, 123);
    }
}

/// With nothing counted, the alphabet total is zero.
proof fn lemma_counts_total_zero(target: Seq<u8>, c_hi: int)
    ensures
        counts_total_below(target, 0, c_hi) == 0,
    decreases c_hi,
{
    if c_hi > 97 {
        lemma_counts_total_zero(target, c_hi - 1);
    }
}

/// Extending the counted prefix by one letter raises the alphabet total
/// by one.
proof fn lemma_counts_total_step(target: Seq<u8>, n: int, c_hi: int)
    requires
        0 < n <= target.len(),
        97 <= target[n - 1] <= 122,
        97 <= c_hi <= 123,
    ensures
        counts_total_below(target, n, c_hi) == counts_total_below(target, n - 1, c_hi) + (
        if target[n - 1] < c_hi {
            1int
        } else {
            0int
        }),
    decreases c_hi,
{
    if c_hi > 97 {
        lemma_counts_total_step(target, n, c_hi - 1);
    }
}

/// Sum of the per-letter prefix counts.
pub open spec fn counts_total_below(target: Seq<u8>, n: int, c_hi: int) -> int
    decreases c_hi,
{
    if c_hi <= 97 {
        0
    } else {
        counts_total_below(target, n, c_hi - 1) + count_below(target, (c_hi - 1) as u8, n)
    }
}

/// When the haystack covers a non-empty target, the full pass matches
/// every target letter, so the early return must have fired.
proof fn lemma_matched_covers(haystack: Seq<u8>, target: Seq<u8>, n: int, c_hi: int)
    requires
        covers(haystack, target),
        forall|t: int| 0 <= t < target.len() ==> 97 <= #[trigger] target[t] <= 122,
        n == haystack.len(),
        c_hi == 123,
    ensures
        matched_upto(haystack, target, n, c_hi) == target.len(),
{
    lemma_matched_eq_counts(haystack, target, n, 123);
    lemma_counts_total(target, 123);
}

/// When every letter's budget is met, the matched total equals the sum of
/// the target counts.
proof fn lemma_matched_eq_counts(haystack: Seq<u8>, target: Seq<u8>, n: int, c_hi: int)
    requires
        n == haystack.len(),
        covers(haystack, target),
        97 <= c_hi <= 123,
    ensures
        matched_upto(haystack, target, n, c_hi) == counts_total(target, c_hi),
    decreases c_hi,
{
    if c_hi > 97 {
        lemma_matched_eq_counts(haystack, target, n, c_hi - 1);
        let c = (c_hi - 1) as u8;
        if 97 <= c <= 122 {
            assert(count_of(target, c) <= count_of(haystack, c));
        } else {
            lemma_count_empty_range(target, c, target.len() as int);
            lemma_count_empty_range(haystack, c, n);
        }
    }
}

/// A byte that never occurs is never counted.
proof fn lemma_count_empty_range(s: Seq<u8>, c: u8, n: int)
    requires
        forall|t: int| 0 <= t < s.len() ==> 97 <= #[trigger] s[t] <= 122,
        !(97 <= c <= 122),
        n <= s.len(),
    ensures
        count_below(s, c, n) == 0,
    decreases n,
{
    if n > 0 {
        lemma_count_empty_range(s, c, n - 1);
    }
}

} // verus!
