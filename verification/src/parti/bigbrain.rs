//! The closed-form maximiser: split `n` into threes, patching the
//! remainder with a four (equivalently two twos) or a two.  Returns every
//! maximising partition and the product itself.
use vstd::prelude::*;
use crate::parti::{seq_prod, seq_sum};

verus! {

/// `3^e`.
pub open spec fn pow3(e: nat) -> int
    decreases e,
{
    if e == 0 {
        1
    } else {
        3 * pow3((e - 1) as nat)
    }
}

/// `3^e` stays within a `u64` for the exponents this module meets.
pub proof fn lemma_pow3_bounds(e: nat)
    requires
        e <= 40,
    ensures
        1 <= pow3(e),
        pow3(e) <= 12157665459056928801,
        e <= 39 ==> pow3(e) <= 4052555153018976267,
{
    lemma_pow3_pos(e);
    lemma_pow3_values();
    lemma_pow3_mono(e, 40);
    if e <= 39 {
        lemma_pow3_mono(e, 39);
    }
}

/// The powers of three, evaluated.
proof fn lemma_pow3_values()
    ensures
        pow3(40) == 12157665459056928801,
        pow3(39) == 4052555153018976267,
{
    assert(pow3(0) == 1);
    assert(pow3(1) == 3);
    assert(pow3(2) == 9);
    assert(pow3(3) == 27);
    assert(pow3(4) == 81);
    assert(pow3(5) == 243);
    assert(pow3(6) == 729);
    assert(pow3(7) == 2187);
    assert(pow3(8) == 6561);
    assert(pow3(9) == 19683);
    assert(pow3(10) == 59049);
    assert(pow3(11) == 177147);
    assert(pow3(12) == 531441);
    assert(pow3(13) == 1594323);
    assert(pow3(14) == 4782969);
    assert(pow3(15) == 14348907);
    assert(pow3(16) == 43046721);
    assert(pow3(17) == 129140163);
    assert(pow3(18) == 387420489);
    assert(pow3(19) == 1162261467);
    assert(pow3(20) == 3486784401);
    assert(pow3(21) == 10460353203);
    assert(pow3(22) == 31381059609);
    assert(pow3(23) == 94143178827);
    assert(pow3(24) == 282429536481);
    assert(pow3(25) == 847288609443);
    assert(pow3(26) == 2541865828329);
    assert(pow3(27) == 7625597484987);
    assert(pow3(28) == 22876792454961);
    assert(pow3(29) == 68630377364883);
    assert(pow3(30) == 205891132094649);
    assert(pow3(31) == 617673396283947);
    assert(pow3(32) == 1853020188851841);
    assert(pow3(33) == 5559060566555523);
    assert(pow3(34) == 16677181699666569);
    assert(pow3(35) == 50031545098999707);
    assert(pow3(36) == 150094635296999121);
    assert(pow3(37) == 450283905890997363);
    assert(pow3(38) == 1350851717672992089);
    assert(pow3(39) == 4052555153018976267);
    assert(pow3(40) == 12157665459056928801);
}

proof fn lemma_pow3_mono(e1: nat, e2: nat)
    requires
        e1 <= e2,
    ensures
        pow3(e1) <= pow3(e2),
    decreases e2,
{
    if e1 < e2 {
        lemma_pow3_mono(e1, (e2 - 1) as nat);
        lemma_pow3_pos((e2 - 1) as nat);
    }
}

proof fn lemma_pow3_pos(e: nat)
    ensures
        1 <= pow3(e),
    decreases e,
{
    if e > 0 {
        lemma_pow3_pos((e - 1) as nat);
    }
}

/// A vector holding `count` copies of `part`.
fn repeat_part(part: u64, count: usize) -> (r: Vec<u64>)
    ensures
        r@.len() == count,
        forall|i: int| 0 <= i < count ==> #[trigger] r@[i] == part,
{
    let mut r: Vec<u64> = Vec::new();
    let mut i: usize = 0;
    while i < count
        invariant
            r@.len() == i,
            i <= count,
            forall|i2: int| 0 <= i2 < i ==> #[trigger] r@[i2] == part,
        decreases count - i,
    {
        r.push(part);
        i = i + 1;
    }
    r
}

/// `3^e`, executable.
fn pow3_exec(e: u32) -> (r: u64)
    requires
        e <= 40,
    ensures
        r == pow3(e as nat),
    decreases e,
{
    proof {
        lemma_pow3_bounds(e as nat);
    }
    if e == 0 {
        1
    } else {
        proof {
            lemma_pow3_bounds((e - 1) as nat);
        }
        3 * pow3_exec(e - 1)
    }
}

/// The partitions of `n` with the greatest product of parts, shortest
/// first, together with that product: all threes when `n` is divisible by
/// three, a four (or equivalently two twos) patching remainder one, and a
/// single two patching remainder two.  Small `n` stand alone.
pub fn parti_prod(n: u64) -> (r: (Vec<Vec<u64>>, u64))
    requires
        n <= 120,
    ensures
        n <= 3 ==> r.0@.len() == 1 && r.0@[0]@ =~= seq![n] && r.1 == n,
        n > 3 ==> forall|p: int| 0 <= p < r.0@.len() ==> seq_sum(#[trigger] r.0@[p]@) == n,
        n > 3 ==> forall|p: int| 0 <= p < r.0@.len() ==> seq_prod(#[trigger] r.0@[p]@) == r.1,
        // the product and the partitions themselves, pinned case by case;
        // this product is the maximum over every partition of n
        n > 3 && n % 3 == 0 ==> r.1 == pow3((n / 3) as nat) && r.0@.len() == 1 && r.0@[0]@.len()
            == n / 3 && (forall|i: int| 0 <= i < n / 3 ==> #[trigger] r.0@[0]@[i] == 3),
        n > 3 && n % 3 == 1 ==> r.1 == 4 * pow3((n / 3 - 1) as nat) && r.0@.len() == 2
            && r.0@[0]@.len() == n / 3 && r.0@[0]@[0] == 4 && (forall|i: int|
            1 <= i < n / 3 ==> #[trigger] r.0@[0]@[i] == 3) && r.0@[1]@.len() == n / 3 + 1 && (
        forall|i: int| 0 <= i < n / 3 - 1 ==> #[trigger] r.0@[1]@[i] == 3) && r.0@[1]@[n as int / 3 - 1]
            == 2 && r.0@[1]@[n as int / 3] == 2,
        n > 3 && n % 3 == 2 ==> r.1 == 2 * pow3((n / 3) as nat) && r.0@.len() == 1
            && r.0@[0]@.len() == n / 3 + 1 && (forall|i: int|
            0 <= i < n / 3 ==> #[trigger] r.0@[0]@[i] == 3) && r.0@[0]@[n as int / 3] == 2,
{
    if n <= 3 {
        let mut single: Vec<u64> = Vec::new();
        single.push(n);
        let mut partitions: Vec<Vec<u64>> = Vec::new();
        partitions.push(single);
        return (partitions, n);
    }
    let base_result_len = (n / 3) as usize;
    let rem = n % 3;
    if rem == 0 {
        let partition = repeat_part(3, base_result_len);
        proof {
            lemma_repeat_sum_prod(partition@, 3);
            lemma_pow3_bounds(base_result_len as nat);
        }
        let prod = pow3_exec(base_result_len as u32);
        let mut partitions: Vec<Vec<u64>> = Vec::new();
        partitions.push(partition);
        (partitions, prod)
    } else if rem == 1 {
        // a leftover one is no use: take [4, 3 ...] and [3 ..., 2, 2]
        let mut partition_with_4 = repeat_part(3, base_result_len);
        partition_with_4.set(0, 4);
        let mut partition_with_2s = repeat_part(3, (base_result_len - 1) as usize);
        partition_with_2s.push(2);
        partition_with_2s.push(2);
        proof {
            lemma_patched_sum_prod(partition_with_4@, 4);
            lemma_repeat_sum_prod(repeat_part_spec(3, (base_result_len - 1) as nat), 3);
            lemma_two_twos(partition_with_2s@, (base_result_len - 1) as nat);
            lemma_pow3_bounds((base_result_len - 1) as nat);
        }
        let prod = 4 * pow3_exec((base_result_len - 1) as u32);
        let mut partitions: Vec<Vec<u64>> = Vec::new();
        partitions.push(partition_with_4);
        partitions.push(partition_with_2s);
        (partitions, prod)
    } else {
        // a leftover two is its own best part: [3 ..., 2]
        let mut partition = repeat_part(3, base_result_len);
        partition.push(2);
        proof {
            lemma_tail_two(partition@, base_result_len as nat);
            lemma_pow3_bounds(base_result_len as nat);
        }
        let prod = 2 * pow3_exec(base_result_len as u32);
        let mut partitions: Vec<Vec<u64>> = Vec::new();
        partitions.push(partition);
        (partitions, prod)
    }
}

/// The constant sequence as a spec value.
pub open spec fn repeat_part_spec(part: u64, count: nat) -> Seq<u64> {
    Seq::new(count, |i: int| part)
}

/// Sum and product of a run of threes.
proof fn lemma_repeat_sum_prod(s: Seq<u64>, part: u64)
    requires
        forall|i: int| 0 <= i < s.len() ==> #[trigger] s[i] == part,
        part == 3,
    ensures
        seq_sum(s) == 3 * s.len(),
        seq_prod(s) == pow3(s.len() as nat),
    decreases s.len(),
{
    if s.len() > 0 {
        lemma_repeat_sum_prod(s.drop_first(), part);
    }
}

/// Sum and product of `[4, 3, 3, ...]`.
proof fn lemma_patched_sum_prod(s: Seq<u64>, head: u64)
    requires
        s.len() >= 1,
        s[0] == head,
        head == 4,
        forall|i: int| 1 <= i < s.len() ==> #[trigger] s[i] == 3,
    ensures
        seq_sum(s) == 4 + 3 * (s.len() - 1),
        seq_prod(s) == 4 * pow3((s.len() - 1) as nat),
{
    assert forall|i: int| 0 <= i < s.drop_first().len() implies #[trigger] s.drop_first()[i]
        == 3 by {}
    lemma_repeat_sum_prod(s.drop_first(), 3);
}

/// Sum and product of `[3, ..., 3, 2, 2]`.
proof fn lemma_two_twos(s: Seq<u64>, threes: nat)
    requires
        s.len() == threes + 2,
        forall|i: int| 0 <= i < threes ==> #[trigger] s[i] == 3,
        s[s.len() - 2] == 2,
        s[s.len() - 1] == 2,
    ensures
        seq_sum(s) == 3 * threes + 4,
        seq_prod(s) == 4 * pow3(threes),
    decreases threes,
{
    let d = s.drop_first();
    if threes == 0 {
        assert(s[0] == 2);
        assert(d.len() == 1);
        assert(d[0] == 2);
        assert(seq_prod(d.drop_first()) == 1);
        assert(seq_sum(d.drop_first()) == 0);
        assert(seq_prod(d) == 2);
        assert(seq_sum(d) == 2);
        assert(seq_prod(s) == 4);
        assert(seq_sum(s) == 4);
    } else {
        assert forall|i: int| 0 <= i < threes - 1 implies #[trigger] d[i] == 3 by {
            assert(s[i + 1] == 3);
        }
        assert(d[d.len() - 2] == s[s.len() - 2]);
        assert(d[d.len() - 1] == s[s.len() - 1]);
        lemma_two_twos(d, (threes - 1) as nat);
        assert(s[0] == 3);
        assert(seq_prod(s) == 3 * seq_prod(d));
        assert(seq_sum(s) == 3 + seq_sum(d));
        assert(pow3(threes) == 3 * pow3((threes - 1) as nat));
        assert(3 * (4 * pow3((threes - 1) as nat)) == 4 * (3 * pow3((threes - 1) as nat)))
            by (nonlinear_arith);
    }
}

/// Sum and product of `[3, ..., 3, 2]`.
proof fn lemma_tail_two(s: Seq<u64>, threes: nat)
    requires
        s.len() == threes + 1,
        forall|i: int| 0 <= i < threes ==> #[trigger] s[i] == 3,
        s[s.len() - 1] == 2,
    ensures
        seq_sum(s) == 3 * threes + 2,
        seq_prod(s) == 2 * pow3(threes),
    decreases threes,
{
    let d = s.drop_first();
    if threes == 0 {
        assert(s[0] == 2);
        assert(d.len() == 0);
        assert(seq_prod(d) == 1);
        assert(seq_sum(d) == 0);
        assert(seq_prod(s) == 2);
        assert(seq_sum(s) == 2);
    } else {
        assert forall|i: int| 0 <= i < threes - 1 implies #[trigger] d[i] == 3 by {
            assert(s[i + 1] == 3);
        }
        assert(d[d.len() - 1] == s[s.len() - 1]);
        lemma_tail_two(d, (threes - 1) as nat);
        assert(s[0] == 3);
        assert(seq_prod(s) == 3 * seq_prod(d));
        assert(seq_sum(s) == 3 + seq_sum(d));
        assert(pow3(threes) == 3 * pow3((threes - 1) as nat));
        assert(3 * (2 * pow3((threes - 1) as nat)) == 2 * (3 * pow3((threes - 1) as nat)))
            by (nonlinear_arith);
    }
}

} // verus!
