use vstd::prelude::*;

verus! {

/// Whether bit `b` of `v` is set.
pub open spec fn bit_set(v: u32, b: u32) -> bool {
    v & (1u32 << b) != 0
}

/// How many values of `s` have bit `b` set.
pub open spec fn count_bit(s: Seq<u32>, b: u32) -> nat
    decreases s.len(),
{
    if s.len() == 0 {
        0
    } else {
        count_bit(s.drop_last(), b) + if bit_set(s.last(), b) {
            1nat
        } else {
            0nat
        }
    }
}

/// How many values of `s` equal the value just before them.
pub open spec fn count_repeats(s: Seq<u32>) -> nat
    decreases s.len(),
{
    if s.len() < 2 {
        0
    } else {
        count_repeats(s.drop_last()) + if s.last() == s[s.len() - 2] {
            1nat
        } else {
            0nat
        }
    }
}

/// The acceptance rule of a sample: every bit is set in 48% to 52% of the
/// values, and at most 0.1% of the values repeat their predecessor.
pub open spec fn meets_criteria(s: Seq<u32>) -> bool {
    &&& forall|b: u32|
        b < 32 ==> 48 * s.len() <= 100 * #[trigger] count_bit(s, b) <= 52 * s.len()
    &&& 1000 * count_repeats(s) <= s.len()
}

proof fn lemma_count_bit_bound(s: Seq<u32>, b: u32)
    ensures
        count_bit(s, b) <= s.len(),
    decreases s.len(),
{
    if s.len() > 0 {
        lemma_count_bit_bound(s.drop_last(), b);
    }
}

proof fn lemma_count_repeats_bound(s: Seq<u32>)
    ensures
        count_repeats(s) <= s.len(),
    decreases s.len(),
{
    if s.len() >= 2 {
        lemma_count_repeats_bound(s.drop_last());
    }
}

/// For each of the 32 bit positions, how many of `numbers` have that bit set.
pub fn bit_counts(numbers: &[u32]) -> (r: Vec<u64>)
    ensures
        r@.len() == 32,
        forall|b: u32| b < 32 ==> r@[b as int] == count_bit(numbers@, b),
{
    let mut counts: Vec<u64> = Vec::new();
    let mut b: u32 = 0;
    while b < 32
        invariant
            b <= 32,
            counts@.len() == b,
            forall|j: int| 0 <= j < b ==> counts@[j] == 0,
        decreases 32 - b,
    {
        counts.push(0);
        b = b + 1;
    }
    let mut i: usize = 0;
    while i < numbers.len()
        invariant
            i <= numbers@.len(),
            counts@.len() == 32,
            forall|b: u32| b < 32 ==> counts@[b as int] == count_bit(numbers@.take(i as int), b),
        decreases numbers@.len() - i,
    {
        let num = numbers[i];
        let ghost before = numbers@.take(i as int);
        let ghost after = numbers@.take(i + 1);
        assert(after.drop_last() =~= before);
        let mut bit: u32 = 0;
        while bit < 32
            invariant
                i < numbers@.len(),
                i < usize::MAX,
                num == numbers@[i as int],
                after == numbers@.take(i + 1),
                after.drop_last() == before,
                before == numbers@.take(i as int),
                bit <= 32,
                counts@.len() == 32,
                forall|b: u32| b < bit ==> counts@[b as int] == count_bit(after, b),
                forall|b: u32| bit <= b < 32 ==> counts@[b as int] == count_bit(before, b),
            decreases 32 - bit,
        {
            proof {
                lemma_count_bit_bound(before, bit);
            }
            if num & (1u32 << bit) != 0 {
                let c = counts[bit as usize];
                assert(c < usize::MAX);
                assert(usize::MAX <= u64::MAX);
                counts.set(bit as usize, c + 1);
            }
            bit = bit + 1;
        }
        i = i + 1;
    }
    assert(numbers@.take(numbers@.len() as int) =~= numbers@);
    counts
}

/// How many of `numbers` equal the value just before them.
pub fn repeat_count(numbers: &[u32]) -> (r: u64)
    ensures
        r == count_repeats(numbers@),
{
    if numbers.len() == 0 {
        return 0;
    }
    let mut repeats: u64 = 0;
    let mut i: usize = 1;
    assert(count_repeats(numbers@.take(1)) == 0);
    while i < numbers.len()
        invariant
            1 <= i <= numbers@.len(),
            repeats == count_repeats(numbers@.take(i as int)),
        decreases numbers@.len() - i,
    {
        let ghost after = numbers@.take(i + 1);
        assert(after.drop_last() =~= numbers@.take(i as int));
        proof {
            lemma_count_repeats_bound(numbers@.take(i as int));
        }
        if numbers[i] == numbers[i - 1] {
            assert(repeats < usize::MAX && usize::MAX <= u64::MAX);
            repeats = repeats + 1;
        }
        i = i + 1;
    }
    assert(numbers@.take(numbers@.len() as int) =~= numbers@);
    repeats
}

/// Whether a sample of draws passes the acceptance rule `meets_criteria`.
pub fn check_randomness_criteria(numbers: &[u32]) -> (r: bool)
    ensures
        r == meets_criteria(numbers@),
{
    let total = numbers.len() as u128;
    assert(total <= usize::MAX && usize::MAX <= u64::MAX);
    let counts = bit_counts(numbers);
    let mut b: u32 = 0;
    while b < 32
        invariant
            b <= 32,
            total == numbers@.len(),
            total <= u64::MAX,
            counts@.len() == 32,
            forall|j: u32| j < 32 ==> counts@[j as int] == count_bit(numbers@, j),
            forall|j: u32| j < b ==> 48 * numbers@.len() <= 100 * #[trigger] count_bit(numbers@, j) <= 52 * numbers@.len(),
        decreases 32 - b,
    {
        let c = counts[b as usize] as u128;
        proof {
            lemma_count_bit_bound(numbers@, b);
        }
        if 100 * c < 48 * total || 100 * c > 52 * total {
            return false;
        }
        b = b + 1;
    }
    let repeats = repeat_count(numbers) as u128;
    proof {
        lemma_count_repeats_bound(numbers@);
    }
    1000 * repeats <= total
}

} // verus!
