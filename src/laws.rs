use vstd::prelude::*;
use vstd::set_lib::{lemma_int_range, lemma_map_size, set_int_range};

use crate::rng::{refill_len, usable_limit};

verus! {

/// The 32-bit draws that range reduction over `[min, max)` accepts and turns
/// into the value `o`.
pub open spec fn draws_giving(min: int, max: int, o: int) -> Set<int> {
    Set::new(|v: int| 0 <= v < usable_limit(max - min) && min + v % (max - min) == o)
}

/// Range reduction is unbiased: the usable draws are a whole number of
/// spans, and every value of `[min, max)` is produced by exactly as many
/// usable draws as every other, `usable_limit(max - min) / (max - min)` of them.
pub proof fn lemma_range_unbiased(min: u32, max: u32, o: int)
    requires
        min < max,
        min <= o < max,
    ensures
        usable_limit(max - min) % (max - min) == 0,
        draws_giving(min as int, max as int, o).finite(),
        draws_giving(min as int, max as int, o).len() == usable_limit(max - min) / (max - min),
{
    let span = max - min;
    let m = u32::MAX as int;
    let k = m / span;
    let r = o - min;
    assert(usable_limit(span) == k * span && k >= 1) by (nonlinear_arith)
        requires
            usable_limit(span) == m - m % span,
            k == m / span,
            0 < span <= m,
    ;
    assert((k * span) % span == 0 && (k * span) / span == k) by (nonlinear_arith)
        requires
            0 < span,
    ;
    let f = |q: int| q * span + r;
    let qs = set_int_range(0, k);
    let d = draws_giving(min as int, max as int, o);
    assert forall|v: int| d.contains(v) implies qs.map(f).contains(v) by {
        let q = v / span;
        assert(v == q * span + v % span && 0 <= q < k) by (nonlinear_arith)
            requires
                0 <= v < k * span,
                q == v / span,
                0 < span,
        ;
        assert(qs.contains(q) && f(q) == v);
    }
    assert forall|v: int| qs.map(f).contains(v) implies d.contains(v) by {
        let q = choose|q: int| qs.contains(q) && f(q) == v;
        assert(0 <= v < k * span && v % span == r) by (nonlinear_arith)
            requires
                0 <= q < k,
                v == q * span + r,
                0 <= r < span,
        ;
    }
    assert(d =~= qs.map(f));
    assert forall|a: int, b: int| qs.contains(a) && qs.contains(b) && f(a) == f(b) implies a == b by {
        assert(a == b) by (nonlinear_arith)
            requires
                a * span + r == b * span + r,
                0 < span,
        ;
    }
    lemma_int_range(0, k);
    lemma_map_size(qs, d, f);
}

/// The size of a pool, its cursor and how many refills it has had so far.
pub struct PoolModel {
    pub len: int,
    pub cursor: int,
    pub refills: nat,
}

/// One draw of `n` bytes as `SecureRng::fill_bytes` and `SecureRng::next_u32`
/// serve it: a pool with fewer than `n` bytes left is first refilled with
/// `refill_len(n)` fresh bytes.
pub open spec fn draw_step(s: PoolModel, n: int) -> PoolModel {
    if s.len - s.cursor < n {
        PoolModel { len: refill_len(n), cursor: n, refills: s.refills + 1 }
    } else {
        PoolModel { len: s.len, cursor: s.cursor + n, refills: s.refills }
    }
}

/// The pool after `m` successive draws of `n` bytes each.
pub open spec fn after_draws(s: PoolModel, n: int, m: nat) -> PoolModel
    decreases m,
{
    if m == 0 {
        s
    } else {
        draw_step(after_draws(s, n, (m - 1) as nat), n)
    }
}

/// The state of a new generator: an empty pool.
pub open spec fn fresh_pool() -> PoolModel {
    PoolModel { len: 0, cursor: 0, refills: 0 }
}

proof fn lemma_words_closed_form(i: nat)
    ensures
        after_draws(fresh_pool(), 4, i + 1) == (PoolModel {
            len: 1024,
            cursor: (4 * (i % 256) + 4) as int,
            refills: (i / 256 + 1) as nat,
        }),
    decreases i,
{
    assert(refill_len(4) == 1024);
    if i == 0 {
        assert(after_draws(fresh_pool(), 4, 0) == fresh_pool());
        assert(after_draws(fresh_pool(), 4, 1) == draw_step(fresh_pool(), 4));
    } else {
        lemma_words_closed_form((i - 1) as nat);
        let j = (i - 1) as nat;
        assert(after_draws(fresh_pool(), 4, i + 1) == draw_step(after_draws(fresh_pool(), 4, j + 1), 4));
        if j % 256 == 255 {
            assert(i % 256 == 0 && i / 256 == j / 256 + 1) by (nonlinear_arith)
                requires
                    i == j + 1,
                    j % 256 == 255,
            ;
        } else {
            assert(i % 256 == j % 256 + 1 && i / 256 == j / 256) by (nonlinear_arith)
                requires
                    i == j + 1,
                    j % 256 != 255,
            ;
        }
    }
}

/// Drawing 32-bit words from a new generator refills its 1024-byte pool
/// exactly once per 256 words, rounding up, and between two refills never
/// serves the same bytes twice: two draws that fall in the same refill end at
/// cursors at least one word apart.
pub proof fn lemma_word_draw_refills(m: nat)
    ensures
        after_draws(fresh_pool(), 4, m).refills == (m + 255) / 256,
        after_draws(fresh_pool(), 4, m).cursor <= after_draws(fresh_pool(), 4, m).len,
        forall|i: nat, j: nat|
            i < j && #[trigger] after_draws(fresh_pool(), 4, i).refills == #[trigger] after_draws(
                fresh_pool(),
                4,
                j,
            ).refills ==> after_draws(fresh_pool(), 4, i).cursor + 4 <= after_draws(fresh_pool(), 4, j).cursor,
{
    if m > 0 {
        lemma_words_closed_form((m - 1) as nat);
        assert(((m - 1) as nat / 256 + 1) == (m + 255) / 256) by (nonlinear_arith)
            requires
                m > 0,
        ;
        assert(4 * ((m - 1) as nat % 256) + 4 <= 1024) by (nonlinear_arith);
    }
    assert forall|i: nat, j: nat|
        i < j && #[trigger] after_draws(fresh_pool(), 4, i).refills == #[trigger] after_draws(
            fresh_pool(),
            4,
            j,
        ).refills implies after_draws(fresh_pool(), 4, i).cursor + 4 <= after_draws(fresh_pool(), 4, j).cursor by {
        lemma_words_closed_form((j - 1) as nat);
        if i == 0 {
            assert(((j - 1) as nat / 256 + 1) > 0);
        } else {
            lemma_words_closed_form((i - 1) as nat);
            let a = (i - 1) as nat;
            let b = (j - 1) as nat;
            assert(4 * (a % 256) + 4 + 4 <= 4 * (b % 256) + 4) by (nonlinear_arith)
                requires
                    a < b,
                    a / 256 == b / 256,
            ;
        }
    }
}

} // verus!
