use vstd::prelude::*;

use crate::bytes::{get_random_u32, lemma_word_bounds, word_at};
use crate::error::RngError;

verus! {

/// Number of bytes read from the entropy source on an ordinary refill.
pub const POOL_SIZE: usize = 1024;

/// Largest number of bytes that one `fill_bytes` call may ask for (1 MiB).
pub const MAX_REQUEST: usize = 1048576;

/// The outcome of a draw: a value, or a request for fresh entropy.
///
/// `NeedEntropy(k)` leaves the generator unable to serve the draw from its
/// pool. The caller reads `k` bytes from the entropy source, hands them to
/// `SecureRng::refill`, and repeats the draw.
#[derive(Debug, PartialEq, Eq)]
pub enum Draw<T> {
    Ready(T),
    NeedEntropy(usize),
}

/// How many bytes a refill reads so that a request of `n` bytes fits: the pool
/// grows past `POOL_SIZE` for a larger request.
pub open spec fn refill_len(n: int) -> int {
    if n > POOL_SIZE as int {
        n
    } else {
        POOL_SIZE as int
    }
}

/// The largest multiple of `span` not above `u32::MAX`. Reducing a draw
/// modulo `span` is unbiased on the draws below it, which are used; the draws
/// at or above it are discarded.
pub open spec fn usable_limit(span: int) -> int {
    u32::MAX as int - (u32::MAX as int % span)
}

/// Offset of the first 4-byte word of `s`, starting at `c` and stepping by
/// four, whose value lies in `[lo, hi)`; `None` when the pool runs out first.
pub open spec fn first_in(s: Seq<u8>, c: int, lo: int, hi: int) -> Option<int>
    decreases s.len() - c,
{
    if c < 0 || s.len() - c < 4 {
        None
    } else if lo <= word_at(s, c) < hi {
        Some(c)
    } else {
        first_in(s, c + 4, lo, hi)
    }
}

/// A word that a scan accepts lies in the pool, at a whole number of words
/// from where the scan began, and in the accepted window.
pub proof fn lemma_first_in(s: Seq<u8>, c: int, lo: int, hi: int)
    ensures
        first_in(s, c, lo, hi) matches Some(p) ==> c <= p && p + 4 <= s.len() && (p - c) % 4 == 0
            && lo <= word_at(s, p) < hi,
    decreases s.len() - c,
{
    if c >= 0 && s.len() - c >= 4 && !(lo <= word_at(s, c) < hi) {
        lemma_first_in(s, c + 4, lo, hi);
    }
}

/// Where a scan from `c` that accepts no word leaves the cursor: past the
/// last whole word of `s`.
pub open spec fn scan_end(s: Seq<u8>, c: int) -> int {
    c + 4 * ((s.len() - c) / 4)
}

/// A pool of entropy bytes with a read cursor. Bytes before the cursor have
/// been served and are never served again.
pub struct SecureRng {
    buffer: Vec<u8>,
    position: usize,
}

impl SecureRng {
    /// The bytes of the current pool.
    pub closed spec fn pool(&self) -> Seq<u8> {
        self.buffer@
    }

    /// Offset of the next unserved byte.
    pub closed spec fn cursor(&self) -> int {
        self.position as int
    }

    /// The cursor never runs past the end of the pool.
    pub open spec fn wf(&self) -> bool {
        0 <= self.cursor() <= self.pool().len()
    }

    /// Number of unserved bytes left in the pool.
    pub open spec fn remaining(&self) -> int {
        self.pool().len() - self.cursor()
    }

    /// A generator with an empty pool: the first draw asks for entropy.
    pub fn new() -> (r: SecureRng)
        ensures
            r.wf(),
            r.pool() == Seq::<u8>::empty(),
            r.cursor() == 0,
    {
        SecureRng { buffer: Vec::new(), position: 0 }
    }

    /// Replaces the whole pool by `fresh`, bytes just read from the entropy
    /// source, and rewinds the cursor.
    pub fn refill(&mut self, fresh: Vec<u8>)
        ensures
            final(self).wf(),
            final(self).pool() == fresh@,
            final(self).cursor() == 0,
    {
        self.buffer = fresh;
        self.position = 0;
    }

    /// Whether `n` more bytes can be served from the pool.
    fn fits(&self, n: usize) -> (r: bool)
        requires
            self.wf(),
        ensures
            r == (n <= self.remaining()),
    {
        n <= self.buffer.len() - self.position
    }
    /// Copies the next `buf.len()` bytes of the pool into `buf`.
    ///
    /// A request longer than `MAX_REQUEST` is refused. A request that does not
    /// fit in what is left of the pool asks for a refill of
    /// `refill_len(buf.len())` bytes and changes nothing; the grown refill
    /// makes every accepted request fit once the fresh bytes have arrived.
    pub fn fill_bytes(&mut self, buf: &mut [u8]) -> (r: Result<Draw<()>, RngError>)
        requires
            old(self).wf(),
        ensures
            final(self).wf(),
            final(buf)@.len() == old(buf)@.len(),
            old(buf)@.len() > MAX_REQUEST ==> r == Err::<Draw<()>, RngError>(
                RngError::RequestTooLarge,
            ) && *final(self) == *old(self) && final(buf)@ == old(buf)@,
            old(buf)@.len() <= MAX_REQUEST && old(buf)@.len() > old(self).remaining() ==> r
                == Ok::<Draw<()>, RngError>(Draw::NeedEntropy(refill_len(old(buf)@.len() as int) as usize))
                && *final(self) == *old(self) && final(buf)@ == old(buf)@,
            old(buf)@.len() <= MAX_REQUEST && old(buf)@.len() <= old(self).remaining() ==> r
                == Ok::<Draw<()>, RngError>(Draw::Ready(())) && final(self).pool() == old(self).pool()
                && final(self).cursor() == old(self).cursor() + old(buf)@.len() && final(buf)@
                == old(self).pool().subrange(
                old(self).cursor(),
                old(self).cursor() + old(buf)@.len(),
            ),
    {
        let n = buf.len();
        if n > MAX_REQUEST {
            return Err(RngError::RequestTooLarge);
        }
        if !self.fits(n) {
            let k = if n > POOL_SIZE { n } else { POOL_SIZE };
            return Ok(Draw::NeedEntropy(k));
        }
        let start = self.position;
        let mut i: usize = 0;
        while i < n
            invariant
                self.wf(),
                self.position == start,
                start + n <= self.buffer.len(),
                i <= n,
                n == buf@.len(),
                forall|j: int| 0 <= j < i ==> buf@[j] == self.buffer@[start + j],
            decreases n - i,
        {
            buf[i] = self.buffer[start + i];
            i = i + 1;
        }
        proof {
            assert(buf@ =~= self.buffer@.subrange(start as int, start + n));
        }
        self.position = start + n;
        Ok(Draw::Ready(()))
    }

    /// Draws the next four pool bytes as a 32-bit value, least significant
    /// byte first, or asks for a refill of `POOL_SIZE` bytes when fewer than
    /// four are left.
    pub fn next_u32(&mut self) -> (r: Draw<u32>)
        requires
            old(self).wf(),
        ensures
            final(self).wf(),
            final(self).pool() == old(self).pool(),
            old(self).remaining() < 4 ==> r == Draw::<u32>::NeedEntropy(POOL_SIZE) && *final(self)
                == *old(self),
            old(self).remaining() >= 4 ==> r == Draw::Ready(word_at(old(self).pool(), old(self).cursor()) as u32)
                && final(self).cursor() == old(self).cursor() + 4,
            r matches Draw::Ready(v) ==> v as int == word_at(old(self).pool(), old(self).cursor()),
    {
        if !self.fits(4) {
            return Draw::NeedEntropy(POOL_SIZE);
        }
        let p = self.position;
        assert(p + 4 <= self.buffer.len());
        let v = get_random_u32(
            [self.buffer[p], self.buffer[p + 1], self.buffer[p + 2], self.buffer[p + 3]],
        );
        proof {
            lemma_word_bounds(self.buffer@, p as int);
        }
        self.position = p + 4;
        Draw::Ready(v)
    }
    /// Draws words until one lies in `[lo, hi]`, discarding the others, and
    /// returns it; asks for a refill of `POOL_SIZE` bytes when the pool runs
    /// out first.
    fn next_u32_within(&mut self, lo: u32, hi: u32) -> (r: Draw<u32>)
        requires
            old(self).wf(),
        ensures
            final(self).wf(),
            final(self).pool() == old(self).pool(),
            match first_in(old(self).pool(), old(self).cursor(), lo as int, hi + 1) {
                Some(p) => r == Draw::Ready(word_at(old(self).pool(), p) as u32) && final(self).cursor()
                    == p + 4,
                None => r == Draw::<u32>::NeedEntropy(POOL_SIZE) && final(self).cursor() == scan_end(
                    old(self).pool(),
                    old(self).cursor(),
                ),
            },
    {
        let ghost s = self.pool();
        let ghost c0 = self.cursor();
        proof {
            lemma_first_in(s, c0, lo as int, hi + 1);
        }
        loop
            invariant
                s == old(self).pool(),
                c0 == old(self).cursor(),
                first_in(s, c0, lo as int, hi + 1) matches Some(p) ==> p + 4 <= s.len() && 0 <= p,
                self.wf(),
                self.pool() == s,
                c0 <= self.cursor(),
                (self.cursor() - c0) % 4 == 0,
                first_in(s, c0, lo as int, hi + 1) == first_in(s, self.cursor(), lo as int, hi + 1),
            decreases self.remaining(),
        {
            let ghost c = self.cursor();
            match self.next_u32() {
                Draw::Ready(v) => {
                    if lo <= v && v <= hi {
                        return Draw::Ready(v);
                    }
                },
                Draw::NeedEntropy(k) => {
                    proof {
                        assert(scan_end(s, c0) == c) by (nonlinear_arith)
                            requires
                                scan_end(s, c0) == c0 + 4 * ((s.len() - c0) / 4),
                                c0 <= c,
                                (c - c0) % 4 == 0,
                                0 <= s.len() - c < 4,
                        ;
                    }
                    return Draw::NeedEntropy(k);
                },
            }
        }
    }

    /// A value uniformly distributed over `[min, max)`.
    ///
    /// Draws that would make `v % (max - min)` favour small remainders (those
    /// at or above `usable_limit`) are discarded and drawn again. An empty or
    /// reversed range is refused before any byte is drawn.
    pub fn gen_range(&mut self, min: u32, max: u32) -> (r: Result<Draw<u32>, RngError>)
        requires
            old(self).wf(),
        ensures
            final(self).wf(),
            final(self).pool() == old(self).pool(),
            min >= max ==> r == Err::<Draw<u32>, RngError>(RngError::InvalidRange) && *final(self)
                == *old(self),
            min < max ==> match first_in(
                old(self).pool(),
                old(self).cursor(),
                0,
                usable_limit(max - min),
            ) {
                Some(p) => r == Ok::<Draw<u32>, RngError>(
                    Draw::Ready((min + word_at(old(self).pool(), p) % (max - min)) as u32),
                ) && final(self).cursor() == p + 4,
                None => r == Ok::<Draw<u32>, RngError>(Draw::NeedEntropy(POOL_SIZE))
                    && final(self).cursor() == scan_end(old(self).pool(), old(self).cursor()),
            },
            r matches Ok(Draw::Ready(v)) ==> min <= v < max,
    {
        if min >= max {
            return Err(RngError::InvalidRange);
        }
        let range = max - min;
        let limit = u32::MAX - (u32::MAX % range);
        proof {
            assert(0 < limit && limit as int == usable_limit(range as int)) by (nonlinear_arith)
                requires
                    0 < range,
                    limit == u32::MAX - (u32::MAX % range),
            ;
        }
        match self.next_u32_within(0, limit - 1) {
            Draw::Ready(v) => {
                let off = v % range;
                proof {
                    assert(min + off < max);
                }
                Ok(Draw::Ready(min + off))
            },
            Draw::NeedEntropy(k) => Ok(Draw::NeedEntropy(k)),
        }
    }

    /// A value drawn uniformly from `1..=u32::MAX`: draws of zero are
    /// discarded, for as long as it takes.
    pub fn next_nonzero_u32(&mut self) -> (r: Draw<u32>)
        requires
            old(self).wf(),
        ensures
            final(self).wf(),
            final(self).pool() == old(self).pool(),
            match first_in(old(self).pool(), old(self).cursor(), 1, u32::MAX + 1) {
                Some(p) => r == Draw::Ready(word_at(old(self).pool(), p) as u32) && final(self).cursor()
                    == p + 4,
                None => r == Draw::<u32>::NeedEntropy(POOL_SIZE) && final(self).cursor() == scan_end(
                    old(self).pool(),
                    old(self).cursor(),
                ),
            },
            r matches Draw::Ready(v) ==> v != 0,
    {
        proof {
            lemma_first_in(self.pool(), self.cursor(), 1, u32::MAX + 1);
        }
        self.next_u32_within(1, u32::MAX)
    }
}

} // verus!
