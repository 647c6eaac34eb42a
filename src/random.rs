//! A small seeded pseudo-random stream. Every draw is a pure function of the
//! state it starts from, which is what makes generation reproducible.
use vstd::prelude::*;

verus! {

/// Multiplier that scrambles each state into the value handed out.
pub const CONVOLUTION_CONSTANT: u32 = 2147483647;

/// Multiplier of the linear congruential recurrence.
pub const LCM_MULTIPLIER: u32 = 1664525;

/// Increment of the linear congruential recurrence.
pub const LCM_INCREMENT: u32 = 1013904223;

/// The state after one step of the linear congruential recurrence.
pub open spec fn step(s: u32) -> u32 {
    s.wrapping_mul(LCM_MULTIPLIER).wrapping_add(LCM_INCREMENT)
}

/// The value handed out for a given (already stepped) state.
pub open spec fn scramble(s: u32) -> u32 {
    ((s >> 16u32) ^ s).wrapping_mul(CONVOLUTION_CONSTANT)
}

/// The value drawn from state `s`.
pub open spec fn draw(s: u32) -> u32 {
    scramble(step(s))
}

/// Whether a drawn value `v`, read as the fraction `v / u32::MAX`, lies
/// below the probability `num / den`.
pub open spec fn chance_hit(v: u32, num: u32, den: u32) -> bool {
    (v as int) * (den as int) < (num as int) * (u32::MAX as int)
}

/// The value drawn from state `s` scaled into `lo..=hi`, rounded down.
pub open spec fn scaled_draw(s: u32, lo: int, hi: int) -> int {
    lo + (draw(s) as int * (hi - lo)) / (u32::MAX as int)
}

/// `n` independent trials of probability `num / den` starting from state
/// `s`: the final state and the number of successes.
pub open spec fn trials(s: u32, n: nat, num: u32, den: u32) -> (u32, nat)
    decreases n,
{
    if n == 0 {
        (s, 0)
    } else {
        let rest = trials(step(s), (n - 1) as nat, num, den);
        (rest.0, rest.1 + if chance_hit(draw(s), num, den) { 1nat } else { 0nat })
    }
}

/// A binomial draw of `n` trials with probability `num / den`; probabilities
/// of at least 99% always give `n`, those of at most 1% always give 0.
pub open spec fn binomial(s: u32, n: nat, num: u32, den: u32) -> (u32, nat) {
    if 100 * (num as int) >= 99 * (den as int) {
        (s, n)
    } else if 100 * (num as int) <= den as int {
        (s, 0)
    } else {
        trials(s, n, num, den)
    }
}

/// A binomial draw between `min` and `max` whose mean is `avg_num / avg_den`.
pub open spec fn binomial_between(s: u32, min: nat, avg_num: u32, avg_den: u32, max: nat) -> (
    u32,
    nat,
) {
    if max <= min + 1 {
        (s, min)
    } else {
        let n = (max - min - 1) as nat;
        let num = (avg_num - min * avg_den) as u32;
        let den = (n * avg_den) as u32;
        let b = binomial(s, n, num, den);
        (b.0, b.1 + min)
    }
}

proof fn lemma_trials_bound(s: u32, n: nat, num: u32, den: u32)
    ensures
        trials(s, n, num, den).1 <= n,
    decreases n,
{
    if n > 0 {
        lemma_trials_bound(step(s), (n - 1) as nat, num, den);
    }
}

/// A deterministic stream of pseudo-random numbers.
#[derive(Debug)]
pub struct Random {
    pub state: u32,
}

impl Random {
    /// A stream that starts from `state`.
    pub fn new(state: u32) -> (r: Self)
        ensures
            r.state == state,
    {
        Self { state }
    }

    /// The next value of the stream.
    pub fn next_u32(&mut self) -> (r: u32)
        ensures
            final(self).state == step(old(self).state),
            r == draw(old(self).state),
    {
        self.state = self.state.wrapping_mul(LCM_MULTIPLIER).wrapping_add(LCM_INCREMENT);
        let x = self.state;
        ((x >> 16u32) ^ x).wrapping_mul(CONVOLUTION_CONSTANT)
    }

    /// A value in `range`, reduced from the next value of the stream.
    pub fn next_u32_in(&mut self, range: &std::ops::Range<u32>) -> (r: u32)
        requires
            range.start < range.end,
        ensures
            final(self).state == step(old(self).state),
            r == range.start + draw(old(self).state) as int % (range.end - range.start),
            range.start <= r < range.end,
    {
        let distance = range.end - range.start;
        let v = self.next_u32();
        v % distance + range.start
    }

    /// Whether the next value, read as a fraction of `u32::MAX`, falls below
    /// the probability `num / den`.
    pub fn next_chance(&mut self, num: u32, den: u32) -> (r: bool)
        ensures
            final(self).state == step(old(self).state),
            r == chance_hit(draw(old(self).state), num, den),
    {
        let v = self.next_u32();
        proof {
            assert((v as int) * (den as int) <= u32::MAX as int * u32::MAX as int) by (nonlinear_arith)
                requires
                    v <= u32::MAX,
                    den <= u32::MAX,
            ;
            assert((num as int) * (u32::MAX as int) <= u32::MAX as int * u32::MAX as int) by (nonlinear_arith)
                requires
                    num <= u32::MAX,
            ;
        }
        (v as u64) * (den as u64) < (num as u64) * (u32::MAX as u64)
    }

    /// The next value scaled into `lo..=hi`: `lo + v * (hi - lo) / u32::MAX`,
    /// rounded down.
    pub fn next_scaled_in(&mut self, lo: i64, hi: i64) -> (r: i64)
        requires
            lo <= hi,
            hi - lo <= u32::MAX,
        ensures
            final(self).state == step(old(self).state),
            r == scaled_draw(old(self).state, lo as int, hi as int),
            lo <= r <= hi,
    {
        let v = self.next_u32();
        let span = (hi - lo) as u64;
        proof {
            assert(v as int * span <= u32::MAX as int * span) by (nonlinear_arith)
                requires
                    v <= u32::MAX,
                    span >= 0,
            ;
            assert(u32::MAX as int * span <= u32::MAX as int * u32::MAX as int) by (nonlinear_arith)
                requires
                    span <= u32::MAX,
            ;
            vstd::arithmetic::div_mod::lemma_div_is_ordered(
                v as int * span,
                u32::MAX as int * span,
                u32::MAX as int,
            );
            vstd::arithmetic::div_mod::lemma_div_multiples_vanish(span as int, u32::MAX as int);
        }
        let scaled = (v as u64) * span / (u32::MAX as u64);
        lo + scaled as i64
    }

    /// The number of successes in `n` trials of probability `num / den`.
    pub fn next_binomial(&mut self, n: usize, num: u32, den: u32) -> (r: usize)
        ensures
            (final(self).state, r as nat) == binomial(old(self).state, n as nat, num, den),
            r <= n,
    {
        if 100 * (num as u64) >= 99 * (den as u64) {
            return n;
        }
        if 100 * (num as u64) <= den as u64 {
            return 0;
        }
        let ghost s0 = self.state;
        let mut count: usize = 0;
        let mut k: usize = 0;
        proof {
            lemma_trials_bound(s0, n as nat, num, den);
        }
        while k < n
            invariant
                k <= n,
                count <= k,
                trials(s0, n as nat, num, den) == (
                    trials(self.state, (n - k) as nat, num, den).0,
                    (count + trials(self.state, (n - k) as nat, num, den).1) as nat,
                ),
            decreases n - k,
        {
            let hit = self.next_chance(num, den);
            if hit {
                count = count + 1;
            }
            k = k + 1;
        }
        count
    }

    /// A binomial draw between `min` and `max` whose mean is `avg_num / avg_den`.
    pub fn next_binomial_between(&mut self, min: usize, avg_num: u32, avg_den: u32, max: usize) -> (r: usize)
        requires
            avg_den > 0,
            min * avg_den <= avg_num,
            avg_num <= max * avg_den,
            max * avg_den <= u32::MAX,
        ensures
            (final(self).state, r as nat) == binomial_between(
                old(self).state,
                min as nat,
                avg_num,
                avg_den,
                max as nat,
            ),
            min <= r <= max,
    {
        proof {
            assert(min <= max && max <= u32::MAX) by (nonlinear_arith)
                requires
                    avg_den > 0,
                    min * avg_den <= avg_num,
                    avg_num <= max * avg_den,
                    max * avg_den <= u32::MAX,
            ;
        }
        if max - min <= 1 {
            return min;
        }
        let n = max - min - 1;
        proof {
            assert(n * avg_den <= max * avg_den) by (nonlinear_arith)
                requires
                    n <= max,
            ;
            assert(min * avg_den <= max * avg_den) by (nonlinear_arith)
                requires
                    min <= max,
            ;
        }
        let num = avg_num - (min as u32) * avg_den;
        let den = (n as u32) * avg_den;
        self.next_binomial(n, num, den) + min
    }

    /// An element of `slice` picked by the next value of the stream.
    pub fn element<'a, T>(&mut self, slice: &'a [T]) -> (r: &'a T)
        requires
            0 < slice@.len() <= u32::MAX,
        ensures
            final(self).state == step(old(self).state),
            *r == slice@[(draw(old(self).state) % (slice@.len() as u32)) as int],
    {
        let index = self.next_u32_in(&(0..slice.len() as u32));
        &slice[index as usize]
    }
}

} // verus!
