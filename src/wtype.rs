//! What a signal is: a wire, a clock generator or a register of some width.
use vstd::prelude::*;

verus! {

/// Parameters of a generated clock: a sample is high while `(index + phase) mod period` is
/// below `duty`.
#[derive(Clone, Copy, PartialEq, Eq, Structural, Debug)]
pub struct Clock {
    pub period: usize,
    pub duty: usize,
    pub phase: usize,
}

impl Clock {
    /// A square wave of period two, high first.
    pub fn new() -> (r: Self)
        ensures
            r.period == 2 && r.duty == 1 && r.phase == 0,
    {
        Clock { period: 2, duty: 1, phase: 0 }
    }

    /// The level at sample `i`.
    pub open spec fn level(&self, i: int) -> bool {
        (i + self.phase) % (self.period as int) < self.duty
    }

    /// The level at sample `i`, computed without overflow.
    pub fn level_at(&self, i: usize) -> (r: bool)
        requires
            self.period > 0,
        ensures
            r == self.level(i as int),
    {
        let p = self.period;
        let a = i % p;
        let c = self.phase % p;
        proof {
            vstd::arithmetic::div_mod::lemma_add_mod_noop(i as int, self.phase as int, p as int);
            vstd::arithmetic::div_mod::lemma_mod_bound(i as int, p as int);
            vstd::arithmetic::div_mod::lemma_mod_bound(self.phase as int, p as int);
            if a >= p - c {
                vstd::arithmetic::div_mod::lemma_fundamental_div_mod_converse(
                    a + c,
                    p as int,
                    1,
                    a + c - p,
                );
            } else {
                vstd::arithmetic::div_mod::lemma_small_mod((a + c) as nat, p as nat);
            }
        }
        let x = if a >= p - c {
            a - (p - c)
        } else {
            a + c
        };
        x < self.duty
    }
}

/// A clock repeats every period, and moving its phase on by one shifts its pattern one
/// sample to the left.
pub proof fn law_clock_pattern(c: Clock, i: int)
    requires
        c.period > 0,
        c.phase < usize::MAX,
    ensures
        c.level(i + c.period) == c.level(i),
        (Clock { phase: (c.phase + 1) as usize, ..c }).level(i) == c.level(i + 1),
{
    let p = c.period as int;
    assert((i + c.period + c.phase) == (i + c.phase) + p * 1);
    vstd::arithmetic::div_mod::lemma_mod_multiples_vanish(1, i + c.phase, p);
    assert(p * 1 + (i + c.phase) == i + c.period + c.phase);
}

/// The kind of a signal.
#[derive(Clone, Copy, PartialEq, Eq, Structural, Debug)]
pub enum WaveType {
    Clock(Clock),
    Wire,
    Reg(usize),
}

impl WaveType {
    /// A clock has a positive period and a duty within it; a register has 1 to 512 bits.
    pub open spec fn valid(&self) -> bool {
        match self {
            WaveType::Clock(c) => c.period > 0 && c.duty <= c.period,
            WaveType::Wire => true,
            WaveType::Reg(w) => 1 <= *w <= 512,
        }
    }

    /// The width of every sample of a signal of this kind.
    pub open spec fn width(&self) -> nat {
        match self {
            WaveType::Reg(w) => *w as nat,
            _ => 1,
        }
    }
}

} // verus!
