//! Promotion: how many levels a new node stands in.
//!
//! The list draws the height of each new node from a source of decisions
//! that its caller hands in, so that a caller can choose the policy: a
//! generator with the bias it likes, or a fixed run of decisions that gives
//! the same list every time.

use vstd::prelude::*;

verus! {

/// A source of promotion decisions. Each answer says whether a node that is
/// being inserted rises one more level. The list asks for nothing else, so
/// any generator will do: its bias is the chance of a promotion.
pub trait PromotionSource: Sized {
    /// A state of the source may hand out `promoted` and go on as `after`.
    /// A source that says nothing of itself may do anything.
    open spec fn grants(&self, after: &Self, promoted: bool) -> bool {
        true
    }

    /// The next promotion decision.
    fn promote(&mut self) -> (promoted: bool)
        ensures
            old(self).grants(final(self), promoted),
    ;
}

/// A level as a list with at most `cap` levels takes it: at least 1, at
/// most `cap`.
pub open spec fn bounded(level: int, cap: int) -> int
    recommends
        cap >= 1,
{
    if level < 1 {
        1
    } else if level > cap {
        cap
    } else {
        level
    }
}

/// A source in state `start` that has granted `level` levels so far may go
/// on to grant `total` levels in all and end in state `end`: it grants one
/// more level with each promotion, and stops at the first refusal or at
/// `cap`.
pub open spec fn climbs<R: PromotionSource>(start: R, end: R, level: int, total: int, cap: int) -> bool
    decreases cap - level,
{
    if level >= cap {
        end == start && total == level
    } else {
        ||| start.grants(&end, false) && total == level
        ||| exists|mid: R| #[trigger] start.grants(&mid, true) && climbs(mid, end, level + 1, total, cap)
    }
}

/// Draws a level: one more than the number of promotions that `source`
/// grants in a row, and never more than `cap`. No decision is asked for
/// once the cap is reached.
pub fn draw_level<R: PromotionSource>(source: &mut R, cap: u32) -> (level: u32)
    ensures
        1 <= level,
        level <= cap || level == 1,
        climbs(*old(source), *final(source), 1, level as int, cap as int),
{
    let ghost first = *source;
    let mut level: u32 = 1;
    loop
        invariant
            first == *old(source),
            1 <= level,
            level <= cap || level == 1,
            forall|end: R, total: int| #[trigger]
                climbs(*source, end, level as int, total, cap as int) ==> climbs(
                    first,
                    end,
                    1,
                    total,
                    cap as int,
                ),
        decreases cap - level,
    {
        if level >= cap {
            assert(climbs(*source, *source, level as int, level as int, cap as int));
            return level;
        }
        let ghost before = *source;
        let promoted = source.promote();
        assert(before.grants(source, promoted));
        if !promoted {
            assert(climbs(before, *source, level as int, level as int, cap as int));
            return level;
        }
        assert forall|end: R, total: int| #[trigger]
            climbs(*source, end, level + 1, total, cap as int) implies climbs(
            first,
            end,
            1,
            total,
            cap as int,
        ) by {
            assert(before.grants(source, true));
            assert(climbs(before, end, level as int, total, cap as int));
        }
        level = level + 1;
    }
}

/// One step of the generator behind [`SeededSource`].
pub open spec fn step(state: u64) -> u64 {
    let a = state ^ (state << 13);
    let b = a ^ (a >> 7);
    b ^ (b << 17)
}

/// A source whose decisions are a function of its seed alone: the same seed
/// gives the same decisions in the same order. It promotes about every
/// second time.
pub struct SeededSource {
    state: u64,
}

impl SeededSource {
    /// The state that the next decision is drawn from.
    pub closed spec fn state(&self) -> u64 {
        self.state
    }

    /// The state that a seed stands for.
    pub open spec fn start(seed: u64) -> u64 {
        if seed == 0 {
            0x9E37_79B9_7F4A_7C15
        } else {
            seed
        }
    }

    /// A source that starts from `seed`.
    pub fn new(seed: u64) -> (source: Self)
        ensures
            source.state() == Self::start(seed),
    {
        SeededSource { state: if seed == 0 { 0x9E37_79B9_7F4A_7C15 } else { seed } }
    }
}

impl PromotionSource for SeededSource {
    open spec fn grants(&self, after: &Self, promoted: bool) -> bool {
        &&& after.state() == step(self.state())
        &&& promoted == (step(self.state()) >> 63 == 1)
    }

    fn promote(&mut self) -> (promoted: bool) {
        let a: u64 = self.state ^ (self.state << 13);
        let b: u64 = a ^ (a >> 7);
        let c: u64 = b ^ (b << 17);
        self.state = c;
        (c >> 63) == 1
    }
}

} // verus!
