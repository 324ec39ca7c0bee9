use vstd::prelude::*;

verus! {

/// Interaction state of a widget with respect to the pointer.
#[derive(Copy, Clone, PartialEq, Eq, Structural, Debug)]
pub enum State {
    Passive,
    Hovered,
    Active,
}

/// Payload of a slider control: a current value confined to a range and
/// snapped to a step grid. Positions are integers; one unit is the smallest
/// increment the bound device parameter distinguishes.
#[derive(Copy, Clone, PartialEq, Eq, Structural, Debug)]
pub struct SliderPosition {
    pub current: i64,
    pub minimum: i64,
    pub maximum: i64,
    pub step: i64,
}

impl SliderPosition {
    /// The maximum after repair: never below the minimum.
    pub open spec fn repaired_maximum(self) -> int {
        if self.maximum < self.minimum {
            self.minimum as int
        } else {
            self.maximum as int
        }
    }

    /// The step after repair: always positive.
    pub open spec fn repaired_step(self) -> int {
        if self.step < 1 {
            1
        } else {
            self.step as int
        }
    }

    /// The current value clamped into [minimum, repaired maximum].
    pub open spec fn clamped_current(self) -> int {
        if self.current < self.minimum {
            self.minimum as int
        } else if self.current as int > self.repaired_maximum() {
            self.repaired_maximum()
        } else {
            self.current as int
        }
    }

    /// The clamped current value snapped to the nearest multiple of the step
    /// counted from the minimum; a value halfway between two grid points
    /// rounds up. The grid point is capped at the last one inside the range,
    /// so the result keeps the invariant minimum <= current <= maximum.
    pub open spec fn snapped_current(self) -> int {
        let s = self.repaired_step();
        let k = (self.clamped_current() - self.minimum + s / 2) / s;
        let k_last = (self.repaired_maximum() - self.minimum) / s;
        self.minimum + (if k <= k_last {
            k
        } else {
            k_last
        }) * s
    }

    /// What the validator returns: range repaired, step positive, current
    /// clamped into the range and snapped to the step grid.
    pub open spec fn validated(self) -> SliderPosition {
        SliderPosition {
            current: self.snapped_current() as i64,
            minimum: self.minimum,
            maximum: self.repaired_maximum() as i64,
            step: self.repaired_step() as i64,
        }
    }

    /// Repairs a position: orders the range, forces the step positive, clamps
    /// the current value into the range and snaps it to the step grid; the
    /// repaired position satisfies the range invariant.
    pub fn validator(self) -> (r: SliderPosition)
        ensures
            r == self.validated(),
            r.minimum <= r.current <= r.maximum,
    {
        let minimum = self.minimum;
        let maximum = if self.maximum < self.minimum {
            self.minimum
        } else {
            self.maximum
        };
        let step: i64 = if self.step < 1 {
            1
        } else {
            self.step
        };
        let clamped = if self.current < minimum {
            minimum
        } else if self.current > maximum {
            maximum
        } else {
            self.current
        };
        let grid_offset: u128 = (clamped as i128 - minimum as i128) as u128;
        let s: u128 = step as u128;
        let k: u128 = (grid_offset + s / 2) / s;
        let k_last: u128 = (maximum as i128 - minimum as i128) as u128 / s;
        let k_fit: u128 = if k <= k_last {
            k
        } else {
            k_last
        };
        proof {
            let d = s as int;
            assert(1 <= d);
            let span = maximum as int - minimum as int;
            vstd::arithmetic::div_mod::lemma_fundamental_div_mod(span, d);
            vstd::arithmetic::div_mod::lemma_mod_bound(span, d);
            assert(d * (span / d) <= span);
            assert(k_last as int == span / d);
            assert(k_fit as int * s as int <= span) by (nonlinear_arith)
                requires
                    0 <= k_fit as int <= k_last as int,
                    1 <= s as int,
                    k_last as int * s as int <= span,
            ;
        }
        let snapped: i128 = minimum as i128 + (k_fit * s) as i128;
        SliderPosition { current: snapped as i64, minimum, maximum, step }
    }

    /// Width of the admissible range, saturated into the representable range.
    pub fn size(&self) -> (r: i64)
        ensures
            self.repaired_maximum() - self.minimum > i64::MAX ==> r == i64::MAX,
            self.repaired_maximum() - self.minimum <= i64::MAX ==> r as int
                == self.repaired_maximum() - self.minimum,
    {
        let maximum = if self.maximum < self.minimum {
            self.minimum
        } else {
            self.maximum
        };
        let width: i128 = maximum as i128 - self.minimum as i128;
        if width > i64::MAX as i128 {
            i64::MAX
        } else {
            width as i64
        }
    }

    /// The same range with a different current value.
    pub fn change(&self, new_value: i64) -> (r: SliderPosition)
        ensures
            r == (SliderPosition { current: new_value, ..*self }),
    {
        SliderPosition { current: new_value, ..*self }
    }

    /// The same range with the current value shifted; the shift saturates at
    /// the ends of the representable range.
    pub fn offset(&self, offset: i64) -> (r: SliderPosition)
        ensures
            r.minimum == self.minimum && r.maximum == self.maximum && r.step == self.step,
            self.current + offset > i64::MAX ==> r.current == i64::MAX,
            self.current + offset < i64::MIN ==> r.current == i64::MIN,
            i64::MIN <= self.current + offset <= i64::MAX ==> r.current
                == self.current + offset,
    {
        let shifted: i128 = self.current as i128 + offset as i128;
        let current = if shifted > i64::MAX as i128 {
            i64::MAX
        } else if shifted < i64::MIN as i128 {
            i64::MIN
        } else {
            shifted as i64
        };
        SliderPosition { current, ..*self }
    }
}

} // verus!
