use crate::bound::{DriverBound, bound_value};
use crate::place::DriverExpr;
use vstd::prelude::*;

verus! {

/// An inclusive range of bit positions `low..=high` whose ends are known.
#[derive(Clone, Copy, Debug, PartialEq, Eq)]
pub struct DriverStaticRange {
    low: u64,
    high: u64,
}

impl DriverStaticRange {
    /// The lower end.
    pub closed spec fn low_spec(self) -> u64 {
        self.low
    }

    /// The upper end.
    pub closed spec fn high_spec(self) -> u64 {
        self.high
    }

    /// The ends are ordered.
    pub open spec fn wf(self) -> bool {
        self.low_spec() <= self.high_spec()
    }

    /// Builds the range between two positions, whichever order they come in.
    pub fn new(first: u64, second: u64) -> (r: Self)
        ensures
            r.wf(),
            r.low_spec() == if first <= second { first } else { second },
            r.high_spec() == if first <= second { second } else { first },
    {
        if first <= second {
            Self { low: first, high: second }
        } else {
            Self { low: second, high: first }
        }
    }

    pub fn contains(&self, value: u64) -> (r: bool)
        ensures
            r == (self.low_spec() <= value && value <= self.high_spec()),
    {
        self.low <= value && value <= self.high
    }

    /// `other` lies within this range.
    pub fn contains_range(&self, other: &Self) -> (r: bool)
        ensures
            r == (self.low_spec() <= other.low_spec() && other.high_spec() <= self.high_spec()),
    {
        self.low <= other.low && other.high <= self.high
    }

    /// The number of bits, when it fits in 64 bits.
    pub fn checked_width(&self) -> (r: Option<u64>)
        requires
            self.wf(),
        ensures
            r == (if self.high_spec() - self.low_spec() + 1 <= u64::MAX {
                Some((self.high_spec() - self.low_spec() + 1) as u64)
            } else {
                None::<u64>
            }),
    {
        let span = self.high - self.low;
        span.checked_add(1)
    }

    pub fn low(&self) -> (r: u64)
        ensures
            r == self.low_spec(),
    {
        self.low
    }

    pub fn high(&self) -> (r: u64)
        ensures
            r == self.high_spec(),
    {
        self.high
    }

    /// The two ranges share a bit.
    pub fn may_overlap(&self, other: &Self) -> (r: bool)
        ensures
            r == (self.low_spec() <= other.high_spec() && other.low_spec() <= self.high_spec()),
    {
        self.low <= other.high && other.low <= self.high
    }

    /// The bits of part `index` of an array of parts `width` bits wide,
    /// when the index and width are known constants, the width is not zero,
    /// and the ends fit in 64 bits.
    pub fn from_indexed_part(index: &DriverExpr, width: &DriverBound) -> (r: Option<Self>)
        ensures
            match indexed_part_ends(index.as_int_spec(), bound_value(width@)) {
                Some((l, h)) => r matches Some(s) && s.wf() && s.low_spec() == l && s.high_spec()
                    == h,
                None => r is None,
            },
    {
        let index = index.as_int()?;
        let width = width.value()?;
        if width == 0 {
            return None;
        }
        let low = index.checked_mul(width)?;
        let high = low.checked_add(width - 1)?;
        Some(Self::new(low, high))
    }
}

/// The ends of part `index` of an array of parts `width` bits wide: from
/// `index * width` to `index * width + width - 1`.
pub open spec fn indexed_part_ends(index: Option<u64>, width: Option<u64>) -> Option<(u64, u64)> {
    match (index, width) {
        (Some(i), Some(w)) => if w != 0 && i * w <= u64::MAX && i * w + w - 1 <= u64::MAX {
            Some(((i * w) as u64, (i * w + w - 1) as u64))
        } else {
            None
        },
        _ => None,
    }
}


} // verus!
