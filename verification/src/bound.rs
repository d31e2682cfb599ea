//! Bit bounds of driven places: the text of a bound, its formula, and its
//! value when the formula is a known constant.
use crate::expr::{EirBound, EirExpr, fact_key};
use crate::formula::{
    DriverBoundFormula, FormulaModel, expr_formula, fm_wf, model_constant_value, model_greater,
    model_multiply, opt_model,
};
use crate::parse::read_formula;
use crate::range::DriverStaticRange;
use crate::text::{chars_of, push_all, string_of};
use vstd::prelude::*;

verus! {

/// What a bound is: its text, and its formula when the text or expression
/// has one.
pub struct BoundModel {
    pub source: Seq<char>,
    pub formula: Option<FormulaModel>,
}

/// The value of an optional formula that is a known constant.
pub open spec fn formula_value(f: Option<FormulaModel>) -> Option<u64> {
    match f {
        Some(m) => model_constant_value(m),
        None => None,
    }
}

/// The value of a bound that is a known constant.
pub open spec fn bound_value(b: BoundModel) -> Option<u64> {
    formula_value(b.formula)
}

/// Both bounds have formulas and the first exceeds the second for every
/// non-negative value of the symbols.
pub open spec fn bound_greater(a: BoundModel, b: BoundModel) -> bool {
    match (a.formula, b.formula) {
        (Some(x), Some(y)) => model_greater(x, y),
        _ => false,
    }
}

/// The bound of an elaborated bound: its text, and the formula of its
/// expression.
pub open spec fn eir_bound_model(b: EirBound) -> BoundModel {
    BoundModel { source: b.source@, formula: expr_formula(*b.expr) }
}

/// A bit bound.
#[derive(Debug)]
pub struct DriverBound {
    source: String,
    value: Option<u64>,
    formula: Option<DriverBoundFormula>,
}

impl View for DriverBound {
    type V = BoundModel;

    closed spec fn view(&self) -> BoundModel {
        BoundModel { source: self.source@, formula: opt_model(self.formula) }
    }
}

impl DriverBound {
    #[verifier::type_invariant]
    spec fn inv(self) -> bool {
        &&& (self.formula matches Some(f) ==> fm_wf(f@))
        &&& self.value == formula_value(opt_model(self.formula))
    }

    /// The bound with the given text and formula, if any.
    pub fn from_parts(source: String, formula: Option<DriverBoundFormula>) -> (r: Self)
        requires
            formula matches Some(f) ==> fm_wf(f@),
        ensures
            r@ == (BoundModel { source: source@, formula: opt_model(formula) }),
    {
        let value = match &formula {
            Some(f) => f.constant_value(),
            None => None,
        };
        DriverBound { source, value, formula }
    }

    /// The bound written as `source`.
    pub fn new(source: &str) -> (r: Self)
        ensures
            r@ == (BoundModel { source: source@, formula: read_formula(source@) }),
    {
        Self::from_source(source)
    }

    /// The bound written as `source`.
    pub fn from_source(source: &str) -> (r: Self)
        ensures
            r@ == (BoundModel { source: source@, formula: read_formula(source@) }),
    {
        let formula = DriverBoundFormula::from_source(source);
        Self::from_parts(source.to_owned(), formula)
    }

    /// The bound with the given text and formula.
    pub fn from_formula(source: &str, formula: DriverBoundFormula) -> (r: Self)
        requires
            fm_wf(formula@),
        ensures
            r@ == (BoundModel { source: source@, formula: Some(formula@) }),
    {
        Self::from_parts(source.to_owned(), Some(formula))
    }

    /// The bound of an elaborated bound.
    pub fn from_eir_bound(bound: &EirBound) -> (r: Self)
        ensures
            r@ == eir_bound_model(*bound),
    {
        match DriverBoundFormula::from_eir_expr(&bound.expr) {
            Some(formula) => Self::from_formula(bound.source.as_str(), formula),
            None => Self::from_parts(bound.source.clone(), None),
        }
    }

    /// The bound of an expression, named by its fact key.
    pub fn from_eir_expr(expr: &EirExpr) -> (r: Self)
        ensures
            r@ == (BoundModel { source: fact_key(*expr), formula: expr_formula(*expr) }),
    {
        let source = expr.fact_key();
        let formula = DriverBoundFormula::from_eir_expr(expr);
        Self::from_parts(source, formula)
    }

    pub fn source(&self) -> (r: &str)
        ensures
            r@ == self@.source,
    {
        self.source.as_str()
    }

    /// The value of the bound when it is a known constant.
    pub fn value(&self) -> (r: Option<u64>)
        ensures
            r == bound_value(self@),
    {
        proof {
            use_type_invariant(self);
        }
        self.value
    }

    /// Both bounds have formulas and this one exceeds `other` for every
    /// non-negative value of the symbols.
    pub fn is_strictly_greater_than(&self, other: &Self) -> (r: bool)
        ensures
            r == bound_greater(self@, other@),
    {
        proof {
            use_type_invariant(self);
            use_type_invariant(other);
        }
        match (&self.formula, &other.formula) {
            (Some(left), Some(right)) => left.is_strictly_greater_than(right),
            _ => false,
        }
    }

    /// The bound has a formula, and it is the formula written as `extent`.
    pub fn is_symbolic_extent(&self, extent: &str) -> (r: bool)
        ensures
            r == (self@.formula is Some && read_formula(extent@) == self@.formula),
    {
        let formula = match &self.formula {
            Some(f) => f,
            None => {
                return false;
            },
        };
        match DriverBoundFormula::from_source(extent) {
            Some(e) => formula.same_as(&e),
            None => false,
        }
    }

    /// Both bounds have formulas, and they are the same.
    pub fn has_same_formula(&self, other: &Self) -> (r: bool)
        ensures
            r == (self@.formula is Some && other@.formula == self@.formula),
    {
        match (&self.formula, &other.formula) {
            (Some(left), Some(right)) => left.same_as(right),
            _ => false,
        }
    }

    /// The formula of this bound is the product of the formula written as
    /// `extent` and that of `width`.
    pub fn is_symbolic_extent_times(&self, extent: &str, width: &Self) -> (r: bool)
        ensures
            r == (match (self@.formula, width@.formula, read_formula(extent@)) {
                (Some(f), Some(w), Some(e)) => model_multiply(e, w) == Some(f),
                _ => false,
            }),
    {
        proof {
            use_type_invariant(width);
        }
        let formula = match &self.formula {
            Some(f) => f,
            None => {
                return false;
            },
        };
        let width = match &width.formula {
            Some(w) => w,
            None => {
                return false;
            },
        };
        let extent = match DriverBoundFormula::from_source(extent) {
            Some(e) => e,
            None => {
                return false;
            },
        };
        match extent.multiply(width) {
            Some(expected) => formula.same_as(&expected),
            None => false,
        }
    }

    /// The formula of this bound is the product of those of `extent` and
    /// `width`.
    pub fn has_product_formula(&self, extent: &Self, width: &Self) -> (r: bool)
        ensures
            r == (match (self@.formula, extent@.formula, width@.formula) {
                (Some(f), Some(e), Some(w)) => model_multiply(e, w) == Some(f),
                _ => false,
            }),
    {
        proof {
            use_type_invariant(extent);
            use_type_invariant(width);
        }
        let formula = match &self.formula {
            Some(f) => f,
            None => {
                return false;
            },
        };
        let extent = match &extent.formula {
            Some(e) => e,
            None => {
                return false;
            },
        };
        let width = match &width.formula {
            Some(w) => w,
            None => {
                return false;
            },
        };
        match extent.multiply(width) {
            Some(expected) => formula.same_as(&expected),
            None => false,
        }
    }

    /// The two bounds have the same text and formula.
    pub fn same_as(&self, other: &Self) -> (r: bool)
        ensures
            r == (self@ == other@),
    {
        proof {
            use_type_invariant(self);
            use_type_invariant(other);
        }
        if !crate::text::str_eq(self.source.as_str(), other.source.as_str()) {
            return false;
        }
        match (&self.formula, &other.formula) {
            (Some(left), Some(right)) => left.same_as(right),
            (None, None) => true,
            _ => false,
        }
    }

    /// A copy of this bound.
    pub fn copy(&self) -> (r: Self)
        ensures
            r@ == self@,
    {
        proof {
            use_type_invariant(self);
        }
        let formula = match &self.formula {
            Some(f) => Some(f.copy()),
            None => None,
        };
        DriverBound { source: self.source.clone(), value: self.value, formula }
    }
}

// ---------------------------------------------------------------------------
// Bit ranges
// ---------------------------------------------------------------------------

/// The low and high bound of a bit range.
pub struct RangeModel {
    pub low: BoundModel,
    pub high: BoundModel,
}

/// The known ends of a bit range, in order, when both bounds are constants.
pub open spec fn static_ends(r: RangeModel) -> Option<(u64, u64)> {
    match (bound_value(r.low), bound_value(r.high)) {
        (Some(a), Some(b)) => Some(if a <= b { (a, b) } else { (b, a) }),
        _ => None,
    }
}

/// Two bit ranges may share a bit: their known ends overlap; otherwise they
/// do unless a known low end lies above the other's known high end, or a low
/// bound exceeds the other's high bound for every value of the symbols.
pub open spec fn ranges_may_overlap(a: RangeModel, b: RangeModel) -> bool {
    match (static_ends(a), static_ends(b)) {
        (Some((al, ah)), Some((bl, bh))) => al <= bh && bl <= ah,
        _ => {
            let a_low_above = match (bound_value(a.low), bound_value(b.high)) {
                (Some(x), Some(y)) => x > y,
                _ => false,
            };
            let b_low_above = match (bound_value(b.low), bound_value(a.high)) {
                (Some(x), Some(y)) => x > y,
                _ => false,
            };
            !(a_low_above || b_low_above || bound_greater(a.low, b.high) || bound_greater(
                b.low,
                a.high,
            ))
        },
    }
}

/// A bit range may hold a bit: within its known ends, and otherwise not below
/// a known low bound nor above a known high bound.
pub open spec fn range_may_contain(r: RangeModel, index: u64) -> bool {
    match static_ends(r) {
        Some((l, h)) => l <= index && index <= h,
        None => !(match bound_value(r.low) {
            Some(l) => index < l,
            None => false,
        }) && !(match bound_value(r.high) {
            Some(h) => index > h,
            None => false,
        }),
    }
}

/// A slice's range of bits, `high` down to `low`.
#[derive(Debug)]
pub struct DriverBitRange {
    low: DriverBound,
    high: DriverBound,
}

impl View for DriverBitRange {
    type V = RangeModel;

    closed spec fn view(&self) -> RangeModel {
        RangeModel { low: self.low@, high: self.high@ }
    }
}

impl DriverBitRange {
    /// The range between bounds written as text.
    pub fn new(low: &str, high: &str) -> (r: Self)
        ensures
            r@ == (RangeModel {
                low: BoundModel { source: low@, formula: read_formula(low@) },
                high: BoundModel { source: high@, formula: read_formula(high@) },
            }),
    {
        DriverBitRange { low: DriverBound::new(low), high: DriverBound::new(high) }
    }

    /// The range between two elaborated bounds.
    pub fn from_eir_bounds(low: &EirBound, high: &EirBound) -> (r: Self)
        ensures
            r@ == (RangeModel { low: eir_bound_model(*low), high: eir_bound_model(*high) }),
    {
        DriverBitRange {
            low: DriverBound::from_eir_bound(low),
            high: DriverBound::from_eir_bound(high),
        }
    }

    pub fn low(&self) -> (r: &DriverBound)
        ensures
            r@ == self@.low,
    {
        &self.low
    }

    pub fn high(&self) -> (r: &DriverBound)
        ensures
            r@ == self@.high,
    {
        &self.high
    }

    /// `high,low`, by the bounds' text.
    pub fn display(&self) -> (r: String)
        ensures
            r@ == self@.high.source + ","@ + self@.low.source,
    {
        let mut out = chars_of(self.high.source());
        let comma = chars_of(",");
        push_all(&mut out, &comma);
        let low = chars_of(self.low.source());
        push_all(&mut out, &low);
        string_of(&out)
    }

    /// The known ends, when both bounds are constants.
    pub fn static_range(&self) -> (r: Option<DriverStaticRange>)
        ensures
            match static_ends(self@) {
                Some((l, h)) => r matches Some(s) && s.wf() && s.low_spec() == l && s.high_spec()
                    == h,
                None => r is None,
            },
    {
        let low = self.low.value()?;
        let high = self.high.value()?;
        Some(DriverStaticRange::new(low, high))
    }

    /// The two ranges may share a bit.
    pub fn may_overlap(&self, other: &Self) -> (r: bool)
        ensures
            r == ranges_may_overlap(self@, other@),
    {
        if let (Some(left), Some(right)) = (self.static_range(), other.static_range()) {
            return left.may_overlap(&right);
        }
        if let (Some(left_low), Some(right_high)) = (self.low.value(), other.high.value()) {
            if left_low > right_high {
                return false;
            }
        }
        if let (Some(right_low), Some(left_high)) = (other.low.value(), self.high.value()) {
            if right_low > left_high {
                return false;
            }
        }
        if self.low.is_strictly_greater_than(&other.high) || other.low.is_strictly_greater_than(
            &self.high,
        ) {
            return false;
        }
        true
    }

    /// The range may hold bit `index`.
    pub fn may_contain_index(&self, index: u64) -> (r: bool)
        ensures
            r == range_may_contain(self@, index),
    {
        if let Some(range) = self.static_range() {
            return range.contains(index);
        }
        if let Some(low) = self.low.value() {
            if index < low {
                return false;
            }
        }
        if let Some(high) = self.high.value() {
            if index > high {
                return false;
            }
        }
        true
    }

    /// The two ranges have the same bounds.
    pub fn same_as(&self, other: &Self) -> (r: bool)
        ensures
            r == (self@ == other@),
    {
        self.low.same_as(&other.low) && self.high.same_as(&other.high)
    }

    /// A copy of this range.
    pub fn copy(&self) -> (r: Self)
        ensures
            r@ == self@,
    {
        DriverBitRange { low: self.low.copy(), high: self.high.copy() }
    }
}

} // verus!
