//! Whether two driven places may share a bit.
use crate::bound::{
    BoundModel, DriverBitRange, DriverBound, range_may_contain, ranges_may_overlap, static_ends,
    bound_value,
};
use crate::place::{
    DriverExpr, DriverPlace, lemma_same_driver_expr_reflexive, lemma_same_driver_expr_symmetric,
    refs_root, same_driver_expr,
};
use crate::range::{DriverStaticRange, indexed_part_ends};
use vstd::prelude::*;

verus! {

// ---------------------------------------------------------------------------
// Specification
// ---------------------------------------------------------------------------

/// The slices and indexes of a place, from the root outward.
pub open spec fn projections(p: DriverPlace) -> Seq<DriverPlace>
    decreases p,
{
    match p {
        DriverPlace::Slice { base, .. } => projections(*base).push(p),
        DriverPlace::IndexedPartSelect { base, .. } => projections(*base).push(p),
        DriverPlace::Index { base, .. } => projections(*base).push(p),
        _ => Seq::empty(),
    }
}

/// The root of a place: a name, an object or an expression.
pub open spec fn place_root(p: DriverPlace) -> DriverPlace
    decreases p,
{
    match p {
        DriverPlace::Slice { base, .. } => place_root(*base),
        DriverPlace::IndexedPartSelect { base, .. } => place_root(*base),
        DriverPlace::Index { base, .. } => place_root(*base),
        _ => p,
    }
}

/// Two roots may denote the same storage: objects by identity, an object
/// and a name by the object's name, names by text, expressions by structure,
/// and an expression and a name or object when the expression mentions the
/// name.
pub open spec fn roots_may_overlap(a: DriverPlace, b: DriverPlace) -> bool {
    match a {
        DriverPlace::Object(l) => match b {
            DriverPlace::Object(r) => l.id == r.id,
            DriverPlace::Ident(r) => l.name@ == r@,
            DriverPlace::Expr(e) => refs_root(e, l.name@),
            _ => true,
        },
        DriverPlace::Ident(l) => match b {
            DriverPlace::Object(r) => r.name@ == l@,
            DriverPlace::Ident(r) => l@ == r@,
            DriverPlace::Expr(e) => refs_root(e, l@),
            _ => true,
        },
        DriverPlace::Expr(l) => match b {
            DriverPlace::Object(r) => refs_root(l, r.name@),
            DriverPlace::Ident(r) => refs_root(l, r@),
            DriverPlace::Expr(r) => same_driver_expr(l, r),
            _ => true,
        },
        _ => true,
    }
}

/// The known bits of an indexed part.
pub open spec fn part_ends(index: DriverExpr, width: BoundModel) -> Option<(u64, u64)> {
    indexed_part_ends(index.as_int_spec(), bound_value(width))
}

/// Known ranges overlap; unknown ones may.
pub open spec fn ends_may_overlap(a: Option<(u64, u64)>, b: Option<(u64, u64)>) -> bool {
    match (a, b) {
        (Some((al, ah)), Some((bl, bh))) => al <= bh && bl <= ah,
        _ => true,
    }
}

/// A known range holds a known bit; unknown ones may.
pub open spec fn ends_may_contain(a: Option<(u64, u64)>, bit: Option<u64>) -> bool {
    match (a, bit) {
        (Some((l, h)), Some(x)) => l <= x && x <= h,
        _ => true,
    }
}

/// Two projections at the same depth may select a common bit.
pub open spec fn projections_may_overlap(a: DriverPlace, b: DriverPlace) -> bool {
    match a {
        DriverPlace::Index { index: l, .. } => match b {
            DriverPlace::Index { index: r, .. } => match (l.as_int_spec(), r.as_int_spec()) {
                (Some(x), Some(y)) => x == y,
                _ => true,
            },
            DriverPlace::IndexedPartSelect { index, width, .. } => ends_may_contain(
                part_ends(index, width@),
                l.as_int_spec(),
            ),
            DriverPlace::Slice { range, .. } => match l.as_int_spec() {
                Some(x) => range_may_contain(range@, x),
                None => true,
            },
            _ => true,
        },
        DriverPlace::IndexedPartSelect { index: li, width: lw, .. } => match b {
            DriverPlace::IndexedPartSelect { index: ri, width: rw, .. } => if lw@ == rw@
                && li.as_int_spec() is Some && ri.as_int_spec() is Some && li.as_int_spec()
                != ri.as_int_spec() {
                false
            } else {
                ends_may_overlap(part_ends(li, lw@), part_ends(ri, rw@))
            },
            DriverPlace::Slice { range, .. } => ends_may_overlap(
                part_ends(li, lw@),
                static_ends(range@),
            ),
            DriverPlace::Index { index, .. } => ends_may_contain(
                part_ends(li, lw@),
                index.as_int_spec(),
            ),
            _ => true,
        },
        DriverPlace::Slice { range: l, .. } => match b {
            DriverPlace::Slice { range: r, .. } => l@ == r@ || ranges_may_overlap(l@, r@),
            DriverPlace::IndexedPartSelect { index, width, .. } => ends_may_overlap(
                part_ends(index, width@),
                static_ends(l@),
            ),
            DriverPlace::Index { index, .. } => match index.as_int_spec() {
                Some(x) => range_may_contain(l@, x),
                None => true,
            },
            _ => true,
        },
        _ => true,
    }
}

/// Two places may share a bit: their roots may denote the same storage, and
/// the projections they have at each common depth may select a common bit.
pub open spec fn places_may_overlap(a: DriverPlace, b: DriverPlace) -> bool {
    let pa = projections(a);
    let pb = projections(b);
    &&& roots_may_overlap(place_root(a), place_root(b))
    &&& forall|i: int|
        0 <= i < pa.len() && i < pb.len() ==> #[trigger] projections_may_overlap(pa[i], pb[i])
}

// ---------------------------------------------------------------------------
// Laws
// ---------------------------------------------------------------------------

proof fn lemma_roots_symmetric(a: DriverPlace, b: DriverPlace)
    ensures
        roots_may_overlap(a, b) == roots_may_overlap(b, a),
{
    if let DriverPlace::Expr(l) = a {
        if let DriverPlace::Expr(r) = b {
            if same_driver_expr(l, r) {
                lemma_same_driver_expr_symmetric(l, r);
            }
            if same_driver_expr(r, l) {
                lemma_same_driver_expr_symmetric(r, l);
            }
        }
    }
}

proof fn lemma_projections_symmetric(a: DriverPlace, b: DriverPlace)
    ensures
        projections_may_overlap(a, b) == projections_may_overlap(b, a),
{
}

proof fn lemma_projection_reflexive(a: DriverPlace)
    ensures
        projections_may_overlap(a, a),
{
    if let DriverPlace::IndexedPartSelect { index, width, .. } = a {
        if let Some((l, h)) = part_ends(index, width@) {
            assert(l <= h);
        }
    }
}

/// Whether two places may share a bit does not depend on the order in which
/// they are asked about.
pub proof fn lemma_places_overlap_symmetric(a: DriverPlace, b: DriverPlace)
    ensures
        places_may_overlap(a, b) == places_may_overlap(b, a),
{
    lemma_roots_symmetric(place_root(a), place_root(b));
    let pa = projections(a);
    let pb = projections(b);
    assert forall|i: int| 0 <= i < pa.len() && i < pb.len() implies #[trigger] projections_may_overlap(
        pa[i],
        pb[i],
    ) == projections_may_overlap(pb[i], pa[i]) by {
        lemma_projections_symmetric(pa[i], pb[i]);
    }
    if places_may_overlap(b, a) {
        assert forall|i: int| 0 <= i < pa.len() && i < pb.len() implies #[trigger] projections_may_overlap(
            pa[i],
            pb[i],
        ) by {
            assert(projections_may_overlap(pb[i], pa[i]));
            lemma_projections_symmetric(pa[i], pb[i]);
        }
    }
    if places_may_overlap(a, b) {
        assert forall|i: int| 0 <= i < pb.len() && i < pa.len() implies #[trigger] projections_may_overlap(
            pb[i],
            pa[i],
        ) by {
            assert(projections_may_overlap(pa[i], pb[i]));
            lemma_projections_symmetric(pa[i], pb[i]);
        }
    }
}

/// Two places whose projections at one depth are indexes with known,
/// different values select different bits: they never overlap.
pub proof fn lemma_distinct_indexes_never_overlap(a: DriverPlace, b: DriverPlace, k: int)
    requires
        0 <= k < projections(a).len(),
        k < projections(b).len(),
        projections(a)[k] matches DriverPlace::Index { index: x, .. } && projections(b)[k] matches DriverPlace::Index {
            index: y,
            ..
        } && x.as_int_spec() is Some && y.as_int_spec() is Some && x.as_int_spec() != y.as_int_spec(),
    ensures
        !places_may_overlap(a, b),
{
    assert(!projections_may_overlap(projections(a)[k], projections(b)[k]));
}

/// A place may always share a bit with itself.
pub proof fn lemma_place_overlaps_itself(a: DriverPlace)
    ensures
        places_may_overlap(a, a),
{
    let r = place_root(a);
    if let DriverPlace::Expr(e) = r {
        lemma_same_driver_expr_reflexive(e);
    }
    let pa = projections(a);
    assert forall|i: int| 0 <= i < pa.len() && i < pa.len() implies #[trigger] projections_may_overlap(
        pa[i],
        pa[i],
    ) by {
        lemma_projection_reflexive(pa[i]);
    }
}

// ---------------------------------------------------------------------------
// Implementation
// ---------------------------------------------------------------------------

/// The question whether two places may share a bit.
pub struct DriverPlaceOverlap<'a> {
    pub left: &'a DriverPlace,
    pub right: &'a DriverPlace,
}

impl<'a> DriverPlaceOverlap<'a> {
    pub fn new(left: &'a DriverPlace, right: &'a DriverPlace) -> (r: Self)
        ensures
            *r.left == *left,
            *r.right == *right,
    {
        DriverPlaceOverlap { left, right }
    }

    pub fn may_overlap(&self) -> (r: bool)
        ensures
            r == places_may_overlap(*self.left, *self.right),
    {
        let left = PlaceFact::from(self.left);
        let right = PlaceFact::from(self.right);
        let r = left.may_overlap(&right);
        proof {
            let pa = projections(*self.left);
            let pb = projections(*self.right);
            assert forall|i: int| 0 <= i < pa.len() && i < pb.len() implies #[trigger] projections_may_overlap(pa[i], pb[i])
                == projections_may_overlap(*left.projections@[i], *right.projections@[i]) by {
                assert(*left.projections@[i] == pa[i]);
                assert(*right.projections@[i] == pb[i]);
            }
            if !r && roots_may_overlap(*left.root, *right.root) {
                let i = choose|i: int|
                    0 <= i < left.projections@.len() && i < right.projections@.len()
                        && !#[trigger] projections_may_overlap(*left.projections@[i], *right.projections@[i]);
                assert(!projections_may_overlap(pa[i], pb[i]));
            }
        }
        r
    }
}

impl DriverPlace {
    /// The two places may share a bit.
    pub fn overlaps(&self, other: &Self) -> (r: bool)
        ensures
            r == places_may_overlap(*self, *other),
    {
        DriverPlaceOverlap::new(self, other).may_overlap()
    }
}

/// A place taken apart: its root and its projections from the root outward.
struct PlaceFact<'a> {
    root: &'a DriverPlace,
    projections: Vec<&'a DriverPlace>,
}

fn collect<'a>(place: &'a DriverPlace, out: &mut Vec<&'a DriverPlace>) -> (root: &'a DriverPlace)
    ensures
        *root == place_root(*place),
        final(out)@.len() == old(out)@.len() + projections(*place).len(),
        forall|i: int| 0 <= i < old(out)@.len() ==> *final(out)@[i] == *old(out)@[i],
        forall|i: int|
            0 <= i < projections(*place).len() ==> *final(out)@[old(out)@.len() + i]
                == #[trigger] projections(*place)[i],
    decreases place,
{
    match place {
        DriverPlace::Slice { base, .. } => {
            let root = collect(base, out);
            out.push(place);
            root
        },
        DriverPlace::IndexedPartSelect { base, .. } => {
            let root = collect(base, out);
            out.push(place);
            root
        },
        DriverPlace::Index { base, .. } => {
            let root = collect(base, out);
            out.push(place);
            root
        },
        _ => place,
    }
}

impl<'a> PlaceFact<'a> {
    fn from(place: &'a DriverPlace) -> (r: Self)
        ensures
            *r.root == place_root(*place),
            r.projections@.len() == projections(*place).len(),
            forall|i: int|
                0 <= i < r.projections@.len() ==> *r.projections@[i] == #[trigger] projections(
                    *place,
                )[i],
    {
        let mut projections: Vec<&'a DriverPlace> = Vec::new();
        let root = collect(place, &mut projections);
        PlaceFact { root, projections }
    }

    fn may_overlap(&self, other: &Self) -> (r: bool)
        ensures
            r == (roots_may_overlap(*self.root, *other.root) && forall|i: int|
                0 <= i < self.projections@.len() && i < other.projections@.len()
                    ==> #[trigger] projections_may_overlap(
                    *self.projections@[i],
                    *other.projections@[i],
                )),
    {
        if !root_may_overlap(self.root, other.root) {
            return false;
        }
        let mut i: usize = 0;
        while i < self.projections.len() && i < other.projections.len()
            invariant
                i <= self.projections@.len(),
                i <= other.projections@.len(),
                forall|j: int|
                    0 <= j < i ==> #[trigger] projections_may_overlap(
                        *self.projections@[j],
                        *other.projections@[j],
                    ),
            decreases self.projections.len() - i,
        {
            if !ProjectionOverlap::new(self.projections[i], other.projections[i]).may_overlap() {
                return false;
            }
            i = i + 1;
        }
        true
    }
}

fn root_may_overlap(a: &DriverPlace, b: &DriverPlace) -> (r: bool)
    ensures
        r == roots_may_overlap(*a, *b),
{
    match (a, b) {
        (DriverPlace::Object(l), DriverPlace::Object(r)) => l.id == r.id,
        (DriverPlace::Object(l), DriverPlace::Ident(r)) => crate::text::str_eq(
            l.name.as_str(),
            r.as_str(),
        ),
        (DriverPlace::Ident(l), DriverPlace::Object(r)) => crate::text::str_eq(
            r.name.as_str(),
            l.as_str(),
        ),
        (DriverPlace::Ident(l), DriverPlace::Ident(r)) => crate::text::str_eq(
            l.as_str(),
            r.as_str(),
        ),
        (DriverPlace::Expr(l), DriverPlace::Expr(r)) => l.same_as(r),
        (DriverPlace::Ident(root), DriverPlace::Expr(e)) => e.references_root(root.as_str()),
        (DriverPlace::Expr(e), DriverPlace::Ident(root)) => e.references_root(root.as_str()),
        (DriverPlace::Object(o), DriverPlace::Expr(e)) => e.references_root(o.name.as_str()),
        (DriverPlace::Expr(e), DriverPlace::Object(o)) => e.references_root(o.name.as_str()),
        _ => true,
    }
}

/// The question whether two projections at the same depth may select a
/// common bit.
pub struct ProjectionOverlap<'a> {
    pub left: &'a DriverPlace,
    pub right: &'a DriverPlace,
}

impl<'a> ProjectionOverlap<'a> {
    pub fn new(left: &'a DriverPlace, right: &'a DriverPlace) -> (r: Self)
        ensures
            *r.left == *left,
            *r.right == *right,
    {
        ProjectionOverlap { left, right }
    }

    pub fn may_overlap(&self) -> (r: bool)
        ensures
            r == projections_may_overlap(*self.left, *self.right),
    {
        match (self.left, self.right) {
            (DriverPlace::Index { index: l, .. }, DriverPlace::Index { index: r, .. }) => {
                self.indexes_may_overlap(l, r)
            },
            (
                DriverPlace::IndexedPartSelect { index: li, width: lw, .. },
                DriverPlace::IndexedPartSelect { index: ri, width: rw, .. },
            ) => self.indexed_ranges_may_overlap(li, lw, ri, rw),
            (DriverPlace::Slice { range: l, .. }, DriverPlace::Slice { range: r, .. }) => {
                l.same_as(r) || l.may_overlap(r)
            },
            (
                DriverPlace::IndexedPartSelect { index, width, .. },
                DriverPlace::Slice { range, .. },
            ) => self.indexed_range_may_overlap_slice(index, width, range),
            (
                DriverPlace::Slice { range, .. },
                DriverPlace::IndexedPartSelect { index, width, .. },
            ) => self.indexed_range_may_overlap_slice(index, width, range),
            (
                DriverPlace::IndexedPartSelect { index, width, .. },
                DriverPlace::Index { index: bit, .. },
            ) => self.indexed_range_may_contain_index(index, width, bit),
            (
                DriverPlace::Index { index: bit, .. },
                DriverPlace::IndexedPartSelect { index, width, .. },
            ) => self.indexed_range_may_contain_index(index, width, bit),
            (DriverPlace::Slice { range, .. }, DriverPlace::Index { index, .. }) => {
                self.index_may_overlap_range(index, range)
            },
            (DriverPlace::Index { index, .. }, DriverPlace::Slice { range, .. }) => {
                self.index_may_overlap_range(index, range)
            },
            _ => true,
        }
    }

    /// Two indexes may select the same bit unless both are known and differ.
    pub fn indexes_may_overlap(&self, left: &DriverExpr, right: &DriverExpr) -> (r: bool)
        ensures
            r == match (left.as_int_spec(), right.as_int_spec()) {
                (Some(x), Some(y)) => x == y,
                _ => true,
            },
    {
        match (left.as_int(), right.as_int()) {
            (Some(l), Some(r)) => l == r,
            _ => true,
        }
    }

    /// Two indexed parts may share a bit: not when they have the same width
    /// and different known indexes, and otherwise when their known ranges
    /// overlap or a range is unknown.
    pub fn indexed_ranges_may_overlap(
        &self,
        left_index: &DriverExpr,
        left_width: &DriverBound,
        right_index: &DriverExpr,
        right_width: &DriverBound,
    ) -> (r: bool)
        ensures
            r == if left_width@ == right_width@ && left_index.as_int_spec() is Some
                && right_index.as_int_spec() is Some && left_index.as_int_spec()
                != right_index.as_int_spec() {
                false
            } else {
                ends_may_overlap(
                    part_ends(*left_index, left_width@),
                    part_ends(*right_index, right_width@),
                )
            },
    {
        if left_width.same_as(right_width) {
            if let (Some(l), Some(r)) = (left_index.as_int(), right_index.as_int()) {
                if l != r {
                    return false;
                }
            }
        }
        let left = match DriverStaticRange::from_indexed_part(left_index, left_width) {
            Some(range) => range,
            None => {
                return true;
            },
        };
        let right = match DriverStaticRange::from_indexed_part(right_index, right_width) {
            Some(range) => range,
            None => {
                return true;
            },
        };
        left.may_overlap(&right)
    }

    /// An indexed part and a slice may share a bit unless both ranges are
    /// known and disjoint.
    pub fn indexed_range_may_overlap_slice(
        &self,
        index: &DriverExpr,
        width: &DriverBound,
        slice: &DriverBitRange,
    ) -> (r: bool)
        ensures
            r == ends_may_overlap(part_ends(*index, width@), static_ends(slice@)),
    {
        let indexed = match DriverStaticRange::from_indexed_part(index, width) {
            Some(range) => range,
            None => {
                return true;
            },
        };
        let sliced = match slice.static_range() {
            Some(range) => range,
            None => {
                return true;
            },
        };
        indexed.may_overlap(&sliced)
    }

    /// An indexed part may hold a bit unless both are known and it does not.
    pub fn indexed_range_may_contain_index(
        &self,
        part_index: &DriverExpr,
        width: &DriverBound,
        bit_index: &DriverExpr,
    ) -> (r: bool)
        ensures
            r == ends_may_contain(part_ends(*part_index, width@), bit_index.as_int_spec()),
    {
        let bit = match bit_index.as_int() {
            Some(bit) => bit,
            None => {
                return true;
            },
        };
        let range = match DriverStaticRange::from_indexed_part(part_index, width) {
            Some(range) => range,
            None => {
                return true;
            },
        };
        range.contains(bit)
    }

    /// A slice may hold an index unless the index is known and the slice
    /// cannot hold it.
    pub fn index_may_overlap_range(&self, index: &DriverExpr, range: &DriverBitRange) -> (r: bool)
        ensures
            r == match index.as_int_spec() {
                Some(x) => range_may_contain(range@, x),
                None => true,
            },
    {
        let index = match index.as_int() {
            Some(index) => index,
            None => {
                return true;
            },
        };
        range.may_contain_index(index)
    }
}

} // verus!
