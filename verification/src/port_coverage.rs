//! Which bits of a root a driven place covers, and when loops over a
//! symbolic width cover a whole port.
use crate::bound::{BoundModel, DriverBound, eir_bound_model, static_ends};
use crate::expr::EirBound;
use crate::guard::{EirGuard, EirGuardFrame, frames_equal};
use crate::guard_coverage::{GuardCoverage, frames_cover, guard_paths};
use crate::loop_bounds::{
    DriverLoopBounds, DriverLoopGuard, count_loops, covers_bit_array_spec, covers_part_array_spec,
    is_loop_context, last_loop, loop_index_matches, non_loop_frames,
};
use crate::place::{DriverPlace, ObjectId};
use crate::range::{DriverStaticRange, indexed_part_ends};
use crate::text::str_eq;
use vstd::prelude::*;

verus! {

// ---------------------------------------------------------------------------
// Roots
// ---------------------------------------------------------------------------

/// The root whose coverage is checked: an object by identity, or, where the
/// identity is not known, by name.
#[derive(Clone, Copy, Debug, PartialEq, Eq, Structural)]
pub struct CoverageRoot {
    pub object_id: Option<ObjectId>,
}

/// The place is the whole root.
pub open spec fn root_matches(root: CoverageRoot, place: DriverPlace, fallback_name: Seq<char>) -> bool {
    match place {
        DriverPlace::Object(object) => match root.object_id {
            Some(id) => id == object.id,
            None => object.name@ == fallback_name,
        },
        _ => false,
    }
}

impl CoverageRoot {
    /// The root with the given identity, if known.
    pub fn new(object_id: Option<ObjectId>) -> (r: Self)
        ensures
            r.object_id == object_id,
    {
        CoverageRoot { object_id }
    }

    /// The place is the whole root: the object with its identity, or, where
    /// that is unknown, with the fallback name.
    pub fn matches(&self, place: &DriverPlace, fallback_name: &str) -> (r: bool)
        ensures
            r == root_matches(*self, *place, fallback_name@),
    {
        match place {
            DriverPlace::Object(object) => match self.object_id {
                Some(id) => id == object.id,
                None => str_eq(object.name.as_str(), fallback_name),
            },
            _ => false,
        }
    }

    /// The place is the whole root.
    pub fn is_whole_root(&self, place: &DriverPlace, fallback_name: &str) -> (r: bool)
        ensures
            r == root_matches(*self, *place, fallback_name@),
    {
        self.matches(place, fallback_name)
    }
}

/// The object a read place is rooted at.
pub struct ReadRoot<'a> {
    pub place: &'a DriverPlace,
}

/// The identity of the object a place is rooted at, if it is rooted at one.
pub open spec fn place_object_id(p: DriverPlace) -> Option<ObjectId>
    decreases p,
{
    match p {
        DriverPlace::Object(object) => Some(object.id),
        DriverPlace::Slice { base, .. } => place_object_id(*base),
        DriverPlace::IndexedPartSelect { base, .. } => place_object_id(*base),
        DriverPlace::Index { base, .. } => place_object_id(*base),
        _ => None,
    }
}

impl<'a> ReadRoot<'a> {
    /// The root of a read place.
    pub fn new(place: &'a DriverPlace) -> (r: Self)
        ensures
            r.place == place,
    {
        ReadRoot { place }
    }

    /// The identity of the object the place is rooted at.
    pub fn object_id(&self) -> (r: Option<ObjectId>)
        ensures
            r == place_object_id(*self.place),
    {
        let mut current = self.place;
        loop
            invariant
                place_object_id(*current) == place_object_id(*self.place),
            decreases current,
        {
            match current {
                DriverPlace::Object(object) => {
                    return Some(object.id);
                },
                DriverPlace::Slice { base, .. } => {
                    current = base;
                },
                DriverPlace::IndexedPartSelect { base, .. } => {
                    current = base;
                },
                DriverPlace::Index { base, .. } => {
                    current = base;
                },
                _ => {
                    return None;
                },
            }
        }
    }
}

// ---------------------------------------------------------------------------
// Static ranges of places
// ---------------------------------------------------------------------------

/// The range of the bits `relative` of a base range, where they lie within
/// it and the ends fit.
pub open spec fn relative_ends(base: (u64, u64), relative: (u64, u64)) -> Option<(u64, u64)> {
    let width = base.1 - base.0 + 1;
    if width > u64::MAX {
        None
    } else if relative.1 >= width {
        None
    } else if base.0 + relative.0 > u64::MAX || base.0 + relative.1 > u64::MAX {
        None
    } else {
        Some(((base.0 + relative.0) as u64, (base.0 + relative.1) as u64))
    }
}

/// The ends of a range.
pub open spec fn ends(r: DriverStaticRange) -> (u64, u64) {
    (r.low_spec(), r.high_spec())
}

/// The bits of the root a place covers, where they are known: the whole
/// root for the root itself, and for a projection the known bits of its
/// base that the projection selects.
pub open spec fn place_ends(
    root_name: Seq<char>,
    root: CoverageRoot,
    root_range: (u64, u64),
    place: DriverPlace,
) -> Option<(u64, u64)>
    decreases place,
{
    match place {
        DriverPlace::Object(_) => if root_matches(root, place, root_name) {
            Some(root_range)
        } else {
            None
        },
        DriverPlace::Slice { base, range } => match place_ends(root_name, root, root_range, *base) {
            Some(b) => match static_ends(range@) {
                Some(r) => relative_ends(b, r),
                None => None,
            },
            None => None,
        },
        DriverPlace::IndexedPartSelect { base, index, width } => match place_ends(
            root_name,
            root,
            root_range,
            *base,
        ) {
            Some(b) => match indexed_part_ends(index.as_int_spec(), crate::bound::bound_value(width@)) {
                Some(r) => relative_ends(b, r),
                None => None,
            },
            None => None,
        },
        DriverPlace::Index { base, index } => match place_ends(root_name, root, root_range, *base) {
            Some(b) => match index.as_int_spec() {
                Some(i) => relative_ends(b, (i, i)),
                None => None,
            },
            None => None,
        },
        _ => None,
    }
}

/// Finds which bits of a root a driven place covers.
pub struct CoverageExtractor<'a> {
    pub root: &'a str,
    pub root_object: CoverageRoot,
    pub root_range: DriverStaticRange,
}

fn apply_relative(base: DriverStaticRange, relative: DriverStaticRange) -> (r: Option<
    DriverStaticRange,
>)
    requires
        base.wf(),
        relative.wf(),
    ensures
        match relative_ends(ends(base), ends(relative)) {
            Some((l, h)) => r matches Some(s) && s.wf() && ends(s) == (l, h),
            None => r is None,
        },
{
    let base_width = base.checked_width()?;
    if relative.high() >= base_width {
        return None;
    }
    let low = base.low().checked_add(relative.low())?;
    let high = base.low().checked_add(relative.high())?;
    Some(DriverStaticRange::new(low, high))
}

impl<'a> CoverageExtractor<'a> {
    /// An extractor for the root with the given name, identity and range.
    pub fn new(root: &'a str, root_object: CoverageRoot, root_range: DriverStaticRange) -> (r: Self)
        ensures
            r.root == root,
            r.root_object == root_object,
            r.root_range == root_range,
    {
        CoverageExtractor { root, root_object, root_range }
    }

    /// The bits of the root the place covers, where they are known.
    pub fn range_for(&self, place: &DriverPlace) -> (r: Option<DriverStaticRange>)
        requires
            self.root_range.wf(),
        ensures
            match place_ends(self.root@, self.root_object, ends(self.root_range), *place) {
                Some((l, h)) => r matches Some(s) && s.wf() && ends(s) == (l, h),
                None => r is None,
            },
        decreases place, 1nat,
    {
        match place {
            DriverPlace::Object(_) => {
                if self.root_object.matches(place, self.root) {
                    Some(self.root_range)
                } else {
                    None
                }
            },
            DriverPlace::Slice { base, range } => {
                let base_range = self.base_range_for(base)?;
                let relative = range.static_range()?;
                self.apply_relative_range(base_range, relative)
            },
            DriverPlace::IndexedPartSelect { base, index, width } => {
                let base_range = self.base_range_for(base)?;
                let relative = DriverStaticRange::from_indexed_part(index, width)?;
                self.apply_relative_range(base_range, relative)
            },
            DriverPlace::Index { base, index } => {
                let base_range = self.base_range_for(base)?;
                let relative = self.index_range(index)?;
                self.apply_relative_range(base_range, relative)
            },
            _ => None,
        }
    }

    /// The bits of the root the base of a projection covers.
    pub fn base_range_for(&self, place: &DriverPlace) -> (r: Option<DriverStaticRange>)
        requires
            self.root_range.wf(),
        ensures
            match place_ends(self.root@, self.root_object, ends(self.root_range), *place) {
                Some((l, h)) => r matches Some(s) && s.wf() && ends(s) == (l, h),
                None => r is None,
            },
        decreases place, 2nat,
    {
        self.range_for(place)
    }

    /// The single bit an index selects, when it is a constant.
    pub fn index_range(&self, index: &crate::place::DriverExpr) -> (r: Option<DriverStaticRange>)
        ensures
            match index.as_int_spec() {
                Some(i) => r matches Some(s) && s.wf() && ends(s) == (i, i),
                None => r is None,
            },
    {
        let i = index.as_int()?;
        Some(DriverStaticRange::new(i, i))
    }

    /// The bits `relative` of the base range, where they lie within it and
    /// the ends fit.
    pub fn apply_relative_range(&self, base: DriverStaticRange, relative: DriverStaticRange) -> (r:
        Option<DriverStaticRange>)
        requires
            base.wf(),
            relative.wf(),
        ensures
            match relative_ends(ends(base), ends(relative)) {
                Some((l, h)) => r matches Some(s) && s.wf() && ends(s) == (l, h),
                None => r is None,
            },
    {
        apply_relative(base, relative)
    }
}

/// Finds which bits of a signal a driven place covers.
pub struct SignalCoverageExtractor {
    pub object_id: ObjectId,
    pub root_range: DriverStaticRange,
}

/// The bits of the signal a place covers, where they are known.
pub open spec fn signal_place_ends(object_id: ObjectId, root_range: (u64, u64), place: DriverPlace) -> Option<
    (u64, u64),
> {
    place_ends(Seq::empty(), CoverageRoot { object_id: Some(object_id) }, root_range, place)
}

impl SignalCoverageExtractor {
    /// An extractor for the signal with the given identity and range.
    pub fn new(object_id: ObjectId, root_range: DriverStaticRange) -> (r: Self)
        ensures
            r.object_id == object_id,
            r.root_range == root_range,
    {
        SignalCoverageExtractor { object_id, root_range }
    }

    /// The bits of the signal the place covers, where they are known.
    pub fn range_for(&self, place: &DriverPlace) -> (r: Option<DriverStaticRange>)
        requires
            self.root_range.wf(),
        ensures
            match signal_place_ends(self.object_id, ends(self.root_range), *place) {
                Some((l, h)) => r matches Some(s) && s.wf() && ends(s) == (l, h),
                None => r is None,
            },
        decreases place,
    {
        match place {
            DriverPlace::Object(object) => {
                if object.id == self.object_id {
                    Some(self.root_range)
                } else {
                    None
                }
            },
            DriverPlace::Slice { base, range } => {
                let base_range = self.range_for(base)?;
                let relative = range.static_range()?;
                self.apply_relative_range(base_range, relative)
            },
            DriverPlace::IndexedPartSelect { base, index, width } => {
                let base_range = self.range_for(base)?;
                let relative = DriverStaticRange::from_indexed_part(index, width)?;
                self.apply_relative_range(base_range, relative)
            },
            DriverPlace::Index { base, index } => {
                let base_range = self.range_for(base)?;
                let i = index.as_int()?;
                self.apply_relative_range(base_range, DriverStaticRange::new(i, i))
            },
            _ => None,
        }
    }

    /// The bits `relative` of the base range, where they lie within it and
    /// the ends fit.
    pub fn apply_relative_range(&self, base: DriverStaticRange, relative: DriverStaticRange) -> (r:
        Option<DriverStaticRange>)
        requires
            base.wf(),
            relative.wf(),
        ensures
            match relative_ends(ends(base), ends(relative)) {
                Some((l, h)) => r matches Some(s) && s.wf() && ends(s) == (l, h),
                None => r is None,
            },
    {
        apply_relative(base, relative)
    }
}

// ---------------------------------------------------------------------------
// Loops over a symbolic width
// ---------------------------------------------------------------------------

/// A drive inside a loop covers the whole port: it writes the loop's part
/// or bit of the root, the loop starts at zero over the index it writes,
/// and the loop's end times the part width (or the end, for bits) is the
/// port width.
pub open spec fn loop_drive_covers(
    place: DriverPlace,
    root_name: Seq<char>,
    root: CoverageRoot,
    loop_index: Seq<char>,
    start: BoundModel,
    end: BoundModel,
    port_width: BoundModel,
) -> bool {
    match place {
        DriverPlace::IndexedPartSelect { base, index, width } => root_matches(root, *base, root_name)
            && loop_index_matches(start, loop_index, index) && covers_part_array_spec(
            start,
            end,
            port_width,
            width@,
        ),
        DriverPlace::Index { base, index } => root_matches(root, *base, root_name)
            && loop_index_matches(start, loop_index, index) && covers_bit_array_spec(
            start,
            end,
            port_width,
        ),
        _ => false,
    }
}

/// A drive under a guard with a single loop covers the whole port.
pub open spec fn guarded_drive_covers(
    place: DriverPlace,
    root_name: Seq<char>,
    root: CoverageRoot,
    frames: Seq<EirGuardFrame>,
    port_width: BoundModel,
) -> bool {
    count_loops(frames) == 1 && match last_loop(frames) {
        Some(EirGuardFrame::Loop { index, start, end, .. }) => loop_drive_covers(
            place,
            root_name,
            root,
            index@,
            eir_bound_model(start),
            eir_bound_model(end),
            port_width,
        ),
        _ => false,
    }
}

/// One drive inside a loop, asked whether it covers the whole port.
pub struct SymbolicLoopDrive<'a, 'bounds> {
    pub place: &'a DriverPlace,
    pub root_name: &'a str,
    pub root: CoverageRoot,
    pub loop_bounds: &'bounds DriverLoopBounds<'a>,
    pub port_width: &'a DriverBound,
}

impl<'a, 'bounds> SymbolicLoopDrive<'a, 'bounds> {
    /// A drive of `place` inside the loop with the given bounds.
    pub fn new(
        place: &'a DriverPlace,
        root_name: &'a str,
        root: CoverageRoot,
        loop_bounds: &'bounds DriverLoopBounds<'a>,
        port_width: &'a DriverBound,
    ) -> (r: Self)
        ensures
            r.place == place,
            r.root_name == root_name,
            r.root == root,
            r.loop_bounds == loop_bounds,
            r.port_width == port_width,
    {
        SymbolicLoopDrive { place, root_name, root, loop_bounds, port_width }
    }

    /// The drive writes one part or bit of the root per iteration and the
    /// iterations cover the port width.
    pub fn covers_port(&self) -> (r: bool)
        ensures
            r == loop_drive_covers(
                *self.place,
                self.root_name@,
                self.root,
                self.loop_bounds.loop_index@,
                self.loop_bounds.start@,
                self.loop_bounds.end@,
                self.port_width@,
            ),
    {
        match self.place {
            DriverPlace::IndexedPartSelect { base, index, width } => {
                self.root.matches(base, self.root_name) && self.loop_bounds.index_matches(index)
                    && self.loop_bounds.covers_part_array(self.port_width, width)
            },
            DriverPlace::Index { base, index } => {
                self.root.matches(base, self.root_name) && self.loop_bounds.index_matches(index)
                    && self.loop_bounds.covers_bit_array(self.port_width)
            },
            _ => false,
        }
    }
}

/// The frames of each of a list of guards.
pub open spec fn guard_frames(gs: Seq<EirGuard>) -> Seq<Seq<EirGuardFrame>> {
    gs.map_values(|g: EirGuard| g.frames@)
}

/// The drives of a port inside loops over its symbolic width: the guards
/// around the loops of those that cover the whole port.
pub struct SymbolicLoopCoverage<'a> {
    pub root_name: &'a str,
    pub port_width: DriverBound,
    pub root: CoverageRoot,
    pub residual_guards: Vec<EirGuard>,
}

impl<'a> SymbolicLoopCoverage<'a> {
    /// No drives yet, for the port with the given name, width and root.
    pub fn new(root_name: &'a str, port_width: &'a EirBound, root: CoverageRoot) -> (r: Self)
        ensures
            r.root_name == root_name,
            r.port_width@ == eir_bound_model(*port_width),
            r.root == root,
            r.residual_guards@.len() == 0,
    {
        SymbolicLoopCoverage {
            root_name,
            port_width: DriverBound::from_eir_bound(port_width),
            root,
            residual_guards: Vec::new(),
        }
    }

    /// Records a drive: where it sits in a single loop and covers the whole
    /// port, the guard around the loop is kept.
    pub fn add_drive(&mut self, place: &'a DriverPlace, guard: &'a EirGuard)
        ensures
            final(self).root_name == old(self).root_name,
            final(self).root == old(self).root,
            final(self).port_width@ == old(self).port_width@,
            if guarded_drive_covers(
                *place,
                old(self).root_name@,
                old(self).root,
                guard.frames@,
                old(self).port_width@,
            ) {
                &&& final(self).residual_guards@.len() == old(self).residual_guards@.len() + 1
                &&& final(self).residual_guards@.drop_last() == old(self).residual_guards@
                &&& frames_equal(
                    final(self).residual_guards@.last().frames@,
                    non_loop_frames(guard.frames@),
                )
            } else {
                final(self).residual_guards@ == old(self).residual_guards@
            },
    {
        let loop_context = match DriverLoopGuard::new(guard).single_loop_context() {
            Some(c) => c,
            None => {
                return;
            },
        };
        let covers = SymbolicLoopDrive::new(
            place,
            self.root_name,
            self.root,
            loop_context.bounds(),
            &self.port_width,
        ).covers_port();
        if covers {
            let ghost before = self.residual_guards@;
            self.residual_guards.push(loop_context.into_residual_guard());
            proof {
                assert(self.residual_guards@.drop_last() =~= before);
            }
        }
    }

    /// The kept guards cover every case.
    pub fn proves_complete(&self) -> (r: bool)
        ensures
            r == frames_cover(guard_frames(self.residual_guards@)),
    {
        let mut coverage = GuardCoverage::new();
        let mut i: usize = 0;
        while i < self.residual_guards.len()
            invariant
                i <= self.residual_guards.len(),
                guard_paths(coverage.guards@) == guard_frames(self.residual_guards@).take(i as int),
            decreases self.residual_guards.len() - i,
        {
            let ghost before = coverage.guards@;
            coverage.add(&self.residual_guards[i]);
            proof {
                assert(guard_paths(coverage.guards@) =~= guard_paths(before).push(
                    self.residual_guards@[i as int].frames@,
                ));
                assert(guard_frames(self.residual_guards@).take(i + 1) =~= guard_frames(
                    self.residual_guards@,
                ).take(i as int).push(self.residual_guards@[i as int].frames@));
            }
            i = i + 1;
        }
        proof {
            assert(guard_frames(self.residual_guards@).take(self.residual_guards.len() as int)
                =~= guard_frames(self.residual_guards@));
        }
        coverage.covers_unconditionally()
    }
}

} // verus!
