//! The bounds of the single loop a drive sits in, and what they cover.
use crate::bound::{BoundModel, DriverBound, bound_value, eir_bound_model};
use crate::expr::EirBound;
use crate::formula::model_multiply;
use crate::guard::{EirGuard, EirGuardFrame, frames_equal, frame_equal};
use crate::place::DriverExpr;
use crate::text::str_eq;
use vstd::prelude::*;

verus! {

/// The index and bounds of a loop, as the driver checks read them.
pub struct DriverLoopBounds<'a> {
    pub loop_index: &'a str,
    pub start: DriverBound,
    pub end: DriverBound,
}

/// A bound is the constant zero.
pub open spec fn starts_zero(start: BoundModel) -> bool {
    bound_value(start) == Some(0u64)
}

/// The loop starts at zero and the index is its own.
pub open spec fn loop_index_matches(start: BoundModel, loop_index: Seq<char>, index: DriverExpr) -> bool {
    starts_zero(start) && (index matches DriverExpr::Ident(name) && name@ == loop_index)
}

/// The loop starts at zero and runs to the width: one bit per iteration
/// covers the array.
pub open spec fn covers_bit_array_spec(start: BoundModel, end: BoundModel, width: BoundModel) -> bool {
    starts_zero(start) && width.formula is Some && end.formula == width.formula
}

/// The loop starts at zero and the width is its end times the part width:
/// one part per iteration covers the array.
pub open spec fn covers_part_array_spec(
    start: BoundModel,
    end: BoundModel,
    width: BoundModel,
    part: BoundModel,
) -> bool {
    starts_zero(start) && match (width.formula, end.formula, part.formula) {
        (Some(f), Some(e), Some(w)) => model_multiply(e, w) == Some(f),
        _ => false,
    }
}

impl<'a> DriverLoopBounds<'a> {
    /// The bounds of a loop over `loop_index` from `start` to `end`.
    pub fn new(loop_index: &'a str, start: &EirBound, end: &EirBound) -> (r: Self)
        ensures
            r.loop_index == loop_index,
            r.start@ == eir_bound_model(*start),
            r.end@ == eir_bound_model(*end),
    {
        DriverLoopBounds {
            loop_index,
            start: DriverBound::from_eir_bound(start),
            end: DriverBound::from_eir_bound(end),
        }
    }

    /// The loop starts at zero and the index is the loop's own.
    pub fn index_matches(&self, index: &DriverExpr) -> (r: bool)
        ensures
            r == loop_index_matches(self.start@, self.loop_index@, *index),
    {
        if !self.starts_at_zero() {
            return false;
        }
        match index {
            DriverExpr::Ident(name) => str_eq(name.as_str(), self.loop_index),
            _ => false,
        }
    }

    /// The loop starts at zero and runs to the given width: one bit per
    /// iteration covers the whole array.
    pub fn covers_bit_array(&self, width: &DriverBound) -> (r: bool)
        ensures
            r == covers_bit_array_spec(self.start@, self.end@, width@),
    {
        self.starts_at_zero() && width.has_same_formula(&self.end)
    }

    /// The loop starts at zero and the width is its end times the part
    /// width: one part per iteration covers the whole array.
    pub fn covers_part_array(&self, width: &DriverBound, part_width: &DriverBound) -> (r: bool)
        ensures
            r == covers_part_array_spec(self.start@, self.end@, width@, part_width@),
    {
        self.starts_at_zero() && width.has_product_formula(&self.end, part_width)
    }

    /// The loop starts at the constant zero.
    pub fn starts_at_zero(&self) -> (r: bool)
        ensures
            r == starts_zero(self.start@),
    {
        match self.start.value() {
            Some(v) => v == 0,
            None => false,
        }
    }
}

/// The number of loop frames in a list.
pub open spec fn count_loops(fs: Seq<EirGuardFrame>) -> nat
    decreases fs.len(),
{
    if fs.len() == 0 {
        0
    } else {
        count_loops(fs.drop_last()) + if fs.last() is Loop {
            1nat
        } else {
            0nat
        }
    }
}

/// The last loop frame in a list.
pub open spec fn last_loop(fs: Seq<EirGuardFrame>) -> Option<EirGuardFrame>
    decreases fs.len(),
{
    if fs.len() == 0 {
        None
    } else if fs.last() is Loop {
        Some(fs.last())
    } else {
        last_loop(fs.drop_last())
    }
}

/// The frames that are not loops, in order.
pub open spec fn non_loop_frames(fs: Seq<EirGuardFrame>) -> Seq<EirGuardFrame>
    decreases fs.len(),
{
    if fs.len() == 0 {
        Seq::empty()
    } else if fs.last() is Loop {
        non_loop_frames(fs.drop_last())
    } else {
        non_loop_frames(fs.drop_last()).push(fs.last())
    }
}

proof fn lemma_last_loop_is_loop(fs: Seq<EirGuardFrame>)
    ensures
        last_loop(fs) matches Some(f) ==> f is Loop,
    decreases fs.len(),
{
    if fs.len() > 0 {
        lemma_last_loop_is_loop(fs.drop_last());
    }
}

proof fn lemma_count_grows(fs: Seq<EirGuardFrame>, i: int)
    requires
        0 <= i <= fs.len(),
    ensures
        count_loops(fs.take(i)) <= count_loops(fs),
    decreases fs.len(),
{
    if i < fs.len() {
        lemma_count_grows(fs.drop_last(), i);
        assert(fs.drop_last().take(i) =~= fs.take(i));
    } else {
        assert(fs.take(i) =~= fs);
    }
}

/// What the single loop of a guard gives: its bounds, and the guard of the
/// frames around it.
pub struct DriverLoopContext<'a> {
    pub bounds: DriverLoopBounds<'a>,
    pub residual: EirGuard,
}

/// The context is that of the single loop among the frames.
pub open spec fn is_loop_context(ctx: DriverLoopContext, fs: Seq<EirGuardFrame>) -> bool {
    &&& count_loops(fs) == 1
    &&& last_loop(fs) matches Some(EirGuardFrame::Loop { index, start, end, .. })
    &&& ctx.bounds.loop_index@ == index@
    &&& ctx.bounds.start@ == eir_bound_model(start)
    &&& ctx.bounds.end@ == eir_bound_model(end)
    &&& frames_equal(ctx.residual.frames@, non_loop_frames(fs))
}

impl<'a> DriverLoopContext<'a> {
    /// A loop's bounds and the guard around it.
    pub fn new(bounds: DriverLoopBounds<'a>, residual: EirGuard) -> (r: Self)
        ensures
            r.bounds == bounds,
            r.residual == residual,
    {
        DriverLoopContext { bounds, residual }
    }

    /// The loop's bounds.
    pub fn bounds(&self) -> (r: &DriverLoopBounds<'a>)
        ensures
            *r == self.bounds,
    {
        &self.bounds
    }

    /// The loop's bounds, taking the context apart.
    pub fn into_bounds(self) -> (r: DriverLoopBounds<'a>)
        ensures
            r == self.bounds,
    {
        self.bounds
    }

    /// The guard around the loop, taking the context apart.
    pub fn into_residual_guard(self) -> (r: EirGuard)
        ensures
            r == self.residual,
    {
        self.residual
    }
}

/// The frames of a guard, asked for their single loop.
pub struct DriverLoopFrames<'a> {
    pub frames: &'a [EirGuardFrame],
}

impl<'a> DriverLoopFrames<'a> {
    /// The frames to search.
    pub fn new(frames: &'a [EirGuardFrame]) -> (r: Self)
        ensures
            r.frames == frames,
    {
        DriverLoopFrames { frames }
    }

    /// The context of the single loop among the frames; `None` where there
    /// is no loop or more than one.
    pub fn single_loop_context(&self) -> (r: Option<DriverLoopContext<'a>>)
        ensures
            match r {
                Some(ctx) => is_loop_context(ctx, self.frames@),
                None => count_loops(self.frames@) != 1,
            },
    {
        let fs = self.frames;
        let mut loop_frame: Option<&'a EirGuardFrame> = None;
        let mut residual: Vec<EirGuardFrame> = Vec::new();
        let mut i: usize = 0;
        proof {
            assert(fs@.take(0) =~= Seq::<EirGuardFrame>::empty());
        }
        while i < fs.len()
            invariant
                fs == self.frames,
                i <= fs.len(),
                count_loops(fs@.take(i as int)) <= 1,
                match loop_frame {
                    Some(f) => count_loops(fs@.take(i as int)) == 1 && last_loop(fs@.take(i as int))
                        == Some(*f),
                    None => count_loops(fs@.take(i as int)) == 0,
                },
                frames_equal(residual@, non_loop_frames(fs@.take(i as int))),
            decreases fs.len() - i,
        {
            let frame = &fs[i];
            proof {
                assert(fs@.take(i + 1).drop_last() =~= fs@.take(i as int));
                assert(fs@.take(i + 1).last() == fs@[i as int]);
            }
            match frame {
                EirGuardFrame::Loop { .. } => {
                    if loop_frame.is_some() {
                        proof {
                            lemma_count_grows(fs@, i + 1);
                        }
                        return None;
                    }
                    loop_frame = Some(frame);
                },
                _ => {
                    let ghost before = residual@;
                    residual.push(frame.copy());
                    proof {
                        assert(residual@.drop_last() == before);
                        assert forall|j: int| 0 <= j < residual@.len() implies frame_equal(
                            #[trigger] residual@[j],
                            non_loop_frames(fs@.take(i + 1))[j],
                        ) by {
                            if j < before.len() {
                                assert(residual@[j] == before[j]);
                            }
                        }
                    }
                },
            }
            i = i + 1;
        }
        proof {
            assert(fs@.take(fs.len() as int) =~= fs@);
        }
        match loop_frame {
            Some(EirGuardFrame::Loop { index, start, end, .. }) => {
                let bounds = DriverLoopBounds::new(index.as_str(), start, end);
                let ctx = DriverLoopContext::new(bounds, EirGuard { frames: residual });
                proof {
                    assert(ctx.bounds.start@ == eir_bound_model(*start));
                }
                Some(ctx)
            },
            _ => {
                proof {
                    lemma_last_loop_is_loop(fs@);
                }
                None
            },
        }
    }
}

/// The guard of a drive, asked for its single loop.
pub struct DriverLoopGuard<'a> {
    pub guard: &'a EirGuard,
}

impl<'a> DriverLoopGuard<'a> {
    /// The guard to search.
    pub fn new(guard: &'a EirGuard) -> (r: Self)
        ensures
            r.guard == guard,
    {
        DriverLoopGuard { guard }
    }

    /// The bounds of the guard's single loop, if it has exactly one.
    pub fn single_loop_bounds(&self) -> (r: Option<DriverLoopBounds<'a>>)
        ensures
            match r {
                Some(b) => exists|ctx: DriverLoopContext<'a>|
                    is_loop_context(ctx, self.guard.frames@) && #[trigger] ctx.bounds == b,
                None => count_loops(self.guard.frames@) != 1,
            },
    {
        match self.single_loop_context() {
            Some(ctx) => Some(ctx.into_bounds()),
            None => None,
        }
    }

    /// The context of the guard's single loop, if it has exactly one.
    pub fn single_loop_context(&self) -> (r: Option<DriverLoopContext<'a>>)
        ensures
            match r {
                Some(ctx) => is_loop_context(ctx, self.guard.frames@),
                None => count_loops(self.guard.frames@) != 1,
            },
    {
        DriverLoopFrames::new(self.guard.frames()).single_loop_context()
    }
}

} // verus!
