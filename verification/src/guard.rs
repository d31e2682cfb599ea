//! Guards: the stack of scope frames (if branches and loops) under which a
//! drive is active, when two guards exclude each other, and when a set of
//! guards covers every path.
use crate::expr::{EirBound, lemma_same_expr_symmetric, same_expr};
use crate::text::str_eq;
use vstd::prelude::*;

verus! {

// ---------------------------------------------------------------------------
// Labels and frames
// ---------------------------------------------------------------------------

/// A place in the source: the source it belongs to and its offsets.
#[derive(Clone, Copy, Debug, PartialEq, Eq, Structural)]
pub struct Span {
    pub source: u32,
    pub start: u32,
    pub end: u32,
}

impl Span {
    /// The span from `start` to `end` in `source`.
    pub fn new_in(source: u32, start: u32, end: u32) -> (r: Self)
        ensures
            r == (Span { source, start, end }),
    {
        Span { source, start, end }
    }
}

impl Default for Span {
    fn default() -> (r: Self)
        ensures
            r == (Span { source: 0, start: 0, end: 0 }),
    {
        Span { source: 0, start: 0, end: 0 }
    }
}

/// The name of a scope, with the place it was written.
#[derive(Debug)]
pub struct EirGuardLabel {
    pub display: String,
    pub span: Span,
}

/// What identifies a label: its text and its place.
pub open spec fn label_key(l: EirGuardLabel) -> (Seq<char>, Span) {
    (l.display@, l.span)
}

impl EirGuardLabel {
    /// A label with the given text and place.
    pub fn new(display: &str, span: Span) -> (r: Self)
        ensures
            r.display@ == display@,
            r.span == span,
    {
        EirGuardLabel { display: display.to_owned(), span }
    }

    /// The text of the label.
    pub fn display(&self) -> (r: &str)
        ensures
            r@ == self.display@,
    {
        self.display.as_str()
    }

    /// The two labels have the same text and place.
    pub fn same_as(&self, other: &Self) -> (r: bool)
        ensures
            r == (label_key(*self) == label_key(*other)),
    {
        self.span == other.span && str_eq(self.display.as_str(), other.display.as_str())
    }

    /// A copy of this label.
    pub fn copy(&self) -> (r: Self)
        ensures
            label_key(r) == label_key(*self),
    {
        EirGuardLabel { display: self.display.clone(), span: self.span }
    }
}

/// One scope a drive sits in: a branch of an if, or the body of a loop
/// with its index and bounds.
#[derive(Debug)]
pub enum EirGuardFrame {
    IfThen { label: EirGuardLabel },
    IfElse { label: EirGuardLabel },
    Loop { label: EirGuardLabel, index: String, start: EirBound, end: EirBound },
}

/// Two bounds have the same text and expression.
pub open spec fn bound_same(a: EirBound, b: EirBound) -> bool {
    a.source@ == b.source@ && same_expr(*a.expr, *b.expr)
}

/// Two frames are the same scope.
pub open spec fn frame_equal(a: EirGuardFrame, b: EirGuardFrame) -> bool {
    match a {
        EirGuardFrame::IfThen { label } => b matches EirGuardFrame::IfThen { label: l } && label_key(
            label,
        ) == label_key(l),
        EirGuardFrame::IfElse { label } => b matches EirGuardFrame::IfElse { label: l } && label_key(
            label,
        ) == label_key(l),
        EirGuardFrame::Loop { label, index, start, end } => b matches EirGuardFrame::Loop {
            label: l,
            index: i,
            start: s,
            end: e,
        } && label_key(label) == label_key(l) && index@ == i@ && bound_same(start, s) && bound_same(
            end,
            e,
        ),
    }
}

/// The label of a frame.
pub open spec fn frame_label(f: EirGuardFrame) -> EirGuardLabel {
    match f {
        EirGuardFrame::IfThen { label } => label,
        EirGuardFrame::IfElse { label } => label,
        EirGuardFrame::Loop { label, .. } => label,
    }
}

/// Two frames are the two branches of one if: a then and an else with the
/// same label. Loop frames are never opposite.
pub open spec fn opposite_branches(a: EirGuardFrame, b: EirGuardFrame) -> bool {
    match a {
        EirGuardFrame::IfThen { label } => b matches EirGuardFrame::IfElse { label: l } && label_key(
            label,
        ) == label_key(l),
        EirGuardFrame::IfElse { label } => b matches EirGuardFrame::IfThen { label: l } && label_key(
            label,
        ) == label_key(l),
        EirGuardFrame::Loop { .. } => false,
    }
}

impl EirGuardFrame {
    /// The frame of the then branch of the if with this label.
    pub fn if_then(label: &str, span: Span) -> (r: Self)
        ensures
            r matches EirGuardFrame::IfThen { label: l } && l.display@ == label@ && l.span == span,
    {
        EirGuardFrame::IfThen { label: EirGuardLabel::new(label, span) }
    }

    /// The frame of the else branch of the if with this label.
    pub fn if_else(label: &str, span: Span) -> (r: Self)
        ensures
            r matches EirGuardFrame::IfElse { label: l } && l.display@ == label@ && l.span == span,
    {
        EirGuardFrame::IfElse { label: EirGuardLabel::new(label, span) }
    }

    /// The frame of a loop body, with its index and bounds.
    pub fn loop_frame(label: &str, index: &str, start: EirBound, end: EirBound, span: Span) -> (r:
        Self)
        ensures
            r matches EirGuardFrame::Loop { label: l, index: i, start: s, end: e } && l.display@
                == label@ && l.span == span && i@ == index@ && s == start && e == end,
    {
        EirGuardFrame::Loop {
            label: EirGuardLabel::new(label, span),
            index: index.to_owned(),
            start,
            end,
        }
    }

    /// The two frames are the then and else branches of one if.
    pub fn is_opposite_if_branch(&self, other: &Self) -> (r: bool)
        ensures
            r == opposite_branches(*self, *other),
    {
        match self {
            EirGuardFrame::IfThen { label: left } => match other {
                EirGuardFrame::IfElse { label: right } => left.same_as(right),
                _ => false,
            },
            EirGuardFrame::IfElse { label: left } => match other {
                EirGuardFrame::IfThen { label: right } => left.same_as(right),
                _ => false,
            },
            EirGuardFrame::Loop { .. } => false,
        }
    }

    /// The two frames are the same scope.
    pub fn same_as(&self, other: &Self) -> (r: bool)
        ensures
            r == frame_equal(*self, *other),
    {
        match self {
            EirGuardFrame::IfThen { label } => match other {
                EirGuardFrame::IfThen { label: l } => label.same_as(l),
                _ => false,
            },
            EirGuardFrame::IfElse { label } => match other {
                EirGuardFrame::IfElse { label: l } => label.same_as(l),
                _ => false,
            },
            EirGuardFrame::Loop { label, index, start, end } => match other {
                EirGuardFrame::Loop { label: l, index: i, start: s, end: e } => {
                    label.same_as(l) && str_eq(index.as_str(), i.as_str()) && start.same_as(s)
                        && end.same_as(e)
                },
                _ => false,
            },
        }
    }

    /// A copy of this frame.
    pub fn copy(&self) -> (r: Self)
        ensures
            frame_equal(r, *self),
            frame_equal(*self, r),
    {
        match self {
            EirGuardFrame::IfThen { label } => EirGuardFrame::IfThen { label: label.copy() },
            EirGuardFrame::IfElse { label } => EirGuardFrame::IfElse { label: label.copy() },
            EirGuardFrame::Loop { label, index, start, end } => EirGuardFrame::Loop {
                label: label.copy(),
                index: index.clone(),
                start: start.clone(),
                end: end.clone(),
            },
        }
    }
}

// ---------------------------------------------------------------------------
// Guards
// ---------------------------------------------------------------------------

/// The stack of frames a drive sits in, innermost last.
#[derive(Debug)]
pub struct EirGuard {
    pub frames: Vec<EirGuardFrame>,
}

/// Two frame lists are the same scopes in the same order.
pub open spec fn frames_equal(a: Seq<EirGuardFrame>, b: Seq<EirGuardFrame>) -> bool {
    a.len() == b.len() && forall|i: int| 0 <= i < a.len() ==> frame_equal(#[trigger] a[i], b[i])
}

/// `p` is the start of `s`, compared frame by frame.
pub open spec fn starts_with(s: Seq<EirGuardFrame>, p: Seq<EirGuardFrame>) -> bool {
    p.len() <= s.len() && forall|i: int| 0 <= i < p.len() ==> frame_equal(#[trigger] p[i], s[i])
}

impl EirGuard {
    /// The guard of code outside every scope.
    pub fn root() -> (r: Self)
        ensures
            r.frames@.len() == 0,
    {
        EirGuard { frames: Vec::new() }
    }

    /// The guard with a copy of the given frames.
    pub fn from_frames(frames: &[EirGuardFrame]) -> (r: Self)
        ensures
            frames_equal(r.frames@, frames@),
            frames_equal(frames@, r.frames@),
    {
        let mut out: Vec<EirGuardFrame> = Vec::new();
        let mut i: usize = 0;
        while i < frames.len()
            invariant
                i <= frames.len(),
                out.len() == i,
                forall|j: int| 0 <= j < i ==> frame_equal(#[trigger] out@[j], frames@[j]),
                forall|j: int| 0 <= j < i ==> frame_equal(#[trigger] frames@[j], out@[j]),
            decreases frames.len() - i,
        {
            out.push(frames[i].copy());
            i = i + 1;
        }
        EirGuard { frames: out }
    }

    /// The frames, outermost first.
    pub fn frames(&self) -> (r: &[EirGuardFrame])
        ensures
            r@ == self.frames@,
    {
        self.frames.as_slice()
    }

    /// The guard has no frames.
    pub fn is_root(&self) -> (r: bool)
        ensures
            r == (self.frames@.len() == 0),
    {
        self.frames.len() == 0
    }

    /// The two guards have the same frames.
    pub fn same_as(&self, other: &Self) -> (r: bool)
        ensures
            r == frames_equal(self.frames@, other.frames@),
    {
        if self.frames.len() != other.frames.len() {
            return false;
        }
        let mut i: usize = 0;
        while i < self.frames.len()
            invariant
                i <= self.frames.len(),
                self.frames.len() == other.frames.len(),
                forall|j: int| 0 <= j < i ==> frame_equal(#[trigger] self.frames@[j], other.frames@[j]),
            decreases self.frames.len() - i,
        {
            if !self.frames[i].same_as(&other.frames[i]) {
                return false;
            }
            i = i + 1;
        }
        true
    }
}

// ---------------------------------------------------------------------------
// Mutual exclusion
// ---------------------------------------------------------------------------

/// Two guards are mutually exclusive: neither is the root, they differ, and
/// at the first frame where they differ (within the shorter) they are the
/// two branches of one if.
pub open spec fn guards_exclusive(a: Seq<EirGuardFrame>, b: Seq<EirGuardFrame>) -> bool {
    &&& a.len() > 0
    &&& b.len() > 0
    &&& !frames_equal(a, b)
    &&& exists|i: int|
        0 <= i < a.len() && i < b.len() && (forall|j: int|
            0 <= j < i ==> frame_equal(#[trigger] a[j], b[j])) && !frame_equal(a[i], b[i])
            && #[trigger] opposite_branches(a[i], b[i])
}

/// Two guards, asked whether they can be active together.
pub struct DriverGuardSet<'a> {
    pub first: &'a EirGuard,
    pub second: &'a EirGuard,
}

impl<'a> DriverGuardSet<'a> {
    /// The pair of guards.
    pub fn new(first: &'a EirGuard, second: &'a EirGuard) -> (r: Self)
        ensures
            r.first == first,
            r.second == second,
    {
        DriverGuardSet { first, second }
    }

    /// The two guards can never be active together.
    pub fn is_mutually_exclusive(&self) -> (r: bool)
        ensures
            r == guards_exclusive(self.first.frames@, self.second.frames@),
    {
        let a = self.first.frames();
        let b = self.second.frames();
        if self.first.is_root() || self.second.is_root() || self.first.same_as(self.second) {
            return false;
        }
        let mut i: usize = 0;
        while i < a.len() && i < b.len()
            invariant
                a@ == self.first.frames@,
                b@ == self.second.frames@,
                i <= a.len(),
                i <= b.len(),
                a.len() > 0,
                b.len() > 0,
                !frames_equal(a@, b@),
                forall|j: int| 0 <= j < i ==> frame_equal(#[trigger] a@[j], b@[j]),
            decreases a.len() - i,
        {
            if !a[i].same_as(&b[i]) {
                let r = a[i].is_opposite_if_branch(&b[i]);
                proof {
                    if !r {
                        assert forall|k: int|
                            0 <= k < a.len() && k < b.len() && (forall|j: int|
                                0 <= j < k ==> frame_equal(#[trigger] a@[j], b@[j]))
                                && !frame_equal(a@[k], b@[k]) implies !#[trigger] opposite_branches(
                            a@[k],
                            b@[k],
                        ) by {
                            if k < i {
                                assert(frame_equal(a@[k], b@[k]));
                            } else if k > i {
                                assert(frame_equal(a@[i as int], b@[i as int]));
                            }
                        }
                    }
                }
                return r;
            }
            i = i + 1;
        }
        proof {
            assert forall|k: int|
                0 <= k < a.len() && k < b.len() && (forall|j: int|
                    0 <= j < k ==> frame_equal(#[trigger] a@[j], b@[j])) && !frame_equal(
                    a@[k],
                    b@[k],
                ) implies !#[trigger] opposite_branches(a@[k], b@[k]) by {
                assert(frame_equal(a@[k], b@[k]));
            }
        }
        false
    }
}

/// Scopes in the two branches of one if exclude each other, however deeply
/// either is nested: two guards that agree up to a frame where one is the
/// then branch and the other the else branch of the same if are mutually
/// exclusive, whatever their lengths.
pub proof fn lemma_opposite_branches_exclude(a: Seq<EirGuardFrame>, b: Seq<EirGuardFrame>, i: int)
    requires
        0 <= i < a.len(),
        i < b.len(),
        forall|j: int| 0 <= j < i ==> frame_equal(#[trigger] a[j], b[j]),
        opposite_branches(a[i], b[i]),
    ensures
        guards_exclusive(a, b),
{
    assert(!frame_equal(a[i], b[i]));
    if frames_equal(a, b) {
        assert(frame_equal(a[i], b[i]));
    }
}

/// A guard never excludes a guard that extends it: code nested inside a
/// scope can run whenever the scope's own code can.
pub proof fn lemma_nested_guards_overlap(outer: Seq<EirGuardFrame>, inner: Seq<EirGuardFrame>)
    requires
        starts_with(inner, outer),
    ensures
        !guards_exclusive(outer, inner),
{
    assert forall|i: int|
        0 <= i < outer.len() && i < inner.len() && (forall|j: int|
            0 <= j < i ==> frame_equal(#[trigger] outer[j], inner[j])) && !frame_equal(
            outer[i],
            inner[i],
        ) implies !#[trigger] opposite_branches(outer[i], inner[i]) by {
        assert(frame_equal(outer[i], inner[i]));
    }
}

proof fn lemma_frame_equal_symmetric(a: EirGuardFrame, b: EirGuardFrame)
    ensures
        frame_equal(a, b) == frame_equal(b, a),
{
    if let EirGuardFrame::Loop { start, end, .. } = a {
        if let EirGuardFrame::Loop { start: s, end: e, .. } = b {
            lemma_same_expr_symmetric(*start.expr, *s.expr);
            lemma_same_expr_symmetric(*end.expr, *e.expr);
        }
    }
}

/// Two guards exclude each other whichever is asked first.
pub proof fn lemma_exclusion_symmetric(a: Seq<EirGuardFrame>, b: Seq<EirGuardFrame>)
    ensures
        guards_exclusive(a, b) == guards_exclusive(b, a),
{
    assert forall|i: int| 0 <= i < a.len() && i < b.len() implies #[trigger] frame_equal(a[i], b[i])
        == frame_equal(b[i], a[i]) by {
        lemma_frame_equal_symmetric(a[i], b[i]);
    }
    if guards_exclusive(a, b) {
        let i = choose|i: int|
            0 <= i < a.len() && i < b.len() && (forall|j: int|
                0 <= j < i ==> frame_equal(#[trigger] a[j], b[j])) && !frame_equal(a[i], b[i])
                && #[trigger] opposite_branches(a[i], b[i]);
        assert forall|j: int| 0 <= j < i implies frame_equal(#[trigger] b[j], a[j]) by {
            assert(frame_equal(a[j], b[j]));
        }
        assert(!frame_equal(b[i], a[i]));
        assert(opposite_branches(b[i], a[i]));
        if frames_equal(b, a) {
            assert(frame_equal(b[i], a[i]));
        }
    }
    if guards_exclusive(b, a) {
        let i = choose|i: int|
            0 <= i < b.len() && i < a.len() && (forall|j: int|
                0 <= j < i ==> frame_equal(#[trigger] b[j], a[j])) && !frame_equal(b[i], a[i])
                && #[trigger] opposite_branches(b[i], a[i]);
        assert forall|j: int| 0 <= j < i implies frame_equal(#[trigger] a[j], b[j]) by {
            assert(frame_equal(b[j], a[j]));
        }
        assert(!frame_equal(a[i], b[i]));
        assert(opposite_branches(a[i], b[i]));
        if frames_equal(a, b) {
            assert(frame_equal(a[i], b[i]));
        }
    }
}

} // verus!
