//! When a set of guards covers every path: some drive is unconditional, or
//! some if has both branches covered, each by the drives inside it.
use crate::guard::{
    EirGuard, EirGuardFrame, EirGuardLabel, Span, frame_equal, frame_label, frames_equal, guards_exclusive,
    label_key, opposite_branches, starts_with,
};
use vstd::prelude::*;

verus! {

// ---------------------------------------------------------------------------
// The coverage relation
// ---------------------------------------------------------------------------

/// The number of frames over all paths.
pub open spec fn sum_len(fs: Seq<Seq<EirGuardFrame>>) -> nat
    decreases fs.len(),
{
    if fs.len() == 0 {
        0
    } else {
        sum_len(fs.drop_last()) + fs.last().len()
    }
}

/// The rest of each path that starts in the then branch of the labelled if,
/// in order.
pub open spec fn then_tails(fs: Seq<Seq<EirGuardFrame>>, l: (Seq<char>, Span)) -> Seq<
    Seq<EirGuardFrame>,
>
    decreases fs.len(),
{
    if fs.len() == 0 {
        Seq::empty()
    } else {
        let rest = then_tails(fs.drop_last(), l);
        let p = fs.last();
        if p.len() > 0 && (p[0] matches EirGuardFrame::IfThen { label } && label_key(label) == l) {
            rest.push(p.drop_first())
        } else {
            rest
        }
    }
}

/// The rest of each path that starts in the else branch of the labelled if,
/// in order.
pub open spec fn else_tails(fs: Seq<Seq<EirGuardFrame>>, l: (Seq<char>, Span)) -> Seq<
    Seq<EirGuardFrame>,
>
    decreases fs.len(),
{
    if fs.len() == 0 {
        Seq::empty()
    } else {
        let rest = else_tails(fs.drop_last(), l);
        let p = fs.last();
        if p.len() > 0 && (p[0] matches EirGuardFrame::IfElse { label } && label_key(label) == l) {
            rest.push(p.drop_first())
        } else {
            rest
        }
    }
}

/// The tails of one if are shorter, together, than the paths they come from.
pub proof fn lemma_tails_shrink(fs: Seq<Seq<EirGuardFrame>>, l: (Seq<char>, Span))
    ensures
        sum_len(then_tails(fs, l)) + sum_len(else_tails(fs, l)) + then_tails(fs, l).len()
            + else_tails(fs, l).len() <= sum_len(fs),
    decreases fs.len(),
{
    if fs.len() > 0 {
        lemma_tails_shrink(fs.drop_last(), l);
        let p = fs.last();
        let t = then_tails(fs.drop_last(), l);
        let e = else_tails(fs.drop_last(), l);
        if p.len() > 0 {
            assert(t.push(p.drop_first()).drop_last() =~= t);
            assert(e.push(p.drop_first()).drop_last() =~= e);
        }
    }
}

/// Some path is empty: a drive under no frame at all.
pub open spec fn has_empty_path(fs: Seq<Seq<EirGuardFrame>>) -> bool {
    exists|i: int| 0 <= i < fs.len() && #[trigger] fs[i].len() == 0
}

/// The paths cover every case: one of them is empty, or some if has both
/// branches covered by the paths that run through them.
pub open spec fn frames_cover(fs: Seq<Seq<EirGuardFrame>>) -> bool
    decreases sum_len(fs), fs.len() + 1,
{
    has_empty_path(fs) || split_covers_from(fs, 0)
}

/// The if heading one of the paths from index `k` on has both branches
/// covered.
pub open spec fn split_covers_from(fs: Seq<Seq<EirGuardFrame>>, k: int) -> bool
    decreases sum_len(fs), fs.len() - k,
{
    if 0 <= k < fs.len() {
        (fs[k].len() > 0 && !(fs[k][0] is Loop) && branch_covers(
            fs,
            label_key(frame_label(fs[k][0])),
        )) || split_covers_from(fs, k + 1)
    } else {
        false
    }
}

/// Both branches of the labelled if are reached, and the paths through each
/// branch cover it.
pub open spec fn branch_covers(fs: Seq<Seq<EirGuardFrame>>, l: (Seq<char>, Span)) -> bool
    decreases sum_len(fs), 0int,
{
    let t = then_tails(fs, l);
    let e = else_tails(fs, l);
    if t.len() > 0 && e.len() > 0 {
        proof {
            lemma_tails_shrink(fs, l);
        }
        frames_cover(t) && frames_cover(e)
    } else {
        false
    }
}

/// Two lists of paths have the same length and equal paths, frame by frame.
pub open spec fn paths_equal(a: Seq<Seq<EirGuardFrame>>, b: Seq<Seq<EirGuardFrame>>) -> bool {
    a.len() == b.len() && forall|i: int| 0 <= i < a.len() ==> frames_equal(#[trigger] a[i], b[i])
}

proof fn lemma_sum_len_equal(a: Seq<Seq<EirGuardFrame>>, b: Seq<Seq<EirGuardFrame>>)
    requires
        paths_equal(a, b),
    ensures
        sum_len(a) == sum_len(b),
    decreases a.len(),
{
    if a.len() > 0 {
        assert(frames_equal(a[a.len() - 1], b[b.len() - 1]));
        lemma_sum_len_equal(a.drop_last(), b.drop_last());
    }
}

proof fn lemma_tails_equal(a: Seq<Seq<EirGuardFrame>>, b: Seq<Seq<EirGuardFrame>>, l: (Seq<char>, Span))
    requires
        paths_equal(a, b),
    ensures
        paths_equal(then_tails(a, l), then_tails(b, l)),
        paths_equal(else_tails(a, l), else_tails(b, l)),
    decreases a.len(),
{
    if a.len() > 0 {
        lemma_tails_equal(a.drop_last(), b.drop_last(), l);
        let p = a.last();
        let q = b.last();
        assert(frames_equal(a[a.len() - 1], b[b.len() - 1]));
        if p.len() > 0 {
            assert(frame_equal(p[0], q[0]));
            assert forall|i: int| 0 <= i < p.drop_first().len() implies frame_equal(
                #[trigger] p.drop_first()[i],
                q.drop_first()[i],
            ) by {
                assert(frame_equal(p[i + 1], q[i + 1]));
            }
            let tp = then_tails(a.drop_last(), l);
            let tq = then_tails(b.drop_last(), l);
            let ep = else_tails(a.drop_last(), l);
            let eq = else_tails(b.drop_last(), l);
            assert forall|i: int| 0 <= i < tp.len() implies frames_equal(
                #[trigger] tp.push(p.drop_first())[i],
                tq.push(q.drop_first())[i],
            ) by {
                if i < tp.len() - 1 {
                    assert(frames_equal(tp[i], tq[i]));
                }
            }
            assert forall|i: int| 0 <= i < ep.len() implies frames_equal(
                #[trigger] ep.push(p.drop_first())[i],
                eq.push(q.drop_first())[i],
            ) by {
                if i < ep.len() - 1 {
                    assert(frames_equal(ep[i], eq[i]));
                }
            }
        }
    }
}

/// Coverage does not depend on which copy of equal paths is asked.
pub proof fn lemma_cover_equal(a: Seq<Seq<EirGuardFrame>>, b: Seq<Seq<EirGuardFrame>>)
    requires
        paths_equal(a, b),
    ensures
        frames_cover(a) == frames_cover(b),
    decreases sum_len(a), a.len() + 1,
{
    assert(has_empty_path(a) == has_empty_path(b)) by {
        if has_empty_path(a) {
            let i = choose|i: int| 0 <= i < a.len() && #[trigger] a[i].len() == 0;
            assert(frames_equal(a[i], b[i]));
            assert(b[i].len() == 0);
        }
        if has_empty_path(b) {
            let i = choose|i: int| 0 <= i < b.len() && #[trigger] b[i].len() == 0;
            assert(frames_equal(a[i], b[i]));
            assert(a[i].len() == 0);
        }
    }
    lemma_split_equal(a, b, 0);
}

proof fn lemma_split_equal(a: Seq<Seq<EirGuardFrame>>, b: Seq<Seq<EirGuardFrame>>, k: int)
    requires
        paths_equal(a, b),
    ensures
        split_covers_from(a, k) == split_covers_from(b, k),
    decreases sum_len(a), a.len() - k,
{
    if 0 <= k < a.len() {
        lemma_split_equal(a, b, k + 1);
        assert(frames_equal(a[k], b[k]));
        if a[k].len() > 0 {
            assert(frame_equal(a[k][0], b[k][0]));
            let l = label_key(frame_label(a[k][0]));
            assert(label_key(frame_label(b[k][0])) == l);
            assert((a[k][0] is Loop) == (b[k][0] is Loop));
            lemma_tails_equal(a, b, l);
            lemma_sum_len_equal(a, b);
            let t = then_tails(a, l);
            let e = else_tails(a, l);
            if t.len() > 0 && e.len() > 0 {
                lemma_tails_shrink(a, l);
                lemma_cover_equal(t, then_tails(b, l));
                lemma_cover_equal(e, else_tails(b, l));
            }
            assert(branch_covers(a, l) == branch_covers(b, l));
        }
        assert(split_covers_from(a, k) == ((a[k].len() > 0 && !(a[k][0] is Loop) && branch_covers(
            a,
            label_key(frame_label(a[k][0])),
        )) || split_covers_from(a, k + 1)));
        assert(split_covers_from(b, k) == ((b[k].len() > 0 && !(b[k][0] is Loop) && branch_covers(
            b,
            label_key(frame_label(b[k][0])),
        )) || split_covers_from(b, k + 1)));
    }
}

/// The frame lists of a list of frame slices.
pub open spec fn path_views(v: Seq<&[EirGuardFrame]>) -> Seq<Seq<EirGuardFrame>> {
    v.map_values(|p: &[EirGuardFrame]| p@)
}

// ---------------------------------------------------------------------------
// Deciding coverage
// ---------------------------------------------------------------------------

/// A set of frame paths, asked whether they cover every case.
pub struct GuardFrameCoverage<'a> {
    pub frames: Vec<&'a [EirGuardFrame]>,
}

/// The paths through the two branches of one if.
pub struct BranchTails<'a> {
    pub then_tails: Vec<&'a [EirGuardFrame]>,
    pub else_tails: Vec<&'a [EirGuardFrame]>,
}

fn copy_paths<'a>(v: &Vec<&'a [EirGuardFrame]>) -> (r: Vec<&'a [EirGuardFrame]>)
    ensures
        r@ == v@,
{
    let mut out: Vec<&'a [EirGuardFrame]> = Vec::new();
    let mut i: usize = 0;
    while i < v.len()
        invariant
            i <= v.len(),
            out@ == v@.take(i as int),
        decreases v.len() - i,
    {
        out.push(v[i]);
        proof {
            assert(out@ =~= v@.take(i + 1));
        }
        i = i + 1;
    }
    proof {
        assert(v@.take(v.len() as int) =~= v@);
    }
    out
}

impl<'a> BranchTails<'a> {
    /// No paths yet.
    pub fn new() -> (r: Self)
        ensures
            r.then_tails@.len() == 0,
            r.else_tails@.len() == 0,
    {
        BranchTails { then_tails: Vec::new(), else_tails: Vec::new() }
    }

    /// Records the rest of a path through the then branch.
    pub fn add_then(&mut self, frames: &'a [EirGuardFrame])
        ensures
            final(self).then_tails@ == old(self).then_tails@.push(frames),
            final(self).else_tails@ == old(self).else_tails@,
    {
        self.then_tails.push(frames);
    }

    /// Records the rest of a path through the else branch.
    pub fn add_else(&mut self, frames: &'a [EirGuardFrame])
        ensures
            final(self).else_tails@ == old(self).else_tails@.push(frames),
            final(self).then_tails@ == old(self).then_tails@,
    {
        self.else_tails.push(frames);
    }

    /// Both branches are reached and covered.
    pub fn covers(&self) -> (r: bool)
        ensures
            r == (self.then_tails@.len() > 0 && self.else_tails@.len() > 0 && frames_cover(
                path_views(self.then_tails@),
            ) && frames_cover(path_views(self.else_tails@))),
        decreases sum_len(path_views(self.then_tails@)) + sum_len(path_views(self.else_tails@))
            + self.then_tails@.len() + self.else_tails@.len(), 1nat,
    {
        if self.then_tails.len() == 0 || self.else_tails.len() == 0 {
            return false;
        }
        GuardFrameCoverage::new(copy_paths(&self.then_tails)).covers() && GuardFrameCoverage::new(
            copy_paths(&self.else_tails),
        ).covers()
    }
}

impl<'a> GuardFrameCoverage<'a> {
    /// The paths to decide on.
    pub fn new(frames: Vec<&'a [EirGuardFrame]>) -> (r: Self)
        ensures
            r.frames == frames,
    {
        GuardFrameCoverage { frames }
    }

    /// The paths cover every case.
    pub fn covers(&self) -> (r: bool)
        ensures
            r == frames_cover(path_views(self.frames@)),
        decreases sum_len(path_views(self.frames@)), 3nat,
    {
        let ghost pv = path_views(self.frames@);
        let mut i: usize = 0;
        while i < self.frames.len()
            invariant
                i <= self.frames.len(),
                pv == path_views(self.frames@),
                forall|j: int| 0 <= j < i ==> #[trigger] pv[j].len() != 0,
            decreases self.frames.len() - i,
        {
            if self.is_unconditional_path(self.frames[i]) {
                proof {
                    assert(pv[i as int].len() == 0);
                }
                return true;
            }
            i = i + 1;
        }
        self.has_exhaustive_if_split()
    }

    /// Some if heading a path has both branches covered by the paths that
    /// run through them.
    pub fn has_exhaustive_if_split(&self) -> (r: bool)
        ensures
            r == split_covers_from(path_views(self.frames@), 0),
        decreases sum_len(path_views(self.frames@)), 2nat,
    {
        let ghost pv = path_views(self.frames@);
        let mut k: usize = 0;
        while k < self.frames.len()
            invariant
                k <= self.frames.len(),
                pv == path_views(self.frames@),
                split_covers_from(pv, 0) == split_covers_from(pv, k as int),
            decreases self.frames.len() - k,
        {
            let path = self.frames[k];
            proof {
                assert(pv[k as int] == path@);
            }
            if path.len() > 0 {
                let label = match &path[0] {
                    EirGuardFrame::IfThen { label } => Some(label),
                    EirGuardFrame::IfElse { label } => Some(label),
                    EirGuardFrame::Loop { .. } => None,
                };
                if let Some(label) = label {
                    let tails = self.branch_tails(label);
                    proof {
                        lemma_tails_shrink(pv, label_key(*label));
                        assert(label_key(*label) == label_key(frame_label(pv[k as int][0])));
                    }
                    let c = tails.covers();
                    proof {
                        assert(c == branch_covers(pv, label_key(*label)));
                    }
                    if c {
                        proof {
                            assert(split_covers_from(pv, k as int));
                        }
                        return true;
                    }
                }
            }
            proof {
                assert(split_covers_from(pv, k as int) == split_covers_from(pv, k + 1));
            }
            k = k + 1;
        }
        false
    }

    /// The paths through the two branches of the labelled if.
    fn branch_tails(&self, label: &EirGuardLabel) -> (r: BranchTails<'a>)
        ensures
            path_views(r.then_tails@) == then_tails(path_views(self.frames@), label_key(*label)),
            path_views(r.else_tails@) == else_tails(path_views(self.frames@), label_key(*label)),
    {
        let ghost pv = path_views(self.frames@);
        let ghost key = label_key(*label);
        let mut tails = BranchTails::new();
        let mut m: usize = 0;
        proof {
            assert(pv.take(0) =~= Seq::<Seq<EirGuardFrame>>::empty());
            assert(path_views(tails.then_tails@) =~= Seq::<Seq<EirGuardFrame>>::empty());
            assert(path_views(tails.else_tails@) =~= Seq::<Seq<EirGuardFrame>>::empty());
        }
        while m < self.frames.len()
            invariant
                m <= self.frames.len(),
                pv == path_views(self.frames@),
                key == label_key(*label),
                path_views(tails.then_tails@) == then_tails(pv.take(m as int), key),
                path_views(tails.else_tails@) == else_tails(pv.take(m as int), key),
            decreases self.frames.len() - m,
        {
            let p = self.frames[m];
            proof {
                assert(pv.take(m + 1).drop_last() =~= pv.take(m as int));
                assert(pv.take(m + 1).last() == p@);
            }
            let ghost before_then = tails.then_tails@;
            let ghost before_else = tails.else_tails@;
            if p.len() > 0 {
                let rest = &p[1..p.len()];
                proof {
                    assert(rest@ =~= p@.drop_first());
                }
                match &p[0] {
                    EirGuardFrame::IfThen { label: l } => {
                        if l.same_as(label) {
                            tails.add_then(rest);
                            proof {
                                assert(path_views(tails.then_tails@) =~= path_views(before_then).push(
                                    rest@,
                                ));
                            }
                        }
                    },
                    EirGuardFrame::IfElse { label: l } => {
                        if l.same_as(label) {
                            tails.add_else(rest);
                            proof {
                                assert(path_views(tails.else_tails@) =~= path_views(before_else).push(
                                    rest@,
                                ));
                            }
                        }
                    },
                    EirGuardFrame::Loop { .. } => {},
                }
            }
            m = m + 1;
        }
        proof {
            assert(pv.take(self.frames.len() as int) =~= pv);
        }
        tails
    }

    /// A path with no frames is taken unconditionally.
    pub fn is_unconditional_path(&self, frames: &[EirGuardFrame]) -> (r: bool)
        ensures
            r == (frames@.len() == 0),
    {
        frames.len() == 0
    }
}

// ---------------------------------------------------------------------------
// Guards of drives
// ---------------------------------------------------------------------------

/// The rest of a drive's guard inside a context: the frames after the
/// context where the drive lies inside it, nothing where the context lies
/// inside the drive, and no path where neither contains the other.
pub open spec fn residual_spec(drive: Seq<EirGuardFrame>, context: Seq<EirGuardFrame>) -> Option<
    Seq<EirGuardFrame>,
> {
    if starts_with(drive, context) {
        Some(drive.skip(context.len() as int))
    } else if starts_with(context, drive) {
        Some(Seq::empty())
    } else {
        None
    }
}

/// A drive's guard and a context it is asked about.
pub struct GuardFrameRelation<'a> {
    pub drive: &'a [EirGuardFrame],
    pub context: &'a [EirGuardFrame],
}

fn slice_starts_with(s: &[EirGuardFrame], p: &[EirGuardFrame]) -> (r: bool)
    ensures
        r == starts_with(s@, p@),
{
    if p.len() > s.len() {
        return false;
    }
    let mut i: usize = 0;
    while i < p.len()
        invariant
            i <= p.len(),
            p.len() <= s.len(),
            forall|j: int| 0 <= j < i ==> frame_equal(#[trigger] p@[j], s@[j]),
        decreases p.len() - i,
    {
        if !p[i].same_as(&s[i]) {
            return false;
        }
        i = i + 1;
    }
    true
}

impl<'a> GuardFrameRelation<'a> {
    /// A drive's frames and a context's frames.
    pub fn new(drive: &'a [EirGuardFrame], context: &'a [EirGuardFrame]) -> (r: Self)
        ensures
            r.drive == drive,
            r.context == context,
    {
        GuardFrameRelation { drive, context }
    }

    /// The rest of the drive's frames inside the context, if they meet.
    pub fn residual(&self) -> (r: Option<&'a [EirGuardFrame]>)
        ensures
            match r {
                Some(x) => residual_spec(self.drive@, self.context@) == Some(x@),
                None => residual_spec(self.drive@, self.context@) is None,
            },
    {
        if slice_starts_with(self.drive, self.context) {
            let rest = &self.drive[self.context.len()..self.drive.len()];
            proof {
                assert(rest@ =~= self.drive@.skip(self.context@.len() as int));
            }
            return Some(rest);
        }
        if slice_starts_with(self.context, self.drive) {
            let none = &self.drive[0..0];
            proof {
                assert(none@ =~= Seq::<EirGuardFrame>::empty());
            }
            return Some(none);
        }
        None
    }
}

/// The frames of each of a list of guards.
pub open spec fn guard_paths(gs: Seq<&EirGuard>) -> Seq<Seq<EirGuardFrame>> {
    gs.map_values(|g: &EirGuard| g.frames@)
}

/// The rests of a list of guards inside a context, skipping those that do
/// not meet it, in order.
pub open spec fn residuals(gs: Seq<&EirGuard>, context: Seq<EirGuardFrame>) -> Seq<
    Seq<EirGuardFrame>,
>
    decreases gs.len(),
{
    if gs.len() == 0 {
        Seq::empty()
    } else {
        let rest = residuals(gs.drop_last(), context);
        match residual_spec(gs.last().frames@, context) {
            Some(r) => rest.push(r),
            None => rest,
        }
    }
}

/// The guards of the drives of one place.
pub struct GuardCoverage<'a> {
    pub guards: Vec<&'a EirGuard>,
}

impl<'a> GuardCoverage<'a> {
    /// No guards yet.
    pub fn new() -> (r: Self)
        ensures
            r.guards@.len() == 0,
    {
        GuardCoverage { guards: Vec::new() }
    }

    /// Records the guard of one more drive.
    pub fn add(&mut self, guard: &'a EirGuard)
        ensures
            final(self).guards@ == old(self).guards@.push(guard),
    {
        self.guards.push(guard);
    }

    /// The guards cover every case.
    pub fn covers_unconditionally(&self) -> (r: bool)
        ensures
            r == frames_cover(guard_paths(self.guards@)),
    {
        let mut frames: Vec<&'a [EirGuardFrame]> = Vec::new();
        let mut i: usize = 0;
        while i < self.guards.len()
            invariant
                i <= self.guards.len(),
                path_views(frames@) == guard_paths(self.guards@.take(i as int)),
            decreases self.guards.len() - i,
        {
            let ghost before = frames@;
            frames.push(self.guards[i].frames());
            proof {
                assert(path_views(frames@) =~= path_views(before).push(self.guards@[i as int].frames@));
                assert(guard_paths(self.guards@.take(i + 1)) =~= guard_paths(self.guards@.take(i as int)).push(
                    self.guards@[i as int].frames@,
                ));
            }
            i = i + 1;
        }
        proof {
            assert(self.guards@.take(self.guards.len() as int) =~= self.guards@);
        }
        GuardFrameCoverage::new(frames).covers()
    }

    /// The guards cover every case inside the context.
    pub fn covers_under(&self, context: &EirGuard) -> (r: bool)
        ensures
            r == frames_cover(residuals(self.guards@, context.frames@)),
    {
        let ghost ctx = context.frames@;
        let mut frames: Vec<&[EirGuardFrame]> = Vec::new();
        let mut i: usize = 0;
        proof {
            assert(self.guards@.take(0) =~= Seq::<&EirGuard>::empty());
            assert(path_views(frames@) =~= Seq::<Seq<EirGuardFrame>>::empty());
        }
        while i < self.guards.len()
            invariant
                i <= self.guards.len(),
                ctx == context.frames@,
                path_views(frames@) == residuals(self.guards@.take(i as int), ctx),
            decreases self.guards.len() - i,
        {
            proof {
                assert(self.guards@.take(i + 1).drop_last() =~= self.guards@.take(i as int));
                assert(self.guards@.take(i + 1).last() == self.guards@[i as int]);
            }
            let ghost before = frames@;
            match GuardFrameRelation::new(self.guards[i].frames(), context.frames()).residual() {
                Some(residual) => {
                    frames.push(residual);
                    proof {
                        assert(path_views(frames@) =~= path_views(before).push(residual@));
                    }
                },
                None => {},
            }
            i = i + 1;
        }
        proof {
            assert(self.guards@.take(self.guards.len() as int) =~= self.guards@);
        }
        GuardFrameCoverage::new(frames).covers()
    }
}

// ---------------------------------------------------------------------------
// Soundness
// ---------------------------------------------------------------------------

/// A frame is entered: a then branch where its if takes the then branch, an
/// else branch where it does not, a loop body where the loop runs.
pub open spec fn frame_active(
    f: EirGuardFrame,
    branch: spec_fn((Seq<char>, Span)) -> bool,
    looped: spec_fn((Seq<char>, Span)) -> bool,
) -> bool {
    match f {
        EirGuardFrame::IfThen { label } => branch(label_key(label)),
        EirGuardFrame::IfElse { label } => !branch(label_key(label)),
        EirGuardFrame::Loop { label, .. } => looped(label_key(label)),
    }
}

/// Every frame of a path is entered.
pub open spec fn path_active(
    p: Seq<EirGuardFrame>,
    branch: spec_fn((Seq<char>, Span)) -> bool,
    looped: spec_fn((Seq<char>, Span)) -> bool,
) -> bool {
    forall|i: int| 0 <= i < p.len() ==> frame_active(#[trigger] p[i], branch, looped)
}


/// Mutually exclusive guards are never entered together: whichever way
/// each if goes and whichever loops run, when every frame of one guard is
/// entered, some frame of the other is not.
pub proof fn lemma_exclusive_guards_never_both_active(
    a: Seq<EirGuardFrame>,
    b: Seq<EirGuardFrame>,
    branch: spec_fn((Seq<char>, Span)) -> bool,
    looped: spec_fn((Seq<char>, Span)) -> bool,
)
    requires
        guards_exclusive(a, b),
        path_active(a, branch, looped),
    ensures
        !path_active(b, branch, looped),
{
    let i = choose|i: int|
        0 <= i < a.len() && i < b.len() && (forall|j: int|
            0 <= j < i ==> frame_equal(#[trigger] a[j], b[j])) && !frame_equal(a[i], b[i])
            && #[trigger] opposite_branches(a[i], b[i]);
    assert(frame_active(a[i], branch, looped));
    assert(!frame_active(b[i], branch, looped));
}

proof fn lemma_then_tail_origin(fs: Seq<Seq<EirGuardFrame>>, l: (Seq<char>, Span), j: int)
    requires
        0 <= j < then_tails(fs, l).len(),
    ensures
        exists|i: int|
            0 <= i < fs.len() && #[trigger] fs[i].len() > 0 && (fs[i][0] matches EirGuardFrame::IfThen {
                label,
            } && label_key(label) == l) && fs[i].drop_first() == then_tails(fs, l)[j],
    decreases fs.len(),
{
    let rest = then_tails(fs.drop_last(), l);
    if j < rest.len() {
        lemma_then_tail_origin(fs.drop_last(), l, j);
        let i = choose|i: int|
            0 <= i < fs.drop_last().len() && #[trigger] fs.drop_last()[i].len() > 0 && (
            fs.drop_last()[i][0] matches EirGuardFrame::IfThen { label } && label_key(label) == l)
                && fs.drop_last()[i].drop_first() == rest[j];
        assert(fs[i] == fs.drop_last()[i]);
    } else {
        assert(fs[fs.len() - 1].len() > 0);
    }
}

proof fn lemma_else_tail_origin(fs: Seq<Seq<EirGuardFrame>>, l: (Seq<char>, Span), j: int)
    requires
        0 <= j < else_tails(fs, l).len(),
    ensures
        exists|i: int|
            0 <= i < fs.len() && #[trigger] fs[i].len() > 0 && (fs[i][0] matches EirGuardFrame::IfElse {
                label,
            } && label_key(label) == l) && fs[i].drop_first() == else_tails(fs, l)[j],
    decreases fs.len(),
{
    let rest = else_tails(fs.drop_last(), l);
    if j < rest.len() {
        lemma_else_tail_origin(fs.drop_last(), l, j);
        let i = choose|i: int|
            0 <= i < fs.drop_last().len() && #[trigger] fs.drop_last()[i].len() > 0 && (
            fs.drop_last()[i][0] matches EirGuardFrame::IfElse { label } && label_key(label) == l)
                && fs.drop_last()[i].drop_first() == rest[j];
        assert(fs[i] == fs.drop_last()[i]);
    } else {
        assert(fs[fs.len() - 1].len() > 0);
    }
}

/// Coverage is sound: where the paths are found to cover every case,
/// whichever way each if goes and whichever loops run, some path has all of
/// its frames entered.
pub proof fn lemma_coverage_sound(
    fs: Seq<Seq<EirGuardFrame>>,
    branch: spec_fn((Seq<char>, Span)) -> bool,
    looped: spec_fn((Seq<char>, Span)) -> bool,
)
    requires
        frames_cover(fs),
    ensures
        exists|i: int| 0 <= i < fs.len() && #[trigger] path_active(fs[i], branch, looped),
    decreases sum_len(fs), fs.len() + 1,
{
    if has_empty_path(fs) {
        let i = choose|i: int| 0 <= i < fs.len() && #[trigger] fs[i].len() == 0;
        assert(path_active(fs[i], branch, looped));
    } else {
        lemma_split_sound(fs, 0, branch, looped);
    }
}

proof fn lemma_split_sound(
    fs: Seq<Seq<EirGuardFrame>>,
    k: int,
    branch: spec_fn((Seq<char>, Span)) -> bool,
    looped: spec_fn((Seq<char>, Span)) -> bool,
)
    requires
        split_covers_from(fs, k),
    ensures
        exists|i: int| 0 <= i < fs.len() && #[trigger] path_active(fs[i], branch, looped),
    decreases sum_len(fs), fs.len() - k,
{
    if fs[k].len() > 0 && !(fs[k][0] is Loop) && branch_covers(fs, label_key(frame_label(fs[k][0]))) {
        let l = label_key(frame_label(fs[k][0]));
        let t = then_tails(fs, l);
        let e = else_tails(fs, l);
        lemma_tails_shrink(fs, l);
        if branch(l) {
            lemma_coverage_sound(t, branch, looped);
            let j = choose|j: int| 0 <= j < t.len() && #[trigger] path_active(t[j], branch, looped);
            lemma_then_tail_origin(fs, l, j);
            let i = choose|i: int|
                0 <= i < fs.len() && #[trigger] fs[i].len() > 0 && (fs[i][0] matches EirGuardFrame::IfThen {
                    label,
                } && label_key(label) == l) && fs[i].drop_first() == t[j];
            assert forall|m: int| 0 <= m < fs[i].len() implies frame_active(
                #[trigger] fs[i][m],
                branch,
                looped,
            ) by {
                if m > 0 {
                    assert(fs[i][m] == t[j][m - 1]);
                }
            }
            assert(path_active(fs[i], branch, looped));
        } else {
            lemma_coverage_sound(e, branch, looped);
            let j = choose|j: int| 0 <= j < e.len() && #[trigger] path_active(e[j], branch, looped);
            lemma_else_tail_origin(fs, l, j);
            let i = choose|i: int|
                0 <= i < fs.len() && #[trigger] fs[i].len() > 0 && (fs[i][0] matches EirGuardFrame::IfElse {
                    label,
                } && label_key(label) == l) && fs[i].drop_first() == e[j];
            assert forall|m: int| 0 <= m < fs[i].len() implies frame_active(
                #[trigger] fs[i][m],
                branch,
                looped,
            ) by {
                if m > 0 {
                    assert(fs[i][m] == e[j][m - 1]);
                }
            }
            assert(path_active(fs[i], branch, looped));
        }
    } else {
        lemma_split_sound(fs, k + 1, branch, looped);
    }
}

} // verus!
