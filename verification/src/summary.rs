//! Per-cell summaries: for each expanded cell instance, the places its
//! drives and reads touch and the names of the objects it creates, kept in
//! the order of the expansion stacks that identify the instances.
use crate::facts::{
    CreateFact, DriveFact, EirExpansion, EirOrigin, ReadFact, same_expansion, same_origin,
};
use crate::place::{
    DriverPlace, lemma_same_place_symmetric, lemma_same_place_transitive, same_place,
};
use crate::text::{
    chars_lt, chars_of, lemma_lt_asymmetric, lemma_lt_irreflexive, lemma_lt_total,
    lemma_lt_transitive, seq_lt, str_eq,
};
use vstd::prelude::*;

verus! {

// ---------------------------------------------------------------------------
// Summaries
// ---------------------------------------------------------------------------

/// What one expanded cell instance does: the places it drives and reads and
/// the objects it creates, each listed once, in the order first met.
#[derive(Debug)]
pub struct DriverCellSummary {
    pub callable: String,
    pub instance: String,
    pub drives: Vec<DriverPlace>,
    pub reads: Vec<DriverPlace>,
    pub creates: Vec<String>,
    pub origin: EirOrigin,
}

/// Some listed place is the same as `p`.
pub open spec fn has_place(ps: Seq<DriverPlace>, p: DriverPlace) -> bool {
    exists|i: int| 0 <= i < ps.len() && same_place(#[trigger] ps[i], p)
}

/// Some listed name is `n`.
pub open spec fn has_name(ns: Seq<String>, n: Seq<char>) -> bool {
    exists|i: int| 0 <= i < ns.len() && (#[trigger] ns[i])@ == n
}

fn find_place(ps: &Vec<DriverPlace>, p: &DriverPlace) -> (r: bool)
    ensures
        r == has_place(ps@, *p),
{
    let mut i: usize = 0;
    while i < ps.len()
        invariant
            i <= ps.len(),
            forall|j: int| 0 <= j < i ==> !same_place(#[trigger] ps@[j], *p),
        decreases ps.len() - i,
    {
        if ps[i].same_as(p) {
            return true;
        }
        i = i + 1;
    }
    false
}

impl DriverCellSummary {
    /// An empty summary of `callable` expanded as `instance`.
    pub fn new(callable: &str, instance: &str, origin: EirOrigin) -> (r: Self)
        ensures
            r.callable@ == callable@,
            r.instance@ == instance@,
            r.drives@.len() == 0,
            r.reads@.len() == 0,
            r.creates@.len() == 0,
            r.origin == origin,
    {
        DriverCellSummary {
            callable: callable.to_owned(),
            instance: instance.to_owned(),
            drives: Vec::new(),
            reads: Vec::new(),
            creates: Vec::new(),
            origin,
        }
    }

    /// The expanded cell.
    pub fn callable(&self) -> (r: &str)
        ensures
            r@ == self.callable@,
    {
        self.callable.as_str()
    }

    /// The instance name.
    pub fn instance(&self) -> (r: &str)
        ensures
            r@ == self.instance@,
    {
        self.instance.as_str()
    }

    /// The driven places.
    pub fn drives(&self) -> (r: &[DriverPlace])
        ensures
            r@ == self.drives@,
    {
        self.drives.as_slice()
    }

    /// The read places.
    pub fn reads(&self) -> (r: &[DriverPlace])
        ensures
            r@ == self.reads@,
    {
        self.reads.as_slice()
    }

    /// The names of the created objects.
    pub fn creates(&self) -> (r: &[String])
        ensures
            r@ == self.creates@,
    {
        self.creates.as_slice()
    }

    /// Where the instance was first met.
    pub fn origin(&self) -> (r: &EirOrigin)
        ensures
            *r == self.origin,
    {
        &self.origin
    }

    /// Lists a driven place unless the same place is listed.
    pub fn add_drive(&mut self, place: DriverPlace)
        ensures
            final(self).callable == old(self).callable,
            final(self).instance == old(self).instance,
            final(self).reads == old(self).reads,
            final(self).creates == old(self).creates,
            final(self).origin == old(self).origin,
            if has_place(old(self).drives@, place) {
                final(self).drives@ == old(self).drives@
            } else {
                final(self).drives@ == old(self).drives@.push(place)
            },
    {
        if !find_place(&self.drives, &place) {
            self.drives.push(place);
        }
    }

    /// Lists a read place unless the same place is listed.
    pub fn add_read(&mut self, place: DriverPlace)
        ensures
            final(self).callable == old(self).callable,
            final(self).instance == old(self).instance,
            final(self).drives == old(self).drives,
            final(self).creates == old(self).creates,
            final(self).origin == old(self).origin,
            if has_place(old(self).reads@, place) {
                final(self).reads@ == old(self).reads@
            } else {
                final(self).reads@ == old(self).reads@.push(place)
            },
    {
        if !find_place(&self.reads, &place) {
            self.reads.push(place);
        }
    }

    /// Lists the name of a created object unless it is listed.
    pub fn add_create(&mut self, name: &str)
        ensures
            final(self).callable == old(self).callable,
            final(self).instance == old(self).instance,
            final(self).drives == old(self).drives,
            final(self).reads == old(self).reads,
            final(self).origin == old(self).origin,
            if has_name(old(self).creates@, name@) {
                final(self).creates@ == old(self).creates@
            } else {
                &&& final(self).creates@.len() == old(self).creates@.len() + 1
                &&& final(self).creates@.drop_last() == old(self).creates@
                &&& final(self).creates@.last()@ == name@
            },
    {
        let mut i: usize = 0;
        while i < self.creates.len()
            invariant
                i <= self.creates.len(),
                forall|j: int| 0 <= j < i ==> (#[trigger] self.creates@[j])@ != name@,
            decreases self.creates.len() - i,
        {
            if str_eq(self.creates[i].as_str(), name) {
                return;
            }
            i = i + 1;
        }
        let ghost before = self.creates@;
        self.creates.push(name.to_owned());
        proof {
            assert(self.creates@.drop_last() =~= before);
        }
    }
}

// ---------------------------------------------------------------------------
// Keys
// ---------------------------------------------------------------------------

/// One level of a key: cell, instance and where it was expanded.
pub struct CellSummaryFrameKey {
    pub callable: String,
    pub instance: String,
    pub source: u32,
    pub start: u32,
    pub end: u32,
}

/// What a key level holds.
pub open spec fn frame_model(f: CellSummaryFrameKey) -> (Seq<char>, Seq<char>, u32, u32, u32) {
    (f.callable@, f.instance@, f.source, f.start, f.end)
}

/// The key level of an expansion.
pub open spec fn expansion_key(e: EirExpansion) -> (Seq<char>, Seq<char>, u32, u32, u32) {
    (e.callable@, e.instance@, e.span.source, e.span.start, e.span.end)
}

impl CellSummaryFrameKey {
    /// The key level of an expansion.
    pub fn from_expansion(expansion: &EirExpansion) -> (r: Self)
        ensures
            frame_model(r) == expansion_key(*expansion),
    {
        let span = expansion.span();
        CellSummaryFrameKey {
            callable: expansion.callable().to_owned(),
            instance: expansion.instance().to_owned(),
            source: span.source,
            start: span.start,
            end: span.end,
        }
    }
}

/// The key of a cell instance: its whole expansion stack.
pub struct CellSummaryKey {
    pub stack: Vec<CellSummaryFrameKey>,
}

/// What a key holds.
pub open spec fn key_model(k: CellSummaryKey) -> Seq<(Seq<char>, Seq<char>, u32, u32, u32)> {
    k.stack@.map_values(|f: CellSummaryFrameKey| frame_model(f))
}

/// The key of an origin: its expansion stack, where it has one.
pub open spec fn origin_key(o: EirOrigin) -> Option<Seq<(Seq<char>, Seq<char>, u32, u32, u32)>> {
    if o.expansion_stack@.len() == 0 {
        None
    } else {
        Some(o.expansion_stack@.map_values(|e: EirExpansion| expansion_key(e)))
    }
}

/// Origins at the same place under the same expansions have the same key.
pub proof fn lemma_same_origin_key(a: EirOrigin, b: EirOrigin)
    requires
        same_origin(a, b),
    ensures
        origin_key(a) == origin_key(b),
{
    assert forall|i: int| 0 <= i < a.expansion_stack@.len() implies expansion_key(
        #[trigger] a.expansion_stack@[i],
    ) == expansion_key(b.expansion_stack@[i]) by {
        assert(same_expansion(a.expansion_stack@[i], b.expansion_stack@[i]));
    }
    assert(a.expansion_stack@.map_values(|e: EirExpansion| expansion_key(e))
        =~= b.expansion_stack@.map_values(|e: EirExpansion| expansion_key(e)));
}

impl CellSummaryKey {
    /// The key of an origin, where it has an expansion stack.
    pub fn from_origin(origin: &EirOrigin) -> (r: Option<Self>)
        ensures
            match origin_key(*origin) {
                Some(k) => r matches Some(x) && key_model(x) == k,
                None => r is None,
            },
    {
        let stack = origin.expansion_stack();
        if stack.len() == 0 {
            return None;
        }
        let mut out: Vec<CellSummaryFrameKey> = Vec::new();
        let mut i: usize = 0;
        while i < stack.len()
            invariant
                i <= stack.len(),
                stack@ == origin.expansion_stack@,
                out@.len() == i,
                forall|j: int| 0 <= j < i ==> frame_model(#[trigger] out@[j]) == expansion_key(stack@[j]),
            decreases stack.len() - i,
        {
            out.push(CellSummaryFrameKey::from_expansion(&stack[i]));
            i = i + 1;
        }
        let r = CellSummaryKey { stack: out };
        proof {
            assert(key_model(r) =~= stack@.map_values(|e: EirExpansion| expansion_key(e)));
        }
        Some(r)
    }
}

// ---------------------------------------------------------------------------
// The order of keys
// ---------------------------------------------------------------------------

/// Key levels compare by cell, instance, source, start and end, in turn.
pub open spec fn frame_key_lt(
    a: (Seq<char>, Seq<char>, u32, u32, u32),
    b: (Seq<char>, Seq<char>, u32, u32, u32),
) -> bool {
    if a.0 != b.0 {
        seq_lt(a.0, b.0)
    } else if a.1 != b.1 {
        seq_lt(a.1, b.1)
    } else if a.2 != b.2 {
        a.2 < b.2
    } else if a.3 != b.3 {
        a.3 < b.3
    } else {
        a.4 < b.4
    }
}

/// Keys compare level by level, a shorter key before a longer one it
/// starts.
pub open spec fn stack_lt(
    a: Seq<(Seq<char>, Seq<char>, u32, u32, u32)>,
    b: Seq<(Seq<char>, Seq<char>, u32, u32, u32)>,
) -> bool
    decreases a.len(),
{
    if a.len() == 0 {
        b.len() > 0
    } else if b.len() == 0 {
        false
    } else if a[0] != b[0] {
        frame_key_lt(a[0], b[0])
    } else {
        stack_lt(a.drop_first(), b.drop_first())
    }
}

proof fn lemma_frame_lt_irreflexive(a: (Seq<char>, Seq<char>, u32, u32, u32))
    ensures
        !frame_key_lt(a, a),
{
}

proof fn lemma_frame_lt_transitive(
    a: (Seq<char>, Seq<char>, u32, u32, u32),
    b: (Seq<char>, Seq<char>, u32, u32, u32),
    c: (Seq<char>, Seq<char>, u32, u32, u32),
)
    requires
        frame_key_lt(a, b),
        frame_key_lt(b, c),
    ensures
        frame_key_lt(a, c),
{
    if a.0 != b.0 && b.0 != c.0 {
        lemma_lt_transitive(a.0, b.0, c.0);
        if a.0 == c.0 {
            lemma_lt_irreflexive(a.0);
        }
    } else if a.0 == b.0 && b.0 == c.0 {
        if a.1 != b.1 && b.1 != c.1 {
            lemma_lt_transitive(a.1, b.1, c.1);
            if a.1 == c.1 {
                lemma_lt_irreflexive(a.1);
            }
        }
    }
}

proof fn lemma_frame_lt_total(a: (Seq<char>, Seq<char>, u32, u32, u32), b: (Seq<char>, Seq<char>, u32, u32, u32))
    ensures
        a == b || frame_key_lt(a, b) || frame_key_lt(b, a),
{
    lemma_lt_total(a.0, b.0);
    lemma_lt_total(a.1, b.1);
}

/// No key is before itself.
pub proof fn lemma_stack_lt_irreflexive(a: Seq<(Seq<char>, Seq<char>, u32, u32, u32)>)
    ensures
        !stack_lt(a, a),
    decreases a.len(),
{
    if a.len() > 0 {
        lemma_stack_lt_irreflexive(a.drop_first());
    }
}

/// The order of keys is transitive.
pub proof fn lemma_stack_lt_transitive(
    a: Seq<(Seq<char>, Seq<char>, u32, u32, u32)>,
    b: Seq<(Seq<char>, Seq<char>, u32, u32, u32)>,
    c: Seq<(Seq<char>, Seq<char>, u32, u32, u32)>,
)
    requires
        stack_lt(a, b),
        stack_lt(b, c),
    ensures
        stack_lt(a, c),
    decreases a.len(),
{
    if a.len() > 0 && b.len() > 0 && c.len() > 0 {
        if a[0] == b[0] && b[0] == c[0] {
            lemma_stack_lt_transitive(a.drop_first(), b.drop_first(), c.drop_first());
        } else if a[0] != b[0] && b[0] != c[0] {
            lemma_frame_lt_transitive(a[0], b[0], c[0]);
            if a[0] == c[0] {
                lemma_frame_lt_irreflexive(a[0]);
            }
        }
    }
}

/// Any two keys are equal or one is before the other.
pub proof fn lemma_stack_lt_total(
    a: Seq<(Seq<char>, Seq<char>, u32, u32, u32)>,
    b: Seq<(Seq<char>, Seq<char>, u32, u32, u32)>,
)
    ensures
        a == b || stack_lt(a, b) || stack_lt(b, a),
    decreases a.len(),
{
    if a.len() == 0 && b.len() == 0 {
        assert(a =~= b);
    } else if a.len() > 0 && b.len() > 0 {
        if a[0] == b[0] {
            lemma_stack_lt_total(a.drop_first(), b.drop_first());
            if a.drop_first() == b.drop_first() {
                assert(a =~= seq![a[0]] + a.drop_first());
                assert(b =~= seq![b[0]] + b.drop_first());
            }
        } else {
            lemma_frame_lt_total(a[0], b[0]);
        }
    }
}

fn frame_lt(a: &CellSummaryFrameKey, b: &CellSummaryFrameKey) -> (r: bool)
    ensures
        r == frame_key_lt(frame_model(*a), frame_model(*b)),
{
    if !str_eq(a.callable.as_str(), b.callable.as_str()) {
        return chars_lt(&chars_of(a.callable.as_str()), &chars_of(b.callable.as_str()));
    }
    if !str_eq(a.instance.as_str(), b.instance.as_str()) {
        return chars_lt(&chars_of(a.instance.as_str()), &chars_of(b.instance.as_str()));
    }
    if a.source != b.source {
        return a.source < b.source;
    }
    if a.start != b.start {
        return a.start < b.start;
    }
    a.end < b.end
}

fn frame_eq(a: &CellSummaryFrameKey, b: &CellSummaryFrameKey) -> (r: bool)
    ensures
        r == (frame_model(*a) == frame_model(*b)),
{
    str_eq(a.callable.as_str(), b.callable.as_str()) && str_eq(a.instance.as_str(), b.instance.as_str())
        && a.source == b.source && a.start == b.start && a.end == b.end
}

/// What a list of key levels holds.
pub open spec fn frames_model(v: Seq<CellSummaryFrameKey>) -> Seq<(Seq<char>, Seq<char>, u32, u32, u32)> {
    v.map_values(|f: CellSummaryFrameKey| frame_model(f))
}

/// Compares two lists of key levels in the order of keys.
pub fn frames_lt(a: &[CellSummaryFrameKey], b: &[CellSummaryFrameKey]) -> (r: bool)
    ensures
        r == stack_lt(frames_model(a@), frames_model(b@)),
{
    let ghost ka = frames_model(a@);
    let ghost kb = frames_model(b@);
    let mut i: usize = 0;
    proof {
        assert(ka.skip(0) =~= ka);
        assert(kb.skip(0) =~= kb);
    }
    while i < a.len() && i < b.len()
        invariant
            i <= a.len(),
            i <= b.len(),
            ka == frames_model(a@),
            kb == frames_model(b@),
            stack_lt(ka, kb) == stack_lt(ka.skip(i as int), kb.skip(i as int)),
        decreases a.len() - i,
    {
        if !frame_eq(&a[i], &b[i]) {
            assert(ka.skip(i as int)[0] == ka[i as int]);
            assert(kb.skip(i as int)[0] == kb[i as int]);
            return frame_lt(&a[i], &b[i]);
        }
        assert(ka.skip(i as int).drop_first() =~= ka.skip(i + 1));
        assert(kb.skip(i as int).drop_first() =~= kb.skip(i + 1));
        i = i + 1;
    }
    i < b.len()
}

/// Compares two lists of key levels for equality.
pub fn frames_eq(a: &[CellSummaryFrameKey], b: &[CellSummaryFrameKey]) -> (r: bool)
    ensures
        r == (frames_model(a@) == frames_model(b@)),
{
    if a.len() != b.len() {
        return false;
    }
    let mut i: usize = 0;
    while i < a.len()
        invariant
            i <= a.len(),
            a.len() == b.len(),
            forall|j: int| 0 <= j < i ==> frame_model(#[trigger] a@[j]) == frame_model(b@[j]),
        decreases a.len() - i,
    {
        if !frame_eq(&a[i], &b[i]) {
            assert(frames_model(a@)[i as int] != frames_model(b@)[i as int]);
            return false;
        }
        i = i + 1;
    }
    assert(frames_model(a@) =~= frames_model(b@));
    true
}

fn key_lt(a: &CellSummaryKey, b: &CellSummaryKey) -> (r: bool)
    ensures
        r == stack_lt(key_model(*a), key_model(*b)),
{
    frames_lt(a.stack.as_slice(), b.stack.as_slice())
}

fn key_eq(a: &CellSummaryKey, b: &CellSummaryKey) -> (r: bool)
    ensures
        r == (key_model(*a) == key_model(*b)),
{
    frames_eq(a.stack.as_slice(), b.stack.as_slice())
}

// ---------------------------------------------------------------------------
// What the summaries of a design are
// ---------------------------------------------------------------------------

/// The targets of the drives with the given key, in order.
pub open spec fn drive_targets(
    ds: Seq<DriveFact>,
    k: Seq<(Seq<char>, Seq<char>, u32, u32, u32)>,
) -> Seq<DriverPlace>
    decreases ds.len(),
{
    if ds.len() == 0 {
        Seq::empty()
    } else {
        let rest = drive_targets(ds.drop_last(), k);
        if origin_key(ds.last().origin) == Some(k) {
            rest.push(ds.last().target)
        } else {
            rest
        }
    }
}

/// The sources of the reads with the given key, in order.
pub open spec fn read_sources(
    rs: Seq<ReadFact>,
    k: Seq<(Seq<char>, Seq<char>, u32, u32, u32)>,
) -> Seq<DriverPlace>
    decreases rs.len(),
{
    if rs.len() == 0 {
        Seq::empty()
    } else {
        let rest = read_sources(rs.drop_last(), k);
        if origin_key(rs.last().origin) == Some(k) {
            rest.push(rs.last().source)
        } else {
            rest
        }
    }
}

/// The names of the objects created with the given key, in order.
pub open spec fn create_names(
    cs: Seq<CreateFact>,
    k: Seq<(Seq<char>, Seq<char>, u32, u32, u32)>,
) -> Seq<Seq<char>>
    decreases cs.len(),
{
    if cs.len() == 0 {
        Seq::empty()
    } else {
        let rest = create_names(cs.drop_last(), k);
        if origin_key(cs.last().origin) == Some(k) {
            rest.push(cs.last().name@)
        } else {
            rest
        }
    }
}

/// The places, each kept the first time it is met.
pub open spec fn first_places(ps: Seq<DriverPlace>) -> Seq<DriverPlace>
    decreases ps.len(),
{
    if ps.len() == 0 {
        Seq::empty()
    } else {
        let rest = first_places(ps.drop_last());
        if has_place(rest, ps.last()) {
            rest
        } else {
            rest.push(ps.last())
        }
    }
}

/// The names, each kept the first time it is met.
pub open spec fn first_names(ns: Seq<Seq<char>>) -> Seq<Seq<char>>
    decreases ns.len(),
{
    if ns.len() == 0 {
        Seq::empty()
    } else {
        let rest = first_names(ns.drop_last());
        if rest.contains(ns.last()) {
            rest
        } else {
            rest.push(ns.last())
        }
    }
}

/// Two lists of places agree place by place.
pub open spec fn places_match(a: Seq<DriverPlace>, b: Seq<DriverPlace>) -> bool {
    a.len() == b.len() && forall|i: int| 0 <= i < a.len() ==> same_place(#[trigger] a[i], b[i])
}

/// The texts of a list of names.
pub open spec fn name_views(v: Seq<String>) -> Seq<Seq<char>> {
    v.map_values(|n: String| n@)
}

/// The origin of the first drive with the given key.
pub open spec fn drive_origin(ds: Seq<DriveFact>, k: Seq<(Seq<char>, Seq<char>, u32, u32, u32)>) -> Option<
    EirOrigin,
>
    decreases ds.len(),
{
    if ds.len() == 0 {
        None
    } else {
        match drive_origin(ds.drop_last(), k) {
            Some(o) => Some(o),
            None => if origin_key(ds.last().origin) == Some(k) {
                Some(ds.last().origin)
            } else {
                None
            },
        }
    }
}

/// The origin of the first read with the given key.
pub open spec fn read_origin(rs: Seq<ReadFact>, k: Seq<(Seq<char>, Seq<char>, u32, u32, u32)>) -> Option<
    EirOrigin,
>
    decreases rs.len(),
{
    if rs.len() == 0 {
        None
    } else {
        match read_origin(rs.drop_last(), k) {
            Some(o) => Some(o),
            None => if origin_key(rs.last().origin) == Some(k) {
                Some(rs.last().origin)
            } else {
                None
            },
        }
    }
}

/// The origin of the first created object with the given key.
pub open spec fn create_origin(cs: Seq<CreateFact>, k: Seq<(Seq<char>, Seq<char>, u32, u32, u32)>) -> Option<
    EirOrigin,
>
    decreases cs.len(),
{
    if cs.len() == 0 {
        None
    } else {
        match create_origin(cs.drop_last(), k) {
            Some(o) => Some(o),
            None => if origin_key(cs.last().origin) == Some(k) {
                Some(cs.last().origin)
            } else {
                None
            },
        }
    }
}

/// The origin that first carries the key: among the drives, else the reads,
/// else the created objects.
pub open spec fn first_origin(
    ds: Seq<DriveFact>,
    rs: Seq<ReadFact>,
    cs: Seq<CreateFact>,
    k: Seq<(Seq<char>, Seq<char>, u32, u32, u32)>,
) -> Option<EirOrigin> {
    match drive_origin(ds, k) {
        Some(o) => Some(o),
        None => match read_origin(rs, k) {
            Some(o) => Some(o),
            None => create_origin(cs, k),
        },
    }
}

/// `s` summarises the instance first met at `origin`: the cell and instance
/// of its innermost expansion, that origin, and the given lists.
pub open spec fn summary_is(
    s: DriverCellSummary,
    origin: EirOrigin,
    drives: Seq<DriverPlace>,
    reads: Seq<DriverPlace>,
    creates: Seq<Seq<char>>,
) -> bool {
    &&& s.callable@ == origin.expansion_stack@.last().callable@
    &&& s.instance@ == origin.expansion_stack@.last().instance@
    &&& same_origin(s.origin, origin)
    &&& places_match(s.drives@, drives)
    &&& places_match(s.reads@, reads)
    &&& name_views(s.creates@) == creates
}

/// The summary of the instance with key `k`, over the given facts.
pub open spec fn summary_for_key(
    s: DriverCellSummary,
    k: Seq<(Seq<char>, Seq<char>, u32, u32, u32)>,
    ds: Seq<DriveFact>,
    rs: Seq<ReadFact>,
    cs: Seq<CreateFact>,
) -> bool {
    first_origin(ds, rs, cs, k) matches Some(o) && summary_is(
        s,
        o,
        first_places(drive_targets(ds, k)),
        first_places(read_sources(rs, k)),
        first_names(create_names(cs, k)),
    )
}

/// The keys are in strictly increasing order.
pub open spec fn keys_sorted(t: Seq<(CellSummaryKey, DriverCellSummary)>) -> bool {
    forall|i: int, j: int|
        0 <= i < j < t.len() ==> stack_lt(key_model(#[trigger] t[i].0), key_model(#[trigger] t[j].0))
}

/// Some entry has the key.
pub open spec fn lists_key(t: Seq<(CellSummaryKey, DriverCellSummary)>, k: Seq<(Seq<char>, Seq<char>, u32, u32, u32)>) -> bool {
    exists|j: int| 0 <= j < t.len() && key_model(#[trigger] t[j].0) == k
}

/// The table holds, in key order, one summary for each key the facts carry.
pub open spec fn table_is(
    t: Seq<(CellSummaryKey, DriverCellSummary)>,
    ds: Seq<DriveFact>,
    rs: Seq<ReadFact>,
    cs: Seq<CreateFact>,
) -> bool {
    &&& keys_sorted(t)
    &&& forall|j: int|
        0 <= j < t.len() ==> summary_for_key(#[trigger] t[j].1, key_model(t[j].0), ds, rs, cs)
    &&& forall|k: Seq<(Seq<char>, Seq<char>, u32, u32, u32)>|
        #[trigger] first_origin(ds, rs, cs, k) is Some ==> lists_key(t, k)
}

/// The summaries of a design's facts: one for each expansion stack the
/// facts carry, in the order of the stacks, each built from the facts
/// carrying its stack.
pub open spec fn summaries_are(
    l: Seq<DriverCellSummary>,
    ds: Seq<DriveFact>,
    rs: Seq<ReadFact>,
    cs: Seq<CreateFact>,
) -> bool {
    &&& forall|i: int| 0 <= i < l.len() ==> (#[trigger] origin_key(l[i].origin)) is Some
    &&& forall|i: int, j: int|
        0 <= i < j < l.len() ==> stack_lt(
            origin_key(#[trigger] l[i].origin)->0,
            origin_key(#[trigger] l[j].origin)->0,
        )
    &&& forall|i: int|
        0 <= i < l.len() ==> summary_for_key(#[trigger] l[i], origin_key(l[i].origin)->0, ds, rs, cs)
    &&& forall|k: Seq<(Seq<char>, Seq<char>, u32, u32, u32)>|
        #[trigger] first_origin(ds, rs, cs, k) is Some ==> exists|i: int|
            0 <= i < l.len() && origin_key(#[trigger] l[i].origin) == Some(k)
}

proof fn lemma_drive_origin_key(ds: Seq<DriveFact>, k: Seq<(Seq<char>, Seq<char>, u32, u32, u32)>)
    ensures
        drive_origin(ds, k) matches Some(o) ==> origin_key(o) == Some(k),
    decreases ds.len(),
{
    if ds.len() > 0 {
        lemma_drive_origin_key(ds.drop_last(), k);
    }
}

proof fn lemma_read_origin_key(rs: Seq<ReadFact>, k: Seq<(Seq<char>, Seq<char>, u32, u32, u32)>)
    ensures
        read_origin(rs, k) matches Some(o) ==> origin_key(o) == Some(k),
    decreases rs.len(),
{
    if rs.len() > 0 {
        lemma_read_origin_key(rs.drop_last(), k);
    }
}

proof fn lemma_create_origin_key(cs: Seq<CreateFact>, k: Seq<(Seq<char>, Seq<char>, u32, u32, u32)>)
    ensures
        create_origin(cs, k) matches Some(o) ==> origin_key(o) == Some(k),
    decreases cs.len(),
{
    if cs.len() > 0 {
        lemma_create_origin_key(cs.drop_last(), k);
    }
}

/// The origin that first carries a key carries it.
pub proof fn lemma_first_origin_key(
    ds: Seq<DriveFact>,
    rs: Seq<ReadFact>,
    cs: Seq<CreateFact>,
    k: Seq<(Seq<char>, Seq<char>, u32, u32, u32)>,
)
    ensures
        first_origin(ds, rs, cs, k) matches Some(o) ==> origin_key(o) == Some(k),
{
    lemma_drive_origin_key(ds, k);
    lemma_read_origin_key(rs, k);
    lemma_create_origin_key(cs, k);
}

/// A list matching the first places has the same place as `p` exactly when
/// the first places do.
pub proof fn lemma_has_place_match(a: Seq<DriverPlace>, b: Seq<DriverPlace>, p: DriverPlace)
    requires
        places_match(a, b),
    ensures
        has_place(a, p) == has_place(b, p),
{
    if has_place(a, p) {
        let i = choose|i: int| 0 <= i < a.len() && same_place(#[trigger] a[i], p);
        assert(same_place(a[i], b[i]));
        lemma_same_place_symmetric(a[i], b[i]);
        lemma_same_place_transitive(b[i], a[i], p);
    }
    if has_place(b, p) {
        let i = choose|i: int| 0 <= i < b.len() && same_place(#[trigger] b[i], p);
        assert(same_place(a[i], b[i]));
        lemma_same_place_transitive(a[i], b[i], p);
    }
}


proof fn lemma_drive_push(ds: Seq<DriveFact>, d: DriveFact, k: Seq<(Seq<char>, Seq<char>, u32, u32, u32)>)
    ensures
        origin_key(d.origin) != Some(k) ==> drive_targets(ds.push(d), k) == drive_targets(ds, k)
            && drive_origin(ds.push(d), k) == drive_origin(ds, k),
        origin_key(d.origin) == Some(k) ==> drive_targets(ds.push(d), k) == drive_targets(ds, k).push(
            d.target,
        ) && drive_origin(ds.push(d), k) == (match drive_origin(ds, k) {
            Some(o) => Some(o),
            None => Some(d.origin),
        }),
{
    assert(ds.push(d).drop_last() =~= ds);
}

proof fn lemma_read_push(rs: Seq<ReadFact>, r: ReadFact, k: Seq<(Seq<char>, Seq<char>, u32, u32, u32)>)
    ensures
        origin_key(r.origin) != Some(k) ==> read_sources(rs.push(r), k) == read_sources(rs, k)
            && read_origin(rs.push(r), k) == read_origin(rs, k),
        origin_key(r.origin) == Some(k) ==> read_sources(rs.push(r), k) == read_sources(rs, k).push(
            r.source,
        ) && read_origin(rs.push(r), k) == (match read_origin(rs, k) {
            Some(o) => Some(o),
            None => Some(r.origin),
        }),
{
    assert(rs.push(r).drop_last() =~= rs);
}

proof fn lemma_create_push(cs: Seq<CreateFact>, c: CreateFact, k: Seq<(Seq<char>, Seq<char>, u32, u32, u32)>)
    ensures
        origin_key(c.origin) != Some(k) ==> create_names(cs.push(c), k) == create_names(cs, k)
            && create_origin(cs.push(c), k) == create_origin(cs, k),
        origin_key(c.origin) == Some(k) ==> create_names(cs.push(c), k) == create_names(cs, k).push(
            c.name@,
        ) && create_origin(cs.push(c), k) == (match create_origin(cs, k) {
            Some(o) => Some(o),
            None => Some(c.origin),
        }),
{
    assert(cs.push(c).drop_last() =~= cs);
}

proof fn lemma_no_drive_origin(ds: Seq<DriveFact>, k: Seq<(Seq<char>, Seq<char>, u32, u32, u32)>)
    requires
        drive_origin(ds, k) is None,
    ensures
        drive_targets(ds, k) == Seq::<DriverPlace>::empty(),
    decreases ds.len(),
{
    if ds.len() > 0 {
        lemma_no_drive_origin(ds.drop_last(), k);
    }
}

proof fn lemma_no_read_origin(rs: Seq<ReadFact>, k: Seq<(Seq<char>, Seq<char>, u32, u32, u32)>)
    requires
        read_origin(rs, k) is None,
    ensures
        read_sources(rs, k) == Seq::<DriverPlace>::empty(),
    decreases rs.len(),
{
    if rs.len() > 0 {
        lemma_no_read_origin(rs.drop_last(), k);
    }
}

proof fn lemma_no_create_origin(cs: Seq<CreateFact>, k: Seq<(Seq<char>, Seq<char>, u32, u32, u32)>)
    requires
        create_origin(cs, k) is None,
    ensures
        create_names(cs, k) == Seq::<Seq<char>>::empty(),
    decreases cs.len(),
{
    if cs.len() > 0 {
        lemma_no_create_origin(cs.drop_last(), k);
    }
}

pub proof fn lemma_has_place_same(ps: Seq<DriverPlace>, p: DriverPlace, q: DriverPlace)
    requires
        same_place(p, q),
        same_place(q, p),
    ensures
        has_place(ps, p) == has_place(ps, q),
{
    if has_place(ps, p) {
        let i = choose|i: int| 0 <= i < ps.len() && same_place(#[trigger] ps[i], p);
        lemma_same_place_transitive(ps[i], p, q);
    }
    if has_place(ps, q) {
        let i = choose|i: int| 0 <= i < ps.len() && same_place(#[trigger] ps[i], q);
        lemma_same_place_transitive(ps[i], q, p);
    }
}

/// Adding a copy of `p` to a list matching the first places keeps it
/// matching the first places of the list with `p` added.
pub proof fn lemma_add_place(stored: Seq<DriverPlace>, ps: Seq<DriverPlace>, p: DriverPlace, c: DriverPlace, after: Seq<DriverPlace>)
    requires
        places_match(stored, first_places(ps)),
        same_place(c, p),
        same_place(p, c),
        if has_place(stored, c) {
            after == stored
        } else {
            after == stored.push(c)
        },
    ensures
        places_match(after, first_places(ps.push(p))),
{
    assert(ps.push(p).drop_last() =~= ps);
    lemma_has_place_match(stored, first_places(ps), c);
    lemma_has_place_same(first_places(ps), c, p);
}


/// Adding a name to a list whose texts are the first names keeps them the
/// first names of the list with the name added.
proof fn lemma_add_name(stored: Seq<String>, ns: Seq<Seq<char>>, n: Seq<char>, after: Seq<String>)
    requires
        name_views(stored) == first_names(ns),
        if has_name(stored, n) {
            after == stored
        } else {
            after.len() == stored.len() + 1 && after.drop_last() == stored && after.last()@ == n
        },
    ensures
        name_views(after) == first_names(ns.push(n)),
{
    assert(ns.push(n).drop_last() =~= ns);
    let f = first_names(ns);
    if has_name(stored, n) {
        let i = choose|i: int| 0 <= i < stored.len() && (#[trigger] stored[i])@ == n;
        assert(f[i] == n);
        assert(f.contains(n));
    } else {
        if f.contains(n) {
            let i = choose|i: int| 0 <= i < f.len() && f[i] == n;
            assert(stored[i]@ == n);
        }
        assert(after =~= stored.push(after.last()));
        assert(name_views(after) =~= name_views(stored).push(n));
    }
}

/// Keys in a sorted table are distinct.
proof fn lemma_sorted_distinct(t: Seq<(CellSummaryKey, DriverCellSummary)>, i: int, j: int)
    requires
        keys_sorted(t),
        0 <= i < t.len(),
        0 <= j < t.len(),
        i != j,
    ensures
        key_model(t[i].0) != key_model(t[j].0),
{
    if i < j {
        assert(stack_lt(key_model(t[i].0), key_model(t[j].0)));
    } else {
        assert(stack_lt(key_model(t[j].0), key_model(t[i].0)));
    }
    lemma_stack_lt_irreflexive(key_model(t[i].0));
}


/// A table built for the facts gives their summaries, in key order.
pub proof fn lemma_table_summaries(
    t: Seq<(CellSummaryKey, DriverCellSummary)>,
    ds: Seq<DriveFact>,
    rs: Seq<ReadFact>,
    cs: Seq<CreateFact>,
)
    requires
        table_is(t, ds, rs, cs),
    ensures
        summaries_are(t.map_values(|e: (CellSummaryKey, DriverCellSummary)| e.1), ds, rs, cs),
{
    let l = t.map_values(|e: (CellSummaryKey, DriverCellSummary)| e.1);
    assert forall|i: int| 0 <= i < t.len() implies origin_key(#[trigger] l[i].origin) == Some(
        key_model(t[i].0),
    ) by {
        let k = key_model(t[i].0);
        assert(summary_for_key(t[i].1, k, ds, rs, cs));
        let o = first_origin(ds, rs, cs, k)->0;
        lemma_first_origin_key(ds, rs, cs, k);
        lemma_same_origin_key(t[i].1.origin, o);
    }
    assert forall|i: int, j: int| 0 <= i < j < l.len() implies stack_lt(
        origin_key(#[trigger] l[i].origin)->0,
        origin_key(#[trigger] l[j].origin)->0,
    ) by {
        assert(origin_key(l[i].origin) == Some(key_model(t[i].0)));
        assert(origin_key(l[j].origin) == Some(key_model(t[j].0)));
    }
    assert forall|i: int| 0 <= i < l.len() implies summary_for_key(
        #[trigger] l[i],
        origin_key(l[i].origin)->0,
        ds,
        rs,
        cs,
    ) by {
        assert(origin_key(l[i].origin) == Some(key_model(t[i].0)));
    }
    assert forall|k: Seq<(Seq<char>, Seq<char>, u32, u32, u32)>|
        #[trigger] first_origin(ds, rs, cs, k) is Some implies exists|i: int|
            0 <= i < l.len() && origin_key(#[trigger] l[i].origin) == Some(k) by {
        assert(lists_key(t, k));
        let j = choose|j: int| 0 <= j < t.len() && key_model(#[trigger] t[j].0) == k;
        assert(origin_key(l[j].origin) == Some(key_model(t[j].0)));
    }
    assert forall|i: int| 0 <= i < l.len() implies (#[trigger] origin_key(l[i].origin)) is Some by {
        assert(origin_key(l[i].origin) == Some(key_model(t[i].0)));
    }
}

// ---------------------------------------------------------------------------
// The collector
// ---------------------------------------------------------------------------

/// Builds the summaries of the cell instances the facts come from.
pub struct CellSummaryCollector<'a> {
    pub drives: &'a [DriveFact],
    pub reads: &'a [ReadFact],
    pub creates: &'a [CreateFact],
    pub summaries: Vec<(CellSummaryKey, DriverCellSummary)>,
}

impl<'a> CellSummaryCollector<'a> {
    /// A collector over the facts, with no summaries yet.
    pub fn new(drives: &'a [DriveFact], reads: &'a [ReadFact], creates: &'a [CreateFact]) -> (r: Self)
        ensures
            r.drives == drives,
            r.reads == reads,
            r.creates == creates,
            r.summaries@.len() == 0,
    {
        CellSummaryCollector { drives, reads, creates, summaries: Vec::new() }
    }

    /// The index of the summary for the origin's key, adding an empty
    /// summary for it in key order when there is none; none for an origin
    /// outside every expansion.
    pub fn summary_for_origin(&mut self, origin: &EirOrigin) -> (r: Option<usize>)
        requires
            keys_sorted(old(self).summaries@),
        ensures
            final(self).drives == old(self).drives,
            final(self).reads == old(self).reads,
            final(self).creates == old(self).creates,
            keys_sorted(final(self).summaries@),
            match origin_key(*origin) {
                None => r is None && final(self).summaries@ == old(self).summaries@,
                Some(k) => r matches Some(j) && 0 <= j < final(self).summaries@.len() && key_model(
                    final(self).summaries@[j as int].0,
                ) == k && if lists_key(old(self).summaries@, k) {
                    final(self).summaries@ == old(self).summaries@
                } else {
                    &&& final(self).summaries@.len() == old(self).summaries@.len() + 1
                    &&& forall|m: int|
                        0 <= m < j ==> #[trigger] final(self).summaries@[m] == old(self).summaries@[m]
                    &&& forall|m: int|
                        j < m < final(self).summaries@.len() ==> #[trigger] final(self).summaries@[m]
                            == old(self).summaries@[m - 1]
                    &&& summary_is(
                        final(self).summaries@[j as int].1,
                        *origin,
                        Seq::empty(),
                        Seq::empty(),
                        Seq::empty(),
                    )
                },
            },
    {
        let key = match CellSummaryKey::from_origin(origin) {
            Some(key) => key,
            None => {
                return None;
            },
        };
        let ghost k = key_model(key);
        let n = self.summaries.len();
        let mut i: usize = 0;
        while i < n && key_lt(&self.summaries[i].0, &key)
            invariant
                i <= n,
                n == self.summaries.len(),
                self.summaries == old(self).summaries,
                k == key_model(key),
                forall|m: int| 0 <= m < i ==> stack_lt(key_model(#[trigger] self.summaries@[m].0), k),
            decreases n - i,
        {
            i = i + 1;
        }
        if i < n && key_eq(&self.summaries[i].0, &key) {
            return Some(i);
        }
        proof {
            let t = self.summaries@;
            assert forall|m: int| 0 <= m < t.len() implies key_model(#[trigger] t[m].0) != k by {
                if m < i {
                    lemma_stack_lt_irreflexive(k);
                } else {
                    lemma_stack_lt_total(key_model(t[i as int].0), k);
                    if m > i {
                        assert(stack_lt(key_model(t[i as int].0), key_model(t[m].0)));
                        lemma_stack_lt_transitive(k, key_model(t[i as int].0), key_model(t[m].0));
                        lemma_stack_lt_irreflexive(k);
                    } else {
                        lemma_stack_lt_irreflexive(k);
                    }
                }
            }
            if i < n {
                lemma_stack_lt_total(key_model(t[i as int].0), k);
                assert(stack_lt(k, key_model(t[i as int].0)));
                assert forall|m: int| i < m < t.len() implies stack_lt(k, key_model(#[trigger] t[m].0)) by {
                    lemma_stack_lt_transitive(k, key_model(t[i as int].0), key_model(t[m].0));
                }
            }
        }
        let stack = origin.expansion_stack();
        let last = &stack[stack.len() - 1];
        let summary = DriverCellSummary::new(last.callable(), last.instance(), origin.copy());
        let ghost before = self.summaries@;
        self.summaries.insert(i, (key, summary));
        proof {
            let t = self.summaries@;
            assert(t[i as int].0 == key);
            assert forall|a: int, b: int| 0 <= a < b < t.len() implies stack_lt(
                key_model(#[trigger] t[a].0),
                key_model(#[trigger] t[b].0),
            ) by {
                if b < i {
                    assert(t[a] == before[a] && t[b] == before[b]);
                } else if a > i {
                    assert(t[a] == before[a - 1] && t[b] == before[b - 1]);
                } else if a == i {
                    assert(t[b] == before[b - 1]);
                } else if b == i {
                    assert(t[a] == before[a]);
                } else {
                    assert(t[a] == before[a] && t[b] == before[b - 1]);
                    lemma_stack_lt_transitive(key_model(t[a].0), k, key_model(t[b].0));
                }
            }
            assert forall|m: int| 0 <= m < i implies #[trigger] t[m] == before[m] by {}
            assert forall|m: int| i < m < t.len() implies #[trigger] t[m] == before[m - 1] by {}
            assert(summary_is(t[i as int].1, *origin, Seq::empty(), Seq::empty(), Seq::empty())) by {
                assert(places_match(t[i as int].1.drives@, Seq::empty()));
                assert(places_match(t[i as int].1.reads@, Seq::empty()));
                assert(name_views(t[i as int].1.creates@) =~= Seq::empty());
            }
        }
        Some(i)
    }

    /// Attributes each drive, then each read, then each created object to
    /// the summary of the instance it comes from.
    pub fn collect(self) -> (r: Self)
        requires
            self.summaries@.len() == 0,
        ensures
            r.drives == self.drives,
            r.reads == self.reads,
            r.creates == self.creates,
            table_is(r.summaries@, self.drives@, self.reads@, self.creates@),
    {
        let mut this = self;
        proof {
            assert forall|k: Seq<(Seq<char>, Seq<char>, u32, u32, u32)>|
                #[trigger] first_origin(Seq::empty(), Seq::empty(), Seq::empty(), k) is Some implies lists_key(
                this.summaries@,
                k,
            ) by {}
        }
        this.collect_drives();
        this.collect_reads();
        this.collect_creates();
        this
    }

    /// The summaries, in key order.
    pub fn finish(self) -> (r: Vec<DriverCellSummary>)
        ensures
            r@ == self.summaries@.map_values(|e: (CellSummaryKey, DriverCellSummary)| e.1),
    {
        let mut out: Vec<DriverCellSummary> = Vec::new();
        let mut summaries = self.summaries;
        let ghost all = summaries@;
        let mut rest: Vec<(CellSummaryKey, DriverCellSummary)> = Vec::new();
        while summaries.len() > 0
            invariant
                rest@.len() + summaries@.len() == all.len(),
                summaries@ == all.take(summaries@.len() as int),
                rest@ == all.skip(summaries@.len() as int).reverse(),
            decreases summaries.len(),
        {
            let e = summaries.pop().unwrap();
            rest.push(e);
            proof {
                assert(summaries@ =~= all.take(summaries@.len() as int));
                assert(rest@ =~= all.skip(summaries@.len() as int).reverse());
            }
        }
        while rest.len() > 0
            invariant
                rest@.len() <= all.len(),
                rest@ == all.skip(all.len() - rest@.len()).reverse(),
                out@ == all.take(all.len() - rest@.len()).map_values(
                    |e: (CellSummaryKey, DriverCellSummary)| e.1,
                ),
            decreases rest.len(),
        {
            let ghost n = rest@.len();
            let e = rest.pop().unwrap();
            proof {
                assert(e == all[all.len() - n]);
            }
            out.push(e.1);
            proof {
                assert(rest@ =~= all.skip(all.len() - rest@.len()).reverse());
                assert(out@ =~= all.take(all.len() - rest@.len()).map_values(
                    |e: (CellSummaryKey, DriverCellSummary)| e.1,
                ));
            }
        }
        proof {
            assert(all.take(all.len() as int) =~= all);
        }
        out
    }

    fn collect_drives(&mut self)
        requires
            table_is(old(self).summaries@, Seq::empty(), Seq::empty(), Seq::empty()),
        ensures
            final(self).drives == old(self).drives,
            final(self).reads == old(self).reads,
            final(self).creates == old(self).creates,
            table_is(final(self).summaries@, old(self).drives@, Seq::empty(), Seq::empty()),
    {
        let drives = self.drives;
        let mut i: usize = 0;
        proof {
            assert(drives@.take(0) =~= Seq::<DriveFact>::empty());
        }
        while i < drives.len()
            invariant
                i <= drives.len(),
                drives == self.drives,
                self.drives == old(self).drives,
                self.reads == old(self).reads,
                self.creates == old(self).creates,
                table_is(self.summaries@, drives@.take(i as int), Seq::empty(), Seq::empty()),
            decreases drives.len() - i,
        {
            let ghost ds = drives@.take(i as int);
            let ghost d = drives@[i as int];
            let ghost t0 = self.summaries@;
            let ghost es = Seq::<ReadFact>::empty();
            let ghost ec = Seq::<CreateFact>::empty();
            proof {
                assert(drives@.take(i + 1) =~= ds.push(d));
            }
            match self.summary_for_origin(drives[i].origin()) {
                None => {
                    proof {
                        assert forall|m: int| 0 <= m < t0.len() implies summary_for_key(
                            #[trigger] t0[m].1,
                            key_model(t0[m].0),
                            ds.push(d),
                            es,
                            ec,
                        ) by {
                            lemma_drive_push(ds, d, key_model(t0[m].0));
                            assert(summary_for_key(t0[m].1, key_model(t0[m].0), ds, es, ec));
                        }
                        assert forall|k: Seq<(Seq<char>, Seq<char>, u32, u32, u32)>|
                            #[trigger] first_origin(ds.push(d), es, ec, k) is Some implies lists_key(t0, k) by {
                            lemma_drive_push(ds, d, k);
                            assert(first_origin(ds, es, ec, k) is Some);
                        }
                    }
                },
                Some(j) => {
                    let ghost t1 = self.summaries@;
                    let ghost k0 = origin_key(d.origin)->0;
                    let ghost found = lists_key(t0, k0);
                    let (key, mut summary) = self.summaries.remove(j);
                    let ghost s0 = summary;
                    let c = drives[i].target_place().copy();
                    let ghost cg = c;
                    summary.add_drive(c);
                    self.summaries.insert(j, (key, summary));
                    proof {
                        let t2 = self.summaries@;
                        let s1 = summary;
                        assert(t2 =~= t1.update(j as int, (key, s1)));
                        assert((key, s0) == t1[j as int]);
                        lemma_drive_push(ds, d, k0);
                        lemma_same_place_symmetric(cg, d.target);
                        if found {
                            assert(t1 == t0);
                            assert(summary_for_key(s0, k0, ds, es, ec));
                            lemma_add_place(s0.drives@, drive_targets(ds, k0), d.target, cg, s1.drives@);
                            assert(summary_for_key(s1, k0, ds.push(d), es, ec));
                            assert forall|m: int| 0 <= m < t2.len() implies summary_for_key(
                                #[trigger] t2[m].1,
                                key_model(t2[m].0),
                                ds.push(d),
                                es,
                                ec,
                            ) by {
                                if m != j {
                                    lemma_sorted_distinct(t0, m, j as int);
                                    lemma_drive_push(ds, d, key_model(t0[m].0));
                                    assert(summary_for_key(t0[m].1, key_model(t0[m].0), ds, es, ec));
                                }
                            }
                            assert forall|k: Seq<(Seq<char>, Seq<char>, u32, u32, u32)>|
                                #[trigger] first_origin(ds.push(d), es, ec, k) is Some implies lists_key(t2, k) by {
                                lemma_drive_push(ds, d, k);
                                if k == k0 {
                                    assert(key_model(t2[j as int].0) == k);
                                } else {
                                    assert(first_origin(ds, es, ec, k) is Some);
                                    let m = choose|m: int| 0 <= m < t0.len() && key_model(#[trigger] t0[m].0) == k;
                                    assert(key_model(t2[m].0) == k);
                                }
                            }
                        } else {
                            if first_origin(ds, es, ec, k0) is Some {
                                assert(lists_key(t0, k0));
                            }
                            lemma_no_drive_origin(ds, k0);
                            assert(first_places(Seq::<DriverPlace>::empty()) =~= Seq::<DriverPlace>::empty());
                            lemma_add_place(s0.drives@, Seq::empty(), d.target, cg, s1.drives@);
                            assert(Seq::<DriverPlace>::empty().push(d.target) =~= drive_targets(ds, k0).push(d.target));
                            assert(summary_for_key(s1, k0, ds.push(d), es, ec));
                            assert forall|m: int| 0 <= m < t2.len() implies summary_for_key(
                                #[trigger] t2[m].1,
                                key_model(t2[m].0),
                                ds.push(d),
                                es,
                                ec,
                            ) by {
                                if m < j {
                                    assert(t2[m] == t0[m]);
                                    lemma_drive_push(ds, d, key_model(t0[m].0));
                                    assert(summary_for_key(t0[m].1, key_model(t0[m].0), ds, es, ec));
                                } else if m > j {
                                    assert(t2[m] == t0[m - 1]);
                                    lemma_drive_push(ds, d, key_model(t0[m - 1].0));
                                    assert(summary_for_key(t0[m - 1].1, key_model(t0[m - 1].0), ds, es, ec));
                                }
                            }
                            assert forall|k: Seq<(Seq<char>, Seq<char>, u32, u32, u32)>|
                                #[trigger] first_origin(ds.push(d), es, ec, k) is Some implies lists_key(t2, k) by {
                                lemma_drive_push(ds, d, k);
                                if k == k0 {
                                    assert(key_model(t2[j as int].0) == k);
                                } else {
                                    assert(first_origin(ds, es, ec, k) is Some);
                                    let m = choose|m: int| 0 <= m < t0.len() && key_model(#[trigger] t0[m].0) == k;
                                    if m < j {
                                        assert(t2[m] == t0[m]);
                                    } else {
                                        assert(t2[m + 1] == t0[m]);
                                    }
                                }
                            }
                        }
                        assert(keys_sorted(t2)) by {
                            assert forall|a: int, b: int| 0 <= a < b < t2.len() implies stack_lt(
                                key_model(#[trigger] t2[a].0),
                                key_model(#[trigger] t2[b].0),
                            ) by {
                                assert(t2[a].0 == t1[a].0 && t2[b].0 == t1[b].0);
                            }
                        }
                    }
                },
            }
            i = i + 1;
        }
        proof {
            assert(drives@.take(drives@.len() as int) =~= drives@);
        }
    }

    fn collect_reads(&mut self)
        requires
            table_is(old(self).summaries@, old(self).drives@, Seq::empty(), Seq::empty()),
        ensures
            final(self).drives == old(self).drives,
            final(self).reads == old(self).reads,
            final(self).creates == old(self).creates,
            table_is(final(self).summaries@, old(self).drives@, old(self).reads@, Seq::empty()),
    {
        let reads = self.reads;
        let ghost ds = self.drives@;
        let mut i: usize = 0;
        proof {
            assert(reads@.take(0) =~= Seq::<ReadFact>::empty());
        }
        while i < reads.len()
            invariant
                i <= reads.len(),
                reads == self.reads,
                ds == self.drives@,
                self.drives == old(self).drives,
                self.reads == old(self).reads,
                self.creates == old(self).creates,
                table_is(self.summaries@, ds, reads@.take(i as int), Seq::empty()),
            decreases reads.len() - i,
        {
            let ghost es = reads@.take(i as int);
            let ghost d = reads@[i as int];
            let ghost t0 = self.summaries@;
            let ghost ec = Seq::<CreateFact>::empty();
            proof {
                assert(reads@.take(i + 1) =~= es.push(d));
            }
            match self.summary_for_origin(reads[i].origin()) {
                None => {
                    proof {
                        assert forall|m: int| 0 <= m < t0.len() implies summary_for_key(
                            #[trigger] t0[m].1,
                            key_model(t0[m].0),
                            ds,
                            es.push(d),
                            ec,
                        ) by {
                            lemma_read_push(es, d, key_model(t0[m].0));
                            assert(summary_for_key(t0[m].1, key_model(t0[m].0), ds, es, ec));
                        }
                        assert forall|k: Seq<(Seq<char>, Seq<char>, u32, u32, u32)>|
                            #[trigger] first_origin(ds, es.push(d), ec, k) is Some implies lists_key(t0, k) by {
                            lemma_read_push(es, d, k);
                            assert(first_origin(ds, es, ec, k) is Some);
                        }
                    }
                },
                Some(j) => {
                    let ghost t1 = self.summaries@;
                    let ghost k0 = origin_key(d.origin)->0;
                    let ghost found = lists_key(t0, k0);
                    let (key, mut summary) = self.summaries.remove(j);
                    let ghost s0 = summary;
                    let c = reads[i].source_place().copy();
                    let ghost cg = c;
                    summary.add_read(c);
                    self.summaries.insert(j, (key, summary));
                    proof {
                        let t2 = self.summaries@;
                        let s1 = summary;
                        assert(t2 =~= t1.update(j as int, (key, s1)));
                        assert((key, s0) == t1[j as int]);
                        lemma_read_push(es, d, k0);
                        lemma_same_place_symmetric(cg, d.source);
                        if found {
                            assert(t1 == t0);
                            assert(summary_for_key(s0, k0, ds, es, ec));
                            lemma_add_place(s0.reads@, read_sources(es, k0), d.source, cg, s1.reads@);
                            assert(summary_for_key(s1, k0, ds, es.push(d), ec));
                            assert forall|m: int| 0 <= m < t2.len() implies summary_for_key(
                                #[trigger] t2[m].1,
                                key_model(t2[m].0),
                                ds,
                                es.push(d),
                                ec,
                            ) by {
                                if m != j {
                                    lemma_sorted_distinct(t0, m, j as int);
                                    lemma_read_push(es, d, key_model(t0[m].0));
                                    assert(summary_for_key(t0[m].1, key_model(t0[m].0), ds, es, ec));
                                }
                            }
                            assert forall|k: Seq<(Seq<char>, Seq<char>, u32, u32, u32)>|
                                #[trigger] first_origin(ds, es.push(d), ec, k) is Some implies lists_key(t2, k) by {
                                lemma_read_push(es, d, k);
                                if k == k0 {
                                    assert(key_model(t2[j as int].0) == k);
                                } else {
                                    assert(first_origin(ds, es, ec, k) is Some);
                                    let m = choose|m: int| 0 <= m < t0.len() && key_model(#[trigger] t0[m].0) == k;
                                    assert(key_model(t2[m].0) == k);
                                }
                            }
                        } else {
                            if first_origin(ds, es, ec, k0) is Some {
                                assert(lists_key(t0, k0));
                            }
                            lemma_no_drive_origin(ds, k0);
                            lemma_no_read_origin(es, k0);
                            assert(first_places(Seq::<DriverPlace>::empty()) =~= Seq::<DriverPlace>::empty());
                            lemma_add_place(s0.reads@, Seq::empty(), d.source, cg, s1.reads@);
                            assert(Seq::<DriverPlace>::empty().push(d.source) =~= read_sources(es, k0).push(d.source));
                            assert(summary_for_key(s1, k0, ds, es.push(d), ec));
                            assert forall|m: int| 0 <= m < t2.len() implies summary_for_key(
                                #[trigger] t2[m].1,
                                key_model(t2[m].0),
                                ds,
                                es.push(d),
                                ec,
                            ) by {
                                if m < j {
                                    assert(t2[m] == t0[m]);
                                    lemma_read_push(es, d, key_model(t0[m].0));
                                    assert(summary_for_key(t0[m].1, key_model(t0[m].0), ds, es, ec));
                                } else if m > j {
                                    assert(t2[m] == t0[m - 1]);
                                    lemma_read_push(es, d, key_model(t0[m - 1].0));
                                    assert(summary_for_key(t0[m - 1].1, key_model(t0[m - 1].0), ds, es, ec));
                                }
                            }
                            assert forall|k: Seq<(Seq<char>, Seq<char>, u32, u32, u32)>|
                                #[trigger] first_origin(ds, es.push(d), ec, k) is Some implies lists_key(t2, k) by {
                                lemma_read_push(es, d, k);
                                if k == k0 {
                                    assert(key_model(t2[j as int].0) == k);
                                } else {
                                    assert(first_origin(ds, es, ec, k) is Some);
                                    let m = choose|m: int| 0 <= m < t0.len() && key_model(#[trigger] t0[m].0) == k;
                                    if m < j {
                                        assert(t2[m] == t0[m]);
                                    } else {
                                        assert(t2[m + 1] == t0[m]);
                                    }
                                }
                            }
                        }
                        assert(keys_sorted(t2)) by {
                            assert forall|a: int, b: int| 0 <= a < b < t2.len() implies stack_lt(
                                key_model(#[trigger] t2[a].0),
                                key_model(#[trigger] t2[b].0),
                            ) by {
                                assert(t2[a].0 == t1[a].0 && t2[b].0 == t1[b].0);
                            }
                        }
                    }
                },
            }
            i = i + 1;
        }
        proof {
            assert(reads@.take(reads@.len() as int) =~= reads@);
        }
    }

    fn collect_creates(&mut self)
        requires
            table_is(old(self).summaries@, old(self).drives@, old(self).reads@, Seq::empty()),
        ensures
            final(self).drives == old(self).drives,
            final(self).reads == old(self).reads,
            final(self).creates == old(self).creates,
            table_is(final(self).summaries@, old(self).drives@, old(self).reads@, old(self).creates@),
    {
        let creates = self.creates;
        let ghost ds = self.drives@;
        let ghost es = self.reads@;
        let mut i: usize = 0;
        proof {
            assert(creates@.take(0) =~= Seq::<CreateFact>::empty());
        }
        while i < creates.len()
            invariant
                i <= creates.len(),
                creates == self.creates,
                ds == self.drives@,
                es == self.reads@,
                self.drives == old(self).drives,
                self.reads == old(self).reads,
                self.creates == old(self).creates,
                table_is(self.summaries@, ds, es, creates@.take(i as int)),
            decreases creates.len() - i,
        {
            let ghost ec = creates@.take(i as int);
            let ghost d = creates@[i as int];
            let ghost t0 = self.summaries@;
            proof {
                assert(creates@.take(i + 1) =~= ec.push(d));
            }
            match self.summary_for_origin(creates[i].origin()) {
                None => {
                    proof {
                        assert forall|m: int| 0 <= m < t0.len() implies summary_for_key(
                            #[trigger] t0[m].1,
                            key_model(t0[m].0),
                            ds,
                            es,
                            ec.push(d),
                        ) by {
                            lemma_create_push(ec, d, key_model(t0[m].0));
                            assert(summary_for_key(t0[m].1, key_model(t0[m].0), ds, es, ec));
                        }
                        assert forall|k: Seq<(Seq<char>, Seq<char>, u32, u32, u32)>|
                            #[trigger] first_origin(ds, es, ec.push(d), k) is Some implies lists_key(t0, k) by {
                            lemma_create_push(ec, d, k);
                            assert(first_origin(ds, es, ec, k) is Some);
                        }
                    }
                },
                Some(j) => {
                    let ghost t1 = self.summaries@;
                    let ghost k0 = origin_key(d.origin)->0;
                    let ghost found = lists_key(t0, k0);
                    let (key, mut summary) = self.summaries.remove(j);
                    let ghost s0 = summary;
                    summary.add_create(creates[i].name());
                    self.summaries.insert(j, (key, summary));
                    proof {
                        let t2 = self.summaries@;
                        let s1 = summary;
                        assert(t2 =~= t1.update(j as int, (key, s1)));
                        assert((key, s0) == t1[j as int]);
                        lemma_create_push(ec, d, k0);
                        if found {
                            assert(t1 == t0);
                            assert(summary_for_key(s0, k0, ds, es, ec));
                            lemma_add_name(s0.creates@, create_names(ec, k0), d.name@, s1.creates@);
                            assert(summary_for_key(s1, k0, ds, es, ec.push(d)));
                            assert forall|m: int| 0 <= m < t2.len() implies summary_for_key(
                                #[trigger] t2[m].1,
                                key_model(t2[m].0),
                                ds,
                                es,
                                ec.push(d),
                            ) by {
                                if m != j {
                                    lemma_sorted_distinct(t0, m, j as int);
                                    lemma_create_push(ec, d, key_model(t0[m].0));
                                    assert(summary_for_key(t0[m].1, key_model(t0[m].0), ds, es, ec));
                                }
                            }
                            assert forall|k: Seq<(Seq<char>, Seq<char>, u32, u32, u32)>|
                                #[trigger] first_origin(ds, es, ec.push(d), k) is Some implies lists_key(t2, k) by {
                                lemma_create_push(ec, d, k);
                                if k == k0 {
                                    assert(key_model(t2[j as int].0) == k);
                                } else {
                                    assert(first_origin(ds, es, ec, k) is Some);
                                    let m = choose|m: int| 0 <= m < t0.len() && key_model(#[trigger] t0[m].0) == k;
                                    assert(key_model(t2[m].0) == k);
                                }
                            }
                        } else {
                            if first_origin(ds, es, ec, k0) is Some {
                                assert(lists_key(t0, k0));
                            }
                            lemma_no_drive_origin(ds, k0);
                            lemma_no_read_origin(es, k0);
                            lemma_no_create_origin(ec, k0);
                            assert(first_names(Seq::<Seq<char>>::empty()) =~= Seq::<Seq<char>>::empty());
                            lemma_add_name(s0.creates@, Seq::empty(), d.name@, s1.creates@);
                            assert(Seq::<Seq<char>>::empty().push(d.name@) =~= create_names(ec, k0).push(d.name@));
                            assert(summary_for_key(s1, k0, ds, es, ec.push(d)));
                            assert forall|m: int| 0 <= m < t2.len() implies summary_for_key(
                                #[trigger] t2[m].1,
                                key_model(t2[m].0),
                                ds,
                                es,
                                ec.push(d),
                            ) by {
                                if m < j {
                                    assert(t2[m] == t0[m]);
                                    lemma_create_push(ec, d, key_model(t0[m].0));
                                    assert(summary_for_key(t0[m].1, key_model(t0[m].0), ds, es, ec));
                                } else if m > j {
                                    assert(t2[m] == t0[m - 1]);
                                    lemma_create_push(ec, d, key_model(t0[m - 1].0));
                                    assert(summary_for_key(t0[m - 1].1, key_model(t0[m - 1].0), ds, es, ec));
                                }
                            }
                            assert forall|k: Seq<(Seq<char>, Seq<char>, u32, u32, u32)>|
                                #[trigger] first_origin(ds, es, ec.push(d), k) is Some implies lists_key(t2, k) by {
                                lemma_create_push(ec, d, k);
                                if k == k0 {
                                    assert(key_model(t2[j as int].0) == k);
                                } else {
                                    assert(first_origin(ds, es, ec, k) is Some);
                                    let m = choose|m: int| 0 <= m < t0.len() && key_model(#[trigger] t0[m].0) == k;
                                    if m < j {
                                        assert(t2[m] == t0[m]);
                                    } else {
                                        assert(t2[m + 1] == t0[m]);
                                    }
                                }
                            }
                        }
                        assert(keys_sorted(t2)) by {
                            assert forall|a: int, b: int| 0 <= a < b < t2.len() implies stack_lt(
                                key_model(#[trigger] t2[a].0),
                                key_model(#[trigger] t2[b].0),
                            ) by {
                                assert(t2[a].0 == t1[a].0 && t2[b].0 == t1[b].0);
                            }
                        }
                    }
                },
            }
            i = i + 1;
        }
        proof {
            assert(creates@.take(creates@.len() as int) =~= creates@);
        }
    }
}

} // verus!
