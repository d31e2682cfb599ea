//! Summaries of source cells instantiated as opaque modules: one for each
//! place an instance of such a module is written, holding the places the
//! drives and reads written at that place touch.
use crate::collect::DriverFactsCollector;
use crate::eir::{EirInstance, EirItem, EirModule};
use crate::facts::{DriveFact, EirExpansion, EirOrigin, ReadFact, same_expansion, same_origin};
use crate::place::{DriverPlace, lemma_same_place_symmetric};
use crate::summary::{
    CellSummaryFrameKey, DriverCellSummary, expansion_key, first_places, frame_model, frames_eq,
    frames_lt, frames_model, lemma_add_place, lemma_stack_lt_irreflexive, lemma_stack_lt_total,
    lemma_stack_lt_transitive, places_match, stack_lt,
};
use crate::text::str_eq;
use vstd::prelude::*;

verus! {

// ---------------------------------------------------------------------------
// What is known of opaque modules
// ---------------------------------------------------------------------------

/// The kind of an opaque item.
#[derive(Clone, Copy, Debug, PartialEq, Eq, Structural)]
pub enum OpaqueItemKind {
    /// A cell written in the source and compiled separately.
    SourceCell,
    /// Any other opaque item.
    Other,
}

/// What is known of an opaque module: its kind, the cell it stands for,
/// and the ports it drives and reads, each by its flattened field path.
#[derive(Debug)]
pub struct OpaqueItemSummary {
    pub kind: OpaqueItemKind,
    pub callable: String,
    pub driven_fields: Vec<String>,
    pub consumed_fields: Vec<String>,
}

/// What a summary says.
pub struct OpaqueModel {
    pub kind: OpaqueItemKind,
    pub callable: Seq<char>,
    pub driven: Seq<Seq<char>>,
    pub consumed: Seq<Seq<char>>,
}

/// The texts of a list of names.
pub open spec fn field_views(v: Seq<String>) -> Seq<Seq<char>> {
    v.map_values(|n: String| n@)
}

/// What a summary says.
pub open spec fn summary_model(s: OpaqueItemSummary) -> OpaqueModel {
    OpaqueModel {
        kind: s.kind,
        callable: s.callable@,
        driven: field_views(s.driven_fields@),
        consumed: field_views(s.consumed_fields@),
    }
}

fn copy_fields(v: &Vec<String>) -> (r: Vec<String>)
    ensures
        field_views(r@) == field_views(v@),
{
    let mut out: Vec<String> = Vec::new();
    let mut i: usize = 0;
    while i < v.len()
        invariant
            i <= v.len(),
            out@.len() == i,
            forall|j: int| 0 <= j < i ==> (#[trigger] out@[j])@ == v@[j]@,
        decreases v.len() - i,
    {
        out.push(v[i].clone());
        i = i + 1;
    }
    assert(field_views(out@) =~= field_views(v@));
    out
}

impl OpaqueItemSummary {
    /// The summary of an opaque item of the given kind standing for
    /// `callable`, driving and reading the given fields.
    pub fn new(
        kind: OpaqueItemKind,
        callable: &str,
        driven_fields: Vec<String>,
        consumed_fields: Vec<String>,
    ) -> (r: Self)
        ensures
            r.kind == kind,
            r.callable@ == callable@,
            r.driven_fields == driven_fields,
            r.consumed_fields == consumed_fields,
    {
        OpaqueItemSummary { kind, callable: callable.to_owned(), driven_fields, consumed_fields }
    }

    /// The fields the item drives, flattened.
    pub fn driven_fields(&self) -> (r: &[String])
        ensures
            r@ == self.driven_fields@,
    {
        self.driven_fields.as_slice()
    }

    /// The fields the item reads, flattened.
    pub fn consumed_fields(&self) -> (r: &[String])
        ensures
            r@ == self.consumed_fields@,
    {
        self.consumed_fields.as_slice()
    }

    /// A copy of the summary.
    pub fn copy(&self) -> (r: Self)
        ensures
            summary_model(r) == summary_model(*self),
    {
        OpaqueItemSummary {
            kind: self.kind,
            callable: self.callable.clone(),
            driven_fields: copy_fields(&self.driven_fields),
            consumed_fields: copy_fields(&self.consumed_fields),
        }
    }

    /// The kind of the item.
    pub fn kind(&self) -> (r: OpaqueItemKind)
        ensures
            r == self.kind,
    {
        self.kind
    }

    /// The cell the item stands for.
    pub fn callable(&self) -> (r: &str)
        ensures
            r@ == self.callable@,
    {
        self.callable.as_str()
    }
}

/// The summaries of opaque modules, by module name.
pub struct OpaqueSummaryTable {
    entries: Vec<(String, OpaqueItemSummary)>,
}

/// What the table knows of each module: its kind and cell.
pub open spec fn opaque_view(entries: Seq<(String, OpaqueItemSummary)>) -> Map<Seq<char>, OpaqueModel> {
    Map::new(
        |m: Seq<char>| exists|i: int| 0 <= i < entries.len() && entries[i].0@ == m,
        |m: Seq<char>| {
            let i = choose|i: int| 0 <= i < entries.len() && entries[i].0@ == m;
            summary_model(entries[i].1)
        },
    )
}

/// No module is listed twice.
pub open spec fn distinct_modules(entries: Seq<(String, OpaqueItemSummary)>) -> bool {
    forall|i: int, j: int|
        0 <= i < j < entries.len() ==> (#[trigger] entries[i]).0@ != (#[trigger] entries[j]).0@
}

/// Listing `module` with `v` in a list without duplicates: in place of its
/// entry where it has one, else at the end.
proof fn lemma_list_module(
    before: Seq<(String, OpaqueItemSummary)>,
    after: Seq<(String, OpaqueItemSummary)>,
    module: Seq<char>,
    v: OpaqueModel,
    i: int,
)
    requires
        distinct_modules(before),
        0 <= i <= before.len(),
        i < before.len() ==> before[i].0@ == module,
        i == before.len() ==> forall|k: int| 0 <= k < before.len() ==> before[k].0@ != module,
        after.len() == if i < before.len() { before.len() } else { before.len() + 1 },
        after[i].0@ == module,
        summary_model(after[i].1) == v,
        forall|k: int| 0 <= k < before.len() && k != i ==> #[trigger] after[k] == before[k],
    ensures
        distinct_modules(after),
        opaque_view(after) == opaque_view(before).insert(module, v),
{
    assert forall|a: int, b: int| 0 <= a < b < after.len() implies (#[trigger] after[a]).0@ != (
    #[trigger] after[b]).0@ by {
        if a != i && b != i {
            assert(after[a] == before[a] && after[b] == before[b]);
        } else if a == i {
            assert(after[b] == before[b]);
        } else {
            assert(after[a] == before[a]);
        }
    }
    let nv = opaque_view(after);
    let ov = opaque_view(before).insert(module, v);
    assert forall|m: Seq<char>| #[trigger] nv.contains_key(m) == ov.contains_key(m) by {
        if m == module {
            assert(after[i].0@ == m);
        } else if opaque_view(before).contains_key(m) {
            let k = choose|k: int| 0 <= k < before.len() && before[k].0@ == m;
            assert(after[k] == before[k]);
        }
        if nv.contains_key(m) && m != module {
            let k = choose|k: int| 0 <= k < after.len() && after[k].0@ == m;
            assert(k != i);
            assert(after[k] == before[k]);
        }
    }
    assert forall|m: Seq<char>| #[trigger] nv.contains_key(m) implies nv[m] == ov[m] by {
        let k = choose|k: int| 0 <= k < after.len() && after[k].0@ == m;
        if m == module {
            assert(k == i);
        } else {
            assert(k != i);
            assert(after[k] == before[k]);
            let k2 = choose|k2: int| 0 <= k2 < before.len() && before[k2].0@ == m;
            assert(k2 == k);
        }
    }
    assert(nv =~= ov);
}

impl OpaqueSummaryTable {
    #[verifier::type_invariant]
    spec fn well_formed(self) -> bool {
        distinct_modules(self.entries@)
    }

    /// What the table knows of each module: its kind and the cell it stands
    /// for.
    pub closed spec fn view_map(self) -> Map<Seq<char>, OpaqueModel> {
        opaque_view(self.entries@)
    }

    /// An empty table.
    pub fn new() -> (r: Self)
        ensures
            r.view_map() == Map::<Seq<char>, OpaqueModel>::empty(),
    {
        let r = OpaqueSummaryTable { entries: Vec::new() };
        assert(r.view_map() =~= Map::<Seq<char>, OpaqueModel>::empty());
        r
    }

    fn position(&self, module: &str) -> (r: Option<usize>)
        ensures
            match r {
                Some(i) => i < self.entries@.len() && self.entries@[i as int].0@ == module@,
                None => forall|i: int| 0 <= i < self.entries@.len() ==> self.entries@[i].0@ != module@,
            },
    {
        let mut i: usize = 0;
        while i < self.entries.len()
            invariant
                i <= self.entries.len(),
                forall|j: int| 0 <= j < i ==> self.entries@[j].0@ != module@,
            decreases self.entries.len() - i,
        {
            if str_eq(self.entries[i].0.as_str(), module) {
                return Some(i);
            }
            i = i + 1;
        }
        None
    }

    /// Records the summary of a module, replacing an earlier one.
    pub fn insert(&mut self, module: &str, summary: OpaqueItemSummary)
        ensures
            final(self).view_map() == old(self).view_map().insert(
                module@,
                summary_model(summary),
            ),
    {
        proof {
            use_type_invariant(&*self);
        }
        let ghost v = summary_model(summary);
        let ghost before = self.entries@;
        let found = self.position(module);
        let mut entries: Vec<(String, OpaqueItemSummary)> = Vec::new();
        std::mem::swap(&mut entries, &mut self.entries);
        let ghost i: int;
        match found {
            Some(j) => {
                entries.set(j, (module.to_owned(), summary));
                proof {
                    i = j as int;
                }
            },
            None => {
                entries.push((module.to_owned(), summary));
                proof {
                    i = before.len() as int;
                }
            },
        }
        proof {
            lemma_list_module(before, entries@, module@, v, i);
        }
        self.entries = entries;
    }

    /// The summary of a module, if it has one.
    pub fn get(&self, module: &str) -> (r: Option<&OpaqueItemSummary>)
        ensures
            match r {
                Some(s) => self.view_map().contains_key(module@) && self.view_map()[module@]
                    == summary_model(*s),
                None => !self.view_map().contains_key(module@),
            },
    {
        proof {
            use_type_invariant(self);
        }
        match self.position(module) {
            Some(i) => {
                proof {
                    let k = choose|k: int| 0 <= k < self.entries@.len() && self.entries@[k].0@ == module@;
                    assert(k == i);
                }
                Some(&self.entries[i].1)
            },
            None => None,
        }
    }

    /// A copy of the table.
    pub fn copy(&self) -> (r: Self)
        ensures
            r.view_map() == self.view_map(),
    {
        proof {
            use_type_invariant(self);
        }
        let mut entries: Vec<(String, OpaqueItemSummary)> = Vec::new();
        let mut i: usize = 0;
        while i < self.entries.len()
            invariant
                i <= self.entries.len(),
                entries@.len() == i,
                forall|j: int|
                    0 <= j < i ==> (#[trigger] entries@[j]).0@ == self.entries@[j].0@ && summary_model(
                        entries@[j].1,
                    ) == summary_model(self.entries@[j].1),
            decreases self.entries.len() - i,
        {
            let e = &self.entries[i];
            entries.push(
                (e.0.clone(), e.1.copy()),
            );
            i = i + 1;
        }
        proof {
            let a = entries@;
            let b = self.entries@;
            assert forall|x: int, y: int| 0 <= x < y < a.len() implies (#[trigger] a[x]).0@ != (
            #[trigger] a[y]).0@ by {
                assert(b[x].0@ != b[y].0@);
            }
            assert forall|m: Seq<char>| #[trigger] opaque_view(a).contains_key(m) == opaque_view(b).contains_key(m) by {
                if opaque_view(a).contains_key(m) {
                    let k = choose|k: int| 0 <= k < a.len() && a[k].0@ == m;
                    assert(b[k].0@ == m);
                }
                if opaque_view(b).contains_key(m) {
                    let k = choose|k: int| 0 <= k < b.len() && b[k].0@ == m;
                    assert(a[k].0@ == m);
                }
            }
            assert forall|m: Seq<char>| #[trigger] opaque_view(a).contains_key(m) implies opaque_view(a)[m]
                == opaque_view(b)[m] by {
                let k = choose|k: int| 0 <= k < a.len() && a[k].0@ == m;
                let k2 = choose|k2: int| 0 <= k2 < b.len() && b[k2].0@ == m;
                if k < k2 {
                    assert(b[k].0@ != b[k2].0@);
                } else if k2 < k {
                    assert(b[k2].0@ != b[k].0@);
                }
            }
            assert(opaque_view(a) =~= opaque_view(b));
        }
        OpaqueSummaryTable { entries }
    }
}

// ---------------------------------------------------------------------------
// Where an instance stands
// ---------------------------------------------------------------------------

/// One expansion level of a site: cell, instance and where it was expanded.
pub type FrameModel = (Seq<char>, Seq<char>, u32, u32, u32);

/// A site: source, start, end and the expansions it sits in.
pub type SiteModel = (u32, u32, u32, Seq<FrameModel>);

/// The site of an origin.
pub open spec fn site_key(o: EirOrigin) -> SiteModel {
    (o.span.source, o.span.start, o.span.end, o.expansion_stack@.map_values(|e: EirExpansion| expansion_key(e)))
}

/// Sites compare by source, start, end, then expansion stack.
pub open spec fn site_lt(a: SiteModel, b: SiteModel) -> bool {
    if a.0 != b.0 {
        a.0 < b.0
    } else if a.1 != b.1 {
        a.1 < b.1
    } else if a.2 != b.2 {
        a.2 < b.2
    } else {
        stack_lt(a.3, b.3)
    }
}

/// No site is before itself.
pub proof fn lemma_site_lt_irreflexive(a: SiteModel)
    ensures
        !site_lt(a, a),
{
    lemma_stack_lt_irreflexive(a.3);
}

/// The order of sites is transitive.
pub proof fn lemma_site_lt_transitive(a: SiteModel, b: SiteModel, c: SiteModel)
    requires
        site_lt(a, b),
        site_lt(b, c),
    ensures
        site_lt(a, c),
{
    if a.0 == b.0 && b.0 == c.0 && a.1 == b.1 && b.1 == c.1 && a.2 == b.2 && b.2 == c.2 {
        lemma_stack_lt_transitive(a.3, b.3, c.3);
    }
}

/// Any two sites are equal or one is before the other.
pub proof fn lemma_site_lt_total(a: SiteModel, b: SiteModel)
    ensures
        a == b || site_lt(a, b) || site_lt(b, a),
{
    lemma_stack_lt_total(a.3, b.3);
}

/// Origins at the same place under the same expansions have the same site.
pub proof fn lemma_same_origin_site(a: EirOrigin, b: EirOrigin)
    requires
        same_origin(a, b),
    ensures
        site_key(a) == site_key(b),
{
    assert forall|i: int| 0 <= i < a.expansion_stack@.len() implies expansion_key(
        #[trigger] a.expansion_stack@[i],
    ) == expansion_key(b.expansion_stack@[i]) by {
        assert(same_expansion(a.expansion_stack@[i], b.expansion_stack@[i]));
    }
    assert(a.expansion_stack@.map_values(|e: EirExpansion| expansion_key(e))
        =~= b.expansion_stack@.map_values(|e: EirExpansion| expansion_key(e)));
}

/// One expansion level of a site key: cell, instance and where it was
/// expanded.
pub type DriverSummaryExpansionKey = CellSummaryFrameKey;

/// The key of a site.
pub struct DriverSummaryOriginKey {
    pub source: u32,
    pub start: u32,
    pub end: u32,
    pub expansion_stack: Vec<DriverSummaryExpansionKey>,
}

/// What a site key holds.
pub open spec fn site_model(k: DriverSummaryOriginKey) -> SiteModel {
    (k.source, k.start, k.end, frames_model(k.expansion_stack@))
}

impl DriverSummaryOriginKey {
    /// The key of an origin's site.
    pub fn from_origin(origin: &EirOrigin) -> (r: Self)
        ensures
            site_model(r) == site_key(*origin),
    {
        let span = origin.span();
        let stack = origin.expansion_stack();
        let mut out: Vec<DriverSummaryExpansionKey> = Vec::new();
        let mut i: usize = 0;
        while i < stack.len()
            invariant
                i <= stack.len(),
                stack@ == origin.expansion_stack@,
                out@.len() == i,
                forall|j: int| 0 <= j < i ==> frame_model(#[trigger] out@[j]) == expansion_key(stack@[j]),
            decreases stack.len() - i,
        {
            out.push(DriverSummaryExpansionKey::from_expansion(&stack[i]));
            i = i + 1;
        }
        let r = DriverSummaryOriginKey {
            source: span.source,
            start: span.start,
            end: span.end,
            expansion_stack: out,
        };
        proof {
            assert(frames_model(r.expansion_stack@) =~= stack@.map_values(
                |e: EirExpansion| expansion_key(e),
            ));
        }
        r
    }
}

fn site_key_lt(a: &DriverSummaryOriginKey, b: &DriverSummaryOriginKey) -> (r: bool)
    ensures
        r == site_lt(site_model(*a), site_model(*b)),
{
    if a.source != b.source {
        return a.source < b.source;
    }
    if a.start != b.start {
        return a.start < b.start;
    }
    if a.end != b.end {
        return a.end < b.end;
    }
    frames_lt(a.expansion_stack.as_slice(), b.expansion_stack.as_slice())
}

fn site_key_eq(a: &DriverSummaryOriginKey, b: &DriverSummaryOriginKey) -> (r: bool)
    ensures
        r == (site_model(*a) == site_model(*b)),
{
    a.source == b.source && a.start == b.start && a.end == b.end && frames_eq(
        a.expansion_stack.as_slice(),
        b.expansion_stack.as_slice(),
    )
}

// ---------------------------------------------------------------------------
// The instances of a design
// ---------------------------------------------------------------------------

/// The instances among the items, nested ones included, in the order they
/// are written: inside an expansion, both branches of a static choice and
/// the body of a static loop.
pub open spec fn items_instances(items: Seq<EirItem>) -> Seq<EirInstance>
    decreases items,
{
    if items.len() == 0 {
        Seq::empty()
    } else {
        let last = items[items.len() - 1];
        items_instances(items.subrange(0, items.len() - 1)) + match last {
            EirItem::CellExpansion(e) => items_instances(e.items@),
            EirItem::Instance(inst) => seq![inst],
            EirItem::SymbolicStaticIf { then_items, else_items, .. } => items_instances(then_items@)
                + items_instances(else_items@),
            EirItem::SymbolicStaticFor { items: body, .. } => items_instances(body@),
            _ => Seq::empty(),
        }
    }
}

/// The instances of the modules, module by module.
pub open spec fn modules_instances(ms: Seq<EirModule>) -> Seq<EirInstance>
    decreases ms.len(),
{
    if ms.len() == 0 {
        Seq::empty()
    } else {
        modules_instances(ms.drop_last()) + items_instances(ms.last().items@)
    }
}

// ---------------------------------------------------------------------------
// What the summaries of source cell instances are
// ---------------------------------------------------------------------------

/// The table lists the instance's module as a source cell.
pub open spec fn is_source_cell(om: Map<Seq<char>, OpaqueModel>, inst: EirInstance) -> bool {
    om.contains_key(inst.module@) && om[inst.module@].kind == OpaqueItemKind::SourceCell
}

/// The first instance of a source cell at the site.
pub open spec fn first_source(
    om: Map<Seq<char>, OpaqueModel>,
    ins: Seq<EirInstance>,
    k: SiteModel,
) -> Option<EirInstance>
    decreases ins.len(),
{
    if ins.len() == 0 {
        None
    } else {
        match first_source(om, ins.drop_last(), k) {
            Some(i) => Some(i),
            None => if is_source_cell(om, ins.last()) && site_key(ins.last().origin) == k {
                Some(ins.last())
            } else {
                None
            },
        }
    }
}

/// The targets of the drives written at the site, in order.
pub open spec fn site_targets(ds: Seq<DriveFact>, k: SiteModel) -> Seq<DriverPlace>
    decreases ds.len(),
{
    if ds.len() == 0 {
        Seq::empty()
    } else {
        let rest = site_targets(ds.drop_last(), k);
        if site_key(ds.last().origin) == k {
            rest.push(ds.last().target)
        } else {
            rest
        }
    }
}

/// The sources of the reads written at the site, in order.
pub open spec fn site_sources(rs: Seq<ReadFact>, k: SiteModel) -> Seq<DriverPlace>
    decreases rs.len(),
{
    if rs.len() == 0 {
        Seq::empty()
    } else {
        let rest = site_sources(rs.drop_last(), k);
        if site_key(rs.last().origin) == k {
            rest.push(rs.last().source)
        } else {
            rest
        }
    }
}

/// `s` summarises the source cell instance `inst`: the cell the table names
/// for its module, its name in the source, its origin, the given places and
/// no created object.
pub open spec fn instance_summary_is(
    s: DriverCellSummary,
    om: Map<Seq<char>, OpaqueModel>,
    inst: EirInstance,
    drives: Seq<DriverPlace>,
    reads: Seq<DriverPlace>,
) -> bool {
    &&& s.callable@ == om[inst.module@].callable
    &&& s.instance@ == inst.source_name@
    &&& same_origin(s.origin, inst.origin)
    &&& places_match(s.drives@, drives)
    &&& places_match(s.reads@, reads)
    &&& s.creates@.len() == 0
}

/// `s` summarises the first source cell instance at site `k`, with the
/// places driven and read there, each once.
pub open spec fn site_summary(
    s: DriverCellSummary,
    k: SiteModel,
    om: Map<Seq<char>, OpaqueModel>,
    ins: Seq<EirInstance>,
    ds: Seq<DriveFact>,
    rs: Seq<ReadFact>,
) -> bool {
    first_source(om, ins, k) matches Some(inst) && instance_summary_is(
        s,
        om,
        inst,
        first_places(site_targets(ds, k)),
        first_places(site_sources(rs, k)),
    )
}

/// The keys are in strictly increasing order of sites.
pub open spec fn sites_sorted(t: Seq<(DriverSummaryOriginKey, DriverCellSummary)>) -> bool {
    forall|i: int, j: int|
        0 <= i < j < t.len() ==> site_lt(site_model(#[trigger] t[i].0), site_model(#[trigger] t[j].0))
}

/// Some entry has the site.
pub open spec fn lists_site(t: Seq<(DriverSummaryOriginKey, DriverCellSummary)>, k: SiteModel) -> bool {
    exists|j: int| 0 <= j < t.len() && site_model(#[trigger] t[j].0) == k
}

/// The table holds, in site order, one summary for each site of a source
/// cell instance.
pub open spec fn site_table_is(
    t: Seq<(DriverSummaryOriginKey, DriverCellSummary)>,
    om: Map<Seq<char>, OpaqueModel>,
    ins: Seq<EirInstance>,
    ds: Seq<DriveFact>,
    rs: Seq<ReadFact>,
) -> bool {
    &&& sites_sorted(t)
    &&& forall|j: int| 0 <= j < t.len() ==> site_summary(#[trigger] t[j].1, site_model(t[j].0), om, ins, ds, rs)
    &&& forall|k: SiteModel| #[trigger] first_source(om, ins, k) is Some ==> lists_site(t, k)
}

/// The summaries of the source cell instances among `ins`: one for each
/// site where such an instance stands, in site order, each built from the
/// first instance there and the drives and reads written there.
pub open spec fn source_summaries_are(
    l: Seq<DriverCellSummary>,
    om: Map<Seq<char>, OpaqueModel>,
    ins: Seq<EirInstance>,
    ds: Seq<DriveFact>,
    rs: Seq<ReadFact>,
) -> bool {
    &&& forall|i: int, j: int|
        0 <= i < j < l.len() ==> site_lt(site_key((#[trigger] l[i]).origin), site_key((#[trigger] l[j]).origin))
    &&& forall|i: int| 0 <= i < l.len() ==> site_summary(#[trigger] l[i], site_key(l[i].origin), om, ins, ds, rs)
    &&& forall|k: SiteModel| #[trigger] first_source(om, ins, k) is Some ==> exists|i: int|
        0 <= i < l.len() && site_key((#[trigger] l[i]).origin) == k
}

proof fn lemma_first_source_push(
    om: Map<Seq<char>, OpaqueModel>,
    ins: Seq<EirInstance>,
    x: EirInstance,
    k: SiteModel,
)
    ensures
        first_source(om, ins.push(x), k) == match first_source(om, ins, k) {
            Some(i) => Some(i),
            None => if is_source_cell(om, x) && site_key(x.origin) == k {
                Some(x)
            } else {
                None
            },
        },
{
    assert(ins.push(x).drop_last() =~= ins);
}

proof fn lemma_first_source_site(om: Map<Seq<char>, OpaqueModel>, ins: Seq<EirInstance>, k: SiteModel)
    ensures
        first_source(om, ins, k) matches Some(i) ==> is_source_cell(om, i) && site_key(i.origin) == k,
    decreases ins.len(),
{
    if ins.len() > 0 {
        lemma_first_source_site(om, ins.drop_last(), k);
    }
}

proof fn lemma_site_sorted_distinct(t: Seq<(DriverSummaryOriginKey, DriverCellSummary)>, i: int, j: int)
    requires
        sites_sorted(t),
        0 <= i < t.len(),
        0 <= j < t.len(),
        i != j,
    ensures
        site_model(t[i].0) != site_model(t[j].0),
{
    if i < j {
        assert(site_lt(site_model(t[i].0), site_model(t[j].0)));
    } else {
        assert(site_lt(site_model(t[j].0), site_model(t[i].0)));
    }
    lemma_site_lt_irreflexive(site_model(t[i].0));
}

/// A table stays right when the instances change without changing the
/// first source cell instance at any site.
proof fn lemma_site_table_same(
    t: Seq<(DriverSummaryOriginKey, DriverCellSummary)>,
    om: Map<Seq<char>, OpaqueModel>,
    a: Seq<EirInstance>,
    b: Seq<EirInstance>,
    ds: Seq<DriveFact>,
    rs: Seq<ReadFact>,
)
    requires
        site_table_is(t, om, a, ds, rs),
        forall|k: SiteModel| #[trigger] first_source(om, b, k) == first_source(om, a, k),
    ensures
        site_table_is(t, om, b, ds, rs),
{
    assert forall|j: int| 0 <= j < t.len() implies site_summary(#[trigger] t[j].1, site_model(t[j].0), om, b, ds, rs) by {
        assert(first_source(om, b, site_model(t[j].0)) == first_source(om, a, site_model(t[j].0)));
    }
    assert forall|k: SiteModel| #[trigger] first_source(om, b, k) is Some implies lists_site(t, k) by {
        assert(first_source(om, b, k) == first_source(om, a, k));
    }
}

proof fn lemma_site_targets_push(ds: Seq<DriveFact>, d: DriveFact, k: SiteModel)
    ensures
        site_targets(ds.push(d), k) == if site_key(d.origin) == k {
            site_targets(ds, k).push(d.target)
        } else {
            site_targets(ds, k)
        },
{
    assert(ds.push(d).drop_last() =~= ds);
}

proof fn lemma_site_sources_push(rs: Seq<ReadFact>, r: ReadFact, k: SiteModel)
    ensures
        site_sources(rs.push(r), k) == if site_key(r.origin) == k {
            site_sources(rs, k).push(r.source)
        } else {
            site_sources(rs, k)
        },
{
    assert(rs.push(r).drop_last() =~= rs);
}

/// The summaries of a table built for the instances, in site order.
proof fn lemma_site_table_summaries(
    t: Seq<(DriverSummaryOriginKey, DriverCellSummary)>,
    om: Map<Seq<char>, OpaqueModel>,
    ins: Seq<EirInstance>,
    ds: Seq<DriveFact>,
    rs: Seq<ReadFact>,
)
    requires
        site_table_is(t, om, ins, ds, rs),
    ensures
        source_summaries_are(t.map_values(|e: (DriverSummaryOriginKey, DriverCellSummary)| e.1), om, ins, ds, rs),
{
    let l = t.map_values(|e: (DriverSummaryOriginKey, DriverCellSummary)| e.1);
    assert forall|i: int| 0 <= i < l.len() implies site_key((#[trigger] l[i]).origin) == site_model(t[i].0) by {
        let k = site_model(t[i].0);
        assert(site_summary(t[i].1, k, om, ins, ds, rs));
        lemma_first_source_site(om, ins, k);
        let inst = first_source(om, ins, k)->0;
        lemma_same_origin_site(t[i].1.origin, inst.origin);
    }
    assert forall|i: int, j: int| 0 <= i < j < l.len() implies site_lt(
        site_key((#[trigger] l[i]).origin),
        site_key((#[trigger] l[j]).origin),
    ) by {
        assert(site_key(l[i].origin) == site_model(t[i].0));
        assert(site_key(l[j].origin) == site_model(t[j].0));
    }
    assert forall|i: int| 0 <= i < l.len() implies site_summary(#[trigger] l[i], site_key(l[i].origin), om, ins, ds, rs) by {
        assert(site_key(l[i].origin) == site_model(t[i].0));
        assert(site_summary(t[i].1, site_model(t[i].0), om, ins, ds, rs));
    }
    assert forall|k: SiteModel| #[trigger] first_source(om, ins, k) is Some implies exists|i: int|
        0 <= i < l.len() && site_key((#[trigger] l[i]).origin) == k by {
        assert(lists_site(t, k));
        let j = choose|j: int| 0 <= j < t.len() && site_model(#[trigger] t[j].0) == k;
        assert(site_key(l[j].origin) == site_model(t[j].0));
    }
}

fn summaries_in_order(v: Vec<(DriverSummaryOriginKey, DriverCellSummary)>) -> (r: Vec<DriverCellSummary>)
    ensures
        r@ == v@.map_values(|e: (DriverSummaryOriginKey, DriverCellSummary)| e.1),
{
    let ghost all = v@;
    let mut rest = v;
    let mut reversed: Vec<DriverCellSummary> = Vec::new();
    while rest.len() > 0
        invariant
            rest@.len() + reversed@.len() == all.len(),
            rest@ == all.take(rest@.len() as int),
            forall|m: int|
                0 <= m < reversed@.len() ==> #[trigger] reversed@[m] == all[all.len() - 1 - m].1,
        decreases rest.len(),
    {
        let e = rest.pop().unwrap();
        reversed.push(e.1);
        proof {
            assert(rest@ =~= all.take(rest@.len() as int));
        }
    }
    let mut out: Vec<DriverCellSummary> = Vec::new();
    while reversed.len() > 0
        invariant
            out@.len() + reversed@.len() == all.len(),
            forall|m: int| 0 <= m < reversed@.len() ==> #[trigger] reversed@[m] == all[all.len() - 1 - m].1,
            forall|m: int| 0 <= m < out@.len() ==> #[trigger] out@[m] == all[m].1,
        decreases reversed.len(),
    {
        let x = reversed.pop().unwrap();
        out.push(x);
    }
    proof {
        assert(out@ =~= all.map_values(|e: (DriverSummaryOriginKey, DriverCellSummary)| e.1));
    }
    out
}

// ---------------------------------------------------------------------------
// Gathering the summaries
// ---------------------------------------------------------------------------

impl<'a> DriverFactsCollector<'a> {
    /// Adds an empty summary for the instance, in site order, where its
    /// module is a source cell and no summary stands at its site yet.
    pub fn insert_source_instance_summary(
        &self,
        instance: &EirInstance,
        summaries: &mut Vec<(DriverSummaryOriginKey, DriverCellSummary)>,
        Ghost(prev): Ghost<Seq<EirInstance>>,
    )
        requires
            site_table_is(old(summaries)@, self.opaque_summaries.view_map(), prev, Seq::empty(), Seq::empty()),
        ensures
            site_table_is(
                final(summaries)@,
                self.opaque_summaries.view_map(),
                prev.push(*instance),
                Seq::empty(),
                Seq::empty(),
            ),
    {
        let ghost om = self.opaque_summaries.view_map();
        let ghost ins = prev.push(*instance);
        let ghost ed = Seq::<DriveFact>::empty();
        let ghost er = Seq::<ReadFact>::empty();
        let summary = match self.opaque_summaries.get(instance.module()) {
            Some(summary) => summary,
            None => {
                proof {
                    assert forall|k: SiteModel| #[trigger] first_source(om, ins, k) == first_source(om, prev, k) by {
                        lemma_first_source_push(om, prev, *instance, k);
                    }
                    lemma_site_table_same(summaries@, om, prev, ins, ed, er);
                }
                return;
            },
        };
        if summary.kind() != OpaqueItemKind::SourceCell {
            proof {
                assert forall|k: SiteModel| #[trigger] first_source(om, ins, k) == first_source(om, prev, k) by {
                    lemma_first_source_push(om, prev, *instance, k);
                }
                lemma_site_table_same(summaries@, om, prev, ins, ed, er);
            }
            return;
        }
        let key = DriverSummaryOriginKey::from_origin(instance.origin());
        let ghost k = site_model(key);
        let n = summaries.len();
        let mut i: usize = 0;
        while i < n && site_key_lt(&summaries[i].0, &key)
            invariant
                i <= n,
                n == summaries.len(),
                summaries@ == old(summaries)@,
                k == site_model(key),
                forall|m: int| 0 <= m < i ==> site_lt(site_model(#[trigger] summaries@[m].0), k),
            decreases n - i,
        {
            i = i + 1;
        }
        if i < n && site_key_eq(&summaries[i].0, &key) {
            proof {
                let t = summaries@;
                assert(lists_site(t, k)) by {
                    assert(site_model(t[i as int].0) == k);
                }
                assert(first_source(om, prev, k) is Some) by {
                    assert(site_summary(t[i as int].1, site_model(t[i as int].0), om, prev, ed, er));
                }
                assert forall|k2: SiteModel| #[trigger] first_source(om, ins, k2) == first_source(om, prev, k2) by {
                    lemma_first_source_push(om, prev, *instance, k2);
                }
                lemma_site_table_same(t, om, prev, ins, ed, er);
            }
            return;
        }
        proof {
            let t = summaries@;
            assert forall|m: int| 0 <= m < t.len() implies site_model(#[trigger] t[m].0) != k by {
                if m < i {
                    lemma_site_lt_irreflexive(k);
                } else {
                    lemma_site_lt_total(site_model(t[i as int].0), k);
                    if m > i {
                        assert(site_lt(site_model(t[i as int].0), site_model(t[m].0)));
                        lemma_site_lt_transitive(k, site_model(t[i as int].0), site_model(t[m].0));
                        lemma_site_lt_irreflexive(k);
                    } else {
                        lemma_site_lt_irreflexive(k);
                    }
                }
            }
            if i < n {
                lemma_site_lt_total(site_model(t[i as int].0), k);
                assert(site_lt(k, site_model(t[i as int].0)));
                assert forall|m: int| i < m < t.len() implies site_lt(k, site_model(#[trigger] t[m].0)) by {
                    lemma_site_lt_transitive(k, site_model(t[i as int].0), site_model(t[m].0));
                }
            }
            if first_source(om, prev, k) is Some {
                assert(lists_site(t, k));
            }
        }
        let entry = DriverCellSummary::new(summary.callable(), instance.source_name(), instance.origin().copy());
        let ghost before = summaries@;
        summaries.insert(i, (key, entry));
        proof {
            let t = summaries@;
            lemma_first_source_push(om, prev, *instance, k);
            assert(first_source(om, ins, k) == Some(*instance));
            assert(t[i as int].0 == key);
            assert forall|a: int, b: int| 0 <= a < b < t.len() implies site_lt(
                site_model(#[trigger] t[a].0),
                site_model(#[trigger] t[b].0),
            ) by {
                if b < i {
                    assert(t[a] == before[a] && t[b] == before[b]);
                } else if a > i {
                    assert(t[a] == before[a - 1] && t[b] == before[b - 1]);
                } else if a == i {
                    assert(t[b] == before[b - 1]);
                } else if b == i {
                    assert(t[a] == before[a]);
                } else {
                    assert(t[a] == before[a] && t[b] == before[b - 1]);
                    lemma_site_lt_transitive(site_model(t[a].0), k, site_model(t[b].0));
                }
            }
            assert forall|j: int| 0 <= j < t.len() implies site_summary(#[trigger] t[j].1, site_model(t[j].0), om, ins, ed, er) by {
                if j == i {
                    assert(first_places(Seq::<DriverPlace>::empty()) =~= Seq::<DriverPlace>::empty());
                    assert(places_match(t[j].1.drives@, Seq::empty()));
                    assert(places_match(t[j].1.reads@, Seq::empty()));
                } else {
                    let jj = if j < i { j } else { j - 1 };
                    assert(t[j] == before[jj]);
                    assert(site_summary(before[jj].1, site_model(before[jj].0), om, prev, ed, er));
                    lemma_first_source_push(om, prev, *instance, site_model(before[jj].0));
                }
            }
            assert forall|k2: SiteModel| #[trigger] first_source(om, ins, k2) is Some implies lists_site(t, k2) by {
                lemma_first_source_push(om, prev, *instance, k2);
                if k2 == k {
                    assert(site_model(t[i as int].0) == k2);
                } else {
                    assert(first_source(om, prev, k2) is Some);
                    let m = choose|m: int| 0 <= m < before.len() && site_model(#[trigger] before[m].0) == k2;
                    if m < i {
                        assert(t[m] == before[m]);
                    } else {
                        assert(t[m + 1] == before[m]);
                    }
                }
            }
        }
    }

    /// Adds the summaries of the source cell instances among the items, in
    /// the order they are written, nested ones included.
    pub fn collect_source_instance_summaries_from_items(
        &self,
        items: &[EirItem],
        summaries: &mut Vec<(DriverSummaryOriginKey, DriverCellSummary)>,
        Ghost(prev): Ghost<Seq<EirInstance>>,
    )
        requires
            site_table_is(old(summaries)@, self.opaque_summaries.view_map(), prev, Seq::empty(), Seq::empty()),
        ensures
            site_table_is(
                final(summaries)@,
                self.opaque_summaries.view_map(),
                prev + items_instances(items@),
                Seq::empty(),
                Seq::empty(),
            ),
        decreases items@,
    {
        let ghost om = self.opaque_summaries.view_map();
        let mut i: usize = 0;
        proof {
            assert(items@.subrange(0, 0) =~= Seq::<EirItem>::empty());
            assert(prev + items_instances(Seq::<EirItem>::empty()) =~= prev);
        }
        while i < items.len()
            invariant
                i <= items.len(),
                om == self.opaque_summaries.view_map(),
                site_table_is(
                    summaries@,
                    om,
                    prev + items_instances(items@.subrange(0, i as int)),
                    Seq::empty(),
                    Seq::empty(),
                ),
            decreases items.len() - i,
        {
            let ghost before = prev + items_instances(items@.subrange(0, i as int));
            let ghost here: Seq<EirInstance>;
            match &items[i] {
                EirItem::CellExpansion(expansion) => {
                    proof {
                        assert(decreases_to!(items@ => items@[i as int]));
                    }
                    self.collect_source_instance_summaries_from_items(expansion.items(), summaries, Ghost(before));
                    proof {
                        here = items_instances(expansion.items@);
                    }
                },
                EirItem::Instance(instance) => {
                    self.insert_source_instance_summary(instance, summaries, Ghost(before));
                    proof {
                        here = seq![*instance];
                        assert(before.push(*instance) =~= before + here);
                    }
                },
                EirItem::SymbolicStaticIf { then_items, else_items, .. } => {
                    proof {
                        assert(decreases_to!(items@ => items@[i as int]));
                    }
                    self.collect_source_instance_summaries_from_items(then_items.as_slice(), summaries, Ghost(before));
                    let ghost mid = before + items_instances(then_items@);
                    self.collect_source_instance_summaries_from_items(else_items.as_slice(), summaries, Ghost(mid));
                    proof {
                        here = items_instances(then_items@) + items_instances(else_items@);
                        assert(mid + items_instances(else_items@) =~= before + here);
                    }
                },
                EirItem::SymbolicStaticFor { items: body, .. } => {
                    proof {
                        assert(decreases_to!(items@ => items@[i as int]));
                    }
                    self.collect_source_instance_summaries_from_items(body.as_slice(), summaries, Ghost(before));
                    proof {
                        here = items_instances(body@);
                    }
                },
                _ => {
                    proof {
                        here = Seq::empty();
                        assert(before + here =~= before);
                    }
                },
            }
            proof {
                let s1 = items@.subrange(0, i + 1);
                assert(s1.subrange(0, s1.len() - 1) =~= items@.subrange(0, i as int));
                assert(s1[s1.len() - 1] == items@[i as int]);
                assert(items_instances(s1) == items_instances(items@.subrange(0, i as int)) + here);
                assert(prev + items_instances(s1) =~= before + here);
            }
            i = i + 1;
        }
        proof {
            assert(items@.subrange(0, items@.len() as int) =~= items@);
        }
    }

    /// The summaries of the source cell instances of the design: one for
    /// each site where an instance of a module the opaque table lists as a
    /// source cell stands, in site order, each holding the places the drives
    /// and reads written at that site touch.
    pub fn collect_source_instance_summaries(&self) -> (r: Vec<DriverCellSummary>)
        ensures
            source_summaries_are(
                r@,
                self.opaque_summaries.view_map(),
                modules_instances(self.eir.raw.modules@),
                self.drives@,
                self.reads@,
            ),
    {
        let ghost om = self.opaque_summaries.view_map();
        let ghost ed = Seq::<DriveFact>::empty();
        let ghost er = Seq::<ReadFact>::empty();
        let modules = self.eir.modules();
        let mut summaries: Vec<(DriverSummaryOriginKey, DriverCellSummary)> = Vec::new();
        let mut m: usize = 0;
        proof {
            assert(modules@.subrange(0, 0) =~= Seq::<EirModule>::empty());
        }
        while m < modules.len()
            invariant
                m <= modules.len(),
                modules@ == self.eir.raw.modules@,
                om == self.opaque_summaries.view_map(),
                ed == Seq::<DriveFact>::empty(),
                er == Seq::<ReadFact>::empty(),
                site_table_is(summaries@, om, modules_instances(modules@.subrange(0, m as int)), ed, er),
            decreases modules.len() - m,
        {
            let ghost before = modules_instances(modules@.subrange(0, m as int));
            self.collect_source_instance_summaries_from_items(modules[m].items(), &mut summaries, Ghost(before));
            proof {
                let s1 = modules@.subrange(0, m + 1);
                assert(s1.drop_last() =~= modules@.subrange(0, m as int));
            }
            m = m + 1;
        }
        let ghost ins = modules_instances(modules@);
        proof {
            assert(modules@.subrange(0, modules@.len() as int) =~= modules@);
        }
        let drives = self.drives.as_slice();
        let mut i: usize = 0;
        proof {
            assert(drives@.take(0) =~= ed);
        }
        while i < drives.len()
            invariant
                i <= drives.len(),
                drives@ == self.drives@,
                om == self.opaque_summaries.view_map(),
                er == Seq::<ReadFact>::empty(),
                ins == modules_instances(self.eir.raw.modules@),
                site_table_is(summaries@, om, ins, drives@.take(i as int), er),
            decreases drives.len() - i,
        {
            let ghost ds = drives@.take(i as int);
            let ghost d = drives@[i as int];
            let ghost k0 = site_key(d.origin);
            let ghost t0 = summaries@;
            proof {
                assert(drives@.take(i + 1) =~= ds.push(d));
            }
            let key = DriverSummaryOriginKey::from_origin(drives[i].origin());
            let n = summaries.len();
            let mut j: usize = 0;
            while j < n && !site_key_eq(&summaries[j].0, &key)
                invariant
                    j <= n,
                    n == summaries.len(),
                    summaries@ == t0,
                    site_model(key) == k0,
                    forall|x: int| 0 <= x < j ==> site_model(#[trigger] t0[x].0) != k0,
                decreases n - j,
            {
                j = j + 1;
            }
            if j < n {
                let (key_j, mut summary) = summaries.remove(j);
                let ghost s0 = summary;
                let c = drives[i].target_place().copy();
                let ghost cg = c;
                summary.add_drive(c);
                summaries.insert(j, (key_j, summary));
                proof {
                    let t2 = summaries@;
                    let s1 = summary;
                    assert(t2 =~= t0.update(j as int, (key_j, s1)));
                    assert((key_j, s0) == t0[j as int]);
                    lemma_site_targets_push(ds, d, k0);
                    lemma_same_place_symmetric(cg, d.target);
                    assert(site_summary(s0, k0, om, ins, ds, er));
                    lemma_add_place(s0.drives@, site_targets(ds, k0), d.target, cg, s1.drives@);
                    assert forall|x: int| 0 <= x < t2.len() implies site_summary(
                        #[trigger] t2[x].1,
                        site_model(t2[x].0),
                        om,
                        ins,
                        ds.push(d),
                        er,
                    ) by {
                        if x != j {
                            lemma_site_sorted_distinct(t0, x, j as int);
                            lemma_site_targets_push(ds, d, site_model(t0[x].0));
                            assert(site_summary(t0[x].1, site_model(t0[x].0), om, ins, ds, er));
                        }
                    }
                    assert forall|k: SiteModel| #[trigger] first_source(om, ins, k) is Some implies lists_site(t2, k) by {
                        assert(lists_site(t0, k));
                        let x = choose|x: int| 0 <= x < t0.len() && site_model(#[trigger] t0[x].0) == k;
                        assert(site_model(t2[x].0) == k);
                    }
                    assert(sites_sorted(t2)) by {
                        assert forall|a: int, b: int| 0 <= a < b < t2.len() implies site_lt(
                            site_model(#[trigger] t2[a].0),
                            site_model(#[trigger] t2[b].0),
                        ) by {
                            assert(t2[a].0 == t0[a].0 && t2[b].0 == t0[b].0);
                        }
                    }
                }
            } else {
                proof {
                    assert forall|x: int| 0 <= x < t0.len() implies site_summary(
                        #[trigger] t0[x].1,
                        site_model(t0[x].0),
                        om,
                        ins,
                        ds.push(d),
                        er,
                    ) by {
                        lemma_site_targets_push(ds, d, site_model(t0[x].0));
                        assert(site_summary(t0[x].1, site_model(t0[x].0), om, ins, ds, er));
                    }
                }
            }
            i = i + 1;
        }
        proof {
            assert(drives@.take(drives@.len() as int) =~= drives@);
        }
        let ghost ds = drives@;
        let reads = self.reads.as_slice();
        let mut i: usize = 0;
        proof {
            assert(reads@.take(0) =~= er);
        }
        while i < reads.len()
            invariant
                i <= reads.len(),
                reads@ == self.reads@,
                ds == self.drives@,
                om == self.opaque_summaries.view_map(),
                ins == modules_instances(self.eir.raw.modules@),
                site_table_is(summaries@, om, ins, ds, reads@.take(i as int)),
            decreases reads.len() - i,
        {
            let ghost rs = reads@.take(i as int);
            let ghost r = reads@[i as int];
            let ghost k0 = site_key(r.origin);
            let ghost t0 = summaries@;
            proof {
                assert(reads@.take(i + 1) =~= rs.push(r));
            }
            let key = DriverSummaryOriginKey::from_origin(reads[i].origin());
            let n = summaries.len();
            let mut j: usize = 0;
            while j < n && !site_key_eq(&summaries[j].0, &key)
                invariant
                    j <= n,
                    n == summaries.len(),
                    summaries@ == t0,
                    site_model(key) == k0,
                    forall|x: int| 0 <= x < j ==> site_model(#[trigger] t0[x].0) != k0,
                decreases n - j,
            {
                j = j + 1;
            }
            if j < n {
                let (key_j, mut summary) = summaries.remove(j);
                let ghost s0 = summary;
                let c = reads[i].source_place().copy();
                let ghost cg = c;
                summary.add_read(c);
                summaries.insert(j, (key_j, summary));
                proof {
                    let t2 = summaries@;
                    let s1 = summary;
                    assert(t2 =~= t0.update(j as int, (key_j, s1)));
                    assert((key_j, s0) == t0[j as int]);
                    lemma_site_sources_push(rs, r, k0);
                    lemma_same_place_symmetric(cg, r.source);
                    assert(site_summary(s0, k0, om, ins, ds, rs));
                    lemma_add_place(s0.reads@, site_sources(rs, k0), r.source, cg, s1.reads@);
                    assert forall|x: int| 0 <= x < t2.len() implies site_summary(
                        #[trigger] t2[x].1,
                        site_model(t2[x].0),
                        om,
                        ins,
                        ds,
                        rs.push(r),
                    ) by {
                        if x != j {
                            lemma_site_sorted_distinct(t0, x, j as int);
                            lemma_site_sources_push(rs, r, site_model(t0[x].0));
                            assert(site_summary(t0[x].1, site_model(t0[x].0), om, ins, ds, rs));
                        }
                    }
                    assert forall|k: SiteModel| #[trigger] first_source(om, ins, k) is Some implies lists_site(t2, k) by {
                        assert(lists_site(t0, k));
                        let x = choose|x: int| 0 <= x < t0.len() && site_model(#[trigger] t0[x].0) == k;
                        assert(site_model(t2[x].0) == k);
                    }
                    assert(sites_sorted(t2)) by {
                        assert forall|a: int, b: int| 0 <= a < b < t2.len() implies site_lt(
                            site_model(#[trigger] t2[a].0),
                            site_model(#[trigger] t2[b].0),
                        ) by {
                            assert(t2[a].0 == t0[a].0 && t2[b].0 == t0[b].0);
                        }
                    }
                }
            } else {
                proof {
                    assert forall|x: int| 0 <= x < t0.len() implies site_summary(
                        #[trigger] t0[x].1,
                        site_model(t0[x].0),
                        om,
                        ins,
                        ds,
                        rs.push(r),
                    ) by {
                        lemma_site_sources_push(rs, r, site_model(t0[x].0));
                        assert(site_summary(t0[x].1, site_model(t0[x].0), om, ins, ds, rs));
                    }
                }
            }
            i = i + 1;
        }
        proof {
            assert(reads@.take(reads@.len() as int) =~= reads@);
            lemma_site_table_summaries(summaries@, om, ins, ds, reads@);
        }
        summaries_in_order(summaries)
    }
}

} // verus!
