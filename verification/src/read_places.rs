//! The places an expression reads: every subexpression that names a place,
//! with the places read by the indexes of its projections, listed once each
//! in the order of their fact keys.
use crate::expr::{
    EirExpr, EirPlace, EirSelectArm, call2, call3, denotes_place, expr_is_place, fact_key,
    lemma_same_expr_fact_key,
};
use crate::text::{chars_eq, chars_lt, chars_of, lemma_lt_irreflexive, lemma_lt_total, lemma_lt_transitive, seq_lt, str_eq};
use vstd::prelude::*;

verus! {

// ---------------------------------------------------------------------------
// Roots
// ---------------------------------------------------------------------------

/// The name a place is rooted at.
pub open spec fn place_root_name(p: EirPlace) -> Seq<char>
    decreases p,
{
    match p {
        EirPlace::Ident(name) => name@,
        EirPlace::Slice { base, .. } => place_root_name(*base),
        EirPlace::IndexedPartSelect { base, .. } => place_root_name(*base),
        EirPlace::Index { base, .. } => place_root_name(*base),
    }
}

/// The name an expression that denotes a place is rooted at.
pub open spec fn expr_root_name(e: EirExpr) -> Seq<char>
    decreases e,
{
    match e {
        EirExpr::Ident(name) => name@,
        EirExpr::Slice { value, .. } => expr_root_name(*value),
        EirExpr::IndexedPartSelect { value, .. } => expr_root_name(*value),
        EirExpr::Index { value, .. } => expr_root_name(*value),
        _ => Seq::empty(),
    }
}

proof fn lemma_root_names(e: EirExpr, p: EirPlace)
    requires
        expr_is_place(e, p),
    ensures
        expr_root_name(e) == place_root_name(p),
    decreases p,
{
    match p {
        EirPlace::Ident(_) => {},
        EirPlace::Slice { base, .. } => {
            if let EirExpr::Slice { value, .. } = e {
                lemma_root_names(*value, *base);
            }
        },
        EirPlace::IndexedPartSelect { base, .. } => {
            if let EirExpr::IndexedPartSelect { value, .. } = e {
                lemma_root_names(*value, *base);
            }
        },
        EirPlace::Index { base, .. } => {
            if let EirExpr::Index { value, .. } = e {
                lemma_root_names(*value, *base);
            }
        },
    }
}

/// The root of a place.
pub struct EirPlaceRoot<'a> {
    pub place: &'a EirPlace,
}

impl<'a> EirPlaceRoot<'a> {
    /// The root of `place`.
    pub fn new(place: &'a EirPlace) -> (r: Self)
        ensures
            r.place == place,
    {
        EirPlaceRoot { place }
    }

    /// The name the place is rooted at.
    pub fn name(&self) -> (r: Option<&'a str>)
        ensures
            r matches Some(n) && n@ == place_root_name(*self.place),
    {
        let mut place = self.place;
        loop
            invariant
                place_root_name(*place) == place_root_name(*self.place),
            decreases place,
        {
            match place {
                EirPlace::Ident(name) => {
                    return Some(name.as_str());
                },
                EirPlace::Slice { base, .. } => {
                    place = base;
                },
                EirPlace::IndexedPartSelect { base, .. } => {
                    place = base;
                },
                EirPlace::Index { base, .. } => {
                    place = base;
                },
            }
        }
    }
}

/// Which places are read: all, or only those rooted at a known hardware
/// name.
#[derive(Clone, Copy, Debug, PartialEq, Eq, Structural)]
pub enum RootFilter {
    AllowUnknown,
    KnownOnly,
}

/// The texts of a list of names.
pub open spec fn name_views(v: Seq<String>) -> Seq<Seq<char>> {
    v.map_values(|s: String| s@)
}

impl RootFilter {
    /// The filter lets the place through: always, or where its root is one
    /// of the hardware names.
    pub fn allows(&self, place: &EirPlace, hardware_roots: &Vec<String>) -> (r: bool)
        ensures
            r == (*self == RootFilter::AllowUnknown || name_views(hardware_roots@).contains(
                place_root_name(*place),
            )),
    {
        match self {
            RootFilter::AllowUnknown => true,
            RootFilter::KnownOnly => {
                let root = match EirPlaceRoot::new(place).name() {
                    Some(n) => n,
                    None => {
                        return false;
                    },
                };
                let mut i: usize = 0;
                while i < hardware_roots.len()
                    invariant
                        i <= hardware_roots.len(),
                        root@ == place_root_name(*place),
                        forall|j: int| 0 <= j < i ==> name_views(hardware_roots@)[j] != root@,
                    decreases hardware_roots.len() - i,
                {
                    if str_eq(hardware_roots[i].as_str(), root) {
                        proof {
                            assert(name_views(hardware_roots@)[i as int] == root@);
                        }
                        return true;
                    }
                    i = i + 1;
                }
                false
            },
        }
    }
}

// ---------------------------------------------------------------------------
// The reads of an expression
// ---------------------------------------------------------------------------

/// The filter lets an expression that denotes a place through.
pub open spec fn filter_allows(known_only: bool, e: EirExpr, roots: Seq<Seq<char>>) -> bool {
    !known_only || roots.contains(expr_root_name(e))
}

/// The subexpressions of `e` that denote read places, in order: a place
/// the filter allows, followed by what the indexes of its projections read
/// of known hardware; or, for any other expression, what its operands read.
pub open spec fn read_exprs(e: EirExpr, known_only: bool, roots: Seq<Seq<char>>) -> Seq<EirExpr>
    decreases e, 1nat,
{
    if denotes_place(e) {
        if filter_allows(known_only, e, roots) {
            seq![e] + projection_reads(e, roots)
        } else {
            Seq::empty()
        }
    } else {
        match e {
            EirExpr::Unary { expr, .. } => read_exprs(*expr, known_only, roots),
            EirExpr::Binary { left, right, .. } => read_exprs(*left, known_only, roots) + read_exprs(
                *right,
                known_only,
                roots,
            ),
            EirExpr::Mux { cond, then_value, else_value } => read_exprs(*cond, known_only, roots)
                + read_exprs(*then_value, known_only, roots) + read_exprs(
                *else_value,
                known_only,
                roots,
            ),
            EirExpr::Select { arms, default, .. } => arms_reads(arms@, known_only, roots)
                + read_exprs(*default, known_only, roots),
            EirExpr::Concat(parts) => parts_reads(parts@, known_only, roots),
            EirExpr::Slice { value, .. } => read_exprs(*value, known_only, roots),
            EirExpr::IndexedPartSelect { value, index, .. } => read_exprs(*value, known_only, roots)
                + read_exprs(*index, known_only, roots),
            EirExpr::Index { value, index } => read_exprs(*value, known_only, roots) + read_exprs(
                *index,
                known_only,
                roots,
            ),
            EirExpr::Call { args, .. } => parts_reads(args@, known_only, roots),
            _ => Seq::empty(),
        }
    }
}

/// What the indexes of the projections of a place expression read of known
/// hardware, innermost first.
pub open spec fn projection_reads(e: EirExpr, roots: Seq<Seq<char>>) -> Seq<EirExpr>
    decreases e, 0nat,
{
    match e {
        EirExpr::Slice { value, .. } => projection_reads(*value, roots),
        EirExpr::IndexedPartSelect { value, index, .. } => projection_reads(*value, roots)
            + read_exprs(*index, true, roots),
        EirExpr::Index { value, index } => projection_reads(*value, roots) + read_exprs(
            *index,
            true,
            roots,
        ),
        _ => Seq::empty(),
    }
}

/// What a list of expressions reads, in order.
pub open spec fn parts_reads(parts: Seq<EirExpr>, known_only: bool, roots: Seq<Seq<char>>) -> Seq<
    EirExpr,
>
    decreases parts, 2nat,
{
    if parts.len() == 0 {
        Seq::empty()
    } else {
        parts_reads(parts.drop_last(), known_only, roots) + read_exprs(parts.last(), known_only, roots)
    }
}

/// What the guards and values of select arms read, in order.
pub open spec fn arms_reads(arms: Seq<EirSelectArm>, known_only: bool, roots: Seq<Seq<char>>) -> Seq<
    EirExpr,
>
    decreases arms, 2nat,
{
    if arms.len() == 0 {
        Seq::empty()
    } else {
        arms_reads(arms.drop_last(), known_only, roots) + read_exprs(
            arms.last().guard,
            known_only,
            roots,
        ) + read_exprs(arms.last().value, known_only, roots)
    }
}

/// Each place of `places` from `start` on is the one the corresponding
/// expression denotes.
pub open spec fn places_match(places: Seq<EirPlace>, start: int, es: Seq<EirExpr>) -> bool {
    &&& places.len() == start + es.len()
    &&& forall|i: int| 0 <= i < es.len() ==> expr_is_place(#[trigger] es[i], places[start + i])
}

/// Collects the places an expression reads.
pub struct EirReadPlaceCollector<'a> {
    pub places: Vec<EirPlace>,
    pub hardware_roots: &'a Vec<String>,
}

impl<'a> EirReadPlaceCollector<'a> {
    /// A collector with no places yet, knowing the hardware names.
    pub fn new(hardware_roots: &'a Vec<String>) -> (r: Self)
        ensures
            r.places@.len() == 0,
            r.hardware_roots == hardware_roots,
    {
        EirReadPlaceCollector { places: Vec::new(), hardware_roots }
    }

    /// The places an expression reads, each once, in the order of their
    /// fact keys; of places with the same key, the first read is kept.
    pub fn collect(self, expr: &EirExpr) -> (r: Vec<EirPlace>)
        requires
            self.places@.len() == 0,
        ensures
            ({
                let es = read_exprs(*expr, false, name_views(self.hardware_roots@));
                &&& place_keys(r@) == sorted_keys(keys_of(es))
                &&& kept_first(r@, es)
            }),
            r@.len() == read_place_exprs(*expr, name_views(self.hardware_roots@)).len(),
            forall|a: int|
                0 <= a < r@.len() ==> expr_is_place(
                    #[trigger] read_place_exprs(*expr, name_views(self.hardware_roots@))[a],
                    r@[a],
                ),
    {
        let ghost roots = name_views(self.hardware_roots@);
        let mut this = self;
        this.collect_expr(expr);
        let ghost es = read_exprs(*expr, false, name_views(this.hardware_roots@));
        let ghost ks = keys_of(es);
        let mut places = this.places;
        let ghost orig = places@;
        let mut out: Vec<EirPlace> = Vec::new();
        let mut out_keys: Vec<Vec<char>> = Vec::new();
        let mut i: usize = 0;
        let n = places.len();
        proof {
            assert(orig.skip(0) =~= orig);
            assert(ks.take(0) =~= Seq::<Seq<char>>::empty());
        }
        while i < n
            invariant
                n == orig.len(),
                i <= n,
                places_match(orig, 0, es),
                ks == keys_of(es),
                places@ == orig.skip(i as int),
                out.len() == out_keys.len(),
                keys_sorted(key_views(out_keys@)),
                forall|a: int| 0 <= a < out.len() ==> #[trigger] key_views(out_keys@)[a] == place_key(out@[a]),
                forall|x: Seq<char>| key_views(out_keys@).contains(x) == ks.take(i as int).contains(x),
                forall|a: int|
                    0 <= a < out.len() ==> exists|j: int|
                        #![trigger es[j]]
                        0 <= j < i && first_with_key(ks, ks[j]) == j && fact_key(es[j]) == place_key(
                            #[trigger] out@[a],
                        ) && expr_is_place(es[j], out@[a]),
            decreases n - i,
        {
            let place = places.remove(0);
            proof {
                assert(place == orig[i as int]);
                assert(places@ =~= orig.skip(i + 1));
                assert(expr_is_place(es[i as int], place));
                lemma_place_key(es[i as int], place);
            }
            let key_string = place.to_expr().fact_key();
            let key = chars_of(key_string.as_str());
            proof {
                lemma_place_key_of_expr(place);
                assert(key@ == ks[i as int]);
            }
            let ghost before = out@;
            let ghost kv = key_views(out_keys@);
            let ghost t0 = ks.take(i as int);
            let ghost t1 = ks.take(i + 1);
            let inserted = insert_keyed(&mut out, &mut out_keys, place, key);
            proof {
                assert(t1 =~= t0.push(ks[i as int]));
                assert forall|x: Seq<char>| key_views(out_keys@).contains(x) == t1.contains(x) by {
                    if t1.contains(x) {
                        let m = choose|m: int| 0 <= m < t1.len() && t1[m] == x;
                        if m < i {
                            assert(t0[m] == x);
                        }
                    }
                    if t0.contains(x) {
                        let m = choose|m: int| 0 <= m < t0.len() && t0[m] == x;
                        assert(t1[m] == x);
                    }
                    if x == ks[i as int] {
                        assert(t1[i as int] == x);
                    }
                }
                if inserted {
                    assert(!t0.contains(ks[i as int]));
                    assert forall|j: int| 0 <= j < i implies ks[j] != ks[i as int] by {
                        assert(t0[j] == ks[j]);
                    }
                    lemma_first_with_key(ks, i as int);
                }
                assert forall|a: int| 0 <= a < out.len() implies exists|j: int|
                    #![trigger es[j]]
                    0 <= j < i + 1 && first_with_key(ks, ks[j]) == j && fact_key(es[j]) == place_key(
                        #[trigger] out@[a],
                    ) && expr_is_place(es[j], out@[a]) by {
                    if out@[a] == orig[i as int] && inserted {
                        assert(es[i as int] == es[i as int]);
                    } else {
                        let b = choose|b: int| 0 <= b < before.len() && before[b] == out@[a];
                        assert(place_key(before[b]) == place_key(out@[a]));
                    }
                }
            }
            i = i + 1;
        }
        proof {
            assert(ks.take(n as int) =~= ks);
            lemma_sorted_keys(ks, key_views(out_keys@));
            assert(place_keys(out@) =~= key_views(out_keys@));
            assert(es.len() == n);
            assert forall|a: int| 0 <= a < out@.len() implies #[trigger] read_first(out@[a], es) by {
                let j = choose|j: int|
                    #![trigger es[j]]
                    0 <= j < i && first_with_key(ks, ks[j]) == j && fact_key(es[j]) == place_key(
                        out@[a],
                    ) && expr_is_place(es[j], out@[a]);
                assert(0 <= j < es.len());
            }
            assert(kept_first(out@, es));
            lemma_collected_places(out@, *expr, roots);
        }
        out
    }

    /// Collects the places an expression reads, of any root.
    pub fn collect_expr(&mut self, expr: &EirExpr)
        ensures
            final(self).hardware_roots == old(self).hardware_roots,
            final(self).places@.subrange(0, old(self).places@.len() as int) == old(self).places@,
            places_match(
                final(self).places@,
                old(self).places@.len() as int,
                read_exprs(*expr, false, name_views(old(self).hardware_roots@)),
            ),
        decreases *expr, 2nat,
    {
        self.collect_expr_with_root_filter(expr, RootFilter::AllowUnknown);
    }

    /// Collects the places an expression reads that are rooted at known
    /// hardware.
    pub fn collect_known_root_expr(&mut self, expr: &EirExpr)
        ensures
            final(self).hardware_roots == old(self).hardware_roots,
            final(self).places@.subrange(0, old(self).places@.len() as int) == old(self).places@,
            places_match(
                final(self).places@,
                old(self).places@.len() as int,
                read_exprs(*expr, true, name_views(old(self).hardware_roots@)),
            ),
        decreases *expr, 2nat,
    {
        self.collect_expr_with_root_filter(expr, RootFilter::KnownOnly);
    }

    /// Collects the places an expression reads that the filter allows.
    pub fn collect_expr_with_root_filter(&mut self, expr: &EirExpr, root_filter: RootFilter)
        ensures
            final(self).hardware_roots == old(self).hardware_roots,
            final(self).places@.subrange(0, old(self).places@.len() as int) == old(self).places@,
            places_match(
                final(self).places@,
                old(self).places@.len() as int,
                read_exprs(
                    *expr,
                    root_filter == RootFilter::KnownOnly,
                    name_views(old(self).hardware_roots@),
                ),
            ),
        decreases *expr, 1nat,
    {
        let ghost roots = name_views(self.hardware_roots@);
        let ghost known = root_filter == RootFilter::KnownOnly;
        let ghost start = self.places@;
        match EirPlace::try_from_expr(expr) {
            Ok(place) => {
                proof {
                    lemma_root_names(*expr, place);
                }
                if root_filter.allows(&place, self.hardware_roots) {
                    self.places.push(place);
                    let ghost mid = self.places@;
                    self.collect_projection_indices(expr);
                    proof {
                        let reads = projection_reads(*expr, roots);
                        assert(self.places@.subrange(0, mid.len() as int) == mid);
                        assert(self.places@[start.len() as int] == mid[start.len() as int]);
                        let all = seq![*expr] + reads;
                        assert forall|k: int| 0 <= k < all.len() implies expr_is_place(
                            #[trigger] all[k],
                            self.places@[start.len() + k],
                        ) by {
                            if k > 0 {
                                assert(all[k] == reads[k - 1]);
                            }
                        }
                        assert(self.places@.subrange(0, start.len() as int) =~= start) by {
                            assert(self.places@.subrange(0, start.len() as int) =~= mid.subrange(
                                0,
                                start.len() as int,
                            ));
                        }
                    }
                } else {
                    proof {
                        assert(self.places@.subrange(0, start.len() as int) =~= start);
                    }
                }
                return;
            },
            Err(_) => {},
        }
        match expr {
            EirExpr::Unary { expr: inner, .. } => {
                self.collect_expr_with_root_filter(inner, root_filter);
            },
            EirExpr::Binary { left, right, .. } => {
                self.collect_expr_with_root_filter(left, root_filter);
                let ghost mid = self.places@;
                self.collect_expr_with_root_filter(right, root_filter);
                proof {
                    lemma_places_match_concat(
                        start,
                        mid,
                        self.places@,
                        read_exprs(**left, known, roots),
                        read_exprs(**right, known, roots),
                    );
                }
            },
            EirExpr::Mux { cond, then_value, else_value } => {
                self.collect_expr_with_root_filter(cond, root_filter);
                let ghost m1 = self.places@;
                self.collect_expr_with_root_filter(then_value, root_filter);
                let ghost m2 = self.places@;
                proof {
                    lemma_places_match_concat(
                        start,
                        m1,
                        m2,
                        read_exprs(**cond, known, roots),
                        read_exprs(**then_value, known, roots),
                    );
                }
                self.collect_expr_with_root_filter(else_value, root_filter);
                proof {
                    lemma_places_match_concat(
                        start,
                        m2,
                        self.places@,
                        read_exprs(**cond, known, roots) + read_exprs(**then_value, known, roots),
                        read_exprs(**else_value, known, roots),
                    );
                }
            },
            EirExpr::Select { arms, default, .. } => {
                self.collect_arms(arms, root_filter);
                let ghost mid = self.places@;
                self.collect_expr_with_root_filter(default, root_filter);
                proof {
                    lemma_places_match_concat(
                        start,
                        mid,
                        self.places@,
                        arms_reads(arms@, known, roots),
                        read_exprs(**default, known, roots),
                    );
                }
            },
            EirExpr::Concat(parts) => {
                self.collect_parts(parts, root_filter);
            },
            EirExpr::Slice { value, .. } => {
                self.collect_expr_with_root_filter(value, root_filter);
            },
            EirExpr::IndexedPartSelect { value, index, .. } => {
                self.collect_expr_with_root_filter(value, root_filter);
                let ghost mid = self.places@;
                self.collect_expr_with_root_filter(index, root_filter);
                proof {
                    lemma_places_match_concat(
                        start,
                        mid,
                        self.places@,
                        read_exprs(**value, known, roots),
                        read_exprs(**index, known, roots),
                    );
                }
            },
            EirExpr::Index { value, index } => {
                self.collect_expr_with_root_filter(value, root_filter);
                let ghost mid = self.places@;
                self.collect_expr_with_root_filter(index, root_filter);
                proof {
                    lemma_places_match_concat(
                        start,
                        mid,
                        self.places@,
                        read_exprs(**value, known, roots),
                        read_exprs(**index, known, roots),
                    );
                }
            },
            EirExpr::Call { args, .. } => {
                self.collect_parts(args, root_filter);
            },
            _ => {
                proof {
                    assert(self.places@.subrange(0, start.len() as int) =~= start);
                }
            },
        }
    }

    fn collect_parts(&mut self, parts: &Vec<EirExpr>, root_filter: RootFilter)
        ensures
            final(self).hardware_roots == old(self).hardware_roots,
            final(self).places@.subrange(0, old(self).places@.len() as int) == old(self).places@,
            places_match(
                final(self).places@,
                old(self).places@.len() as int,
                parts_reads(
                    parts@,
                    root_filter == RootFilter::KnownOnly,
                    name_views(old(self).hardware_roots@),
                ),
            ),
        decreases parts, 0nat,
    {
        let ghost roots = name_views(self.hardware_roots@);
        let ghost known = root_filter == RootFilter::KnownOnly;
        let ghost start = self.places@;
        let mut i: usize = 0;
        proof {
            assert(parts@.take(0) =~= Seq::<EirExpr>::empty());
            assert(self.places@.subrange(0, start.len() as int) =~= start);
        }
        while i < parts.len()
            invariant
                i <= parts.len(),
                self.hardware_roots == old(self).hardware_roots,
                roots == name_views(self.hardware_roots@),
                known == (root_filter == RootFilter::KnownOnly),
                start == old(self).places@,
                self.places@.subrange(0, start.len() as int) == start,
                places_match(self.places@, start.len() as int, parts_reads(parts@.take(i as int), known, roots)),
            decreases parts.len() - i,
        {
            proof {
                assert(parts@.take(i + 1).drop_last() =~= parts@.take(i as int));
                assert(parts@.take(i + 1).last() == parts@[i as int]);
            }
            let ghost mid = self.places@;
            assert(decreases_to!(parts => parts@[i as int]));
            self.collect_expr_with_root_filter(&parts[i], root_filter);
            proof {
                lemma_places_match_concat(
                    start,
                    mid,
                    self.places@,
                    parts_reads(parts@.take(i as int), known, roots),
                    read_exprs(parts@[i as int], known, roots),
                );
            }
            i = i + 1;
        }
        proof {
            assert(parts@.take(parts.len() as int) =~= parts@);
        }
    }

    fn collect_arms(&mut self, arms: &Vec<EirSelectArm>, root_filter: RootFilter)
        ensures
            final(self).hardware_roots == old(self).hardware_roots,
            final(self).places@.subrange(0, old(self).places@.len() as int) == old(self).places@,
            places_match(
                final(self).places@,
                old(self).places@.len() as int,
                arms_reads(
                    arms@,
                    root_filter == RootFilter::KnownOnly,
                    name_views(old(self).hardware_roots@),
                ),
            ),
        decreases arms, 0nat,
    {
        let ghost roots = name_views(self.hardware_roots@);
        let ghost known = root_filter == RootFilter::KnownOnly;
        let ghost start = self.places@;
        let mut i: usize = 0;
        proof {
            assert(arms@.take(0) =~= Seq::<EirSelectArm>::empty());
            assert(self.places@.subrange(0, start.len() as int) =~= start);
        }
        while i < arms.len()
            invariant
                i <= arms.len(),
                self.hardware_roots == old(self).hardware_roots,
                roots == name_views(self.hardware_roots@),
                known == (root_filter == RootFilter::KnownOnly),
                start == old(self).places@,
                self.places@.subrange(0, start.len() as int) == start,
                places_match(self.places@, start.len() as int, arms_reads(arms@.take(i as int), known, roots)),
            decreases arms.len() - i,
        {
            proof {
                assert(arms@.take(i + 1).drop_last() =~= arms@.take(i as int));
                assert(arms@.take(i + 1).last() == arms@[i as int]);
            }
            let ghost m0 = self.places@;
            assert(decreases_to!(arms => arms@[i as int].guard));
            assert(decreases_to!(arms => arms@[i as int].value));
            self.collect_expr_with_root_filter(&arms[i].guard, root_filter);
            let ghost m1 = self.places@;
            proof {
                lemma_places_match_concat(
                    start,
                    m0,
                    m1,
                    arms_reads(arms@.take(i as int), known, roots),
                    read_exprs(arms@[i as int].guard, known, roots),
                );
            }
            self.collect_expr_with_root_filter(&arms[i].value, root_filter);
            proof {
                lemma_places_match_concat(
                    start,
                    m1,
                    self.places@,
                    arms_reads(arms@.take(i as int), known, roots) + read_exprs(
                        arms@[i as int].guard,
                        known,
                        roots,
                    ),
                    read_exprs(arms@[i as int].value, known, roots),
                );
            }
            i = i + 1;
        }
        proof {
            assert(arms@.take(arms.len() as int) =~= arms@);
        }
    }

    /// Collects what the indexes of the projections of a place expression
    /// read of known hardware.
    pub fn collect_projection_indices(&mut self, expr: &EirExpr)
        ensures
            final(self).hardware_roots == old(self).hardware_roots,
            final(self).places@.subrange(0, old(self).places@.len() as int) == old(self).places@,
            places_match(
                final(self).places@,
                old(self).places@.len() as int,
                projection_reads(*expr, name_views(old(self).hardware_roots@)),
            ),
        decreases *expr, 0nat,
    {
        let ghost roots = name_views(self.hardware_roots@);
        let ghost start = self.places@;
        match expr {
            EirExpr::Slice { value, .. } => {
                self.collect_projection_indices(value);
            },
            EirExpr::IndexedPartSelect { value, index, .. } => {
                self.collect_projection_indices(value);
                let ghost mid = self.places@;
                self.collect_known_root_expr(index);
                proof {
                    lemma_places_match_concat(
                        start,
                        mid,
                        self.places@,
                        projection_reads(**value, roots),
                        read_exprs(**index, true, roots),
                    );
                }
            },
            EirExpr::Index { value, index } => {
                self.collect_projection_indices(value);
                let ghost mid = self.places@;
                self.collect_known_root_expr(index);
                proof {
                    lemma_places_match_concat(
                        start,
                        mid,
                        self.places@,
                        projection_reads(**value, roots),
                        read_exprs(**index, true, roots),
                    );
                }
            },
            _ => {
                proof {
                    assert(self.places@.subrange(0, start.len() as int) =~= start);
                }
            },
        }
    }
}

/// Inserts a place at the position of its key among sorted keys, unless a
/// place with that key is there already; says whether it inserted.
fn insert_keyed(
    out: &mut Vec<EirPlace>,
    out_keys: &mut Vec<Vec<char>>,
    place: EirPlace,
    key: Vec<char>,
) -> (inserted: bool)
    requires
        old(out).len() == old(out_keys).len(),
        keys_sorted(key_views(old(out_keys)@)),
        forall|a: int|
            0 <= a < old(out).len() ==> #[trigger] key_views(old(out_keys)@)[a] == place_key(
                old(out)@[a],
            ),
        key@ == place_key(place),
    ensures
        final(out).len() == final(out_keys).len(),
        keys_sorted(key_views(final(out_keys)@)),
        forall|a: int|
            0 <= a < final(out).len() ==> #[trigger] key_views(final(out_keys)@)[a] == place_key(
                final(out)@[a],
            ),
        inserted == !key_views(old(out_keys)@).contains(key@),
        forall|x: Seq<char>|
            key_views(final(out_keys)@).contains(x) == (key_views(old(out_keys)@).contains(x) || x
                == key@),
        forall|a: int|
            0 <= a < final(out).len() ==> (inserted && #[trigger] final(out)@[a] == place)
                || old(out)@.contains(final(out)@[a]),
{
    let ghost kv = key_views(out_keys@);
    let ghost before = out@;
    let mut p: usize = 0;
    while p < out_keys.len() && chars_lt(&out_keys[p], &key)
        invariant
            p <= out_keys.len(),
            forall|a: int| 0 <= a < p ==> seq_lt(#[trigger] key_views(out_keys@)[a], key@),
        decreases out_keys.len() - p,
    {
        p = p + 1;
    }
    let found = p < out_keys.len() && chars_eq(&out_keys[p], &key);
    if found {
        proof {
            assert(kv[p as int] == key@);
            assert(kv.contains(key@));
            assert forall|x: Seq<char>| kv.contains(x) == (kv.contains(x) || x == key@) by {}
            assert forall|a: int| 0 <= a < out@.len() implies (false && #[trigger] out@[a] == place)
                || before.contains(out@[a]) by {
                assert(before[a] == out@[a]);
            }
        }
        return false;
    }
    proof {
        if p < kv.len() {
            lemma_lt_total(kv[p as int], key@);
        }
        assert(!kv.contains(key@)) by {
            if kv.contains(key@) {
                let m = choose|m: int| 0 <= m < kv.len() && kv[m] == key@;
                if m < p {
                    lemma_lt_irreflexive(key@);
                } else if m > p {
                    assert(seq_lt(kv[p as int], kv[m]));
                    lemma_lt_transitive(key@, kv[p as int], kv[m]);
                    lemma_lt_irreflexive(key@);
                }
            }
        }
    }
    let ghost placed = place;
    out.insert(p, place);
    out_keys.insert(p, key);
    proof {
        let kv2 = key_views(out_keys@);
        assert(kv2 =~= kv.insert(p as int, key@));
        assert forall|a: int, b: int| 0 <= a < b < kv2.len() implies seq_lt(
            #[trigger] kv2[a],
            #[trigger] kv2[b],
        ) by {
            if b < p {
                assert(kv2[a] == kv[a] && kv2[b] == kv[b]);
            } else if b == p {
                assert(kv2[a] == kv[a]);
            } else if a < p {
                assert(kv2[a] == kv[a] && kv2[b] == kv[b - 1]);
                if b - 1 > p {
                    assert(seq_lt(kv[p as int], kv[b - 1]));
                    lemma_lt_transitive(key@, kv[p as int], kv[b - 1]);
                }
                lemma_lt_transitive(kv[a], key@, kv[b - 1]);
            } else if a == p {
                assert(kv2[b] == kv[b - 1]);
                if b - 1 > p {
                    assert(seq_lt(kv[p as int], kv[b - 1]));
                    lemma_lt_transitive(key@, kv[p as int], kv[b - 1]);
                }
            } else {
                assert(kv2[a] == kv[a - 1] && kv2[b] == kv[b - 1]);
            }
        }
        assert forall|a: int| 0 <= a < out.len() implies #[trigger] kv2[a] == place_key(out@[a]) by {
            if a < p {
                assert(out@[a] == before[a] && kv2[a] == kv[a]);
            } else if a > p {
                assert(out@[a] == before[a - 1] && kv2[a] == kv[a - 1]);
            }
        }
        assert forall|x: Seq<char>| kv2.contains(x) == (kv.contains(x) || x == key@) by {
            if kv2.contains(x) {
                let m = choose|m: int| 0 <= m < kv2.len() && kv2[m] == x;
                if m < p {
                    assert(kv[m] == x);
                } else if m > p {
                    assert(kv[m - 1] == x);
                }
            }
            if kv.contains(x) {
                let m = choose|m: int| 0 <= m < kv.len() && kv[m] == x;
                if m < p {
                    assert(kv2[m] == x);
                } else {
                    assert(kv2[m + 1] == x);
                }
            }
            if x == key@ {
                assert(kv2[p as int] == x);
            }
        }
        assert forall|a: int| 0 <= a < out.len() implies (true && #[trigger] out@[a] == placed)
            || before.contains(out@[a]) by {
            if a < p {
                assert(before[a] == out@[a]);
            } else if a > p {
                assert(before[a - 1] == out@[a]);
            }
        }
    }
    true
}

proof fn lemma_places_match_concat(
    start: Seq<EirPlace>,
    mid: Seq<EirPlace>,
    end: Seq<EirPlace>,
    a: Seq<EirExpr>,
    b: Seq<EirExpr>,
)
    requires
        mid.subrange(0, start.len() as int) == start,
        places_match(mid, start.len() as int, a),
        end.subrange(0, mid.len() as int) == mid,
        places_match(end, mid.len() as int, b),
    ensures
        end.subrange(0, start.len() as int) == start,
        places_match(end, start.len() as int, a + b),
{
    assert forall|i: int| 0 <= i < (a + b).len() implies expr_is_place(
        #[trigger] (a + b)[i],
        end[start.len() + i],
    ) by {
        if i < a.len() {
            assert((a + b)[i] == a[i]);
            assert(end[start.len() + i] == end.subrange(0, mid.len() as int)[start.len() + i]);
        } else {
            assert((a + b)[i] == b[i - a.len()]);
        }
    }
    assert(end.subrange(0, start.len() as int) =~= mid.subrange(0, start.len() as int)) by {
        assert forall|k: int| 0 <= k < start.len() implies end.subrange(0, start.len() as int)[k]
            == mid.subrange(0, start.len() as int)[k] by {
            assert(end[k] == end.subrange(0, mid.len() as int)[k]);
        }
    }
}

// ---------------------------------------------------------------------------
// Keys
// ---------------------------------------------------------------------------

/// The fact key of the expression that reads a place.
pub open spec fn place_key(p: EirPlace) -> Seq<char>
    decreases p,
{
    match p {
        EirPlace::Ident(name) => name@,
        EirPlace::Slice { base, high, low } => call3(
            "slice"@,
            place_key(*base),
            fact_key(*high.expr),
            fact_key(*low.expr),
        ),
        EirPlace::IndexedPartSelect { base, index, width } => call3(
            "part"@,
            place_key(*base),
            fact_key(index),
            fact_key(*width.expr),
        ),
        EirPlace::Index { base, index } => call2("idx"@, place_key(*base), fact_key(index)),
    }
}

proof fn lemma_place_key(e: EirExpr, p: EirPlace)
    requires
        expr_is_place(e, p),
    ensures
        fact_key(e) == place_key(p),
    decreases p,
{
    match p {
        EirPlace::Ident(_) => {},
        EirPlace::Slice { base, high, low } => {
            if let EirExpr::Slice { value, high: h, low: l } = e {
                lemma_place_key(*value, *base);
                lemma_same_expr_fact_key(*h.expr, *high.expr);
                lemma_same_expr_fact_key(*l.expr, *low.expr);
            }
        },
        EirPlace::IndexedPartSelect { base, index, width } => {
            if let EirExpr::IndexedPartSelect { value, index: i, width: w } = e {
                lemma_place_key(*value, *base);
                lemma_same_expr_fact_key(*i, index);
                lemma_same_expr_fact_key(*w.expr, *width.expr);
            }
        },
        EirPlace::Index { base, index } => {
            if let EirExpr::Index { value, index: i } = e {
                lemma_place_key(*value, *base);
                lemma_same_expr_fact_key(*i, index);
            }
        },
    }
}

proof fn lemma_place_key_of_expr(p: EirPlace)
    ensures
        forall|e: EirExpr| expr_is_place(e, p) ==> #[trigger] fact_key(e) == place_key(p),
{
    assert forall|e: EirExpr| expr_is_place(e, p) implies #[trigger] fact_key(e) == place_key(p) by {
        lemma_place_key(e, p);
    }
}

/// The expressions that read the places an expression reads, one for each
/// fact key in increasing order of keys: the first read with that key.
pub open spec fn read_place_exprs(e: EirExpr, roots: Seq<Seq<char>>) -> Seq<EirExpr> {
    let es = read_exprs(e, false, roots);
    let sk = sorted_keys(keys_of(es));
    Seq::new(sk.len(), |a: int| es[first_with_key(keys_of(es), sk[a])])
}

/// The places with the sorted keys of the reads, each from the first read
/// with its key, are the places of `read_place_exprs`, one by one.
proof fn lemma_collected_places(r: Seq<EirPlace>, e: EirExpr, roots: Seq<Seq<char>>)
    requires
        place_keys(r) == sorted_keys(keys_of(read_exprs(e, false, roots))),
        kept_first(r, read_exprs(e, false, roots)),
    ensures
        r.len() == read_place_exprs(e, roots).len(),
        forall|a: int| 0 <= a < r.len() ==> expr_is_place(#[trigger] read_place_exprs(e, roots)[a], r[a]),
{
    let es = read_exprs(e, false, roots);
    let ks = keys_of(es);
    let sk = sorted_keys(ks);
    assert(place_keys(r).len() == r.len());
    assert forall|a: int| 0 <= a < r.len() implies expr_is_place(#[trigger] read_place_exprs(e, roots)[a], r[a]) by {
        assert(read_first(r[a], es));
        let j = choose|j: int|
            0 <= j < es.len() && first_with_key(ks, ks[j]) == j && fact_key(#[trigger] es[j]) == place_key(r[a])
                && expr_is_place(es[j], r[a]);
        assert(place_keys(r)[a] == place_key(r[a]));
        assert(sk[a] == place_key(r[a]));
        assert(ks[j] == fact_key(es[j]));
        assert(read_place_exprs(e, roots)[a] == es[first_with_key(ks, sk[a])]);
    }
}

/// Each place is read by an expression of the list that is the first with
/// its fact key.
pub open spec fn kept_first(out: Seq<EirPlace>, es: Seq<EirExpr>) -> bool {
    forall|a: int| 0 <= a < out.len() ==> #[trigger] read_first(out[a], es)
}

/// The place is read by an expression of the list that is the first with
/// its fact key.
pub open spec fn read_first(p: EirPlace, es: Seq<EirExpr>) -> bool {
    exists|j: int|
        0 <= j < es.len() && first_with_key(keys_of(es), keys_of(es)[j]) == j && fact_key(
            #[trigger] es[j],
        ) == place_key(p) && expr_is_place(es[j], p)
}

/// The fact keys of a list of expressions.
pub open spec fn keys_of(es: Seq<EirExpr>) -> Seq<Seq<char>> {
    es.map_values(|e: EirExpr| fact_key(e))
}

/// The fact keys of a list of places.
pub open spec fn place_keys(v: Seq<EirPlace>) -> Seq<Seq<char>> {
    v.map_values(|p: EirPlace| place_key(p))
}

/// The texts of a list of character vectors.
pub open spec fn key_views(v: Seq<Vec<char>>) -> Seq<Seq<char>> {
    v.map_values(|k: Vec<char>| k@)
}

/// Each key comes before the next.
pub open spec fn keys_sorted(s: Seq<Seq<char>>) -> bool {
    forall|a: int, b: int| 0 <= a < b < s.len() ==> seq_lt(#[trigger] s[a], #[trigger] s[b])
}

/// The keys of a list, each once, in increasing order.
pub open spec fn sorted_keys(ks: Seq<Seq<char>>) -> Seq<Seq<char>> {
    choose|p: Seq<Seq<char>>| keys_sorted(p) && forall|x: Seq<char>| p.contains(x) == ks.contains(x)
}

/// The position of the first key equal to `k`, or the length where there is
/// none.
pub open spec fn first_with_key(ks: Seq<Seq<char>>, k: Seq<char>) -> int
    decreases ks.len(),
{
    if ks.len() == 0 {
        0
    } else if ks[0] == k {
        0
    } else {
        1 + first_with_key(ks.drop_first(), k)
    }
}

proof fn lemma_first_with_key(ks: Seq<Seq<char>>, i: int)
    requires
        0 <= i < ks.len(),
        forall|j: int| 0 <= j < i ==> ks[j] != ks[i],
    ensures
        first_with_key(ks, ks[i]) == i,
    decreases i,
{
    if i > 0 {
        let t = ks.drop_first();
        assert forall|j: int| 0 <= j < i - 1 implies #[trigger] t[j] != t[i - 1] by {
            assert(t[j] == ks[j + 1] && t[i - 1] == ks[i]);
        }
        assert(ks[0] != ks[i]);
        lemma_first_with_key(t, i - 1);
    }
}

proof fn lemma_sorted_keys(ks: Seq<Seq<char>>, p: Seq<Seq<char>>)
    requires
        keys_sorted(p),
        forall|x: Seq<char>| p.contains(x) == ks.contains(x),
    ensures
        sorted_keys(ks) == p,
{
    let q = sorted_keys(ks);
    assert(keys_sorted(q) && forall|x: Seq<char>| q.contains(x) == ks.contains(x));
    lemma_keys_unique(p, q);
}

proof fn lemma_keys_unique(a: Seq<Seq<char>>, b: Seq<Seq<char>>)
    requires
        keys_sorted(a),
        keys_sorted(b),
        forall|x: Seq<char>| a.contains(x) == b.contains(x),
    ensures
        a == b,
    decreases a.len(),
{
    if a.len() == 0 {
        if b.len() > 0 {
            assert(b.contains(b[0]));
        }
        assert(a =~= b);
    } else {
        assert(a.contains(a[0]));
        assert(b.len() > 0);
        assert(b.contains(b[0]));
        let i = choose|i: int| 0 <= i < a.len() && a[i] == b[0];
        let j = choose|j: int| 0 <= j < b.len() && b[j] == a[0];
        if a[0] != b[0] {
            assert(i > 0 && j > 0);
            assert(seq_lt(a[0], a[i]));
            assert(seq_lt(b[0], b[j]));
            lemma_lt_transitive(a[0], b[0], a[0]);
            lemma_lt_irreflexive(a[0]);
        }
        let a1 = a.drop_first();
        let b1 = b.drop_first();
        assert forall|x: Seq<char>| a1.contains(x) == b1.contains(x) by {
            if a1.contains(x) {
                let k = choose|k: int| 0 <= k < a1.len() && a1[k] == x;
                assert(a[k + 1] == x);
                assert(a.contains(x));
                let m = choose|m: int| 0 <= m < b.len() && b[m] == x;
                assert(seq_lt(a[0], a[k + 1]));
                if m == 0 {
                    lemma_lt_irreflexive(x);
                }
                assert(b1[m - 1] == x);
            }
            if b1.contains(x) {
                let k = choose|k: int| 0 <= k < b1.len() && b1[k] == x;
                assert(b[k + 1] == x);
                assert(b.contains(x));
                let m = choose|m: int| 0 <= m < a.len() && a[m] == x;
                assert(seq_lt(b[0], b[k + 1]));
                if m == 0 {
                    lemma_lt_irreflexive(x);
                }
                assert(a1[m - 1] == x);
            }
        }
        assert(keys_sorted(a1)) by {
            assert forall|x: int, y: int| 0 <= x < y < a1.len() implies seq_lt(
                #[trigger] a1[x],
                #[trigger] a1[y],
            ) by {
                assert(a1[x] == a[x + 1] && a1[y] == a[y + 1]);
            }
        }
        assert(keys_sorted(b1)) by {
            assert forall|x: int, y: int| 0 <= x < y < b1.len() implies seq_lt(
                #[trigger] b1[x],
                #[trigger] b1[y],
            ) by {
                assert(b1[x] == b[x + 1] && b1[y] == b[y + 1]);
            }
        }
        lemma_keys_unique(a1, b1);
        assert forall|k: int| 0 <= k < a.len() implies a[k] == b[k] by {
            if k > 0 {
                assert(a1[k - 1] == b1[k - 1]);
            }
        }
        assert(a =~= b);
    }
}

} // verus!
