//! When two drives of one place can be active together: the enables under
//! which a drive leaves high impedance, and proofs that two enables exclude
//! each other.
use crate::expr::{EirBinaryOp, EirExpr, EirSelectArm, EirUnaryOp, fact_key};
use crate::text::str_eq;
use vstd::prelude::*;

verus! {

// ---------------------------------------------------------------------------
// Boolean formulas
// ---------------------------------------------------------------------------

/// A boolean formula over named atoms.
pub enum FormulaTree {
    True,
    False,
    Atom(Seq<char>),
    Not(Box<FormulaTree>),
    And(Seq<FormulaTree>),
    Or(Seq<FormulaTree>),
}

/// A boolean formula over the fact keys of expressions.
#[derive(Debug)]
pub enum BoolFormula {
    True,
    False,
    Atom(String),
    Not(Box<BoolFormula>),
    And(Vec<BoolFormula>),
    Or(Vec<BoolFormula>),
}

/// The formula a `BoolFormula` stands for.
pub open spec fn tree_of(f: BoolFormula) -> FormulaTree
    decreases f,
{
    match f {
        BoolFormula::True => FormulaTree::True,
        BoolFormula::False => FormulaTree::False,
        BoolFormula::Atom(name) => FormulaTree::Atom(name@),
        BoolFormula::Not(inner) => FormulaTree::Not(Box::new(tree_of(*inner))),
        BoolFormula::And(items) => FormulaTree::And(trees_of(items@)),
        BoolFormula::Or(items) => FormulaTree::Or(trees_of(items@)),
    }
}

/// The formulas a list of `BoolFormula`s stands for.
pub open spec fn trees_of(items: Seq<BoolFormula>) -> Seq<FormulaTree>
    decreases items,
{
    if items.len() == 0 {
        Seq::empty()
    } else {
        trees_of(items.drop_last()).push(tree_of(items.last()))
    }
}

/// The negation of a formula pushed to its atoms: constants swap, `and` and
/// `or` swap with their items negated, a negated atom loses its negation.
pub open spec fn negate(t: FormulaTree) -> FormulaTree
    decreases t,
{
    match t {
        FormulaTree::True => FormulaTree::False,
        FormulaTree::False => FormulaTree::True,
        FormulaTree::Atom(_) => FormulaTree::Not(Box::new(t)),
        FormulaTree::Not(inner) => *inner,
        FormulaTree::And(items) => FormulaTree::Or(negate_all(items)),
        FormulaTree::Or(items) => FormulaTree::And(negate_all(items)),
    }
}

/// The negations of a list of formulas.
pub open spec fn negate_all(items: Seq<FormulaTree>) -> Seq<FormulaTree>
    decreases items,
{
    if items.len() == 0 {
        Seq::empty()
    } else {
        negate_all(items.drop_last()).push(negate(items.last()))
    }
}

/// The formula an enable expression stands for: boolean constants, `!`,
/// `&&` and `||` are read as such; any other expression is an atom named by
/// its fact key.
pub open spec fn formula_of(e: EirExpr) -> FormulaTree
    decreases e,
{
    match e {
        EirExpr::Bool(b) => if b {
            FormulaTree::True
        } else {
            FormulaTree::False
        },
        EirExpr::Unary { op, expr } => if op == EirUnaryOp::Not {
            negate(formula_of(*expr))
        } else {
            FormulaTree::Atom(fact_key(e))
        },
        EirExpr::Binary { op, left, right } => if op == EirBinaryOp::AndAnd {
            FormulaTree::And(seq![formula_of(*left), formula_of(*right)])
        } else if op == EirBinaryOp::OrOr {
            FormulaTree::Or(seq![formula_of(*left), formula_of(*right)])
        } else {
            FormulaTree::Atom(fact_key(e))
        },
        _ => FormulaTree::Atom(fact_key(e)),
    }
}

proof fn lemma_trees_of(items: Seq<BoolFormula>)
    ensures
        trees_of(items).len() == items.len(),
        forall|i: int| 0 <= i < items.len() ==> #[trigger] trees_of(items)[i] == tree_of(items[i]),
    decreases items.len(),
{
    if items.len() > 0 {
        lemma_trees_of(items.drop_last());
    }
}

proof fn lemma_negate_all(items: Seq<FormulaTree>)
    ensures
        negate_all(items).len() == items.len(),
        forall|i: int| 0 <= i < items.len() ==> #[trigger] negate_all(items)[i] == negate(items[i]),
    decreases items.len(),
{
    if items.len() > 0 {
        lemma_negate_all(items.drop_last());
    }
}

impl BoolFormula {
    /// The formula an enable expression stands for.
    pub fn from_expr(expr: &EirExpr) -> (r: Self)
        ensures
            tree_of(r) == formula_of(*expr),
        decreases expr,
    {
        match expr {
            EirExpr::Bool(b) => if *b {
                BoolFormula::True
            } else {
                BoolFormula::False
            },
            EirExpr::Unary { op: EirUnaryOp::Not, expr: inner } => Self::from_expr(inner).negated(),
            EirExpr::Binary { op: EirBinaryOp::AndAnd, left, right } => {
                let mut items: Vec<BoolFormula> = Vec::new();
                items.push(Self::from_expr(left));
                items.push(Self::from_expr(right));
                proof {
                    lemma_trees_of(items@);
                    assert(trees_of(items@) =~= seq![formula_of(**left), formula_of(**right)]);
                }
                BoolFormula::And(items)
            },
            EirExpr::Binary { op: EirBinaryOp::OrOr, left, right } => {
                let mut items: Vec<BoolFormula> = Vec::new();
                items.push(Self::from_expr(left));
                items.push(Self::from_expr(right));
                proof {
                    lemma_trees_of(items@);
                    assert(trees_of(items@) =~= seq![formula_of(**left), formula_of(**right)]);
                }
                BoolFormula::Or(items)
            },
            _ => BoolFormula::Atom(expr.fact_key()),
        }
    }

    /// The negation, pushed to the atoms.
    pub fn negated(self) -> (r: Self)
        ensures
            tree_of(r) == negate(tree_of(self)),
    {
        self.negation()
    }

    /// The negation of this formula, pushed to the atoms.
    pub fn negation(&self) -> (r: Self)
        ensures
            tree_of(r) == negate(tree_of(*self)),
        decreases self,
    {
        match self {
            BoolFormula::True => BoolFormula::False,
            BoolFormula::False => BoolFormula::True,
            BoolFormula::Atom(name) => BoolFormula::Not(Box::new(BoolFormula::Atom(name.clone()))),
            BoolFormula::Not(inner) => inner.copy(),
            BoolFormula::And(items) => BoolFormula::Or(Self::negate_items(items)),
            BoolFormula::Or(items) => BoolFormula::And(Self::negate_items(items)),
        }
    }

    fn negate_items(items: &Vec<BoolFormula>) -> (r: Vec<BoolFormula>)
        ensures
            trees_of(r@) == negate_all(trees_of(items@)),
        decreases items,
    {
        let mut out: Vec<BoolFormula> = Vec::new();
        let mut i: usize = 0;
        proof {
            lemma_trees_of(items@);
        }
        while i < items.len()
            invariant
                i <= items.len(),
                trees_of(out@) == negate_all(trees_of(items@).take(i as int)),
                trees_of(items@).len() == items.len(),
                forall|j: int| 0 <= j < items.len() ==> #[trigger] trees_of(items@)[j] == tree_of(items@[j]),
            decreases items.len() - i,
        {
            assert(decreases_to!(items => items@[i as int]));
            let n = items[i].negation();
            let ghost prev = out@;
            out.push(n);
            proof {
                assert(out@.drop_last() =~= prev);
                assert(trees_of(items@).take(i + 1).drop_last() =~= trees_of(items@).take(i as int));
            }
            i = i + 1;
        }
        proof {
            assert(trees_of(items@).take(items.len() as int) =~= trees_of(items@));
        }
        out
    }

    /// A copy of this formula.
    pub fn copy(&self) -> (r: Self)
        ensures
            tree_of(r) == tree_of(*self),
        decreases self,
    {
        match self {
            BoolFormula::True => BoolFormula::True,
            BoolFormula::False => BoolFormula::False,
            BoolFormula::Atom(name) => BoolFormula::Atom(name.clone()),
            BoolFormula::Not(inner) => BoolFormula::Not(Box::new(inner.copy())),
            BoolFormula::And(items) => BoolFormula::And(Self::copy_items(items)),
            BoolFormula::Or(items) => BoolFormula::Or(Self::copy_items(items)),
        }
    }

    fn copy_items(items: &Vec<BoolFormula>) -> (r: Vec<BoolFormula>)
        ensures
            trees_of(r@) == trees_of(items@),
        decreases items,
    {
        let mut out: Vec<BoolFormula> = Vec::new();
        let mut i: usize = 0;
        while i < items.len()
            invariant
                i <= items.len(),
                trees_of(out@) == trees_of(items@.take(i as int)),
            decreases items.len() - i,
        {
            assert(decreases_to!(items => items@[i as int]));
            let c = items[i].copy();
            let ghost prev = out@;
            out.push(c);
            proof {
                assert(out@.drop_last() =~= prev);
                assert(items@.take(i + 1).drop_last() =~= items@.take(i as int));
            }
            i = i + 1;
        }
        proof {
            assert(items@.take(items.len() as int) =~= items@);
        }
        out
    }
}

} // verus!

verus! {

// ---------------------------------------------------------------------------
// Terms and disjunctive normal form
// ---------------------------------------------------------------------------

/// A conjunction of literals: each named atom required true or false.
pub type TermModel = Map<Seq<char>, bool>;

/// The literals a list of entries stands for.
pub open spec fn literal_map(s: Seq<(Seq<char>, bool)>) -> TermModel
    decreases s.len(),
{
    if s.len() == 0 {
        Map::empty()
    } else {
        literal_map(s.drop_last()).insert(s.last().0, s.last().1)
    }
}

/// Two terms require some atom to take different values.
pub open spec fn terms_contradict(l: TermModel, r: TermModel) -> bool {
    exists|k: Seq<char>| l.contains_key(k) && r.contains_key(k) && l[k] != r[k]
}

/// The conjunction of two terms, unless they contradict.
pub open spec fn term_merge(l: TermModel, r: TermModel) -> Option<TermModel> {
    if terms_contradict(l, r) {
        None
    } else {
        Some(l.union_prefer_right(r))
    }
}

/// The largest number of terms a normal form may have.
pub open spec fn max_terms() -> nat {
    64
}

/// The conjunctions of `l` with each of `rs` that do not contradict, in order.
pub open spec fn merges_one(l: TermModel, rs: Seq<TermModel>) -> Seq<TermModel>
    decreases rs.len(),
{
    if rs.len() == 0 {
        Seq::empty()
    } else {
        merges_one(l, rs.drop_last()) + match term_merge(l, rs.last()) {
            Some(m) => seq![m],
            None => Seq::empty(),
        }
    }
}

/// The conjunctions of each of `ls` with each of `rs` that do not
/// contradict, in order.
pub open spec fn merges(ls: Seq<TermModel>, rs: Seq<TermModel>) -> Seq<TermModel>
    decreases ls.len(),
{
    if ls.len() == 0 {
        Seq::empty()
    } else {
        merges(ls.drop_last(), rs) + merges_one(ls.last(), rs)
    }
}

/// The normal form of the conjunction of two normal forms, unless it has
/// too many terms.
pub open spec fn and_spec(ls: Seq<TermModel>, rs: Seq<TermModel>) -> Option<Seq<TermModel>> {
    if merges(ls, rs).len() > max_terms() {
        None
    } else {
        Some(merges(ls, rs))
    }
}

/// The disjunctive normal form of a formula in negation normal form: a list
/// of terms whose disjunction is the formula; `None` when the formula
/// negates anything but an atom, or when a step would produce more than
/// `max_terms()` terms.
pub open spec fn dnf(t: FormulaTree) -> Option<Seq<TermModel>>
    decreases t,
{
    match t {
        FormulaTree::True => Some(seq![Map::empty()]),
        FormulaTree::False => Some(Seq::empty()),
        FormulaTree::Atom(name) => Some(seq![Map::empty().insert(name, true)]),
        FormulaTree::Not(inner) => match *inner {
            FormulaTree::Atom(name) => Some(seq![Map::empty().insert(name, false)]),
            _ => None,
        },
        FormulaTree::And(items) => and_fold(items, seq![Map::empty()]),
        FormulaTree::Or(items) => or_fold(items, Seq::empty()),
    }
}

/// The normal form of `product` and all of `items`.
pub open spec fn and_fold(items: Seq<FormulaTree>, product: Seq<TermModel>) -> Option<
    Seq<TermModel>,
>
    decreases items,
{
    if items.len() == 0 {
        Some(product)
    } else {
        match dnf(items[0]) {
            Some(ts) => match and_spec(product, ts) {
                Some(p) => and_fold(items.drop_first(), p),
                None => None,
            },
            None => None,
        }
    }
}

/// The normal form of `acc` or any of `items`.
pub open spec fn or_fold(items: Seq<FormulaTree>, acc: Seq<TermModel>) -> Option<Seq<TermModel>>
    decreases items,
{
    if items.len() == 0 {
        Some(acc)
    } else {
        match dnf(items[0]) {
            Some(ts) => if acc.len() + ts.len() > max_terms() {
                None
            } else {
                or_fold(items.drop_first(), acc + ts)
            },
            None => None,
        }
    }
}

/// Every term of one list contradicts every term of the other.
pub open spec fn all_pairs_contradict(lt: Seq<TermModel>, rt: Seq<TermModel>) -> bool {
    forall|i: int, j: int|
        0 <= i < lt.len() && 0 <= j < rt.len() ==> terms_contradict(#[trigger] lt[i], #[trigger] rt[j])
}

/// Two enables exclude each other by their normal forms: both have one, and
/// every term of one contradicts every term of the other.
pub open spec fn proves_exclusive(l: FormulaTree, r: FormulaTree) -> bool {
    match dnf(l) {
        Some(lt) => match dnf(r) {
            Some(rt) => all_pairs_contradict(lt, rt),
            None => false,
        },
        None => false,
    }
}

/// A conjunction of literals.
#[derive(Debug)]
pub struct BoolTerm {
    literals: Vec<(String, bool)>,
}

/// The entries of a literal list, by text.
pub open spec fn entries(v: Seq<(String, bool)>) -> Seq<(Seq<char>, bool)> {
    v.map_values(|p: (String, bool)| (p.0@, p.1))
}

/// No name is listed twice.
pub open spec fn names_distinct(s: Seq<(Seq<char>, bool)>) -> bool {
    forall|i: int, j: int| 0 <= i < j < s.len() ==> s[i].0 != s[j].0
}

proof fn lemma_literal_map(s: Seq<(Seq<char>, bool)>)
    requires
        names_distinct(s),
    ensures
        forall|k: Seq<char>|
            #[trigger] literal_map(s).contains_key(k) <==> exists|i: int| 0 <= i < s.len() && s[i].0 == k,
        forall|i: int| 0 <= i < s.len() ==> #[trigger] literal_map(s)[s[i].0] == s[i].1,
    decreases s.len(),
{
    if s.len() > 0 {
        let t = s.drop_last();
        let last = s.last();
        assert forall|a: int, b: int| 0 <= a < b < t.len() implies t[a].0 != t[b].0 by {
            assert(t[a] == s[a] && t[b] == s[b]);
        }
        lemma_literal_map(t);
        assert(literal_map(s) == literal_map(t).insert(last.0, last.1));
        assert forall|k: Seq<char>| #[trigger] literal_map(s).contains_key(k) implies exists|i: int|
            0 <= i < s.len() && s[i].0 == k by {
            if k == last.0 {
                assert(s[s.len() - 1].0 == k);
            } else {
                assert(literal_map(t).contains_key(k));
                let i = choose|i: int| 0 <= i < t.len() && t[i].0 == k;
                assert(s[i] == t[i]);
            }
        }
        assert forall|k: Seq<char>| (exists|i: int| 0 <= i < s.len() && s[i].0 == k) implies #[trigger] literal_map(
            s,
        ).contains_key(k) by {
            let i = choose|i: int| 0 <= i < s.len() && s[i].0 == k;
            if i < s.len() - 1 {
                assert(t[i] == s[i]);
                assert(literal_map(t).contains_key(t[i].0));
            }
        }
        assert forall|i: int| 0 <= i < s.len() implies #[trigger] literal_map(s)[s[i].0] == s[i].1 by {
            if i < s.len() - 1 {
                assert(t[i] == s[i]);
                assert(s[i].0 != s[s.len() - 1].0);
                assert(literal_map(t)[t[i].0] == t[i].1);
            }
        }
    }
}

impl View for BoolTerm {
    type V = TermModel;

    closed spec fn view(&self) -> TermModel {
        literal_map(entries(self.literals@))
    }
}

impl BoolTerm {
    /// No name is listed twice.
    pub closed spec fn wf(&self) -> bool {
        names_distinct(entries(self.literals@))
    }

    /// The empty conjunction, which always holds.
    pub fn new() -> (r: Self)
        ensures
            r.wf(),
            r@ == Map::<Seq<char>, bool>::empty(),
    {
        BoolTerm { literals: Vec::new() }
    }

    /// The term requiring one atom to take one value.
    pub fn from_literal(name: String, value: bool) -> (r: Self)
        ensures
            r.wf(),
            r@ == Map::<Seq<char>, bool>::empty().insert(name@, value),
    {
        let ghost n = name@;
        let mut literals: Vec<(String, bool)> = Vec::new();
        literals.push((name, value));
        let r = BoolTerm { literals };
        proof {
            assert(entries(r.literals@).len() == 1);
            assert(entries(r.literals@).last() == (n, value));
            assert(entries(r.literals@).drop_last() =~= Seq::<(Seq<char>, bool)>::empty());
            assert(literal_map(Seq::<(Seq<char>, bool)>::empty()) == Map::<Seq<char>, bool>::empty());
        }
        r
    }

    fn lookup(&self, name: &str) -> (r: Option<bool>)
        requires
            self.wf(),
        ensures
            match r {
                Some(v) => self@.contains_key(name@) && self@[name@] == v,
                None => !self@.contains_key(name@),
            },
    {
        proof {
            lemma_literal_map(entries(self.literals@));
        }
        let mut i: usize = 0;
        while i < self.literals.len()
            invariant
                i <= self.literals.len(),
                self.wf(),
                forall|j: int| 0 <= j < i ==> entries(self.literals@)[j].0 != name@,
            decreases self.literals.len() - i,
        {
            if str_eq(self.literals[i].0.as_str(), name) {
                proof {
                    lemma_literal_map(entries(self.literals@));
                    assert(entries(self.literals@)[i as int] == (name@, self.literals@[i as int].1));
                }
                return Some(self.literals[i].1);
            }
            i = i + 1;
        }
        proof {
            lemma_literal_map(entries(self.literals@));
        }
        None
    }

    /// The conjunction of two terms, unless they contradict.
    pub fn merged(&self, other: &Self) -> (r: Option<Self>)
        requires
            self.wf(),
            other.wf(),
        ensures
            match r {
                Some(t) => t.wf() && term_merge(self@, other@) == Some(t@),
                None => term_merge(self@, other@) is None,
            },
    {
        let ghost os = entries(other.literals@);
        let mut merged = self.copy();
        let mut j: usize = 0;
        proof {
            lemma_literal_map(os);
            assert(os.take(0) =~= Seq::<(Seq<char>, bool)>::empty());
            assert(merged@ =~= self@.union_prefer_right(literal_map(os.take(0))));
        }
        while j < other.literals.len()
            invariant
                j <= other.literals.len(),
                os == entries(other.literals@),
                self.wf(),
                other.wf(),
                merged.wf(),
                merged@ == self@.union_prefer_right(literal_map(os.take(j as int))),
                forall|x: int|
                    0 <= x < j ==> !(self@.contains_key(#[trigger] os[x].0) && self@[os[x].0]
                        != os[x].1),
            decreases other.literals.len() - j,
        {
            proof {
                lemma_literal_map(os);
                lemma_literal_map(os.take(j as int));
                assert(os.take(j + 1).drop_last() =~= os.take(j as int));
                assert(os.take(j + 1).last() == os[j as int]);
            }
            let name = &other.literals[j].0;
            let value = other.literals[j].1;
            let ghost k = name@;
            proof {
                assert(os[j as int] == (k, value));
                assert(!literal_map(os.take(j as int)).contains_key(k)) by {
                    if literal_map(os.take(j as int)).contains_key(k) {
                        let x = choose|x: int| 0 <= x < os.take(j as int).len() && os.take(j as int)[x].0 == k;
                        assert(os[x].0 == os[j as int].0);
                    }
                }
            }
            match merged.lookup(name.as_str()) {
                Some(existing) => {
                    if existing != value {
                        proof {
                            assert(self@.contains_key(k) && self@[k] == existing);
                            assert(other@[k] == value);
                            assert(terms_contradict(self@, other@));
                        }
                        return None;
                    }
                    proof {
                        assert(literal_map(os.take(j + 1)) == literal_map(os.take(j as int)).insert(k, value));
                        assert(merged@.contains_key(k) && merged@[k] == value);
                        assert(self@.contains_key(k) && self@[k] == value);
                        assert(merged@ =~= self@.union_prefer_right(literal_map(os.take(j + 1))));
                    }
                },
                None => {
                    let ghost prev = merged.literals@;
                    merged.literals.push((name.clone(), value));
                    proof {
                        lemma_literal_map(entries(prev));
                        assert(entries(merged.literals@) =~= entries(prev).push((k, value)));
                        assert forall|a: int, b: int| 0 <= a < b < entries(merged.literals@).len() implies entries(merged.literals@)[a].0 != entries(merged.literals@)[b].0 by {
                            assert(entries(merged.literals@)[a] == entries(prev)[a]);
                            if b < entries(prev).len() {
                                assert(entries(merged.literals@)[b] == entries(prev)[b]);
                            } else {
                                assert(literal_map(entries(prev)).contains_key(entries(prev)[a].0));
                            }
                        }
                        assert(entries(merged.literals@).drop_last() =~= entries(prev));
                        assert(merged@ == literal_map(entries(prev)).insert(k, value));
                        assert(literal_map(os.take(j + 1)) == literal_map(os.take(j as int)).insert(k, value));
                        assert(merged@ =~= self@.union_prefer_right(literal_map(os.take(j + 1))));
                    }
                },
            }
            j = j + 1;
        }
        proof {
            assert(os.take(other.literals.len() as int) =~= os);
            lemma_literal_map(os);
            if terms_contradict(self@, other@) {
                let k = choose|k: Seq<char>| self@.contains_key(k) && other@.contains_key(k) && self@[k] != other@[k];
                let x = choose|x: int| 0 <= x < os.len() && os[x].0 == k;
                assert(self@[os[x].0] != os[x].1);
            }
        }
        Some(merged)
    }

    /// A copy of this term.
    pub fn copy(&self) -> (r: Self)
        requires
            self.wf(),
        ensures
            r.wf(),
            r@ == self@,
    {
        let mut literals: Vec<(String, bool)> = Vec::new();
        let mut i: usize = 0;
        while i < self.literals.len()
            invariant
                i <= self.literals.len(),
                entries(literals@) == entries(self.literals@).take(i as int),
            decreases self.literals.len() - i,
        {
            let ghost prev = literals@;
            literals.push((self.literals[i].0.clone(), self.literals[i].1));
            proof {
                assert(entries(literals@) =~= entries(prev).push(entries(self.literals@)[i as int]));
                assert(entries(literals@) =~= entries(self.literals@).take(i + 1));
            }
            i = i + 1;
        }
        proof {
            assert(entries(self.literals@).take(self.literals.len() as int) =~= entries(self.literals@));
        }
        BoolTerm { literals }
    }

    /// The two terms require some atom to take different values.
    pub fn contradicts(&self, other: &Self) -> (r: bool)
        requires
            self.wf(),
            other.wf(),
        ensures
            r == terms_contradict(self@, other@),
    {
        proof {
            lemma_literal_map(entries(self.literals@));
        }
        let mut i: usize = 0;
        while i < self.literals.len()
            invariant
                i <= self.literals.len(),
                self.wf(),
                other.wf(),
                forall|x: int| 0 <= x < i ==> !(other@.contains_key(#[trigger] entries(self.literals@)[x].0) && other@[entries(self.literals@)[x].0] != entries(self.literals@)[x].1),
            decreases self.literals.len() - i,
        {
            proof {
                lemma_literal_map(entries(self.literals@));
            }
            match other.lookup(self.literals[i].0.as_str()) {
                Some(v) => {
                    if v != self.literals[i].1 {
                        proof {
                            assert(entries(self.literals@)[i as int] == (self.literals@[i as int].0@, self.literals@[i as int].1));
                            assert(self@[entries(self.literals@)[i as int].0] == self.literals[i as int].1);
                        }
                        return true;
                    }
                },
                None => {},
            }
            i = i + 1;
        }
        proof {
            if terms_contradict(self@, other@) {
                let k = choose|k: Seq<char>| self@.contains_key(k) && other@.contains_key(k) && self@[k] != other@[k];
                let x = choose|x: int| 0 <= x < self.literals.len() && entries(self.literals@)[x].0 == k;
                assert(false);
            }
        }
        false
    }
}

} // verus!

verus! {

/// The normal forms of a list of terms, as maps.
pub open spec fn term_views(v: Seq<BoolTerm>) -> Seq<TermModel> {
    v.map_values(|t: BoolTerm| t@)
}

/// Every term of a list lists each atom once.
pub open spec fn all_wf(v: Seq<BoolTerm>) -> bool {
    forall|i: int| 0 <= i < v.len() ==> #[trigger] v[i].wf()
}

/// The terms of an optional normal form, as maps.
pub open spec fn dnf_view(terms: Option<Vec<BoolTerm>>) -> Option<Seq<TermModel>> {
    match terms {
        Some(v) => Some(term_views(v@)),
        None => None,
    }
}

/// Every term of an optional normal form is well formed.
pub open spec fn dnf_wf(terms: Option<Vec<BoolTerm>>) -> bool {
    match terms {
        Some(v) => all_wf(v@),
        None => true,
    }
}

proof fn lemma_merges_grow(ls: Seq<TermModel>, rs: Seq<TermModel>, a: int)
    requires
        0 <= a <= ls.len(),
    ensures
        merges(ls.take(a), rs).len() <= merges(ls, rs).len(),
    decreases ls.len(),
{
    if a < ls.len() {
        lemma_merges_grow(ls.drop_last(), rs, a);
        assert(ls.drop_last().take(a) =~= ls.take(a));
    } else {
        assert(ls.take(a) =~= ls);
    }
}

proof fn lemma_merges_one_grow(l: TermModel, rs: Seq<TermModel>, b: int)
    requires
        0 <= b <= rs.len(),
    ensures
        merges_one(l, rs.take(b)).len() <= merges_one(l, rs).len(),
    decreases rs.len(),
{
    if b < rs.len() {
        lemma_merges_one_grow(l, rs.drop_last(), b);
        assert(rs.drop_last().take(b) =~= rs.take(b));
    } else {
        assert(rs.take(b) =~= rs);
    }
}

/// The disjunctive normal form of a formula, when it has one within the
/// term limit.
pub struct Dnf {
    pub terms: Option<Vec<BoolTerm>>,
}

impl Dnf {
    /// The normal form of a formula.
    pub fn from_formula(formula: &BoolFormula) -> (r: Self)
        ensures
            dnf_wf(r.terms),
            dnf_view(r.terms) == dnf(tree_of(*formula)),
    {
        Dnf { terms: Self::terms(formula) }
    }

    /// The terms of the normal form of a formula: `None` when it negates
    /// anything but an atom or grows past the term limit.
    pub fn terms(formula: &BoolFormula) -> (r: Option<Vec<BoolTerm>>)
        ensures
            dnf_wf(r),
            dnf_view(r) == dnf(tree_of(*formula)),
        decreases formula,
    {
        match formula {
            BoolFormula::True => {
                let mut v: Vec<BoolTerm> = Vec::new();
                v.push(BoolTerm::new());
                proof {
                    assert(term_views(v@) =~= seq![Map::<Seq<char>, bool>::empty()]);
                    assert(tree_of(*formula) == FormulaTree::True);
                    assert(dnf(FormulaTree::True) == Some(seq![Map::<Seq<char>, bool>::empty()]));
                }
                Some(v)
            },
            BoolFormula::False => {
                let v: Vec<BoolTerm> = Vec::new();
                proof {
                    assert(term_views(v@) =~= Seq::<TermModel>::empty());
                }
                Some(v)
            },
            BoolFormula::Atom(name) => {
                let mut v: Vec<BoolTerm> = Vec::new();
                v.push(BoolTerm::from_literal(name.clone(), true));
                proof {
                    assert(term_views(v@) =~= seq![Map::<Seq<char>, bool>::empty().insert(name@, true)]);
                }
                Some(v)
            },
            BoolFormula::Not(inner) => match &**inner {
                BoolFormula::Atom(name) => {
                    let mut v: Vec<BoolTerm> = Vec::new();
                    v.push(BoolTerm::from_literal(name.clone(), false));
                    proof {
                        assert(term_views(v@) =~= seq![Map::<Seq<char>, bool>::empty().insert(name@, false)]);
                    }
                    Some(v)
                },
                _ => {
                    proof {
                        assert(!(tree_of(**inner) is Atom));
                    }
                    None
                },
            },
            BoolFormula::And(items) => Self::and_items(items),
            BoolFormula::Or(items) => Self::or_items(items),
        }
    }

    fn and_items(items: &Vec<BoolFormula>) -> (r: Option<Vec<BoolTerm>>)
        ensures
            dnf_wf(r),
            dnf_view(r) == and_fold(trees_of(items@), seq![Map::<Seq<char>, bool>::empty()]),
        decreases items,
    {
        let ghost all = trees_of(items@);
        let mut product: Vec<BoolTerm> = Vec::new();
        product.push(BoolTerm::new());
        proof {
            lemma_trees_of(items@);
            assert(term_views(product@) =~= seq![Map::<Seq<char>, bool>::empty()]);
            assert(all.skip(0) =~= all);
        }
        let mut i: usize = 0;
        while i < items.len()
            invariant
                i <= items.len(),
                all == trees_of(items@),
                all.len() == items.len(),
                forall|j: int| 0 <= j < items.len() ==> #[trigger] all[j] == tree_of(items@[j]),
                all_wf(product@),
                and_fold(all, seq![Map::<Seq<char>, bool>::empty()]) == and_fold(
                    all.skip(i as int),
                    term_views(product@),
                ),
            decreases items.len() - i,
        {
            proof {
                assert(all.skip(i as int)[0] == all[i as int]);
                assert(all.skip(i as int).drop_first() =~= all.skip(i + 1));
            }
            assert(decreases_to!(items => items@[i as int]));
            match Self::terms(&items[i]) {
                None => {
                    return None;
                },
                Some(ts) => {
                    match Self::and_terms(product, ts) {
                        None => {
                            return None;
                        },
                        Some(p) => {
                            product = p;
                        },
                    }
                },
            }
            i = i + 1;
        }
        proof {
            assert(all.skip(items.len() as int) =~= Seq::<FormulaTree>::empty());
        }
        Some(product)
    }

    fn or_items(items: &Vec<BoolFormula>) -> (r: Option<Vec<BoolTerm>>)
        ensures
            dnf_wf(r),
            dnf_view(r) == or_fold(trees_of(items@), Seq::empty()),
        decreases items,
    {
        let ghost all = trees_of(items@);
        let mut acc: Vec<BoolTerm> = Vec::new();
        proof {
            lemma_trees_of(items@);
            assert(term_views(acc@) =~= Seq::<TermModel>::empty());
            assert(all.skip(0) =~= all);
        }
        let mut i: usize = 0;
        while i < items.len()
            invariant
                i <= items.len(),
                all == trees_of(items@),
                all.len() == items.len(),
                forall|j: int| 0 <= j < items.len() ==> #[trigger] all[j] == tree_of(items@[j]),
                all_wf(acc@),
                acc.len() <= max_terms(),
                or_fold(all, Seq::empty()) == or_fold(all.skip(i as int), term_views(acc@)),
            decreases items.len() - i,
        {
            proof {
                assert(all.skip(i as int)[0] == all[i as int]);
                assert(all.skip(i as int).drop_first() =~= all.skip(i + 1));
            }
            assert(decreases_to!(items => items@[i as int]));
            match Self::terms(&items[i]) {
                None => {
                    return None;
                },
                Some(ts) => {
                    let mut ts = ts;
                    let ghost before = acc@;
                    let ghost added = ts@;
                    acc.append(&mut ts);
                    proof {
                        assert(term_views(acc@) =~= term_views(before) + term_views(added));
                    }
                    if acc.len() > 64 {
                        return None;
                    }
                },
            }
            i = i + 1;
        }
        proof {
            assert(all.skip(items.len() as int) =~= Seq::<FormulaTree>::empty());
        }
        Some(acc)
    }

    /// The terms of the conjunction of two normal forms: every pair that
    /// does not contradict, merged; `None` past the term limit.
    pub fn and_terms(left: Vec<BoolTerm>, right: Vec<BoolTerm>) -> (r: Option<Vec<BoolTerm>>)
        requires
            all_wf(left@),
            all_wf(right@),
        ensures
            dnf_wf(r),
            dnf_view(r) == and_spec(term_views(left@), term_views(right@)),
    {
        let ghost ls = term_views(left@);
        let ghost rs = term_views(right@);
        let mut out: Vec<BoolTerm> = Vec::new();
        let mut a: usize = 0;
        proof {
            assert(ls.take(0) =~= Seq::<TermModel>::empty());
            assert(term_views(out@) =~= Seq::<TermModel>::empty());
        }
        while a < left.len()
            invariant
                a <= left.len(),
                ls == term_views(left@),
                rs == term_views(right@),
                all_wf(left@),
                all_wf(right@),
                all_wf(out@),
                out.len() <= max_terms(),
                term_views(out@) == merges(ls.take(a as int), rs),
            decreases left.len() - a,
        {
            let mut b: usize = 0;
            proof {
                assert(rs.take(0) =~= Seq::<TermModel>::empty());
                assert(term_views(out@) =~= merges(ls.take(a as int), rs) + merges_one(ls[a as int], rs.take(0)));
            }
            while b < right.len()
                invariant
                    a < left.len(),
                    b <= right.len(),
                    ls == term_views(left@),
                    rs == term_views(right@),
                    all_wf(left@),
                    all_wf(right@),
                    all_wf(out@),
                    out.len() <= max_terms(),
                    term_views(out@) == merges(ls.take(a as int), rs) + merges_one(ls[a as int], rs.take(b as int)),
                decreases right.len() - b,
            {
                let ghost before = out@;
                proof {
                    assert(rs.take(b + 1).drop_last() =~= rs.take(b as int));
                    assert(rs.take(b + 1).last() == rs[b as int]);
                    assert(left@[a as int].wf() && right@[b as int].wf());
                }
                match left[a].merged(&right[b]) {
                    Some(term) => {
                        out.push(term);
                        proof {
                            assert(term_views(out@) =~= term_views(before).push(term@));
                            assert(term_views(out@) =~= merges(ls.take(a as int), rs) + merges_one(ls[a as int], rs.take(b + 1)));
                        }
                        if out.len() > 64 {
                            proof {
                                lemma_merges_one_grow(ls[a as int], rs, b + 1);
                                assert(ls.take(a + 1).drop_last() =~= ls.take(a as int));
                                assert(ls.take(a + 1).last() == ls[a as int]);
                                lemma_merges_grow(ls, rs, a + 1);
                            }
                            return None;
                        }
                    },
                    None => {
                        proof {
                            assert(term_views(out@) =~= merges(ls.take(a as int), rs) + merges_one(ls[a as int], rs.take(b + 1)));
                        }
                    },
                }
                b = b + 1;
            }
            proof {
                assert(rs.take(right.len() as int) =~= rs);
                assert(ls.take(a + 1).drop_last() =~= ls.take(a as int));
                assert(ls.take(a + 1).last() == ls[a as int]);
            }
            a = a + 1;
        }
        proof {
            assert(ls.take(left.len() as int) =~= ls);
        }
        Some(out)
    }
}

/// A proof attempt that two enables exclude each other.
pub struct BoolProof<'a> {
    pub left: &'a BoolFormula,
    pub right: &'a BoolFormula,
}

impl<'a> BoolProof<'a> {
    /// A proof attempt for two enables.
    pub fn new(left: &'a BoolFormula, right: &'a BoolFormula) -> (r: Self)
        ensures
            r.left == left,
            r.right == right,
    {
        BoolProof { left, right }
    }

    /// Every term of the normal form of one enable contradicts every term of
    /// the other's; false where either has no normal form.
    pub fn is_mutually_exclusive(&self) -> (r: bool)
        ensures
            r == proves_exclusive(tree_of(*self.left), tree_of(*self.right)),
    {
        let left_dnf = Dnf::from_formula(self.left);
        let right_dnf = Dnf::from_formula(self.right);
        let left_terms = match left_dnf.terms {
            Some(t) => t,
            None => {
                return false;
            },
        };
        let right_terms = match right_dnf.terms {
            Some(t) => t,
            None => {
                return false;
            },
        };
        let ghost lt = term_views(left_terms@);
        let ghost rt = term_views(right_terms@);
        let mut i: usize = 0;
        while i < left_terms.len()
            invariant
                i <= left_terms.len(),
                lt == term_views(left_terms@),
                rt == term_views(right_terms@),
                dnf(tree_of(*self.left)) == Some(lt),
                dnf(tree_of(*self.right)) == Some(rt),
                all_wf(left_terms@),
                all_wf(right_terms@),
                forall|x: int, y: int|
                    0 <= x < i && 0 <= y < rt.len() ==> terms_contradict(#[trigger] lt[x], #[trigger] rt[y]),
            decreases left_terms.len() - i,
        {
            let mut j: usize = 0;
            while j < right_terms.len()
                invariant
                    i < left_terms.len(),
                    j <= right_terms.len(),
                    lt == term_views(left_terms@),
                    rt == term_views(right_terms@),
                    dnf(tree_of(*self.left)) == Some(lt),
                    dnf(tree_of(*self.right)) == Some(rt),
                    all_wf(left_terms@),
                    all_wf(right_terms@),
                    forall|x: int, y: int|
                        0 <= x < i && 0 <= y < rt.len() ==> terms_contradict(#[trigger] lt[x], #[trigger] rt[y]),
                    forall|y: int| 0 <= y < j ==> terms_contradict(lt[i as int], #[trigger] rt[y]),
                decreases right_terms.len() - j,
            {
                proof {
                    assert(left_terms@[i as int].wf() && right_terms@[j as int].wf());
                }
                if !left_terms[i].contradicts(&right_terms[j]) {
                    proof {
                        assert(lt[i as int] == left_terms@[i as int]@);
                        assert(rt[j as int] == right_terms@[j as int]@);
                        assert(!terms_contradict(lt[i as int], rt[j as int]));
                        assert(lt.len() == left_terms.len() && rt.len() == right_terms.len());
                        assert(!all_pairs_contradict(lt, rt));
                    }
                    return false;
                }
                j = j + 1;
            }
            i = i + 1;
        }
        true
    }
}

} // verus!

verus! {

// ---------------------------------------------------------------------------
// Drive activity
// ---------------------------------------------------------------------------

/// When a drive drives its place: never, or under an enable (`None` where
/// the enable is not known).
pub enum ActivityModel {
    Inactive,
    Active(Option<FormulaTree>),
}

/// The activity an enable list gives: none is inactive, one is that enable,
/// several are their disjunction.
pub open spec fn enables_activity(enables: Seq<FormulaTree>) -> ActivityModel {
    if enables.len() == 0 {
        ActivityModel::Inactive
    } else if enables.len() == 1 {
        ActivityModel::Active(Some(enables[0]))
    } else {
        ActivityModel::Active(Some(FormulaTree::Or(enables)))
    }
}

/// When a driven value leaves high impedance: `z` never; an unsupported
/// value under an unknown enable; a mux under its condition where the then
/// value is active and under its negation where the else value is; a select
/// always where its default is active, else under the guards of its active
/// arms; any other value always.
pub open spec fn activity_spec(e: EirExpr) -> ActivityModel
    decreases e,
{
    match e {
        EirExpr::HighZ => ActivityModel::Inactive,
        EirExpr::Unsupported { .. } => ActivityModel::Active(None),
        EirExpr::Mux { cond, then_value, else_value } => enables_activity(
            (if activity_spec(*then_value) is Inactive {
                Seq::empty()
            } else {
                seq![formula_of(*cond)]
            }) + (if activity_spec(*else_value) is Inactive {
                Seq::empty()
            } else {
                seq![negate(formula_of(*cond))]
            }),
        ),
        EirExpr::Select { arms, default, .. } => if activity_spec(*default) is Inactive {
            enables_activity(arm_enables(arms@))
        } else {
            ActivityModel::Active(Some(FormulaTree::True))
        },
        _ => ActivityModel::Active(Some(FormulaTree::True)),
    }
}

/// The guards of the arms whose values are active, in order.
pub open spec fn arm_enables(arms: Seq<EirSelectArm>) -> Seq<FormulaTree>
    decreases arms,
{
    if arms.len() == 0 {
        Seq::empty()
    } else {
        arm_enables(arms.drop_last()) + if activity_spec(arms.last().value) is Inactive {
            Seq::<FormulaTree>::empty()
        } else {
            seq![formula_of(arms.last().guard)]
        }
    }
}

/// A value is driven under some enable.
pub open spec fn is_active_spec(e: EirExpr) -> bool {
    !(activity_spec(e) is Inactive)
}

/// Two activities can hold at once: both are active, and unless both
/// enables are known, nothing more is asked; with both known, no proof
/// excludes them.
pub open spec fn activities_overlap(a: ActivityModel, b: ActivityModel) -> bool {
    match a {
        ActivityModel::Inactive => false,
        ActivityModel::Active(l) => match b {
            ActivityModel::Inactive => false,
            ActivityModel::Active(r) => match (l, r) {
                (Some(lf), Some(rf)) => !proves_exclusive(lf, rf),
                _ => true,
            },
        },
    }
}

/// How deep classification looks into a value: muxes and selects count
/// their branches.
pub open spec fn activity_size(e: EirExpr) -> nat
    decreases e,
{
    match e {
        EirExpr::Mux { cond, then_value, else_value } => 1 + activity_size(*then_value)
            + activity_size(*else_value),
        EirExpr::Select { arms, default, .. } => 1 + arms_size(arms@) + activity_size(*default),
        _ => 1,
    }
}

/// The sizes of the values of select arms, summed.
pub open spec fn arms_size(arms: Seq<EirSelectArm>) -> nat
    decreases arms,
{
    if arms.len() == 0 {
        0
    } else {
        arms_size(arms.drop_last()) + activity_size(arms.last().value)
    }
}

proof fn lemma_arms_size(arms: Seq<EirSelectArm>, i: int)
    requires
        0 <= i < arms.len(),
    ensures
        activity_size(arms[i].value) <= arms_size(arms),
    decreases arms.len(),
{
    if i < arms.len() - 1 {
        lemma_arms_size(arms.drop_last(), i);
    }
}

/// When a drive drives its place.
pub enum DriveActivity {
    Inactive,
    Active(Option<BoolFormula>),
}

impl View for DriveActivity {
    type V = ActivityModel;

    open spec fn view(&self) -> ActivityModel {
        match self {
            DriveActivity::Inactive => ActivityModel::Inactive,
            DriveActivity::Active(None) => ActivityModel::Active(None),
            DriveActivity::Active(Some(f)) => ActivityModel::Active(Some(tree_of(*f))),
        }
    }
}

impl DriveActivity {
    /// Two drives can be active at once.
    pub fn can_overlap(&self, other: &Self) -> (r: bool)
        ensures
            r == activities_overlap(self@, other@),
    {
        match self {
            DriveActivity::Inactive => false,
            DriveActivity::Active(l) => match other {
                DriveActivity::Inactive => false,
                DriveActivity::Active(r) => match l {
                    Some(lf) => match r {
                        Some(rf) => !BoolProof::new(lf, rf).is_mutually_exclusive(),
                        None => true,
                    },
                    None => true,
                },
            },
        }
    }
}

/// Classifies the value of one drive.
pub struct DriveActivityClassifier<'a> {
    pub value: Option<&'a EirExpr>,
}

/// The activity of a drive with the given value; a drive with no value is
/// always active.
pub open spec fn drive_activity_spec(value: Option<&EirExpr>) -> ActivityModel {
    match value {
        Some(v) => activity_spec(*v),
        None => ActivityModel::Active(Some(FormulaTree::True)),
    }
}

impl<'a> DriveActivityClassifier<'a> {
    /// A classifier for one drive value.
    pub fn new(value: Option<&'a EirExpr>) -> (r: Self)
        ensures
            r.value == value,
    {
        DriveActivityClassifier { value }
    }

    /// The activity of the drive.
    pub fn classify(&self) -> (r: DriveActivity)
        ensures
            r@ == drive_activity_spec(self.value),
    {
        match self.value {
            Some(v) => self.classify_expr(v),
            None => DriveActivity::Active(Some(BoolFormula::True)),
        }
    }

    /// The activity of a driven value.
    pub fn classify_expr(&self, expr: &EirExpr) -> (r: DriveActivity)
        ensures
            r@ == activity_spec(*expr),
        decreases activity_size(*expr), 1nat,
    {
        match expr {
            EirExpr::HighZ => DriveActivity::Inactive,
            EirExpr::Unsupported { .. } => DriveActivity::Active(None),
            EirExpr::Mux { cond, then_value, else_value } => self.classify_mux(
                cond,
                then_value,
                else_value,
            ),
            EirExpr::Select { arms, default, .. } => self.classify_select(arms.as_slice(), default),
            _ => DriveActivity::Active(Some(BoolFormula::True)),
        }
    }

    /// The activity of a mux: under its condition where the then value is
    /// active, under its negation where the else value is.
    pub fn classify_mux(&self, cond: &EirExpr, then_value: &EirExpr, else_value: &EirExpr) -> (r:
        DriveActivity)
        ensures
            r@ == enables_activity(
                (if activity_spec(*then_value) is Inactive {
                    Seq::empty()
                } else {
                    seq![formula_of(*cond)]
                }) + (if activity_spec(*else_value) is Inactive {
                    Seq::empty()
                } else {
                    seq![negate(formula_of(*cond))]
                }),
            ),
        decreases 1 + activity_size(*then_value) + activity_size(*else_value), 0nat,
    {
        let mut enables: Vec<BoolFormula> = Vec::new();
        let ghost first: Seq<FormulaTree> = if activity_spec(*then_value) is Inactive {
            Seq::empty()
        } else {
            seq![formula_of(*cond)]
        };
        if self.is_active_value(then_value) {
            enables.push(BoolFormula::from_expr(cond));
        }
        proof {
            lemma_trees_of(enables@);
            assert(trees_of(enables@) =~= first);
        }
        if self.is_active_value(else_value) {
            let ghost prev = enables@;
            enables.push(BoolFormula::from_expr(cond).negated());
            proof {
                assert(enables@.drop_last() =~= prev);
            }
        }
        proof {
            lemma_trees_of(enables@);
            assert(trees_of(enables@) =~= first + (if activity_spec(*else_value) is Inactive {
                Seq::empty()
            } else {
                seq![negate(formula_of(*cond))]
            }));
        }
        self.activity_from_enables(enables)
    }

    /// The activity of a select: always where its default is active, else
    /// under the guards of its active arms.
    pub fn classify_select(&self, arms: &[EirSelectArm], default: &EirExpr) -> (r: DriveActivity)
        ensures
            r@ == (if activity_spec(*default) is Inactive {
                enables_activity(arm_enables(arms@))
            } else {
                ActivityModel::Active(Some(FormulaTree::True))
            }),
        decreases 1 + arms_size(arms@) + activity_size(*default), 0nat,
    {
        if self.is_active_value(default) {
            return DriveActivity::Active(Some(BoolFormula::True));
        }
        let mut enables: Vec<BoolFormula> = Vec::new();
        let mut i: usize = 0;
        proof {
            assert(arms@.take(0) =~= Seq::<EirSelectArm>::empty());
            assert(trees_of(enables@) =~= Seq::<FormulaTree>::empty());
        }
        while i < arms.len()
            invariant
                i <= arms.len(),
                trees_of(enables@) == arm_enables(arms@.take(i as int)),
            decreases arms.len() - i,
        {
            proof {
                lemma_arms_size(arms@, i as int);
                assert(arms@.take(i + 1).drop_last() =~= arms@.take(i as int));
                assert(arms@.take(i + 1).last() == arms@[i as int]);
            }
            if self.is_active_value(&arms[i].value) {
                let ghost prev = enables@;
                enables.push(BoolFormula::from_expr(&arms[i].guard));
                proof {
                    assert(enables@.drop_last() =~= prev);
                }
            }
            i = i + 1;
        }
        proof {
            assert(arms@.take(arms.len() as int) =~= arms@);
        }
        self.activity_from_enables(enables)
    }

    /// The activity under a list of enables: none is inactive, one is that
    /// enable, several are their disjunction.
    pub fn activity_from_enables(&self, enables: Vec<BoolFormula>) -> (r: DriveActivity)
        ensures
            r@ == enables_activity(trees_of(enables@)),
    {
        proof {
            lemma_trees_of(enables@);
        }
        if enables.len() == 0 {
            DriveActivity::Inactive
        } else if enables.len() == 1 {
            let mut enables = enables;
            let only = enables.pop();
            match only {
                Some(f) => DriveActivity::Active(Some(f)),
                None => DriveActivity::Inactive,
            }
        } else {
            DriveActivity::Active(Some(BoolFormula::Or(enables)))
        }
    }

    /// The value is driven under some enable.
    pub fn is_active_value(&self, expr: &EirExpr) -> (r: bool)
        ensures
            r == is_active_spec(*expr),
        decreases activity_size(*expr), 2nat,
    {
        match self.classify_expr(expr) {
            DriveActivity::Inactive => false,
            _ => true,
        }
    }
}

} // verus!

verus! {

// ---------------------------------------------------------------------------
// Soundness of exclusion proofs
// ---------------------------------------------------------------------------

/// The truth of a formula when each atom takes the value `env` gives it.
pub open spec fn holds(t: FormulaTree, env: spec_fn(Seq<char>) -> bool) -> bool
    decreases t,
{
    match t {
        FormulaTree::True => true,
        FormulaTree::False => false,
        FormulaTree::Atom(name) => env(name),
        FormulaTree::Not(inner) => !holds(*inner, env),
        FormulaTree::And(items) => holds_all(items, env),
        FormulaTree::Or(items) => holds_any(items, env),
    }
}

/// Every formula of a list holds.
pub open spec fn holds_all(items: Seq<FormulaTree>, env: spec_fn(Seq<char>) -> bool) -> bool
    decreases items,
{
    if items.len() == 0 {
        true
    } else {
        holds(items[0], env) && holds_all(items.drop_first(), env)
    }
}

/// Some formula of a list holds.
pub open spec fn holds_any(items: Seq<FormulaTree>, env: spec_fn(Seq<char>) -> bool) -> bool
    decreases items,
{
    if items.len() == 0 {
        false
    } else {
        holds(items[0], env) || holds_any(items.drop_first(), env)
    }
}

proof fn lemma_holds_all_iff(items: Seq<FormulaTree>, env: spec_fn(Seq<char>) -> bool)
    ensures
        holds_all(items, env) <==> forall|i: int| 0 <= i < items.len() ==> #[trigger] holds(items[i], env),
    decreases items.len(),
{
    if items.len() > 0 {
        lemma_holds_all_iff(items.drop_first(), env);
        assert forall|i: int| 0 < i < items.len() implies items[i] == items.drop_first()[i - 1] by {}
        if !holds_all(items, env) && holds(items[0], env) {
            let j = choose|j: int| 0 <= j < items.len() - 1 && !holds(#[trigger] items.drop_first()[j], env);
            assert(items.drop_first()[j] == items[j + 1]);
        }
    }
}

proof fn lemma_holds_any_iff(items: Seq<FormulaTree>, env: spec_fn(Seq<char>) -> bool)
    ensures
        holds_any(items, env) <==> exists|i: int| 0 <= i < items.len() && #[trigger] holds(items[i], env),
    decreases items.len(),
{
    if items.len() > 0 {
        lemma_holds_any_iff(items.drop_first(), env);
        if holds_any(items.drop_first(), env) {
            let j = choose|j: int| 0 <= j < items.len() - 1 && #[trigger] holds(items.drop_first()[j], env);
            assert(items.drop_first()[j] == items[j + 1]);
        }
        if exists|i: int| 0 <= i < items.len() && #[trigger] holds(items[i], env) {
            let j = choose|j: int| 0 <= j < items.len() && #[trigger] holds(items[j], env);
            if j > 0 {
                assert(items.drop_first()[j - 1] == items[j]);
            }
        }
        if holds(items[0], env) {
            assert(exists|i: int| 0 <= i < items.len() && #[trigger] holds(items[i], env));
        }
    }
}

/// The negation of a formula holds exactly when the formula does not, under
/// every assignment of the atoms.
pub proof fn lemma_negation_evaluates(t: FormulaTree, env: spec_fn(Seq<char>) -> bool)
    ensures
        holds(negate(t), env) == !holds(t, env),
    decreases t,
{
    match t {
        FormulaTree::And(items) => {
            lemma_negate_all(items);
            lemma_holds_all_iff(items, env);
            lemma_holds_any_iff(negate_all(items), env);
            assert forall|i: int| 0 <= i < items.len() implies holds(#[trigger] negate_all(items)[i], env)
                == !holds(items[i], env) by {
                assert(decreases_to!(t => items[i]));
                lemma_negation_evaluates(items[i], env);
            }
            if holds_any(negate_all(items), env) {
                let j = choose|j: int| 0 <= j < negate_all(items).len() && #[trigger] holds(
                    negate_all(items)[j],
                    env,
                );
                assert(!holds(items[j], env));
            }
            if !holds_all(items, env) {
                let j = choose|j: int| 0 <= j < items.len() && !#[trigger] holds(items[j], env);
                assert(holds(negate_all(items)[j], env));
            }
        },
        FormulaTree::Or(items) => {
            lemma_negate_all(items);
            lemma_holds_any_iff(items, env);
            lemma_holds_all_iff(negate_all(items), env);
            assert forall|i: int| 0 <= i < items.len() implies holds(#[trigger] negate_all(items)[i], env)
                == !holds(items[i], env) by {
                assert(decreases_to!(t => items[i]));
                lemma_negation_evaluates(items[i], env);
            }
            if holds_any(items, env) {
                let j = choose|j: int| 0 <= j < items.len() && #[trigger] holds(items[j], env);
                assert(!holds(negate_all(items)[j], env));
            }
            if !holds_all(negate_all(items), env) {
                let j = choose|j: int| 0 <= j < negate_all(items).len() && !#[trigger] holds(
                    negate_all(items)[j],
                    env,
                );
                assert(holds(items[j], env));
            }
        },
        _ => {},
    }
}

/// The formula negates only atoms, as formulas read from enables do.
pub open spec fn negates_atoms_only(t: FormulaTree) -> bool
    decreases t,
{
    match t {
        FormulaTree::Not(inner) => *inner is Atom,
        FormulaTree::And(items) => all_negate_atoms_only(items),
        FormulaTree::Or(items) => all_negate_atoms_only(items),
        _ => true,
    }
}

/// Every formula of the list negates only atoms.
pub open spec fn all_negate_atoms_only(items: Seq<FormulaTree>) -> bool
    decreases items,
{
    if items.len() == 0 {
        true
    } else {
        all_negate_atoms_only(items.drop_last()) && negates_atoms_only(items.last())
    }
}

proof fn lemma_double_negation_all(items: Seq<FormulaTree>)
    requires
        all_negate_atoms_only(items),
    ensures
        negate_all(negate_all(items)) == items,
    decreases items,
{
    if items.len() > 0 {
        let init = items.drop_last();
        lemma_double_negation_all(init);
        lemma_double_negation(items.last());
        let n = negate_all(items);
        assert(n.drop_last() =~= negate_all(init));
        assert(items =~= init.push(items.last()));
    }
}

/// Negating a formula that negates only atoms twice gives it back.
pub proof fn lemma_double_negation(t: FormulaTree)
    requires
        negates_atoms_only(t),
    ensures
        negate(negate(t)) == t,
    decreases t,
{
    match t {
        FormulaTree::And(items) => {
            lemma_double_negation_all(items);
        },
        FormulaTree::Or(items) => {
            lemma_double_negation_all(items);
        },
        _ => {},
    }
}

proof fn lemma_negate_all_keeps_atoms_only(items: Seq<FormulaTree>)
    requires
        all_negate_atoms_only(items),
    ensures
        all_negate_atoms_only(negate_all(items)),
    decreases items,
{
    if items.len() > 0 {
        lemma_negate_all_keeps_atoms_only(items.drop_last());
        lemma_negate_keeps_atoms_only(items.last());
        assert(negate_all(items).drop_last() =~= negate_all(items.drop_last()));
    }
}

/// Negating a formula that negates only atoms gives one that negates only
/// atoms.
pub proof fn lemma_negate_keeps_atoms_only(t: FormulaTree)
    requires
        negates_atoms_only(t),
    ensures
        negates_atoms_only(negate(t)),
    decreases t,
{
    match t {
        FormulaTree::And(items) => lemma_negate_all_keeps_atoms_only(items),
        FormulaTree::Or(items) => lemma_negate_all_keeps_atoms_only(items),
        _ => {},
    }
}

/// The formula read from an enable negates only atoms.
pub proof fn lemma_enable_formula_negates_atoms_only(e: EirExpr)
    ensures
        negates_atoms_only(formula_of(e)),
    decreases e,
{
    match e {
        EirExpr::Unary { op, expr } => {
            if op == EirUnaryOp::Not {
                lemma_enable_formula_negates_atoms_only(*expr);
                lemma_negate_keeps_atoms_only(formula_of(*expr));
            }
        },
        EirExpr::Binary { op, left, right } => {
            lemma_enable_formula_negates_atoms_only(*left);
            lemma_enable_formula_negates_atoms_only(*right);
            let items = seq![formula_of(*left), formula_of(*right)];
            let first = seq![formula_of(*left)];
            assert(first.drop_last() =~= Seq::<FormulaTree>::empty());
            assert(all_negate_atoms_only(Seq::<FormulaTree>::empty()));
            assert(first.last() == formula_of(*left));
            assert(all_negate_atoms_only(first));
            assert(items.last() == formula_of(*right));
            assert(items.drop_last() =~= first);
            assert(all_negate_atoms_only(items));
        },
        _ => {},
    }
}

/// The truth of an enable expression: boolean constants, `!`, `&&` and `||`
/// have their boolean meaning, and every other expression takes the value
/// `env` gives its fact key.
pub open spec fn enable_holds(e: EirExpr, env: spec_fn(Seq<char>) -> bool) -> bool
    decreases e,
{
    match e {
        EirExpr::Bool(b) => b,
        EirExpr::Unary { op: EirUnaryOp::Not, expr } => !enable_holds(*expr, env),
        EirExpr::Binary { op: EirBinaryOp::AndAnd, left, right } => enable_holds(*left, env)
            && enable_holds(*right, env),
        EirExpr::Binary { op: EirBinaryOp::OrOr, left, right } => enable_holds(*left, env)
            || enable_holds(*right, env),
        _ => env(fact_key(e)),
    }
}

proof fn lemma_two_items(x: FormulaTree, y: FormulaTree, env: spec_fn(Seq<char>) -> bool)
    ensures
        holds_all(seq![x, y], env) == (holds(x, env) && holds(y, env)),
        holds_any(seq![x, y], env) == (holds(x, env) || holds(y, env)),
{
    let s = seq![x, y];
    let t = seq![y];
    let e = Seq::<FormulaTree>::empty();
    assert(s.drop_first() =~= t);
    assert(t.drop_first() =~= e);
    assert(s[0] == x);
    assert(t[0] == y);
    assert(holds_all(e, env));
    assert(!holds_any(e, env));
    assert(holds_all(t, env) == holds(y, env));
    assert(holds_any(t, env) == holds(y, env));
}

/// The formula read from an enable holds exactly when the enable does,
/// under every assignment of the atoms: `l && r` holds when both operands
/// do, `l || r` when either does, `!x` when `x` does not.
pub proof fn lemma_enable_formula_evaluates(e: EirExpr, env: spec_fn(Seq<char>) -> bool)
    ensures
        holds(formula_of(e), env) == enable_holds(e, env),
    decreases e,
{
    match e {
        EirExpr::Unary { op, expr } => {
            lemma_enable_formula_evaluates(*expr, env);
            if op == EirUnaryOp::Not {
                lemma_negation_evaluates(formula_of(*expr), env);
            }
        },
        EirExpr::Binary { op, left, right } => {
            lemma_enable_formula_evaluates(*left, env);
            lemma_enable_formula_evaluates(*right, env);
            lemma_two_items(formula_of(*left), formula_of(*right), env);
        },
        _ => {},
    }
}

/// Every literal of a term holds.
pub open spec fn term_holds(m: TermModel, env: spec_fn(Seq<char>) -> bool) -> bool {
    forall|k: Seq<char>| #[trigger] m.contains_key(k) ==> env(k) == m[k]
}

/// Some term of a list holds.
pub open spec fn any_holds(ts: Seq<TermModel>, env: spec_fn(Seq<char>) -> bool) -> bool {
    exists|i: int| 0 <= i < ts.len() && #[trigger] term_holds(ts[i], env)
}

proof fn lemma_any_concat(a: Seq<TermModel>, b: Seq<TermModel>, env: spec_fn(Seq<char>) -> bool)
    ensures
        any_holds(a + b, env) == (any_holds(a, env) || any_holds(b, env)),
{
    if any_holds(a + b, env) {
        let i = choose|i: int| 0 <= i < (a + b).len() && #[trigger] term_holds((a + b)[i], env);
        if i < a.len() {
            assert(term_holds(a[i], env));
        } else {
            assert(term_holds(b[i - a.len()], env));
        }
    }
    if any_holds(a, env) {
        let i = choose|i: int| 0 <= i < a.len() && #[trigger] term_holds(a[i], env);
        assert(term_holds((a + b)[i], env));
    }
    if any_holds(b, env) {
        let i = choose|i: int| 0 <= i < b.len() && #[trigger] term_holds(b[i], env);
        assert(term_holds((a + b)[i + a.len()], env));
    }
}

proof fn lemma_any_last(ts: Seq<TermModel>, env: spec_fn(Seq<char>) -> bool)
    requires
        ts.len() > 0,
    ensures
        any_holds(ts, env) == (any_holds(ts.drop_last(), env) || term_holds(ts.last(), env)),
{
    lemma_any_concat(ts.drop_last(), seq![ts.last()], env);
    assert(ts.drop_last() + seq![ts.last()] =~= ts);
    if term_holds(ts.last(), env) {
        assert(term_holds(seq![ts.last()][0], env));
    }
}

proof fn lemma_term_merge(l: TermModel, r: TermModel, env: spec_fn(Seq<char>) -> bool)
    ensures
        terms_contradict(l, r) ==> !(term_holds(l, env) && term_holds(r, env)),
        !terms_contradict(l, r) ==> (term_holds(l.union_prefer_right(r), env) == (term_holds(
            l,
            env,
        ) && term_holds(r, env))),
{
    if terms_contradict(l, r) {
        let k = choose|k: Seq<char>| l.contains_key(k) && r.contains_key(k) && l[k] != r[k];
        if term_holds(l, env) && term_holds(r, env) {
            assert(env(k) == l[k]);
            assert(env(k) == r[k]);
        }
    } else {
        let u = l.union_prefer_right(r);
        if term_holds(u, env) {
            assert forall|k: Seq<char>| #[trigger] l.contains_key(k) implies env(k) == l[k] by {
                assert(u.contains_key(k));
                if r.contains_key(k) {
                    assert(!(l.contains_key(k) && r.contains_key(k) && l[k] != r[k]));
                }
            }
            assert forall|k: Seq<char>| #[trigger] r.contains_key(k) implies env(k) == r[k] by {
                assert(u.contains_key(k));
            }
        }
        if term_holds(l, env) && term_holds(r, env) {
            assert forall|k: Seq<char>| #[trigger] u.contains_key(k) implies env(k) == u[k] by {
                if r.contains_key(k) {
                    assert(u[k] == r[k]);
                } else {
                    assert(l.contains_key(k));
                }
            }
        }
    }
}

proof fn lemma_merges_one(l: TermModel, rs: Seq<TermModel>, env: spec_fn(Seq<char>) -> bool)
    ensures
        any_holds(merges_one(l, rs), env) == (term_holds(l, env) && any_holds(rs, env)),
    decreases rs.len(),
{
    if rs.len() == 0 {
    } else {
        lemma_merges_one(l, rs.drop_last(), env);
        lemma_any_last(rs, env);
        lemma_term_merge(l, rs.last(), env);
        let tail: Seq<TermModel> = match term_merge(l, rs.last()) {
            Some(m) => seq![m],
            None => Seq::empty(),
        };
        lemma_any_concat(merges_one(l, rs.drop_last()), tail, env);
        match term_merge(l, rs.last()) {
            Some(m) => {
                if term_holds(m, env) {
                    assert(term_holds(tail[0], env));
                }
                if any_holds(tail, env) {
                    let i = choose|i: int| 0 <= i < tail.len() && #[trigger] term_holds(tail[i], env);
                    assert(i == 0);
                }
            },
            None => {
                assert(!any_holds(tail, env));
            },
        }
    }
}

proof fn lemma_merges(ls: Seq<TermModel>, rs: Seq<TermModel>, env: spec_fn(Seq<char>) -> bool)
    ensures
        any_holds(merges(ls, rs), env) == (any_holds(ls, env) && any_holds(rs, env)),
    decreases ls.len(),
{
    if ls.len() > 0 {
        lemma_merges(ls.drop_last(), rs, env);
        lemma_merges_one(ls.last(), rs, env);
        lemma_any_concat(merges(ls.drop_last(), rs), merges_one(ls.last(), rs), env);
        lemma_any_last(ls, env);
    }
}

proof fn lemma_dnf_sound(t: FormulaTree, env: spec_fn(Seq<char>) -> bool)
    ensures
        dnf(t) is Some ==> (holds(t, env) == any_holds(dnf(t)->0, env)),
    decreases t, 1nat,
{
    match t {
        FormulaTree::True => {
            let ts = dnf(t)->0;
            assert(term_holds(ts[0], env));
            assert(holds(t, env) == any_holds(dnf(t)->0, env));
        },
        FormulaTree::False => {
            assert(holds(t, env) == any_holds(dnf(t)->0, env));
        },
        FormulaTree::Atom(name) => {
            let m = Map::<Seq<char>, bool>::empty().insert(name, true);
            if env(name) {
                assert(term_holds(m, env));
                assert(term_holds(dnf(t)->0[0], env));
            }
            if any_holds(dnf(t)->0, env) {
                assert(term_holds(dnf(t)->0[0], env));
                assert(m.contains_key(name));
            }
            assert(holds(t, env) == any_holds(dnf(t)->0, env));
        },
        FormulaTree::Not(inner) => {
            match *inner {
                FormulaTree::Atom(name) => {
                    let m = Map::<Seq<char>, bool>::empty().insert(name, false);
                    assert(holds(*inner, env) == env(name));
                    if !env(name) {
                        assert(term_holds(m, env));
                        assert(term_holds(dnf(t)->0[0], env));
                    }
                    if any_holds(dnf(t)->0, env) {
                        assert(term_holds(dnf(t)->0[0], env));
                        assert(m.contains_key(name));
                    }
                    assert(holds(t, env) == any_holds(dnf(t)->0, env));
                },
                _ => {
                    assert(dnf(t) is None);
                },
            }
        },
        FormulaTree::And(items) => {
            let one = seq![Map::<Seq<char>, bool>::empty()];
            lemma_and_fold(items, one, env);
            assert(term_holds(one[0], env));
            assert(dnf(t) is Some ==> holds(t, env) == any_holds(dnf(t)->0, env));
        },
        FormulaTree::Or(items) => {
            lemma_or_fold(items, Seq::empty(), env);
            assert(dnf(t) is Some ==> holds(t, env) == any_holds(dnf(t)->0, env));
        },
    }
}

proof fn lemma_and_fold(
    items: Seq<FormulaTree>,
    product: Seq<TermModel>,
    env: spec_fn(Seq<char>) -> bool,
)
    ensures
        and_fold(items, product) is Some ==> (any_holds(and_fold(items, product)->0, env) == (
        any_holds(product, env) && holds_all(items, env))),
    decreases items, 0nat,
{
    if items.len() > 0 {
        lemma_dnf_sound(items[0], env);
        match dnf(items[0]) {
            Some(ts) => match and_spec(product, ts) {
                Some(p) => {
                    lemma_merges(product, ts, env);
                    lemma_and_fold(items.drop_first(), p, env);
                },
                None => {},
            },
            None => {},
        }
    }
}

proof fn lemma_or_fold(items: Seq<FormulaTree>, acc: Seq<TermModel>, env: spec_fn(Seq<char>) -> bool)
    ensures
        or_fold(items, acc) is Some ==> (any_holds(or_fold(items, acc)->0, env) == (any_holds(
            acc,
            env,
        ) || holds_any(items, env))),
    decreases items, 0nat,
{
    if items.len() > 0 {
        lemma_dnf_sound(items[0], env);
        match dnf(items[0]) {
            Some(ts) => {
                if acc.len() + ts.len() <= max_terms() {
                    lemma_any_concat(acc, ts, env);
                    lemma_or_fold(items.drop_first(), acc + ts, env);
                }
            },
            None => {},
        }
    }
}

/// An exclusion proof is sound: where the check finds two enables mutually
/// exclusive, no assignment of the atoms makes both true.
pub proof fn lemma_exclusive_enables_never_both_hold(
    l: FormulaTree,
    r: FormulaTree,
    env: spec_fn(Seq<char>) -> bool,
)
    requires
        proves_exclusive(l, r),
    ensures
        !(holds(l, env) && holds(r, env)),
{
    lemma_dnf_sound(l, env);
    lemma_dnf_sound(r, env);
    let lt = dnf(l)->0;
    let rt = dnf(r)->0;
    if holds(l, env) && holds(r, env) {
        let i = choose|i: int| 0 <= i < lt.len() && #[trigger] term_holds(lt[i], env);
        let j = choose|j: int| 0 <= j < rt.len() && #[trigger] term_holds(rt[j], env);
        assert(terms_contradict(lt[i], rt[j]));
        lemma_term_merge(lt[i], rt[j], env);
    }
}

/// Drives found unable to overlap never drive at once: one of them is never
/// active, or both have known enables that no assignment makes true together.
pub proof fn lemma_non_overlapping_drives_exclude(
    a: ActivityModel,
    b: ActivityModel,
    env: spec_fn(Seq<char>) -> bool,
)
    requires
        !activities_overlap(a, b),
    ensures
        a is Inactive || b is Inactive || (a->0 is Some && b->0 is Some && !(holds(a->0->0, env)
            && holds(b->0->0, env))),
{
    if !(a is Inactive) && !(b is Inactive) {
        lemma_exclusive_enables_never_both_hold(a->0->0, b->0->0, env);
    }
}

/// Whether two drives can overlap does not depend on their order.
pub proof fn lemma_overlap_symmetric(a: ActivityModel, b: ActivityModel)
    ensures
        activities_overlap(a, b) == activities_overlap(b, a),
{
    if !(a is Inactive) && !(b is Inactive) && a->0 is Some && b->0 is Some {
        let l = a->0->0;
        let r = b->0->0;
        if proves_exclusive(l, r) {
            let lt = dnf(l)->0;
            let rt = dnf(r)->0;
            assert forall|i: int, j: int| 0 <= i < rt.len() && 0 <= j < lt.len() implies terms_contradict(
                #[trigger] rt[i],
                #[trigger] lt[j],
            ) by {
                assert(terms_contradict(lt[j], rt[i]));
                let k = choose|k: Seq<char>| lt[j].contains_key(k) && rt[i].contains_key(k) && lt[j][k] != rt[i][k];
                assert(rt[i].contains_key(k) && lt[j].contains_key(k) && rt[i][k] != lt[j][k]);
            }
        }
        if proves_exclusive(r, l) {
            let lt = dnf(l)->0;
            let rt = dnf(r)->0;
            assert forall|i: int, j: int| 0 <= i < lt.len() && 0 <= j < rt.len() implies terms_contradict(
                #[trigger] lt[i],
                #[trigger] rt[j],
            ) by {
                assert(terms_contradict(rt[j], lt[i]));
                let k = choose|k: Seq<char>| rt[j].contains_key(k) && lt[i].contains_key(k) && rt[j][k] != lt[i][k];
                assert(lt[i].contains_key(k) && rt[j].contains_key(k) && lt[i][k] != rt[j][k]);
            }
        }
    }
}

} // verus!
