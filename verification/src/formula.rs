//! Linear bound formulas: integer combinations of symbolic terms.
use crate::expr::{EirBinaryOp, EirExpr, EirUnaryOp};
use crate::symbol::{
    join_texts, join_with, lemma_product_text_commutes, normalize_str, normalized, product,
    product_text, texts,
};
use crate::text::{
    chars_eq, chars_lt, i128_digits, int_digits, lemma_lt_irreflexive, lemma_lt_total,
    lemma_lt_transitive, push_all, seq_lt, sub_chars,
};
use vstd::prelude::*;

verus! {

// ---------------------------------------------------------------------------
// The model
// ---------------------------------------------------------------------------

/// The value of a bound formula: terms with their coefficients, listed in
/// the order of their text, and a constant.
pub struct FormulaModel {
    pub terms: Seq<(Seq<char>, int)>,
    pub constant: int,
}

/// The value fits in a signed 128-bit integer.
pub open spec fn in_i128(x: int) -> bool {
    i128::MIN <= x <= i128::MAX
}

/// Terms are listed in strictly increasing order of text, no coefficient is
/// zero, and every number fits in 128 bits.
pub open spec fn fm_wf(m: FormulaModel) -> bool {
    &&& in_i128(m.constant)
    &&& forall|i: int| 0 <= i < m.terms.len() ==> #[trigger] m.terms[i].1 != 0 && in_i128(m.terms[i].1)
    &&& forall|i: int, j: int|
        0 <= i < j < m.terms.len() ==> seq_lt(#[trigger] m.terms[i].0, #[trigger] m.terms[j].0)
}

/// The terms list a term with this text.
pub open spec fn lists_term(ts: Seq<(Seq<char>, int)>, k: Seq<char>) -> bool {
    exists|i: int| 0 <= i < ts.len() && #[trigger] ts[i].0 == k
}

/// A position at which the terms list a term.
pub open spec fn listed_index(ts: Seq<(Seq<char>, int)>, k: Seq<char>) -> int {
    choose|i: int| 0 <= i < ts.len() && #[trigger] ts[i].0 == k
}

/// The formula has a term with this text.
pub open spec fn has_term(m: FormulaModel, k: Seq<char>) -> bool {
    lists_term(m.terms, k)
}

/// A position at which the formula lists a term.
pub open spec fn term_index(m: FormulaModel, k: Seq<char>) -> int {
    listed_index(m.terms, k)
}

/// The coefficient of a term; zero where the formula has no such term.
pub open spec fn coeff(m: FormulaModel, k: Seq<char>) -> int {
    if has_term(m, k) {
        m.terms[term_index(m, k)].1
    } else {
        0
    }
}

/// Two formulas have the same constant and the same coefficient for every
/// term.
pub open spec fn same_value(a: FormulaModel, b: FormulaModel) -> bool {
    a.constant == b.constant && forall|k: Seq<char>| #[trigger] coeff(a, k) == coeff(b, k)
}

/// The formula `0`.
pub open spec fn zero_model() -> FormulaModel {
    FormulaModel { terms: Seq::empty(), constant: 0 }
}

/// A constant formula.
pub open spec fn constant_model(c: int) -> FormulaModel {
    FormulaModel { terms: Seq::empty(), constant: c }
}

/// The formula consisting of one symbol.
pub open spec fn symbol_model(k: Seq<char>) -> FormulaModel {
    FormulaModel { terms: seq![(k, 1int)], constant: 0 }
}

/// The formula is zero.
pub open spec fn is_zero_model(m: FormulaModel) -> bool {
    m.constant == 0 && m.terms.len() == 0
}

/// The sum of two formulas fits in 128 bits, constant and coefficient by
/// coefficient.
pub open spec fn sum_fits(a: FormulaModel, b: FormulaModel) -> bool {
    in_i128(a.constant + b.constant) && forall|k: Seq<char>|
        #[trigger] in_i128(coeff(a, k) + coeff(b, k))
}

/// `a - b` fits in 128 bits, and no coefficient of `b` is the one value
/// whose negation does not fit.
pub open spec fn difference_fits(a: FormulaModel, b: FormulaModel) -> bool {
    in_i128(a.constant - b.constant) && forall|k: Seq<char>|
        #[trigger] coeff(b, k) != i128::MIN && in_i128(coeff(a, k) - coeff(b, k))
}

/// `m` is the sum of `a` and `b`.
pub open spec fn is_sum(m: FormulaModel, a: FormulaModel, b: FormulaModel) -> bool {
    fm_wf(m) && m.constant == a.constant + b.constant && forall|k: Seq<char>|
        #[trigger] coeff(m, k) == coeff(a, k) + coeff(b, k)
}

/// `m` is `a` minus `b`.
pub open spec fn is_difference(m: FormulaModel, a: FormulaModel, b: FormulaModel) -> bool {
    fm_wf(m) && m.constant == a.constant - b.constant && forall|k: Seq<char>|
        #[trigger] coeff(m, k) == coeff(a, k) - coeff(b, k)
}

/// The sum of two formulas, when it fits.
pub open spec fn model_add(a: FormulaModel, b: FormulaModel) -> Option<FormulaModel> {
    if sum_fits(a, b) {
        Some(choose|m: FormulaModel| is_sum(m, a, b))
    } else {
        None
    }
}

/// The difference of two formulas, when it fits.
pub open spec fn model_sub(a: FormulaModel, b: FormulaModel) -> Option<FormulaModel> {
    if difference_fits(a, b) {
        Some(choose|m: FormulaModel| is_difference(m, a, b))
    } else {
        None
    }
}

/// Every number of the formula times `v` fits in 128 bits.
pub open spec fn scale_fits(m: FormulaModel, v: int) -> bool {
    in_i128(m.constant * v) && forall|i: int|
        0 <= i < m.terms.len() ==> #[trigger] in_i128(m.terms[i].1 * v)
}

/// The formula times a number, when it fits.
pub open spec fn model_scale(m: FormulaModel, v: int) -> Option<FormulaModel> {
    if scale_fits(m, v) {
        Some(
            FormulaModel {
                terms: if v == 0 {
                    Seq::empty()
                } else {
                    m.terms.map_values(|p: (Seq<char>, int)| (p.0, p.1 * v))
                },
                constant: m.constant * v,
            },
        )
    } else {
        None
    }
}

/// The text of one term: the symbol, `-symbol`, or `coefficient*symbol`.
pub open spec fn term_text(k: Seq<char>, c: int) -> Seq<char> {
    if c == 1 {
        k
    } else if c == -1 {
        seq!['-'] + k
    } else {
        int_digits(c) + seq!['*'] + k
    }
}

/// The texts of the terms, in order.
pub open spec fn term_texts(m: FormulaModel) -> Seq<Seq<char>> {
    m.terms.map_values(|p: (Seq<char>, int)| term_text(p.0, p.1))
}

/// The canonical text of a formula: its terms in order, then the constant
/// when it is not zero or there are no terms, joined by `+`.
pub open spec fn canonical_text(m: FormulaModel) -> Seq<char> {
    let parts = term_texts(m);
    if m.constant != 0 || parts.len() == 0 {
        join_with(parts.push(int_digits(m.constant)), '+')
    } else {
        join_with(parts, '+')
    }
}

/// The product of two formulas: zero when either is zero, a scaled formula
/// when either is a constant, and otherwise the single symbol that names the
/// product of their canonical texts.
pub open spec fn model_multiply(a: FormulaModel, b: FormulaModel) -> Option<FormulaModel> {
    if is_zero_model(a) || is_zero_model(b) {
        Some(zero_model())
    } else if a.terms.len() == 0 {
        model_scale(b, a.constant)
    } else if b.terms.len() == 0 {
        model_scale(a, b.constant)
    } else {
        Some(symbol_model(product_text(canonical_text(a), canonical_text(b))))
    }
}

/// `a` exceeds `b` for every non-negative value of the symbols: the
/// difference has a positive constant and no negative coefficient.
pub open spec fn model_greater(a: FormulaModel, b: FormulaModel) -> bool {
    match model_sub(a, b) {
        Some(d) => d.constant > 0 && forall|i: int| 0 <= i < d.terms.len() ==> #[trigger] d.terms[i].1 >= 0,
        None => false,
    }
}

/// The value of a formula that is a constant fitting in 64 unsigned bits.
pub open spec fn model_constant_value(m: FormulaModel) -> Option<u64> {
    if m.terms.len() == 0 && 0 <= m.constant <= u64::MAX {
        Some(m.constant as u64)
    } else {
        None
    }
}

// ---------------------------------------------------------------------------
// Lemmas
// ---------------------------------------------------------------------------

/// The coefficient of a listed term is the one listed with it.
pub proof fn lemma_coeff_index(m: FormulaModel, i: int)
    requires
        fm_wf(m),
        0 <= i < m.terms.len(),
    ensures
        coeff(m, m.terms[i].0) == m.terms[i].1,
{
    let k = m.terms[i].0;
    assert(has_term(m, k));
    let j = term_index(m, k);
    if j != i {
        if j < i {
            assert(seq_lt(m.terms[j].0, m.terms[i].0));
        } else {
            assert(seq_lt(m.terms[i].0, m.terms[j].0));
        }
        lemma_lt_irreflexive(k);
    }
}

/// Every coefficient of a well-formed formula fits in 128 bits.
pub proof fn lemma_coeff_fits(m: FormulaModel, k: Seq<char>)
    requires
        fm_wf(m),
    ensures
        in_i128(coeff(m, k)),
        has_term(m, k) <==> coeff(m, k) != 0,
{
    if has_term(m, k) {
        let j = choose|j: int| 0 <= j < m.terms.len() && #[trigger] m.terms[j].0 == k;
        lemma_coeff_index(m, j);
    }
}

proof fn lemma_drop_first(m: FormulaModel, k: Seq<char>)
    requires
        fm_wf(m),
        m.terms.len() > 0,
    ensures
        fm_wf(FormulaModel { terms: m.terms.drop_first(), constant: m.constant }),
        coeff(FormulaModel { terms: m.terms.drop_first(), constant: m.constant }, k) == if k
            == m.terms[0].0 {
            0
        } else {
            coeff(m, k)
        },
{
    let t = FormulaModel { terms: m.terms.drop_first(), constant: m.constant };
    assert forall|i: int, j: int| 0 <= i < j < t.terms.len() implies seq_lt(
        #[trigger] t.terms[i].0,
        #[trigger] t.terms[j].0,
    ) by {
        assert(t.terms[i] == m.terms[i + 1] && t.terms[j] == m.terms[j + 1]);
    }
    assert forall|i: int| 0 <= i < t.terms.len() implies #[trigger] t.terms[i].1 != 0 && in_i128(
        t.terms[i].1,
    ) by {
        assert(t.terms[i] == m.terms[i + 1]);
    }
    if k == m.terms[0].0 {
        if has_term(t, k) {
            let j = choose|j: int| 0 <= j < t.terms.len() && #[trigger] t.terms[j].0 == k;
            assert(t.terms[j] == m.terms[j + 1]);
            assert(seq_lt(m.terms[0].0, m.terms[j + 1].0));
            lemma_lt_irreflexive(k);
        }
    } else {
        if has_term(t, k) {
            let j = choose|j: int| 0 <= j < t.terms.len() && #[trigger] t.terms[j].0 == k;
            assert(t.terms[j] == m.terms[j + 1]);
            lemma_coeff_index(t, j);
            lemma_coeff_index(m, j + 1);
        } else if has_term(m, k) {
            let j = choose|j: int| 0 <= j < m.terms.len() && #[trigger] m.terms[j].0 == k;
            assert(j != 0);
            assert(t.terms[j - 1] == m.terms[j]);
        }
    }
}

/// Two well-formed formulas with the same value are the same formula.
pub proof fn lemma_same_value_unique(a: FormulaModel, b: FormulaModel)
    requires
        fm_wf(a),
        fm_wf(b),
        same_value(a, b),
    ensures
        a == b,
    decreases a.terms.len(),
{
    if a.terms.len() == 0 {
        if b.terms.len() > 0 {
            lemma_coeff_index(b, 0);
            lemma_coeff_fits(a, b.terms[0].0);
            assert(coeff(a, b.terms[0].0) == coeff(b, b.terms[0].0));
        }
        assert(a.terms =~= b.terms);
    } else if b.terms.len() == 0 {
        lemma_coeff_index(a, 0);
        lemma_coeff_fits(b, a.terms[0].0);
        assert(coeff(a, a.terms[0].0) == coeff(b, a.terms[0].0));
    } else {
        let ka = a.terms[0].0;
        let kb = b.terms[0].0;
        lemma_coeff_index(a, 0);
        lemma_coeff_index(b, 0);
        lemma_coeff_fits(a, kb);
        lemma_coeff_fits(b, ka);
        assert(coeff(a, ka) == coeff(b, ka));
        assert(coeff(a, kb) == coeff(b, kb));
        if ka != kb {
            let i = choose|i: int| 0 <= i < a.terms.len() && #[trigger] a.terms[i].0 == kb;
            let j = choose|j: int| 0 <= j < b.terms.len() && #[trigger] b.terms[j].0 == ka;
            assert(i != 0 && j != 0);
            assert(seq_lt(a.terms[0].0, a.terms[i].0));
            assert(seq_lt(b.terms[0].0, b.terms[j].0));
            lemma_lt_transitive(ka, kb, ka);
            lemma_lt_irreflexive(ka);
        }
        let ta = FormulaModel { terms: a.terms.drop_first(), constant: a.constant };
        let tb = FormulaModel { terms: b.terms.drop_first(), constant: b.constant };
        assert forall|k: Seq<char>| #[trigger] coeff(ta, k) == coeff(tb, k) by {
            lemma_drop_first(a, k);
            lemma_drop_first(b, k);
        }
        lemma_drop_first(a, ka);
        lemma_drop_first(b, ka);
        lemma_same_value_unique(ta, tb);
        assert(a.terms =~= seq![a.terms[0]] + ta.terms);
        assert(b.terms =~= seq![b.terms[0]] + tb.terms);
    }
}


/// The formula made of the first `i` terms of `m`, without constant.
pub open spec fn prefix_model(m: FormulaModel, i: int) -> FormulaModel {
    FormulaModel { terms: m.terms.take(i), constant: 0 }
}

proof fn lemma_prefix_wf(m: FormulaModel, i: int)
    requires
        fm_wf(m),
        0 <= i <= m.terms.len(),
    ensures
        fm_wf(prefix_model(m, i)),
{
    let p = prefix_model(m, i);
    assert forall|a: int, b: int| 0 <= a < b < p.terms.len() implies seq_lt(
        #[trigger] p.terms[a].0,
        #[trigger] p.terms[b].0,
    ) by {
        assert(p.terms[a] == m.terms[a] && p.terms[b] == m.terms[b]);
    }
    assert forall|a: int| 0 <= a < p.terms.len() implies #[trigger] p.terms[a].1 != 0 && in_i128(
        p.terms[a].1,
    ) by {
        assert(p.terms[a] == m.terms[a]);
    }
}

proof fn lemma_prefix_step(m: FormulaModel, i: int, k: Seq<char>)
    requires
        fm_wf(m),
        0 <= i < m.terms.len(),
    ensures
        coeff(prefix_model(m, i + 1), k) == coeff(prefix_model(m, i), k) + if k == m.terms[i].0 {
            m.terms[i].1
        } else {
            0
        },
        k == m.terms[i].0 ==> coeff(prefix_model(m, i), k) == 0,
        k == m.terms[i].0 ==> coeff(m, k) == m.terms[i].1,
{
    let p = prefix_model(m, i);
    let q = prefix_model(m, i + 1);
    lemma_prefix_wf(m, i);
    lemma_prefix_wf(m, i + 1);
    lemma_coeff_index(m, i);
    assert(q.terms[i] == m.terms[i]);
    lemma_coeff_index(q, i);
    if has_term(p, m.terms[i].0) {
        let j = term_index(p, m.terms[i].0);
        assert(p.terms[j] == m.terms[j]);
        assert(seq_lt(m.terms[j].0, m.terms[i].0));
        lemma_lt_irreflexive(m.terms[i].0);
    }
    if k != m.terms[i].0 {
        if has_term(q, k) {
            let j = term_index(q, k);
            assert(j < i);
            assert(q.terms[j] == p.terms[j]);
            lemma_coeff_index(q, j);
            lemma_coeff_index(p, j);
        } else if has_term(p, k) {
            let j = term_index(p, k);
            assert(q.terms[j] == p.terms[j]);
        }
    }
}

proof fn lemma_prefix_full(m: FormulaModel, k: Seq<char>)
    ensures
        coeff(prefix_model(m, m.terms.len() as int), k) == coeff(m, k),
{
    assert(prefix_model(m, m.terms.len() as int).terms =~= m.terms);
}

proof fn lemma_prefix_empty(m: FormulaModel, k: Seq<char>)
    ensures
        coeff(prefix_model(m, 0), k) == 0,
{
}

proof fn lemma_sum_is(m: FormulaModel, a: FormulaModel, b: FormulaModel)
    requires
        is_sum(m, a, b),
    ensures
        (choose|x: FormulaModel| is_sum(x, a, b)) == m,
{
    let x = choose|x: FormulaModel| is_sum(x, a, b);
    assert(same_value(x, m));
    lemma_same_value_unique(x, m);
}

proof fn lemma_difference_is(m: FormulaModel, a: FormulaModel, b: FormulaModel)
    requires
        is_difference(m, a, b),
    ensures
        (choose|x: FormulaModel| is_difference(x, a, b)) == m,
{
    let x = choose|x: FormulaModel| is_difference(x, a, b);
    assert(same_value(x, m));
    lemma_same_value_unique(x, m);
}

/// Subtracting `b` from the sum of `a` and `b` gives `a` back, wherever no
/// coefficient of `b` is the one value whose negation does not fit.
pub proof fn lemma_subtract_undoes_add(a: FormulaModel, b: FormulaModel, s: FormulaModel)
    requires
        fm_wf(a),
        fm_wf(b),
        forall|k: Seq<char>| #[trigger] coeff(b, k) != i128::MIN,
        is_sum(s, a, b),
    ensures
        model_add(a, b) == Some(s),
        model_sub(s, b) == Some(a),
{
    assert forall|k: Seq<char>| #[trigger] in_i128(coeff(a, k) + coeff(b, k)) by {
        lemma_coeff_fits(s, k);
    }
    assert(sum_fits(a, b));
    lemma_sum_is(s, a, b);
    assert forall|k: Seq<char>| #[trigger] coeff(b, k) != i128::MIN && in_i128(coeff(s, k) - coeff(b, k)) by {
        lemma_coeff_fits(a, k);
        assert(coeff(s, k) - coeff(b, k) == coeff(a, k));
    }
    assert(difference_fits(s, b));
    assert(is_difference(a, s, b));
    lemma_difference_is(a, s, b);
}

proof fn lemma_constants_multiply(a: FormulaModel, b: FormulaModel)
    requires
        a.terms.len() == 0,
        b.terms.len() == 0,
    ensures
        model_scale(b, a.constant) == model_scale(a, b.constant),
{
    assert(a.constant * b.constant == b.constant * a.constant) by (nonlinear_arith);
    if scale_fits(b, a.constant) {
        let x = model_scale(b, a.constant)->0;
        let y = model_scale(a, b.constant)->0;
        assert(x.terms =~= y.terms);
    }
}

/// Multiplying formulas does not depend on their order. A zero factor
/// gives zero; a constant factor scales the other formula; two formulas
/// with symbols give the one symbol that names the product of their texts.
pub proof fn lemma_multiply_laws(a: FormulaModel, b: FormulaModel)
    requires
        fm_wf(a),
        fm_wf(b),
    ensures
        model_multiply(a, b) == model_multiply(b, a),
        is_zero_model(a) || is_zero_model(b) ==> model_multiply(a, b) == Some(zero_model()),
        !is_zero_model(a) && !is_zero_model(b) && b.terms.len() == 0 ==> model_multiply(a, b)
            == model_scale(a, b.constant),
        a.terms.len() > 0 && b.terms.len() > 0 ==> model_multiply(a, b) == Some(
            symbol_model(product_text(canonical_text(a), canonical_text(b))),
        ),
{
    if a.terms.len() == 0 && b.terms.len() == 0 {
        lemma_constants_multiply(a, b);
    }
    if a.terms.len() > 0 && b.terms.len() > 0 {
        lemma_product_text_commutes(canonical_text(a), canonical_text(b));
    }
}

// ---------------------------------------------------------------------------
// Implementation
// ---------------------------------------------------------------------------

/// A linear bound formula: symbolic terms with integer coefficients, plus a
/// constant.
#[derive(Debug)]
pub struct DriverBoundFormula {
    terms: Vec<(Vec<char>, i128)>,
    constant: i128,
}

/// The model of a list of terms.
pub open spec fn terms_model(ts: Seq<(Vec<char>, i128)>) -> Seq<(Seq<char>, int)> {
    ts.map_values(|p: (Vec<char>, i128)| (p.0@, p.1 as int))
}

impl View for DriverBoundFormula {
    type V = FormulaModel;

    closed spec fn view(&self) -> FormulaModel {
        FormulaModel { terms: terms_model(self.terms@), constant: self.constant as int }
    }
}

/// The model of an optional formula.
pub open spec fn opt_model(f: Option<DriverBoundFormula>) -> Option<FormulaModel> {
    match f {
        Some(f) => Some(f@),
        None => None,
    }
}

fn copy_chars(v: &Vec<char>) -> (r: Vec<char>)
    ensures
        r@ == v@,
{
    sub_chars(v, 0, v.len())
}

impl DriverBoundFormula {
    proof fn lemma_view(&self)
        ensures
            self@.terms.len() == self.terms@.len(),
            self@.constant == self.constant as int,
            forall|i: int|
                0 <= i < self.terms@.len() ==> #[trigger] self@.terms[i] == (
                    self.terms@[i].0@,
                    self.terms@[i].1 as int,
                ),
    {
    }

    /// A copy of this formula.
    pub fn copy(&self) -> (r: Self)
        ensures
            r@ == self@,
    {
        let mut terms: Vec<(Vec<char>, i128)> = Vec::new();
        let mut i: usize = 0;
        while i < self.terms.len()
            invariant
                i <= self.terms.len(),
                terms_model(terms@) == terms_model(self.terms@).take(i as int),
            decreases self.terms.len() - i,
        {
            let key = copy_chars(&self.terms[i].0);
            let ghost prev = terms@;
            terms.push((key, self.terms[i].1));
            proof {
                assert(terms@ == prev.push((key, self.terms@[i as int].1)));
                assert(terms_model(terms@) =~= terms_model(prev).push(
                    (self.terms@[i as int].0@, self.terms@[i as int].1 as int),
                ));
            }
            i = i + 1;
            assert(terms_model(terms@) =~= terms_model(self.terms@).take(i as int));
        }
        assert(terms_model(self.terms@).take(self.terms.len() as int) =~= terms_model(self.terms@));
        DriverBoundFormula { terms, constant: self.constant }
    }

    /// The formula `0`.
    pub fn zero() -> (r: Self)
        ensures
            r@ == zero_model(),
            fm_wf(r@),
    {
        let r = DriverBoundFormula { terms: Vec::new(), constant: 0 };
        assert(r@.terms =~= Seq::<(Seq<char>, int)>::empty());
        r
    }

    /// A constant formula.
    pub fn from_constant(value: u64) -> (r: Self)
        ensures
            r@ == constant_model(value as int),
            fm_wf(r@),
    {
        let r = DriverBoundFormula { terms: Vec::new(), constant: value as i128 };
        assert(r@.terms =~= Seq::<(Seq<char>, int)>::empty());
        r
    }

    /// The formula consisting of one symbol.
    pub fn from_symbol(symbol: Vec<char>) -> (r: Self)
        ensures
            r@ == symbol_model(symbol@),
            fm_wf(r@),
    {
        let ghost k = symbol@;
        let mut terms: Vec<(Vec<char>, i128)> = Vec::new();
        terms.push((symbol, 1));
        let r = DriverBoundFormula { terms, constant: 0 };
        assert(r@.terms =~= seq![(k, 1int)]);
        r
    }

    /// The value, when the formula is a constant that fits in 64 unsigned
    /// bits.
    pub fn constant_value(&self) -> (r: Option<u64>)
        ensures
            r == model_constant_value(self@),
    {
        if self.terms.len() > 0 || self.constant < 0 {
            return None;
        }
        if self.constant <= u64::MAX as i128 {
            Some(self.constant as u64)
        } else {
            None
        }
    }

    /// The formula is zero.
    pub fn is_zero(&self) -> (r: bool)
        ensures
            r == is_zero_model(self@),
    {
        self.constant == 0 && self.terms.len() == 0
    }

    /// The value, when the formula has no symbolic term.
    pub fn signed_constant(&self) -> (r: Option<i128>)
        ensures
            r is Some <==> self@.terms.len() == 0,
            r matches Some(c) ==> c as int == self@.constant,
    {
        if self.terms.len() == 0 {
            Some(self.constant)
        } else {
            None
        }
    }

    /// Whether two formulas are the same.
    pub fn same_as(&self, other: &Self) -> (r: bool)
        ensures
            r == (self@ == other@),
    {
        if self.constant != other.constant || self.terms.len() != other.terms.len() {
            proof {
                if self@ == other@ {
                    assert(self@.terms.len() == other@.terms.len());
                }
            }
            return false;
        }
        let mut i: usize = 0;
        while i < self.terms.len()
            invariant
                i <= self.terms.len(),
                self.terms.len() == other.terms.len(),
                forall|j: int| 0 <= j < i ==> #[trigger] self@.terms[j] == other@.terms[j],
            decreases self.terms.len() - i,
        {
            if !chars_eq(&self.terms[i].0, &other.terms[i].0) || self.terms[i].1 != other.terms[i].1 {
                proof {
                    if self@ == other@ {
                        assert(self@.terms[i as int] == other@.terms[i as int]);
                    }
                }
                return false;
            }
            i = i + 1;
        }
        assert(self@.terms =~= other@.terms);
        true
    }

    /// The position of the first term whose text is not below `key`, and
    /// whether that term has text `key`.
    fn locate(&self, key: &Vec<char>) -> (r: (usize, bool))
        requires
            fm_wf(self@),
        ensures
            r.0 <= self@.terms.len(),
            forall|j: int| 0 <= j < r.0 ==> seq_lt(#[trigger] self@.terms[j].0, key@),
            r.0 < self@.terms.len() ==> !seq_lt(self@.terms[r.0 as int].0, key@),
            r.1 == (r.0 < self@.terms.len() && self@.terms[r.0 as int].0 == key@),
            r.1 ==> coeff(self@, key@) == self@.terms[r.0 as int].1,
            !r.1 ==> !has_term(self@, key@),
    {
        let mut p: usize = 0;
        while p < self.terms.len() && chars_lt(&self.terms[p].0, key)
            invariant
                p <= self.terms.len(),
                forall|j: int| 0 <= j < p ==> seq_lt(#[trigger] self@.terms[j].0, key@),
            decreases self.terms.len() - p,
        {
            p = p + 1;
        }
        let found = p < self.terms.len() && chars_eq(&self.terms[p].0, key);
        proof {
            if found {
                lemma_coeff_index(self@, p as int);
            } else if has_term(self@, key@) {
                let j = choose|j: int| 0 <= j < self@.terms.len() && #[trigger] self@.terms[j].0 == key@;
                if j < p {
                    lemma_lt_irreflexive(key@);
                } else {
                    assert(j > p);
                    lemma_lt_total(self@.terms[p as int].0, key@);
                    assert(seq_lt(self@.terms[p as int].0, self@.terms[j].0));
                    lemma_lt_transitive(key@, self@.terms[p as int].0, key@);
                    lemma_lt_irreflexive(key@);
                }
            }
        }
        (p, found)
    }

    /// Adds `c` times the term `key`, dropping the term where its
    /// coefficient becomes zero; `None`, with nothing changed, where the
    /// coefficient would not fit.
    pub fn add_term(&mut self, key: &Vec<char>, c: i128) -> (r: Option<()>)
        requires
            fm_wf(old(self)@),
        ensures
            r is Some <==> in_i128(coeff(old(self)@, key@) + c),
            r is None ==> final(self)@ == old(self)@,
            r is Some ==> fm_wf(final(self)@) && final(self)@.constant == old(self)@.constant
                && forall|k: Seq<char>|
                #[trigger] coeff(final(self)@, k) == coeff(old(self)@, k) + if k == key@ {
                    c as int
                } else {
                    0
                },
    {
        let ghost m = self@;
        let (p, found) = self.locate(key);
        let current: i128 = if found {
            self.terms[p].1
        } else {
            0
        };
        proof {
            lemma_coeff_fits(m, key@);
        }
        let next = match current.checked_add(c) {
            Some(n) => n,
            None => {
                return None;
            },
        };
        let ghost before = self.terms@;
        if found {
            if next == 0 {
                self.terms.remove(p);
                proof {
                    let n = self@;
                    assert(n.terms =~= m.terms.remove(p as int));
                    assert forall|i: int, j: int| 0 <= i < j < n.terms.len() implies seq_lt(
                        #[trigger] n.terms[i].0,
                        #[trigger] n.terms[j].0,
                    ) by {
                        let i2 = if i < p { i } else { i + 1 };
                        let j2 = if j < p { j } else { j + 1 };
                        assert(n.terms[i] == m.terms[i2] && n.terms[j] == m.terms[j2]);
                    }
                    assert forall|i: int| 0 <= i < n.terms.len() implies #[trigger] n.terms[i].1
                        != 0 && in_i128(n.terms[i].1) by {
                        let i2 = if i < p { i } else { i + 1 };
                        assert(n.terms[i] == m.terms[i2]);
                    }
                    assert forall|k: Seq<char>| #[trigger] coeff(n, k) == coeff(m, k) + if k
                        == key@ {
                        c as int
                    } else {
                        0
                    } by {
                        if has_term(n, k) {
                            let i = choose|i: int| 0 <= i < n.terms.len() && #[trigger] n.terms[i].0 == k;
                            let i2 = if i < p { i } else { i + 1 };
                            assert(n.terms[i] == m.terms[i2]);
                            lemma_coeff_index(n, i);
                            lemma_coeff_index(m, i2);
                            if k == key@ {
                                assert(m.terms[i2].0 == m.terms[p as int].0);
                                if i2 < p {
                                    assert(seq_lt(m.terms[i2].0, m.terms[p as int].0));
                                } else {
                                    assert(seq_lt(m.terms[p as int].0, m.terms[i2].0));
                                }
                                lemma_lt_irreflexive(k);
                            }
                        } else if k != key@ && has_term(m, k) {
                            let i = choose|i: int| 0 <= i < m.terms.len() && #[trigger] m.terms[i].0 == k;
                            assert(i != p);
                            let i2 = if i < p { i } else { i - 1 };
                            assert(n.terms[i2] == m.terms[i]);
                        }
                    }
                }
            } else {
                let copy = copy_chars(key);
                self.terms.set(p, (copy, next));
                proof {
                    let n = self@;
                    assert(n.terms =~= m.terms.update(p as int, (key@, next as int)));
                    assert forall|i: int, j: int| 0 <= i < j < n.terms.len() implies seq_lt(
                        #[trigger] n.terms[i].0,
                        #[trigger] n.terms[j].0,
                    ) by {
                        assert(n.terms[i].0 == m.terms[i].0 && n.terms[j].0 == m.terms[j].0);
                    }
                    assert forall|k: Seq<char>| #[trigger] coeff(n, k) == coeff(m, k) + if k
                        == key@ {
                        c as int
                    } else {
                        0
                    } by {
                        if has_term(n, k) {
                            let i = choose|i: int| 0 <= i < n.terms.len() && #[trigger] n.terms[i].0 == k;
                            lemma_coeff_index(n, i);
                            lemma_coeff_index(m, i);
                        } else if has_term(m, k) {
                            let i = choose|i: int| 0 <= i < m.terms.len() && #[trigger] m.terms[i].0 == k;
                            assert(n.terms[i].0 == m.terms[i].0);
                        }
                    }
                }
            }
        } else if next != 0 {
            let copy = copy_chars(key);
            self.terms.insert(p, (copy, next));
            proof {
                let n = self@;
                assert(n.terms =~= m.terms.insert(p as int, (key@, next as int)));
                assert forall|i: int, j: int| 0 <= i < j < n.terms.len() implies seq_lt(
                    #[trigger] n.terms[i].0,
                    #[trigger] n.terms[j].0,
                ) by {
                    if j < p {
                        assert(n.terms[i] == m.terms[i] && n.terms[j] == m.terms[j]);
                    } else if j == p {
                        assert(n.terms[i] == m.terms[i]);
                    } else if i < p {
                        assert(n.terms[i] == m.terms[i] && n.terms[j] == m.terms[j - 1]);
                        lemma_lt_total(m.terms[p as int].0, key@);
                        if j - 1 > p {
                            assert(seq_lt(m.terms[p as int].0, m.terms[j - 1].0));
                            lemma_lt_transitive(key@, m.terms[p as int].0, m.terms[j - 1].0);
                        }
                        lemma_lt_transitive(m.terms[i].0, key@, m.terms[j - 1].0);
                    } else if i == p {
                        assert(n.terms[j] == m.terms[j - 1]);
                        lemma_lt_total(m.terms[p as int].0, key@);
                        if j - 1 > p {
                            assert(seq_lt(m.terms[p as int].0, m.terms[j - 1].0));
                            lemma_lt_transitive(key@, m.terms[p as int].0, m.terms[j - 1].0);
                        }
                    } else {
                        assert(n.terms[i] == m.terms[i - 1] && n.terms[j] == m.terms[j - 1]);
                    }
                }
                assert forall|i: int| 0 <= i < n.terms.len() implies #[trigger] n.terms[i].1 != 0
                    && in_i128(n.terms[i].1) by {
                    if i < p {
                        assert(n.terms[i] == m.terms[i]);
                    } else if i > p {
                        assert(n.terms[i] == m.terms[i - 1]);
                    }
                }
                assert forall|k: Seq<char>| #[trigger] coeff(n, k) == coeff(m, k) + if k == key@ {
                    c as int
                } else {
                    0
                } by {
                    lemma_coeff_index(n, p as int);
                    if k != key@ {
                        if has_term(n, k) {
                            let i = choose|i: int| 0 <= i < n.terms.len() && #[trigger] n.terms[i].0 == k;
                            assert(i != p);
                            let i2 = if i < p { i } else { i - 1 };
                            assert(n.terms[i] == m.terms[i2]);
                            lemma_coeff_index(n, i);
                            lemma_coeff_index(m, i2);
                        } else if has_term(m, k) {
                            let i = choose|i: int| 0 <= i < m.terms.len() && #[trigger] m.terms[i].0 == k;
                            let i2 = if i < p { i } else { i + 1 };
                            assert(n.terms[i2] == m.terms[i]);
                        }
                    }
                }
            }
        } else {
            proof {
                assert forall|k: Seq<char>| #[trigger] coeff(self@, k) == coeff(m, k) + if k == key@ {
                    c as int
                } else {
                    0
                } by {}
            }
        }
        Some(())
    }

    /// The sum of two formulas; `None` when a number would not fit.
    pub fn add(&self, other: &Self) -> (r: Option<Self>)
        requires
            fm_wf(self@),
            fm_wf(other@),
        ensures
            opt_model(r) == model_add(self@, other@),
            r matches Some(f) ==> fm_wf(f@) && is_sum(f@, self@, other@),
    {
        let ghost a = self@;
        let ghost b = other@;
        let mut result = self.copy();
        result.constant = match result.constant.checked_add(other.constant) {
            Some(c) => c,
            None => {
                return None;
            },
        };
        proof {
            assert forall|k: Seq<char>| #[trigger] coeff(result@, k) == coeff(a, k) + coeff(prefix_model(b, 0), k) by {
                lemma_prefix_empty(b, k);
            }
        }
        let mut i: usize = 0;
        while i < other.terms.len()
            invariant
                i <= other.terms.len(),
                a == self@,
                b == other@,
                fm_wf(a),
                fm_wf(b),
                fm_wf(result@),
                result@.constant == a.constant + b.constant,
                forall|k: Seq<char>| #[trigger] coeff(result@, k) == coeff(a, k) + coeff(prefix_model(b, i as int), k),
            decreases other.terms.len() - i,
        {
            proof {
                self.lemma_view();
                other.lemma_view();
            }
            let ghost key = b.terms[i as int].0;
            proof {
                lemma_prefix_step(b, i as int, key);
            }
            match result.add_term(&other.terms[i].0, other.terms[i].1) {
                Some(()) => {},
                None => {
                    proof {
                        assert(!in_i128(coeff(a, key) + coeff(b, key)));
                    }
                    return None;
                },
            }
            proof {
                assert forall|k: Seq<char>| #[trigger] coeff(result@, k) == coeff(a, k) + coeff(prefix_model(b, i + 1), k) by {
                    lemma_prefix_step(b, i as int, k);
                }
            }
            i = i + 1;
        }
        proof {
            assert forall|k: Seq<char>| #[trigger] coeff(result@, k) == coeff(a, k) + coeff(b, k) by {
                lemma_prefix_full(b, k);
            }
            assert forall|k: Seq<char>| #[trigger] in_i128(coeff(a, k) + coeff(b, k)) by {
                lemma_coeff_fits(result@, k);
            }
            lemma_sum_is(result@, a, b);
        }
        Some(result)
    }

    /// The difference of two formulas; `None` when a number would not fit.
    pub fn subtract(&self, other: &Self) -> (r: Option<Self>)
        requires
            fm_wf(self@),
            fm_wf(other@),
        ensures
            opt_model(r) == model_sub(self@, other@),
            r matches Some(f) ==> fm_wf(f@) && is_difference(f@, self@, other@),
    {
        let ghost a = self@;
        let ghost b = other@;
        let mut result = self.copy();
        result.constant = match result.constant.checked_sub(other.constant) {
            Some(c) => c,
            None => {
                return None;
            },
        };
        proof {
            assert(result@.terms == a.terms);
            assert(fm_wf(result@));
            assert forall|k: Seq<char>| #[trigger] coeff(result@, k) == coeff(a, k) - coeff(prefix_model(b, 0), k) by {
                lemma_prefix_empty(b, k);
            }
        }
        let mut i: usize = 0;
        while i < other.terms.len()
            invariant
                i <= other.terms.len(),
                a == self@,
                b == other@,
                fm_wf(a),
                fm_wf(b),
                fm_wf(result@),
                result@.constant == a.constant - b.constant,
                forall|k: Seq<char>| #[trigger] coeff(result@, k) == coeff(a, k) - coeff(prefix_model(b, i as int), k),
                forall|j: int| 0 <= j < i ==> #[trigger] b.terms[j].1 != i128::MIN,
            decreases other.terms.len() - i,
        {
            proof {
                self.lemma_view();
                other.lemma_view();
            }
            let ghost key = b.terms[i as int].0;
            proof {
                lemma_prefix_step(b, i as int, key);
            }
            let c = other.terms[i].1;
            if c == i128::MIN {
                proof {
                    assert(coeff(b, key) == i128::MIN);
                }
                return None;
            }
            match result.add_term(&other.terms[i].0, -c) {
                Some(()) => {},
                None => {
                    proof {
                        assert(!in_i128(coeff(a, key) - coeff(b, key)));
                    }
                    return None;
                },
            }
            proof {
                assert forall|k: Seq<char>| #[trigger] coeff(result@, k) == coeff(a, k) - coeff(prefix_model(b, i + 1), k) by {
                    lemma_prefix_step(b, i as int, k);
                }
            }
            i = i + 1;
        }
        proof {
            assert forall|k: Seq<char>| #[trigger] coeff(result@, k) == coeff(a, k) - coeff(b, k) by {
                lemma_prefix_full(b, k);
            }
            assert forall|k: Seq<char>| #[trigger] coeff(b, k) != i128::MIN && in_i128(coeff(a, k) - coeff(b, k)) by {
                lemma_coeff_fits(result@, k);
                if has_term(b, k) {
                    let j = term_index(b, k);
                    lemma_coeff_index(b, j);
                }
            }
            lemma_difference_is(result@, a, b);
        }
        Some(result)
    }

    /// The formula times a number; `None` when a number would not fit.
    pub fn scale(&self, value: i128) -> (r: Option<Self>)
        requires
            fm_wf(self@),
        ensures
            opt_model(r) == model_scale(self@, value as int),
            r matches Some(f) ==> fm_wf(f@),
    {
        let ghost m = self@;
        let ghost v = value as int;
        let constant = match self.constant.checked_mul(value) {
            Some(c) => c,
            None => {
                return None;
            },
        };
        let mut terms: Vec<(Vec<char>, i128)> = Vec::new();
        let mut i: usize = 0;
        while i < self.terms.len()
            invariant
                i <= self.terms.len(),
                m == self@,
                fm_wf(m),
                v == value as int,
                forall|j: int| 0 <= j < i ==> #[trigger] in_i128(m.terms[j].1 * v),
                terms_model(terms@) == if v == 0 {
                    Seq::empty()
                } else {
                    m.terms.take(i as int).map_values(|p: (Seq<char>, int)| (p.0, p.1 * v))
                },
            decreases self.terms.len() - i,
        {
            proof {
                self.lemma_view();
            }
            let c = match self.terms[i].1.checked_mul(value) {
                Some(c) => c,
                None => {
                    proof {
                        assert(!in_i128(m.terms[i as int].1 * v));
                    }
                    return None;
                },
            };
            let ghost prev = terms@;
            if c != 0 {
                let key = copy_chars(&self.terms[i].0);
                terms.push((key, c));
                proof {
                    assert(terms_model(terms@) =~= terms_model(prev).push((m.terms[i as int].0, m.terms[i as int].1 * v)));
                }
            }
            proof {
                if v != 0 {
                    assert(m.terms[i as int].1 * v != 0) by (nonlinear_arith)
                        requires m.terms[i as int].1 != 0, v != 0;
                    assert(m.terms.take(i + 1).map_values(|p: (Seq<char>, int)| (p.0, p.1 * v)) =~=
                        m.terms.take(i as int).map_values(|p: (Seq<char>, int)| (p.0, p.1 * v)).push((m.terms[i as int].0, m.terms[i as int].1 * v)));
                } else {
                    assert(m.terms[i as int].1 * v == 0);
                }
            }
            i = i + 1;
        }
        let r = DriverBoundFormula { terms, constant };
        proof {
            assert(m.terms.take(m.terms.len() as int) =~= m.terms);
            let t = r@.terms;
            assert forall|a: int, b: int| 0 <= a < b < t.len() implies seq_lt(#[trigger] t[a].0, #[trigger] t[b].0) by {
                assert(t[a].0 == m.terms[a].0 && t[b].0 == m.terms[b].0);
            }
            assert forall|a: int| 0 <= a < t.len() implies #[trigger] t[a].1 != 0 && in_i128(t[a].1) by {
                assert(t[a].1 == m.terms[a].1 * v);
                assert(m.terms[a].1 * v != 0) by (nonlinear_arith)
                    requires m.terms[a].1 != 0, v != 0;
            }
        }
        Some(r)
    }

    /// The text of one term.
    pub fn term_canonical(term: &Vec<char>, c: i128) -> (r: Vec<char>)
        ensures
            r@ == term_text(term@, c as int),
    {
        if c == 1 {
            return copy_chars(term);
        }
        let mut out: Vec<char> = Vec::new();
        if c == -1 {
            out.push('-');
            push_all(&mut out, term);
            assert(out@ =~= seq!['-'] + term@);
            return out;
        }
        let digits = i128_digits(c);
        push_all(&mut out, &digits);
        out.push('*');
        push_all(&mut out, term);
        assert(out@ =~= int_digits(c as int) + seq!['*'] + term@);
        out
    }

    /// The canonical text of the formula.
    pub fn canonical_chars(&self) -> (r: Vec<char>)
        ensures
            r@ == canonical_text(self@),
    {
        let ghost m = self@;
        let mut parts: Vec<Vec<char>> = Vec::new();
        let mut i: usize = 0;
        while i < self.terms.len()
            invariant
                i <= self.terms.len(),
                m == self@,
                texts(parts@) == term_texts(m).take(i as int),
            decreases self.terms.len() - i,
        {
            proof {
                self.lemma_view();
            }
            let t = Self::term_canonical(&self.terms[i].0, self.terms[i].1);
            let ghost prev = parts@;
            parts.push(t);
            proof {
                assert(texts(parts@) =~= texts(prev).push(term_text(m.terms[i as int].0, m.terms[i as int].1)));
                assert(term_texts(m).take(i + 1) =~= term_texts(m).take(i as int).push(term_text(m.terms[i as int].0, m.terms[i as int].1)));
            }
            i = i + 1;
        }
        proof {
            assert(term_texts(m).take(self.terms.len() as int) =~= term_texts(m));
        }
        if self.constant != 0 || parts.len() == 0 {
            let d = i128_digits(self.constant);
            let ghost prev = parts@;
            parts.push(d);
            proof {
                assert(texts(parts@) =~= texts(prev).push(int_digits(m.constant)));
            }
        }
        join_texts(&parts, '+')
    }

    /// The canonical text of the formula.
    pub fn canonical(&self) -> (r: String)
        ensures
            r@ == canonical_text(self@),
    {
        let v = self.canonical_chars();
        crate::text::string_of(&v)
    }

    /// The product of two formulas; `None` when a number would not fit.
    pub fn multiply(&self, other: &Self) -> (r: Option<Self>)
        requires
            fm_wf(self@),
            fm_wf(other@),
        ensures
            opt_model(r) == model_multiply(self@, other@),
            r matches Some(f) ==> fm_wf(f@),
    {
        if self.is_zero() || other.is_zero() {
            return Some(Self::zero());
        }
        if let Some(value) = self.signed_constant() {
            return other.scale(value);
        }
        if let Some(value) = other.signed_constant() {
            return self.scale(value);
        }
        let a = self.canonical_chars();
        let b = other.canonical_chars();
        Some(Self::from_symbol(product(&a, &b)))
    }

    /// This formula exceeds `other` for every non-negative value of the
    /// symbols.
    pub fn is_strictly_greater_than(&self, other: &Self) -> (r: bool)
        requires
            fm_wf(self@),
            fm_wf(other@),
        ensures
            r == model_greater(self@, other@),
    {
        let diff = match self.subtract(other) {
            Some(d) => d,
            None => {
                return false;
            },
        };
        proof {
            diff.lemma_view();
        }
        if diff.constant <= 0 {
            return false;
        }
        let mut i: usize = 0;
        while i < diff.terms.len()
            invariant
                i <= diff.terms.len(),
                model_sub(self@, other@) == Some(diff@),
                diff@.constant > 0,
                forall|j: int| 0 <= j < i ==> #[trigger] diff@.terms[j].1 >= 0,
            decreases diff.terms.len() - i,
        {
            proof {
                diff.lemma_view();
            }
            if diff.terms[i].1 < 0 {
                assert(diff@.terms[i as int].1 < 0);
                return false;
            }
            i = i + 1;
        }
        true
    }
}

} // verus!

verus! {

/// The formula of an expression: names, numbers and zero, combined by
/// negation, addition, subtraction and multiplication; `None` for any other
/// expression or when a number would not fit.
pub open spec fn expr_formula(e: EirExpr) -> Option<FormulaModel>
    decreases e,
{
    match e {
        EirExpr::Ident(name) => Some(symbol_model(normalized(name@))),
        EirExpr::Int(value) => Some(constant_model(value as int)),
        EirExpr::Zero => Some(zero_model()),
        EirExpr::Unary { op, expr } => match op {
            EirUnaryOp::Neg => match expr_formula(*expr) {
                Some(m) => model_sub(zero_model(), m),
                None => None,
            },
            EirUnaryOp::Not => None,
        },
        EirExpr::Binary { op, left, right } => match (expr_formula(*left), expr_formula(*right)) {
            (Some(l), Some(r)) => match op {
                EirBinaryOp::Add => model_add(l, r),
                EirBinaryOp::Sub => model_sub(l, r),
                EirBinaryOp::Mul => model_multiply(l, r),
                _ => None,
            },
            _ => None,
        },
        _ => None,
    }
}

impl DriverBoundFormula {
    /// The formula of an expression.
    pub fn from_eir_expr(expr: &EirExpr) -> (r: Option<Self>)
        ensures
            opt_model(r) == expr_formula(*expr),
            r matches Some(f) ==> fm_wf(f@),
        decreases expr,
    {
        match expr {
            EirExpr::Ident(name) => {
                let symbol = normalize_str(name.as_str());
                Some(Self::from_symbol(symbol))
            },
            EirExpr::Int(value) => Some(Self::from_constant(*value)),
            EirExpr::Zero => Some(Self::zero()),
            EirExpr::Unary { op, expr } => match op {
                EirUnaryOp::Neg => {
                    let inner = Self::from_eir_expr(expr)?;
                    Self::zero().subtract(&inner)
                },
                EirUnaryOp::Not => None,
            },
            EirExpr::Binary { op, left, right } => {
                let left = Self::from_eir_expr(left)?;
                let right = Self::from_eir_expr(right)?;
                match op {
                    EirBinaryOp::Add => left.add(&right),
                    EirBinaryOp::Sub => left.subtract(&right),
                    EirBinaryOp::Mul => left.multiply(&right),
                    _ => None,
                }
            },
            _ => None,
        }
    }
}

} // verus!
