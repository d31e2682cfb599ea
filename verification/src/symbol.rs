//! Symbolic factors: normalised symbol text and canonical products.
use crate::text::{
    chars_lt, chars_of, is_unicode_ws, lemma_le_total_ordering, lemma_lt_total, lemma_lt_transitive,
    push_all, remove_ws, remove_ws_chars, seq_le, seq_lt, sub_chars, trim, trim_chars, trim_end,
    trim_start,
};
use vstd::prelude::*;
use vstd::relations::sorted_by;

verus! {

// ---------------------------------------------------------------------------
// Specification
// ---------------------------------------------------------------------------

/// The text of a vector of character vectors.
pub open spec fn texts(v: Seq<Vec<char>>) -> Seq<Seq<char>> {
    v.map_values(|x: Vec<char>| x@)
}

/// Splits text at every `*` outside parentheses, scanning from position
/// `i` with nesting `depth`, the current piece starting at `start`, and the
/// pieces found so far in `acc`.
pub open spec fn split_from(
    s: Seq<char>,
    i: int,
    depth: int,
    start: int,
    acc: Seq<Seq<char>>,
) -> Seq<Seq<char>>
    decreases s.len() - i,
{
    if i >= s.len() {
        acc.push(s.subrange(start, s.len() as int))
    } else if s[i] == '(' {
        split_from(s, i + 1, depth + 1, start, acc)
    } else if s[i] == ')' {
        split_from(s, i + 1, if depth > 0 { depth - 1 } else { 0 }, start, acc)
    } else if s[i] == '*' && depth == 0 {
        split_from(s, i + 1, depth, i + 1, acc.push(s.subrange(start, i)))
    } else {
        split_from(s, i + 1, depth, start, acc)
    }
}

/// The factors of a product written as text: the pieces between the `*`
/// that stand outside parentheses.
pub open spec fn top_level_factors(s: Seq<char>) -> Seq<Seq<char>> {
    split_from(s, 0, 0, 0, Seq::empty())
}

/// Whether the parentheses of `s`, scanned from position `i` at nesting
/// `depth`, balance with no closing that empties the nesting before the last
/// character.
pub open spec fn parens_enclose(s: Seq<char>, i: int, depth: int) -> bool
    decreases s.len() - i,
{
    if i >= s.len() {
        depth == 0
    } else if s[i] == '(' {
        parens_enclose(s, i + 1, depth + 1)
    } else if s[i] == ')' {
        if depth == 0 {
            false
        } else if depth - 1 == 0 && i + 1 < s.len() {
            false
        } else {
            parens_enclose(s, i + 1, depth - 1)
        }
    } else {
        parens_enclose(s, i + 1, depth)
    }
}

/// The text inside one pair of parentheses that encloses all of `s`, if
/// there is one.
pub open spec fn strip_outer_parens(s: Seq<char>) -> Option<Seq<char>> {
    if s.len() == 0 || s[0] != '(' || s.last() != ')' {
        None
    } else if parens_enclose(s, 0, 0) {
        Some(s.subrange(1, s.len() - 1))
    } else {
        None
    }
}

pub proof fn lemma_trim_start_len(s: Seq<char>)
    ensures
        trim_start(s).len() <= s.len(),
    decreases s.len(),
{
    if s.len() > 0 && is_unicode_ws(s[0]) {
        lemma_trim_start_len(s.drop_first());
    }
}

pub proof fn lemma_trim_end_len(s: Seq<char>)
    ensures
        trim_end(s).len() <= s.len(),
    decreases s.len(),
{
    if s.len() > 0 && is_unicode_ws(s.last()) {
        lemma_trim_end_len(s.drop_last());
    }
}

pub proof fn lemma_trim_len(s: Seq<char>)
    ensures
        trim(s).len() <= s.len(),
{
    lemma_trim_start_len(s);
    lemma_trim_end_len(trim_start(s));
}

/// Peels enclosing parentheses (trimming inside each) from trimmed text.
pub open spec fn peel_parens(t: Seq<char>) -> Seq<char>
    decreases t.len(),
{
    match strip_outer_parens(t) {
        Some(inner) => {
            proof {
                lemma_trim_len(inner);
            }
            peel_parens(trim(inner))
        },
        None => t,
    }
}

/// A symbol as it is recorded: trimmed, stripped of enclosing parentheses,
/// and without whitespace.
pub open spec fn normalized(s: Seq<char>) -> Seq<char> {
    remove_ws(peel_parens(trim(s)))
}

/// Texts joined with a separator character.
pub open spec fn join_with(parts: Seq<Seq<char>>, sep: char) -> Seq<char>
    decreases parts.len(),
{
    if parts.len() == 0 {
        Seq::empty()
    } else if parts.len() == 1 {
        parts[0]
    } else {
        join_with(parts.drop_last(), sep) + seq![sep] + parts.last()
    }
}

/// The top-level factors of each of a list of texts, in order.
pub open spec fn all_top_factors(parts: Seq<Seq<char>>) -> Seq<Seq<char>>
    decreases parts.len(),
{
    if parts.len() == 0 {
        Seq::empty()
    } else {
        all_top_factors(parts.drop_last()) + top_level_factors(parts.last())
    }
}

/// The order in which factors are listed.
pub open spec fn text_le() -> spec_fn(Seq<char>, Seq<char>) -> bool {
    |a: Seq<char>, b: Seq<char>| seq_le(a, b)
}

/// The canonical text of the product of two factors: all their top-level
/// factors, sorted, joined by `*`.
pub open spec fn product_text(a: Seq<char>, b: Seq<char>) -> Seq<char> {
    join_with((top_level_factors(a) + top_level_factors(b)).sort_by(text_le()), '*')
}

proof fn lemma_join_push(acc: Seq<Seq<char>>, x: Seq<char>, sep: char)
    ensures
        join_with(acc.push(x), sep) == if acc.len() == 0 {
            x
        } else {
            join_with(acc, sep) + seq![sep] + x
        },
{
    assert(acc.push(x).drop_last() =~= acc);
    if acc.len() == 0 {
        assert(acc.push(x)[0] == x);
    }
}

proof fn lemma_split_joins(s: Seq<char>, i: int, depth: int, start: int, acc: Seq<Seq<char>>)
    requires
        0 <= start <= i <= s.len(),
    ensures
        split_from(s, i, depth, start, acc).len() > acc.len(),
        join_with(split_from(s, i, depth, start, acc), '*') == join_with(
            acc.push(s.subrange(start, s.len() as int)),
            '*',
        ),
    decreases s.len() - i,
{
    if i >= s.len() {
    } else if s[i] == '(' {
        lemma_split_joins(s, i + 1, depth + 1, start, acc);
    } else if s[i] == ')' {
        lemma_split_joins(s, i + 1, if depth > 0 { depth - 1 } else { 0 }, start, acc);
    } else if s[i] == '*' && depth == 0 {
        let a = s.subrange(start, i);
        let b = s.subrange(i + 1, s.len() as int);
        let acc2 = acc.push(a);
        lemma_split_joins(s, i + 1, depth, i + 1, acc2);
        lemma_join_push(acc2, b, '*');
        lemma_join_push(acc, a, '*');
        lemma_join_push(acc, s.subrange(start, s.len() as int), '*');
        assert(s.subrange(start, s.len() as int) =~= a + seq!['*'] + b);
        if acc.len() == 0 {
            assert(join_with(acc2, '*') + seq!['*'] + b =~= a + seq!['*'] + b);
        } else {
            assert(join_with(acc2, '*') + seq!['*'] + b =~= join_with(acc, '*') + seq!['*'] + (a
                + seq!['*'] + b));
        }
    } else {
        lemma_split_joins(s, i + 1, depth, start, acc);
    }
}

/// A product text splits into at least one factor, and its factors joined by
/// `*` give the text back.
pub proof fn lemma_factors_join_back(s: Seq<char>)
    ensures
        top_level_factors(s).len() > 0,
        join_with(top_level_factors(s), '*') == s,
{
    lemma_split_joins(s, 0, 0, 0, Seq::empty());
    lemma_join_push(Seq::empty(), s.subrange(0, s.len() as int), '*');
    assert(s.subrange(0, s.len() as int) =~= s);
}

/// The product text of two factors does not depend on their order.
pub proof fn lemma_product_text_commutes(x: Seq<char>, y: Seq<char>)
    ensures
        product_text(x, y) == product_text(y, x),
{
    broadcast use vstd::multiset::group_multiset_axioms;

    lemma_le_total_ordering();
    let fx = top_level_factors(x);
    let fy = top_level_factors(y);
    let p = fx + fy;
    let q = fy + fx;
    p.lemma_sort_by_ensures(text_le());
    q.lemma_sort_by_ensures(text_le());
    vstd::seq_lib::lemma_multiset_commutative(fx, fy);
    vstd::seq_lib::lemma_multiset_commutative(fy, fx);
    assert(fx.to_multiset().add(fy.to_multiset()) =~= fy.to_multiset().add(fx.to_multiset()));
    vstd::seq_lib::lemma_sorted_unique(p.sort_by(text_le()), q.sort_by(text_le()), text_le());
}

// ---------------------------------------------------------------------------
// Implementation
// ---------------------------------------------------------------------------

fn split_factors(s: &Vec<char>) -> (r: Vec<Vec<char>>)
    ensures
        texts(r@) == top_level_factors(s@),
{
    let mut out: Vec<Vec<char>> = Vec::new();
    let mut depth: usize = 0;
    let mut start: usize = 0;
    let mut i: usize = 0;
    assert(texts(out@) =~= Seq::<Seq<char>>::empty());
    while i < s.len()
        invariant
            i <= s.len(),
            start <= i,
            depth <= i,
            top_level_factors(s@) == split_from(s@, i as int, depth as int, start as int, texts(out@)),
        decreases s.len() - i,
    {
        let c = s[i];
        if c == '(' {
            depth = depth + 1;
        } else if c == ')' {
            if depth > 0 {
                depth = depth - 1;
            }
        } else if c == '*' && depth == 0 {
            let piece = sub_chars(s, start, i);
            proof {
                assert(texts(out@.push(piece)) =~= texts(out@).push(s@.subrange(start as int, i as int)));
            }
            out.push(piece);
            start = i + 1;
        }
        i = i + 1;
    }
    let piece = sub_chars(s, start, s.len());
    proof {
        assert(texts(out@.push(piece)) =~= texts(out@).push(s@.subrange(start as int, s.len() as int)));
    }
    out.push(piece);
    out
}

fn strip_parens(s: &Vec<char>) -> (r: Option<Vec<char>>)
    ensures
        match r {
            Some(inner) => strip_outer_parens(s@) == Some(inner@),
            None => strip_outer_parens(s@) is None,
        },
{
    let n = s.len();
    if n == 0 || s[0] != '(' || s[n - 1] != ')' {
        return None;
    }
    let mut depth: usize = 0;
    let mut i: usize = 0;
    while i < n
        invariant
            n == s.len(),
            i <= n,
            depth <= i,
            parens_enclose(s@, 0, 0) == parens_enclose(s@, i as int, depth as int),
        decreases n - i,
    {
        let c = s[i];
        if c == '(' {
            depth = depth + 1;
        } else if c == ')' {
            if depth == 0 {
                return None;
            }
            depth = depth - 1;
            if depth == 0 && i + 1 < n {
                return None;
            }
        }
        i = i + 1;
    }
    if depth == 0 {
        Some(sub_chars(s, 1, n - 1))
    } else {
        None
    }
}

fn normalize_chars(s: &Vec<char>) -> (r: Vec<char>)
    ensures
        r@ == normalized(s@),
{
    let mut t = trim_chars(s);
    loop
        invariant
            peel_parens(trim(s@)) == peel_parens(t@),
        ensures
            peel_parens(trim(s@)) == peel_parens(t@),
            strip_outer_parens(t@) is None,
        decreases t.len(),
    {
        match strip_parens(&t) {
            Some(inner) => {
                proof {
                    lemma_trim_len(inner@);
                }
                t = trim_chars(&inner);
            },
            None => {
                break;
            },
        }
    }
    remove_ws_chars(&t)
}

/// The normalised text of a symbol given as a string.
pub fn normalize_str(s: &str) -> (r: Vec<char>)
    ensures
        r@ == normalized(s@),
{
    SymbolicFactor::new(chars_of(s)).normalized()
}

/// A product of symbolic factors, kept in canonical order.
pub struct SymbolicProduct {
    pub factors: Vec<Vec<char>>,
}

impl SymbolicProduct {
    /// The product of the given factors: all their top-level factors,
    /// sorted.
    pub fn new(factors: Vec<Vec<char>>) -> (r: Self)
        ensures
            texts(r.factors@) == all_top_factors(texts(factors@)).sort_by(text_le()),
    {
        let mut product = SymbolicProduct { factors: Vec::new() };
        let mut i: usize = 0;
        proof {
            assert(texts(factors@).take(0) =~= Seq::<Seq<char>>::empty());
            assert(texts(product.factors@) =~= Seq::<Seq<char>>::empty());
        }
        while i < factors.len()
            invariant
                i <= factors.len(),
                texts(product.factors@) == all_top_factors(texts(factors@).take(i as int)),
            decreases factors.len() - i,
        {
            proof {
                assert(texts(factors@).take(i + 1).drop_last() =~= texts(factors@).take(i as int));
                assert(texts(factors@).take(i + 1).last() == factors@[i as int]@);
            }
            product.extend(&factors[i]);
            i = i + 1;
        }
        proof {
            assert(texts(factors@).take(factors.len() as int) =~= texts(factors@));
        }
        product.normalize();
        product
    }

    /// The factors joined by `*`.
    pub fn canonical(&self) -> (r: Vec<char>)
        ensures
            r@ == join_with(texts(self.factors@), '*'),
    {
        join_texts(&self.factors, '*')
    }

    /// Appends the top-level factors of a factor.
    pub fn extend(&mut self, factor: &Vec<char>)
        ensures
            texts(final(self).factors@) == texts(old(self).factors@) + top_level_factors(factor@),
    {
        let nested = TopLevelProduct::new(factor.clone()).factors();
        let mut i: usize = 0;
        let ghost start = texts(self.factors@);
        while i < nested.len()
            invariant
                i <= nested.len(),
                start == texts(old(self).factors@),
                texts(self.factors@) == start + texts(nested@).take(i as int),
            decreases nested.len() - i,
        {
            let ghost before = self.factors@;
            self.factors.push(sub_chars(&nested[i], 0, nested[i].len()));
            proof {
                assert(nested@[i as int]@.subrange(0, nested@[i as int]@.len() as int) =~= nested@[
                    i as int
                ]@);
                assert(texts(self.factors@) =~= texts(before).push(nested@[i as int]@));
                assert(texts(nested@).take(i + 1) =~= texts(nested@).take(i as int).push(
                    nested@[i as int]@,
                ));
            }
            i = i + 1;
        }
        proof {
            assert(texts(nested@).take(nested.len() as int) =~= texts(nested@));
        }
    }

    /// Sorts the factors into canonical order.
    pub fn normalize(&mut self)
        ensures
            texts(final(self).factors@) == texts(old(self).factors@).sort_by(text_le()),
    {
        let mut factors: Vec<Vec<char>> = Vec::new();
        std::mem::swap(&mut factors, &mut self.factors);
        self.factors = sort_texts(factors);
    }
}

/// One symbolic factor, as written.
pub struct SymbolicFactor {
    pub source: Vec<char>,
}

impl SymbolicFactor {
    /// A factor written as `source`.
    pub fn new(source: Vec<char>) -> (r: Self)
        ensures
            r.source == source,
    {
        SymbolicFactor { source }
    }

    /// The normalised text of the factor: trimmed, with enclosing
    /// parentheses peeled off, and without whitespace.
    pub fn normalized(&self) -> (r: Vec<char>)
        ensures
            r@ == normalized(self.source@),
    {
        normalize_chars(&self.source)
    }

    /// The text inside enclosing parentheses, if a pair encloses all of
    /// `source`.
    pub fn strip_outer_parens(source: &Vec<char>) -> (r: Option<Vec<char>>)
        ensures
            match r {
                Some(inner) => strip_outer_parens(source@) == Some(inner@),
                None => strip_outer_parens(source@) is None,
            },
    {
        strip_parens(source)
    }
}

/// A product written as text, split at its top-level `*`.
pub struct TopLevelProduct {
    pub source: Vec<char>,
}

impl TopLevelProduct {
    /// The product written as `source`.
    pub fn new(source: Vec<char>) -> (r: Self)
        ensures
            r.source == source,
    {
        TopLevelProduct { source }
    }

    /// The factors at parenthesis depth zero, in order.
    pub fn factors(&self) -> (r: Vec<Vec<char>>)
        ensures
            texts(r@) == top_level_factors(self.source@),
    {
        split_factors(&self.source)
    }
}

proof fn lemma_insert_multiset(s: Seq<Seq<char>>, p: int, x: Seq<char>)
    requires
        0 <= p <= s.len(),
    ensures
        s.insert(p, x).to_multiset() == s.to_multiset().insert(x),
{
    broadcast use vstd::seq_lib::group_to_multiset_ensures;
    broadcast use vstd::multiset::group_multiset_axioms;

    let left = s.subrange(0, p);
    let right = s.subrange(p, s.len() as int);
    assert(s =~= left + right);
    assert(s.insert(p, x) =~= left.push(x) + right);
    vstd::seq_lib::lemma_multiset_commutative(left.push(x), right);
    vstd::seq_lib::lemma_multiset_commutative(left, right);
    assert(left.push(x).to_multiset() =~= left.to_multiset().insert(x));
}

/// Sorts texts into the order in which factors are listed.
pub fn sort_texts(v: Vec<Vec<char>>) -> (r: Vec<Vec<char>>)
    ensures
        texts(r@) == texts(v@).sort_by(text_le()),
{
    let mut out: Vec<Vec<char>> = Vec::new();
    let mut i: usize = 0;
    proof {
        lemma_le_total_ordering();
        assert(texts(v@).take(0) =~= Seq::<Seq<char>>::empty());
        assert(texts(out@) =~= Seq::<Seq<char>>::empty());
    }
    while i < v.len()
        invariant
            i <= v.len(),
            sorted_by(texts(out@), text_le()),
            texts(out@).to_multiset() == texts(v@).take(i as int).to_multiset(),
            vstd::relations::total_ordering(text_le()),
        decreases v.len() - i,
    {
        let x = sub_chars(&v[i], 0, v[i].len());
        assert(x@ =~= v@[i as int]@);
        let mut p: usize = 0;
        while p < out.len() && !chars_lt(&x, &out[p])
            invariant
                p <= out.len(),
                forall|j: int| 0 <= j < p ==> !seq_lt(x@, #[trigger] texts(out@)[j]),
            decreases out.len() - p,
        {
            p = p + 1;
        }
        let ghost before = texts(out@);
        proof {
            assert forall|j: int| 0 <= j < p implies seq_le(before[j], x@) by {
                lemma_lt_total(before[j], x@);
            }
            if p < out.len() {
                assert forall|j: int| p <= j < before.len() implies seq_lt(x@, before[j]) by {
                    if j > p {
                        assert(text_le()(before[p as int], before[j]));
                        if before[p as int] != before[j] {
                            lemma_lt_transitive(x@, before[p as int], before[j]);
                        }
                    }
                }
            }
        }
        out.insert(p, x);
        proof {
            assert(texts(out@) =~= before.insert(p as int, x@));
            lemma_insert_multiset(before, p as int, x@);
            assert(texts(v@).take(i + 1) =~= texts(v@).take(i as int).push(x@));
            broadcast use vstd::seq_lib::group_to_multiset_ensures;
            assert forall|a: int, b: int| 0 <= a < b < texts(out@).len() implies text_le()(
                #[trigger] texts(out@)[a],
                #[trigger] texts(out@)[b],
            ) by {
                let t = texts(out@);
                if b < p {
                    assert(t[a] == before[a] && t[b] == before[b]);
                } else if b == p {
                    assert(t[a] == before[a]);
                } else if a < p {
                    assert(t[a] == before[a] && t[b] == before[b - 1]);
                    if seq_lt(before[a], x@) || before[a] == x@ {
                        if before[a] != x@ {
                            lemma_lt_transitive(before[a], x@, before[b - 1]);
                        }
                    }
                } else if a == p {
                    assert(t[b] == before[b - 1]);
                } else {
                    assert(t[a] == before[a - 1] && t[b] == before[b - 1]);
                }
            }
        }
        i = i + 1;
    }
    proof {
        assert(texts(v@).take(v.len() as int) =~= texts(v@));
        texts(v@).lemma_sort_by_ensures(text_le());
        vstd::seq_lib::lemma_sorted_unique(texts(out@), texts(v@).sort_by(text_le()), text_le());
    }
    out
}

/// Texts joined with a separator character.
pub fn join_texts(parts: &Vec<Vec<char>>, sep: char) -> (r: Vec<char>)
    ensures
        r@ == join_with(texts(parts@), sep),
{
    let mut out: Vec<char> = Vec::new();
    let mut i: usize = 0;
    while i < parts.len()
        invariant
            i <= parts.len(),
            out@ == join_with(texts(parts@).take(i as int), sep),
        decreases parts.len() - i,
    {
        proof {
            assert(texts(parts@).take(i + 1).drop_last() =~= texts(parts@).take(i as int));
        }
        if i > 0 {
            out.push(sep);
        }
        push_all(&mut out, &parts[i]);
        i = i + 1;
    }
    proof {
        assert(texts(parts@).take(parts.len() as int) =~= texts(parts@));
    }
    out
}

/// The canonical text of the product of two factors.
pub fn product(a: &Vec<char>, b: &Vec<char>) -> (r: Vec<char>)
    ensures
        r@ == product_text(a@, b@),
{
    let mut parts: Vec<Vec<char>> = Vec::new();
    parts.push(a.clone());
    parts.push(b.clone());
    proof {
        assert(texts(parts@) =~= seq![a@, b@]);
        assert(seq![a@, b@].drop_last() =~= seq![a@]);
        assert(seq![a@].drop_last() =~= Seq::<Seq<char>>::empty());
        assert(all_top_factors(Seq::<Seq<char>>::empty()) == Seq::<Seq<char>>::empty());
        assert(seq![a@].last() == a@);
        assert(all_top_factors(seq![a@]) == all_top_factors(Seq::<Seq<char>>::empty())
            + top_level_factors(a@));
        assert(all_top_factors(seq![a@]) =~= top_level_factors(a@));
        assert(all_top_factors(seq![a@, b@]) =~= top_level_factors(a@) + top_level_factors(b@));
    }
    SymbolicProduct::new(parts).canonical()
}

} // verus!
