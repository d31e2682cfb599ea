//! Reading bound formulas from their text: sums and differences of products
//! of numbers, symbols and parenthesised formulas.
use crate::formula::{
    DriverBoundFormula, FormulaModel, constant_model, fm_wf, model_add, model_multiply, model_sub,
    opt_model, symbol_model,
};
use crate::symbol::{SymbolicFactor, normalized};
use crate::text::{
    all_digits, char_is_ascii_ws, char_is_digit, chars_of, digits_to_u64, digits_value,
    is_ascii_ws, is_digit, sub_chars,
};
use vstd::prelude::*;

verus! {

// ---------------------------------------------------------------------------
// Specification
// ---------------------------------------------------------------------------

/// A character that may stand in a symbol.
pub open spec fn is_symbol_char(c: char) -> bool {
    !is_ascii_ws(c) && c != '+' && c != '-' && c != '*' && c != '(' && c != ')'
}

/// The first position from `i` that is not ASCII whitespace.
pub open spec fn skip_ws_from(s: Seq<char>, i: int) -> int
    decreases s.len() - i,
{
    if 0 <= i < s.len() && is_ascii_ws(s[i]) {
        skip_ws_from(s, i + 1)
    } else {
        i
    }
}

/// The end of the run of digits that starts at `i`.
pub open spec fn digits_end(s: Seq<char>, i: int) -> int
    decreases s.len() - i,
{
    if 0 <= i < s.len() && is_digit(s[i]) {
        digits_end(s, i + 1)
    } else {
        i
    }
}

/// The end of the run of symbol characters that starts at `i`.
pub open spec fn symbol_end(s: Seq<char>, i: int) -> int
    decreases s.len() - i,
{
    if 0 <= i < s.len() && is_symbol_char(s[i]) {
        symbol_end(s, i + 1)
    } else {
        i
    }
}

pub proof fn lemma_skip_ws(s: Seq<char>, i: int)
    requires
        0 <= i <= s.len(),
    ensures
        i <= skip_ws_from(s, i) <= s.len(),
        forall|j: int| i <= j < skip_ws_from(s, i) ==> is_ascii_ws(#[trigger] s[j]),
        skip_ws_from(s, i) < s.len() ==> !is_ascii_ws(s[skip_ws_from(s, i)]),
    decreases s.len() - i,
{
    if i < s.len() && is_ascii_ws(s[i]) {
        lemma_skip_ws(s, i + 1);
    }
}

pub proof fn lemma_digits_end(s: Seq<char>, i: int)
    requires
        0 <= i <= s.len(),
    ensures
        i <= digits_end(s, i) <= s.len(),
        forall|j: int| i <= j < digits_end(s, i) ==> is_digit(#[trigger] s[j]),
    decreases s.len() - i,
{
    if i < s.len() && is_digit(s[i]) {
        lemma_digits_end(s, i + 1);
    }
}

pub proof fn lemma_symbol_end(s: Seq<char>, i: int)
    requires
        0 <= i <= s.len(),
    ensures
        i <= symbol_end(s, i) <= s.len(),
    decreases s.len() - i,
{
    if i < s.len() && is_symbol_char(s[i]) {
        lemma_symbol_end(s, i + 1);
    }
}

/// A number at `i`: after whitespace, a run of digits. The cursor moves past
/// the digits even when their value does not fit in 64 bits.
pub open spec fn read_number(s: Seq<char>, i: int) -> (Option<FormulaModel>, int) {
    let j = skip_ws_from(s, i);
    let e = digits_end(s, j);
    if e > j {
        if digits_value(s.subrange(j, e)) <= u64::MAX {
            (Some(constant_model(digits_value(s.subrange(j, e)) as int)), e)
        } else {
            (None, e)
        }
    } else {
        (None, j)
    }
}

/// A symbol at `i`: after whitespace, a run of symbol characters, recorded
/// normalised.
pub open spec fn read_symbol(s: Seq<char>, i: int) -> Option<(FormulaModel, int)> {
    let j = skip_ws_from(s, i);
    let e = symbol_end(s, j);
    if e > j {
        Some((symbol_model(normalized(s.subrange(j, e))), e))
    } else {
        None
    }
}

/// A sum or difference of products starting at `i`.
pub open spec fn read_sum(s: Seq<char>, i: int) -> Option<(FormulaModel, int)>
    decreases s.len() - i, 5int,
{
    if 0 <= i <= s.len() {
        match read_product(s, i) {
            Some((v, c)) => if i < c <= s.len() {
                sum_rest(s, v, c)
            } else {
                None
            },
            None => None,
        }
    } else {
        None
    }
}

/// The rest of a sum whose value so far is `v`, from `c`.
pub open spec fn sum_rest(s: Seq<char>, v: FormulaModel, c: int) -> Option<(FormulaModel, int)>
    decreases s.len() - c, 4int,
{
    if 0 <= c <= s.len() {
        let k = skip_ws_from(s, c);
        proof {
            lemma_skip_ws(s, c);
        }
        if k < s.len() && (s[k] == '+' || s[k] == '-') {
            match read_product(s, k + 1) {
                Some((w, c2)) => if k < c2 <= s.len() {
                    let next = if s[k] == '+' {
                        model_add(v, w)
                    } else {
                        model_sub(v, w)
                    };
                    match next {
                        Some(n) => sum_rest(s, n, c2),
                        None => None,
                    }
                } else {
                    None
                },
                None => None,
            }
        } else {
            Some((v, k))
        }
    } else {
        None
    }
}

/// A product of atoms starting at `i`.
pub open spec fn read_product(s: Seq<char>, i: int) -> Option<(FormulaModel, int)>
    decreases s.len() - i, 3int,
{
    if 0 <= i <= s.len() {
        match read_atom(s, i) {
            Some((v, c)) => if i < c <= s.len() {
                product_rest(s, v, c)
            } else {
                None
            },
            None => None,
        }
    } else {
        None
    }
}

/// The rest of a product whose value so far is `v`, from `c`.
pub open spec fn product_rest(s: Seq<char>, v: FormulaModel, c: int) -> Option<
    (FormulaModel, int),
>
    decreases s.len() - c, 2int,
{
    if 0 <= c <= s.len() {
        let k = skip_ws_from(s, c);
        proof {
            lemma_skip_ws(s, c);
        }
        if k < s.len() && s[k] == '*' {
            match read_atom(s, k + 1) {
                Some((w, c2)) => if k < c2 <= s.len() {
                    match model_multiply(v, w) {
                        Some(n) => product_rest(s, n, c2),
                        None => None,
                    }
                } else {
                    None
                },
                None => None,
            }
        } else {
            Some((v, k))
        }
    } else {
        None
    }
}

/// An atom starting at `i`: a parenthesised sum, a number, or a symbol.
pub open spec fn read_atom(s: Seq<char>, i: int) -> Option<(FormulaModel, int)>
    decreases s.len() - i, 1int,
{
    if 0 <= i <= s.len() {
        let j = skip_ws_from(s, i);
        proof {
            lemma_skip_ws(s, i);
        }
        if j < s.len() && s[j] == '(' {
            match read_sum(s, j + 1) {
                Some((v, c)) => {
                    let k = skip_ws_from(s, c);
                    if k < s.len() && s[k] == ')' {
                        Some((v, k + 1))
                    } else {
                        None
                    }
                },
                None => None,
            }
        } else {
            match read_number(s, j) {
                (Some(v), c) => Some((v, c)),
                (None, c) => read_symbol(s, c),
            }
        }
    } else {
        None
    }
}

/// The formula written as `s`: a sum followed only by whitespace.
pub open spec fn read_formula(s: Seq<char>) -> Option<FormulaModel> {
    read_formula_at(s, 0)
}

/// The formula written from position `i` of `s` to its end: a sum followed
/// only by whitespace.
pub open spec fn read_formula_at(s: Seq<char>, i: int) -> Option<FormulaModel> {
    match read_sum(s, i) {
        Some((v, c)) => if skip_ws_from(s, c) >= s.len() {
            Some(v)
        } else {
            None
        },
        None => None,
    }
}

// ---------------------------------------------------------------------------
// Implementation
// ---------------------------------------------------------------------------

/// A bound formula being read from its text, with the position reached.
pub struct DriverBoundExpression {
    pub source: Vec<char>,
    pub cursor: usize,
}

impl DriverBoundExpression {
    /// Starts reading a text from its beginning.
    pub fn new(source: &str) -> (r: Self)
        ensures
            r.source@ == source@,
            r.cursor == 0,
    {
        DriverBoundExpression { source: chars_of(source), cursor: 0 }
    }

    /// The formula from the cursor to the end: a sum followed only by
    /// whitespace; `None` when the text is not a formula or a number does
    /// not fit.
    pub fn parse(self) -> (r: Option<DriverBoundFormula>)
        requires
            self.cursor <= self.source.len(),
        ensures
            opt_model(r) == read_formula_at(self.source@, self.cursor as int),
            r matches Some(f) ==> fm_wf(f@),
    {
        let mut this = self;
        let value = match this.parse_sum() {
            Some(v) => v,
            None => {
                return None;
            },
        };
        this.skip_ws();
        if this.is_at_end() {
            Some(value)
        } else {
            None
        }
    }

    /// A sum or difference of products.
    pub fn parse_sum(&mut self) -> (r: Option<DriverBoundFormula>)
        requires
            old(self).cursor <= old(self).source.len(),
        ensures
            final(self).source@ == old(self).source@,
            final(self).cursor <= final(self).source.len(),
            match r {
                Some(f) => read_sum(old(self).source@, old(self).cursor as int) == Some(
                    (f@, final(self).cursor as int),
                ) && fm_wf(f@) && old(self).cursor < final(self).cursor,
                None => read_sum(old(self).source@, old(self).cursor as int) is None,
            },
        decreases self.source.len() - self.cursor, 5int,
    {
        let ghost s = self.source@;
        let ghost i = self.cursor as int;
        let mut value = match self.parse_product() {
            Some(v) => v,
            None => {
                return None;
            },
        };
        loop
            invariant
                self.source@ == s,
                s == old(self).source@,
                i == old(self).cursor as int,
                i < self.cursor <= self.source.len(),
                fm_wf(value@),
                read_sum(s, i) == sum_rest(s, value@, self.cursor as int),
            decreases self.source.len() - self.cursor,
        {
            self.skip_ws();
            let k = self.cursor;
            if self.consume('+') {
                let rhs = match self.parse_product() {
                    Some(v) => v,
                    None => {
                        return None;
                    },
                };
                value = match value.add(&rhs) {
                    Some(v) => v,
                    None => {
                        return None;
                    },
                };
            } else if self.consume('-') {
                let rhs = match self.parse_product() {
                    Some(v) => v,
                    None => {
                        return None;
                    },
                };
                value = match value.subtract(&rhs) {
                    Some(v) => v,
                    None => {
                        return None;
                    },
                };
            } else {
                return Some(value);
            }
            proof {
                assert(k < self.cursor);
            }
        }
    }

    /// A product of atoms.
    pub fn parse_product(&mut self) -> (r: Option<DriverBoundFormula>)
        requires
            old(self).cursor <= old(self).source.len(),
        ensures
            final(self).source@ == old(self).source@,
            final(self).cursor <= final(self).source.len(),
            match r {
                Some(f) => read_product(old(self).source@, old(self).cursor as int) == Some(
                    (f@, final(self).cursor as int),
                ) && fm_wf(f@) && old(self).cursor < final(self).cursor,
                None => read_product(old(self).source@, old(self).cursor as int) is None,
            },
        decreases self.source.len() - self.cursor, 3int,
    {
        let ghost s = self.source@;
        let ghost i = self.cursor as int;
        let mut value = match self.parse_atom() {
            Some(v) => v,
            None => {
                return None;
            },
        };
        loop
            invariant
                self.source@ == s,
                s == old(self).source@,
                i == old(self).cursor as int,
                i < self.cursor <= self.source.len(),
                fm_wf(value@),
                read_product(s, i) == product_rest(s, value@, self.cursor as int),
            decreases self.source.len() - self.cursor,
        {
            self.skip_ws();
            let k = self.cursor;
            if self.consume('*') {
                let rhs = match self.parse_atom() {
                    Some(v) => v,
                    None => {
                        return None;
                    },
                };
                value = match value.multiply(&rhs) {
                    Some(v) => v,
                    None => {
                        return None;
                    },
                };
            } else {
                return Some(value);
            }
            proof {
                assert(k < self.cursor);
            }
        }
    }

    /// A parenthesised sum, a number, or a symbol.
    pub fn parse_atom(&mut self) -> (r: Option<DriverBoundFormula>)
        requires
            old(self).cursor <= old(self).source.len(),
        ensures
            final(self).source@ == old(self).source@,
            final(self).cursor <= final(self).source.len(),
            match r {
                Some(f) => read_atom(old(self).source@, old(self).cursor as int) == Some(
                    (f@, final(self).cursor as int),
                ) && fm_wf(f@) && old(self).cursor < final(self).cursor,
                None => read_atom(old(self).source@, old(self).cursor as int) is None,
            },
        decreases self.source.len() - self.cursor, 1int,
    {
        let ghost s = self.source@;
        let ghost i = self.cursor as int;
        self.skip_ws();
        if self.consume('(') {
            let value = match self.parse_sum() {
                Some(v) => v,
                None => {
                    return None;
                },
            };
            self.skip_ws();
            if self.consume(')') {
                Some(value)
            } else {
                None
            }
        } else {
            match self.parse_number() {
                Some(value) => Some(value),
                None => self.parse_symbol(),
            }
        }
    }

    /// A number: a run of digits after whitespace. The cursor moves past the
    /// digits even when their value does not fit in 64 bits.
    pub fn parse_number(&mut self) -> (r: Option<DriverBoundFormula>)
        requires
            old(self).cursor <= old(self).source.len(),
        ensures
            final(self).source@ == old(self).source@,
            read_number(old(self).source@, old(self).cursor as int) == (
                opt_model(r),
                final(self).cursor as int,
            ),
            r matches Some(f) ==> fm_wf(f@),
            old(self).cursor <= final(self).cursor <= final(self).source.len(),
            r is Some ==> old(self).cursor < final(self).cursor,
    {
        let ghost s = self.source@;
        self.skip_ws();
        let start = self.cursor;
        while !self.is_at_end() && char_is_digit(self.source[self.cursor])
            invariant
                self.source@ == s,
                s == old(self).source@,
                start <= self.cursor <= self.source.len(),
                digits_end(s, start as int) == digits_end(s, self.cursor as int),
                forall|x: int| start <= x < self.cursor ==> is_digit(#[trigger] s[x]),
            decreases self.source.len() - self.cursor,
        {
            self.cursor = self.cursor + 1;
        }
        if self.cursor > start {
            proof {
                assert forall|x: int| 0 <= x < s.subrange(start as int, self.cursor as int).len() implies is_digit(
                    #[trigger] s.subrange(start as int, self.cursor as int)[x],
                ) by {
                    assert(s.subrange(start as int, self.cursor as int)[x] == s[start + x]);
                }
            }
            match digits_to_u64(&self.source, start, self.cursor) {
                Some(value) => Some(DriverBoundFormula::from_constant(value)),
                None => None,
            }
        } else {
            None
        }
    }

    /// A symbol: a run of symbol characters after whitespace, recorded
    /// normalised.
    pub fn parse_symbol(&mut self) -> (r: Option<DriverBoundFormula>)
        requires
            old(self).cursor <= old(self).source.len(),
        ensures
            final(self).source@ == old(self).source@,
            final(self).cursor <= final(self).source.len(),
            match r {
                Some(f) => read_symbol(old(self).source@, old(self).cursor as int) == Some(
                    (f@, final(self).cursor as int),
                ) && fm_wf(f@) && old(self).cursor < final(self).cursor,
                None => read_symbol(old(self).source@, old(self).cursor as int) is None,
            },
    {
        let ghost s = self.source@;
        self.skip_ws();
        let start = self.cursor;
        while !self.is_at_end() && self.is_symbol_byte(self.source[self.cursor])
            invariant
                self.source@ == s,
                s == old(self).source@,
                start <= self.cursor <= self.source.len(),
                symbol_end(s, start as int) == symbol_end(s, self.cursor as int),
            decreases self.source.len() - self.cursor,
        {
            self.cursor = self.cursor + 1;
        }
        if self.cursor > start {
            let text = sub_chars(&self.source, start, self.cursor);
            let symbol = SymbolicFactor::new(text).normalized();
            Some(DriverBoundFormula::from_symbol(symbol))
        } else {
            None
        }
    }

    /// Moves the cursor past ASCII whitespace.
    pub fn skip_ws(&mut self)
        requires
            old(self).cursor <= old(self).source.len(),
        ensures
            final(self).source@ == old(self).source@,
            final(self).cursor == skip_ws_from(old(self).source@, old(self).cursor as int),
            old(self).cursor <= final(self).cursor <= final(self).source.len(),
    {
        proof {
            lemma_skip_ws(self.source@, self.cursor as int);
        }
        let ghost start = self.cursor as int;
        while !self.is_at_end() && char_is_ascii_ws(self.source[self.cursor])
            invariant
                self.source@ == old(self).source@,
                start == old(self).cursor as int,
                start <= self.cursor <= self.source.len(),
                skip_ws_from(self.source@, start) == skip_ws_from(self.source@, self.cursor as int),
            decreases self.source.len() - self.cursor,
        {
            self.cursor = self.cursor + 1;
        }
    }

    /// Moves past `c` where it comes next.
    pub fn consume(&mut self, c: char) -> (r: bool)
        requires
            old(self).cursor <= old(self).source.len(),
        ensures
            final(self).source@ == old(self).source@,
            r == (old(self).cursor < old(self).source.len() && old(self).source@[old(
                self,
            ).cursor as int] == c),
            final(self).cursor == if r {
                old(self).cursor + 1
            } else {
                old(self).cursor as int
            },
    {
        if self.is_at_end() || self.source[self.cursor] != c {
            return false;
        }
        self.cursor = self.cursor + 1;
        true
    }

    /// The cursor has reached the end of the text.
    pub fn is_at_end(&self) -> (r: bool)
        ensures
            r == (self.cursor >= self.source.len()),
    {
        self.cursor >= self.source.len()
    }

    /// The character may stand in a symbol: it is neither whitespace nor an
    /// operator or parenthesis.
    pub fn is_symbol_byte(&self, c: char) -> (r: bool)
        ensures
            r == is_symbol_char(c),
    {
        !char_is_ascii_ws(c) && c != '+' && c != '-' && c != '*' && c != '(' && c != ')'
    }
}

impl DriverBoundFormula {
    /// Reads a bound formula from its text; `None` when the text is not a
    /// formula or a number would not fit.
    pub fn from_source(source: &str) -> (r: Option<DriverBoundFormula>)
        ensures
            opt_model(r) == read_formula(source@),
            r matches Some(f) ==> fm_wf(f@),
    {
        DriverBoundExpression::new(source).parse()
    }
}

} // verus!
