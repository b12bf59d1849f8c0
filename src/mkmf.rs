//! Numeric formulas matched against string values.
//!
//! A formula is written `[prefix#]func(arg)` with `func` one of `eq`, `ne`,
//! `gt`, `lt`, `ge`, `le` (a decimal `i64` argument) or `ri` (an inclusive
//! range `low..high`). A value matches when it starts with the prefix, if
//! any, and the rest parses as an `i64` that satisfies the function; a value
//! that does not parse satisfies `ne` only.
use vstd::prelude::*;
use crate::segments::chars_of;
use std::collections::{BTreeMap, HashMap};

verus! {

/// The error of this library.
#[derive(Debug, Clone)]
pub enum Error {
    /// A formula could not be parsed; holds the text that was given.
    FormulaParseError(String),
}

pub open spec fn is_digit(c: char) -> bool {
    '0' <= c && c <= '9'
}

/// The number written by the decimal digits `s`.
pub open spec fn digits_value(s: Seq<char>) -> int
    decreases s.len(),
{
    if s.len() == 0 {
        0
    } else {
        digits_value(s.drop_last()) * 10 + (s.last() as int - '0' as int)
    }
}

pub open spec fn all_digits(s: Seq<char>) -> bool {
    forall|i: int| 0 <= i < s.len() ==> is_digit(#[trigger] s[i])
}

/// `s` without its leading sign, if it has one.
pub open spec fn unsigned_part(s: Seq<char>) -> Seq<char> {
    if s.len() > 0 && (s[0] == '-' || s[0] == '+') {
        s.drop_first()
    } else {
        s
    }
}

/// What `i64`'s `from_str` returns for `s`: an optional sign, then one or
/// more decimal digits, of a value in the range of `i64`.
pub open spec fn parse_int(s: Seq<char>) -> Option<int> {
    let neg = s.len() > 0 && s[0] == '-';
    let body = unsigned_part(s);
    if body.len() == 0 || !all_digits(body) {
        None
    } else {
        let v = if neg {
            -digits_value(body)
        } else {
            digits_value(body)
        };
        if i64::MIN <= v <= i64::MAX {
            Some(v)
        } else {
            None
        }
    }
}

/// The position of the first `c` in `s`, or the length of `s`.
pub open spec fn index_of(s: Seq<char>, c: char) -> int
    decreases s.len(),
{
    if s.len() == 0 || s[0] == c {
        0
    } else {
        1 + index_of(s.drop_first(), c)
    }
}

/// The position of the first `..` in `s`, or the length of `s`.
pub open spec fn index_of_dots(s: Seq<char>) -> int
    decreases s.len(),
{
    if s.len() < 2 {
        s.len() as int
    } else if s[0] == '.' && s[1] == '.' {
        0
    } else {
        1 + index_of_dots(s.drop_first())
    }
}

/// The predicate of a formula, without its prefix.
#[derive(Debug, Clone, Copy, PartialEq, Eq, Structural, PartialOrd, Ord, Hash)]
pub enum FormulaCalc {
    Eq(i64),
    Ne(i64),
    Gt(i64),
    Lt(i64),
    Ge(i64),
    Le(i64),
    Ri(i64, i64),
}

/// A formula as a value: its optional prefix and its predicate.
pub struct FormulaView {
    pub prefix: Option<Seq<char>>,
    pub calc: FormulaCalc,
}

/// The predicate written `func(arg)` by `s`, if `s` is one.
pub open spec fn calc_of(s: Seq<char>) -> Option<FormulaCalc> {
    let k = index_of(s, '(');
    if k >= s.len() {
        None
    } else {
        let kind = s.take(k);
        let rest = s.skip(k + 1);
        let raw = rest.take(index_of(rest, '('));
        if raw.len() == 0 || raw.last() != ')' {
            None
        } else {
            let arg = raw.drop_last();
            if kind == seq!['r', 'i'] {
                let d = index_of_dots(arg);
                let tail = arg.skip(d + 2);
                if d >= arg.len() {
                    None
                } else {
                    match (parse_int(arg.take(d)), parse_int(tail.take(index_of_dots(tail)))) {
                        (Some(lo), Some(hi)) => Some(FormulaCalc::Ri(lo as i64, hi as i64)),
                        _ => None,
                    }
                }
            } else {
                match parse_int(arg) {
                    None => None,
                    Some(n) => if kind == seq!['e', 'q'] {
                        Some(FormulaCalc::Eq(n as i64))
                    } else if kind == seq!['n', 'e'] {
                        Some(FormulaCalc::Ne(n as i64))
                    } else if kind == seq!['g', 't'] {
                        Some(FormulaCalc::Gt(n as i64))
                    } else if kind == seq!['l', 't'] {
                        Some(FormulaCalc::Lt(n as i64))
                    } else if kind == seq!['g', 'e'] {
                        Some(FormulaCalc::Ge(n as i64))
                    } else if kind == seq!['l', 'e'] {
                        Some(FormulaCalc::Le(n as i64))
                    } else {
                        None
                    },
                }
            }
        }
    }
}

/// The formula written by `s`, if `s` is one: the text before the first
/// `#` is its prefix, the rest its predicate.
pub open spec fn formula_of(s: Seq<char>) -> Option<FormulaView> {
    let h = index_of(s, '#');
    if h < s.len() {
        match calc_of(s.skip(h + 1)) {
            Some(c) => Some(FormulaView { prefix: Some(s.take(h)), calc: c }),
            None => None,
        }
    } else {
        match calc_of(s) {
            Some(c) => Some(FormulaView { prefix: None, calc: c }),
            None => None,
        }
    }
}

/// Whether the predicate holds of the value `v`.
pub open spec fn calc_holds(c: FormulaCalc, v: Seq<char>) -> bool {
    match parse_int(v) {
        None => c is Ne,
        Some(n) => match c {
            FormulaCalc::Eq(f) => n == f,
            FormulaCalc::Ne(f) => n != f,
            FormulaCalc::Gt(f) => n > f,
            FormulaCalc::Lt(f) => n < f,
            FormulaCalc::Ge(f) => n >= f,
            FormulaCalc::Le(f) => n <= f,
            FormulaCalc::Ri(lo, hi) => lo <= n <= hi,
        },
    }
}

/// Whether the formula holds of the value `v`.
pub open spec fn formula_holds(f: FormulaView, v: Seq<char>) -> bool {
    match f.prefix {
        Some(p) => p.len() <= v.len() && v.take(p.len() as int) == p && calc_holds(
            f.calc,
            v.skip(p.len() as int),
        ),
        None => calc_holds(f.calc, v),
    }
}

proof fn lemma_digits_value_nonneg(s: Seq<char>)
    requires
        forall|i: int| 0 <= i < s.len() ==> is_digit(#[trigger] s[i]),
    ensures
        digits_value(s) >= 0,
    decreases s.len(),
{
    if s.len() > 0 {
        lemma_digits_value_nonneg(s.drop_last());
    }
}

proof fn lemma_digits_value_grows(s: Seq<char>, i: int)
    requires
        0 <= i <= s.len(),
        forall|j: int| 0 <= j < s.len() ==> is_digit(#[trigger] s[j]),
    ensures
        digits_value(s.take(i)) <= digits_value(s),
    decreases s.len(),
{
    if i < s.len() {
        let t = s.drop_last();
        assert(t.take(i) == s.take(i));
        lemma_digits_value_grows(t, i);
        lemma_digits_value_nonneg(t);
    } else {
        assert(s.take(i) == s);
    }
}

/// Parses `s[from..to]` as `i64`'s `from_str` does.
pub fn parse_i64(s: &Vec<char>, from: usize, to: usize) -> (r: Option<i64>)
    requires
        from <= to <= s@.len(),
    ensures
        match r {
            Some(v) => parse_int(s@.subrange(from as int, to as int)) == Some(v as int),
            None => parse_int(s@.subrange(from as int, to as int)) is None,
        },
{
    let ghost t = s@.subrange(from as int, to as int);
    let neg = from < to && s[from] == '-';
    let start: usize = if from < to && (s[from] == '-' || s[from] == '+') {
        from + 1
    } else {
        from
    };
    let ghost body = s@.subrange(start as int, to as int);
    assert(body == unsigned_part(t));
    if start == to {
        return None;
    }
    let limit: u64 = if neg {
        9223372036854775808
    } else {
        9223372036854775807
    };
    let mut acc: u64 = 0;
    let mut i: usize = start;
    while i < to
        invariant
            start <= i <= to <= s@.len(),
            body == s@.subrange(start as int, to as int),
            body == unsigned_part(t),
            t == s@.subrange(from as int, to as int),
            neg == (t.len() > 0 && t[0] == '-'),
            forall|j: int| 0 <= j < i - start ==> is_digit(#[trigger] body[j]),
            acc as int == digits_value(body.take(i - start)),
            acc <= limit,
            limit == if neg { 9223372036854775808u64 } else { 9223372036854775807u64 },
        decreases to - i,
    {
        let c = s[i];
        if !('0' <= c && c <= '9') {
            assert(!is_digit(body[i - start]));
            return None;
        }
        let d: u64 = (c as u32 - '0' as u32) as u64;
        assert(body.take(i - start + 1).drop_last() == body.take(i - start));
        if acc > (limit - d) / 10 {
            assert(acc * 10 + d > limit) by (nonlinear_arith)
                requires
                    acc > (limit - d) / 10,
                    d <= 9,
                    d <= limit,
            ;
            proof {
                if all_digits(body) {
                    lemma_digits_value_grows(body, i - start + 1);
                }
            }
            return None;
        }
        assert(acc * 10 + d <= limit) by (nonlinear_arith)
            requires
                acc <= (limit - d) / 10,
                d <= 9,
                d <= limit,
        ;
        acc = acc * 10 + d;
        i = i + 1;
    }
    assert(body.take(i - start) == body);
    if neg {
        if acc == 9223372036854775808 {
            Some(i64::MIN)
        } else {
            Some(-(acc as i64))
        }
    } else {
        Some(acc as i64)
    }
}

/// The position of the first `c` in `s[from..to]`, counted from `from`, or
/// `to` when there is none.
fn find_char(s: &Vec<char>, from: usize, to: usize, c: char) -> (r: usize)
    requires
        from <= to <= s@.len(),
    ensures
        from <= r <= to,
        r - from == index_of(s@.subrange(from as int, to as int), c),
{
    let mut i: usize = from;
    while i < to
        invariant
            from <= i <= to <= s@.len(),
            index_of(s@.subrange(from as int, to as int), c) == (i - from) + index_of(
                s@.subrange(i as int, to as int),
                c,
            ),
        decreases to - i,
    {
        if s[i] == c {
            return i;
        }
        assert(s@.subrange(i as int, to as int).drop_first() == s@.subrange(i as int + 1, to as int));
        i = i + 1;
    }
    i
}

/// The position of the first `..` in `s[from..to]`, counted from `from`, or
/// `to` when there is none.
fn find_dots(s: &Vec<char>, from: usize, to: usize) -> (r: usize)
    requires
        from <= to <= s@.len(),
    ensures
        from <= r <= to,
        r == to || r + 2 <= to,
        r - from == index_of_dots(s@.subrange(from as int, to as int)),
{
    let mut i: usize = from;
    while to - i > 1
        invariant
            from <= i <= to <= s@.len(),
            index_of_dots(s@.subrange(from as int, to as int)) == (i - from) + index_of_dots(
                s@.subrange(i as int, to as int),
            ),
        decreases to - i,
    {
        if s[i] == '.' && s[i + 1] == '.' {
            return i;
        }
        assert(s@.subrange(i as int, to as int).drop_first() == s@.subrange(i as int + 1, to as int));
        i = i + 1;
    }
    to
}

/// The characters `s[from..to]`.
pub fn sub_chars(s: &Vec<char>, from: usize, to: usize) -> (r: Vec<char>)
    requires
        from <= to <= s@.len(),
    ensures
        r@ == s@.subrange(from as int, to as int),
{
    let mut r: Vec<char> = Vec::new();
    let mut i: usize = from;
    while i < to
        invariant
            from <= i <= to <= s@.len(),
            r@ == s@.subrange(from as int, i as int),
        decreases to - i,
    {
        r.push(s[i]);
        assert(s@.subrange(from as int, i as int + 1) == s@.subrange(from as int, i as int).push(
            s@[i as int],
        ));
        i = i + 1;
    }
    r
}

/// Whether `s[from..to]` is the two characters `a`, `b`.
fn is_word(s: &Vec<char>, from: usize, to: usize, a: char, b: char) -> (r: bool)
    requires
        from <= to <= s@.len(),
    ensures
        r == (s@.subrange(from as int, to as int) == seq![a, b]),
{
    if to - from != 2 {
        assert(s@.subrange(from as int, to as int).len() != seq![a, b].len());
        return false;
    }
    let r = s[from] == a && s[from + 1] == b;
    if r {
        assert(s@.subrange(from as int, to as int) == seq![a, b]);
    } else {
        assert(s@.subrange(from as int, to as int)[0] == s@[from as int]);
        assert(s@.subrange(from as int, to as int)[1] == s@[from + 1]);
        assert(seq![a, b][0] == a && seq![a, b][1] == b);
    }
    r
}

/// Parses the predicate `func(arg)` written by `s[from..to]`.
fn parse_calc(s: &Vec<char>, from: usize, to: usize) -> (r: Option<FormulaCalc>)
    requires
        from <= to <= s@.len(),
    ensures
        r == calc_of(s@.subrange(from as int, to as int)),
{
    let ghost t = s@.subrange(from as int, to as int);
    let k = find_char(s, from, to, '(');
    if k == to {
        return None;
    }
    let ghost rest = t.skip(k - from + 1);
    assert(rest == s@.subrange(k + 1, to as int));
    let r2 = find_char(s, k + 1, to, '(');
    let ghost raw = rest.take(index_of(rest, '('));
    assert(raw == s@.subrange(k + 1, r2 as int));
    if r2 == k + 1 || s[r2 - 1] != ')' {
        return None;
    }
    let a0 = k + 1;
    let a1 = r2 - 1;
    let ghost arg = raw.drop_last();
    assert(arg == s@.subrange(a0 as int, a1 as int));
    assert(t.take(k - from) == s@.subrange(from as int, k as int));
    if is_word(s, from, k, 'r', 'i') {
        let d = find_dots(s, a0, a1);
        if d == a1 {
            return None;
        }
        let t0 = d + 2;
        let t1 = find_dots(s, t0, a1);
        let ghost tail = arg.skip(d - a0 + 2);
        assert(tail == s@.subrange(t0 as int, a1 as int));
        assert(arg.take(d - a0) == s@.subrange(a0 as int, d as int));
        assert(tail.take(index_of_dots(tail)) == s@.subrange(t0 as int, t1 as int));
        let lo = parse_i64(s, a0, d);
        let hi = parse_i64(s, t0, t1);
        match (lo, hi) {
            (Some(lo), Some(hi)) => Some(FormulaCalc::Ri(lo, hi)),
            _ => None,
        }
    } else {
        let n = match parse_i64(s, a0, a1) {
            Some(n) => n,
            None => {
                return None;
            },
        };
        if is_word(s, from, k, 'e', 'q') {
            Some(FormulaCalc::Eq(n))
        } else if is_word(s, from, k, 'n', 'e') {
            Some(FormulaCalc::Ne(n))
        } else if is_word(s, from, k, 'g', 't') {
            Some(FormulaCalc::Gt(n))
        } else if is_word(s, from, k, 'l', 't') {
            Some(FormulaCalc::Lt(n))
        } else if is_word(s, from, k, 'g', 'e') {
            Some(FormulaCalc::Ge(n))
        } else if is_word(s, from, k, 'l', 'e') {
            Some(FormulaCalc::Le(n))
        } else {
            None
        }
    }
}

/// Whether the predicate holds of the value `v[from..to]`.
fn calc_matches(c: FormulaCalc, v: &Vec<char>, from: usize, to: usize) -> (r: bool)
    requires
        from <= to <= v@.len(),
    ensures
        r == calc_holds(c, v@.subrange(from as int, to as int)),
{
    match parse_i64(v, from, to) {
        None => matches!(c, FormulaCalc::Ne(_)),
        Some(n) => match c {
            FormulaCalc::Eq(f) => n == f,
            FormulaCalc::Ne(f) => n != f,
            FormulaCalc::Gt(f) => n > f,
            FormulaCalc::Lt(f) => n < f,
            FormulaCalc::Ge(f) => n >= f,
            FormulaCalc::Le(f) => n <= f,
            FormulaCalc::Ri(lo, hi) => lo <= n && n <= hi,
        },
    }
}

/// A numeric formula: an optional prefix that a value must begin with, and
/// a predicate on the `i64` that the rest of the value parses as.
#[derive(Debug, Clone, Eq, PartialOrd, Ord)]
pub struct Formula {
    prefix: Option<Vec<char>>,
    calc: FormulaCalc,
}

impl View for Formula {
    type V = FormulaView;

    closed spec fn view(&self) -> FormulaView {
        FormulaView {
            prefix: match self.prefix {
                Some(p) => Some(p@),
                None => None,
            },
            calc: self.calc,
        }
    }
}

impl PartialEq for Formula {
    fn eq(&self, o: &Formula) -> (r: bool) {
        let same_prefix = match (&self.prefix, &o.prefix) {
            (Some(a), Some(b)) => crate::segments::chars_eq(a, b),
            (None, None) => true,
            _ => false,
        };
        same_prefix && self.calc == o.calc
    }
}

impl vstd::std_specs::cmp::PartialEqSpecImpl for Formula {
    open spec fn obeys_eq_spec() -> bool {
        true
    }

    open spec fn eq_spec(&self, o: &Formula) -> bool {
        self@ == o@
    }
}

impl Formula {
    /// Parses the formula written by `s`.
    pub fn parse_chars(s: &Vec<char>) -> (r: Option<Formula>)
        ensures
            match r {
                Some(f) => formula_of(s@) == Some(f@),
                None => formula_of(s@) is None,
            },
    {
        let n = s.len();
        let h = find_char(s, 0, n, '#');
        assert(s@.subrange(0, n as int) == s@);
        if h < n {
            assert(s@.skip(h + 1) == s@.subrange(h + 1, n as int));
            match parse_calc(s, h + 1, n) {
                Some(calc) => {
                    let p = sub_chars(s, 0, h);
                    assert(p@ == s@.take(h as int));
                    Some(Formula { prefix: Some(p), calc })
                },
                None => None,
            }
        } else {
            match parse_calc(s, 0, n) {
                Some(calc) => Some(Formula { prefix: None, calc }),
                None => None,
            }
        }
    }

    /// Parses the formula written by `s`; the error holds `s`.
    pub fn parse(s: &str) -> (r: Result<Formula, Error>)
        ensures
            match r {
                Ok(f) => formula_of(s@) == Some(f@),
                Err(Error::FormulaParseError(m)) => formula_of(s@) is None && m@ == s@,
            },
    {
        let v = chars_of(s);
        match Formula::parse_chars(&v) {
            Some(f) => Ok(f),
            None => Err(Error::FormulaParseError(s.to_owned())),
        }
    }

    /// Whether the formula holds of the value `value`.
    pub fn matches_chars(&self, value: &Vec<char>) -> (r: bool)
        ensures
            r == formula_holds(self@, value@),
    {
        let n = value.len();
        assert(value@.subrange(0, n as int) == value@);
        match &self.prefix {
            Some(p) => {
                if !crate::segments::starts_with(value, p) {
                    return false;
                }
                assert(value@.subrange(p.len() as int, n as int) == value@.skip(p@.len() as int));
                calc_matches(self.calc, value, p.len(), n)
            },
            None => calc_matches(self.calc, value, 0, n),
        }
    }

    /// Whether the formula holds of the value `value`.
    pub fn matches(&self, value: &str) -> (r: bool)
        ensures
            r == formula_holds(self@, value@),
    {
        let v = chars_of(value);
        self.matches_chars(&v)
    }
}

/// The texts of `v`.
pub open spec fn ref_views(v: Seq<&String>) -> Seq<Seq<char>> {
    v.map_values(|s: &String| s@)
}

/// The keys among `keys` that the formula written by `formula` holds of, in
/// order; none when `formula` is no formula.
pub open spec fn kept_keys(keys: Seq<Seq<char>>, formula: Seq<char>) -> Seq<Seq<char>>
    decreases keys.len(),
{
    if keys.len() == 0 {
        keys
    } else {
        let prev = kept_keys(keys.drop_last(), formula);
        match formula_of(formula) {
            Some(f) => if formula_holds(f, keys.last()) {
                prev.push(keys.last())
            } else {
                prev
            },
            None => prev,
        }
    }
}

/// The positions among `keys` of the keys that the formula written by
/// `formula` holds of, in order.
pub open spec fn kept_positions(keys: Seq<Seq<char>>, formula: Seq<char>) -> Seq<int>
    decreases keys.len(),
{
    if keys.len() == 0 {
        Seq::empty()
    } else {
        let prev = kept_positions(keys.drop_last(), formula);
        match formula_of(formula) {
            Some(f) => if formula_holds(f, keys.last()) {
                prev.push(keys.len() - 1)
            } else {
                prev
            },
            None => prev,
        }
    }
}

/// The keys among `keys` that the formula written by `formula` holds of, in
/// order; none when `formula` does not parse.
pub fn keys_match_formula<'a>(keys: &Vec<&'a String>, formula: &str) -> (r: Vec<&'a String>)
    ensures
        ref_views(r@) == kept_keys(ref_views(keys@), formula@),
{
    let parsed = Formula::parse(formula);
    let mut r: Vec<&'a String> = Vec::new();
    let mut i: usize = 0;
    while i < keys.len()
        invariant
            i <= keys@.len(),
            match parsed {
                Ok(f) => formula_of(formula@) == Some(f@),
                Err(_) => formula_of(formula@) is None,
            },
            ref_views(r@) == kept_keys(ref_views(keys@).take(i as int), formula@),
        decreases keys.len() - i,
    {
        let ghost kv = ref_views(keys@).take(i as int + 1);
        assert(kv.drop_last() == ref_views(keys@).take(i as int));
        assert(kv.last() == keys@[i as int]@);
        match &parsed {
            Ok(f) => {
                let key: &'a String = keys[i];
                if f.matches(key.as_str()) {
                    r.push(key);
                    assert(ref_views(r@) == kept_keys(kv, formula@));
                }
            },
            Err(_) => {},
        }
        i = i + 1;
    }
    assert(ref_views(keys@).take(i as int) == ref_views(keys@));
    r
}

/// The values among `entries` whose keys the formula written by `formula`
/// holds of, in order; none when `formula` does not parse.
pub fn values_match_key_formula<'a, V>(entries: &Vec<(&'a String, &'a V)>, formula: &str) -> (r: Vec<&'a V>)
    ensures
        r@.len() == kept_positions(entries@.map_values(|e: (&String, &V)| e.0@), formula@).len(),
        forall|j: int| 0 <= j < r@.len() ==> r@[j] == entries@[kept_positions(
            entries@.map_values(|e: (&String, &V)| e.0@),
            formula@,
        )[j]].1,
{
    let ghost ks = entries@.map_values(|e: (&String, &V)| e.0@);
    let parsed = Formula::parse(formula);
    let mut r: Vec<&'a V> = Vec::new();
    let mut i: usize = 0;
    while i < entries.len()
        invariant
            i <= entries@.len(),
            ks == entries@.map_values(|e: (&String, &V)| e.0@),
            match parsed {
                Ok(f) => formula_of(formula@) == Some(f@),
                Err(_) => formula_of(formula@) is None,
            },
            r@.len() == kept_positions(ks.take(i as int), formula@).len(),
            forall|j: int| 0 <= j < r@.len() ==> r@[j] == entries@[kept_positions(ks.take(i as int), formula@)[j]].1,
        decreases entries.len() - i,
    {
        let ghost kv = ks.take(i as int + 1);
        assert(kv.drop_last() == ks.take(i as int));
        assert(kv.last() == entries@[i as int].0@);
        assert(kv.len() - 1 == i);
        match &parsed {
            Ok(f) => {
                let (key, value) = entries[i];
                if f.matches(key.as_str()) {
                    r.push(value);
                }
            },
            Err(_) => {},
        }
        i = i + 1;
    }
    assert(ks.take(i as int) == ks);
    r
}

/// Relies on `BTreeMap::keys`: every key of the map once, in the map's order.
#[verifier::external_body]
fn keys_of<'a, V>(m: &'a BTreeMap<String, V>) -> (r: Vec<&'a String>)
    ensures
        r@.len() == m@.dom().len(),
        forall|i: int| 0 <= i < r@.len() ==> m@.dom().contains(*#[trigger] r@[i]),
{
    m.keys().collect()
}

/// Relies on `BTreeMap::iter`: every entry of the map once, in the map's
/// order.
#[verifier::external_body]
fn entries_of<'a, V>(m: &'a BTreeMap<String, V>) -> (r: Vec<(&'a String, &'a V)>)
    ensures
        r@.len() == m@.dom().len(),
        forall|i: int| 0 <= i < r@.len() ==> m@.dom().contains(*#[trigger] r@[i].0) && m@[*r@[i].0] == *r@[i].1,
{
    m.iter().collect()
}

impl std::str::FromStr for Formula {
    type Err = Error;

    fn from_str(s: &str) -> Result<Formula, Error> {
        Formula::parse(s)
    }
}

/// Relies on `HashMap::keys`: every key of the map once, in the map's
/// iteration order.
#[verifier::external_body]
fn hash_keys_of<'a, V>(m: &'a HashMap<String, V>) -> (r: Vec<&'a String>)
    ensures
        r@.len() == m@.dom().len(),
        forall|i: int| 0 <= i < r@.len() ==> m@.dom().contains(*#[trigger] r@[i]),
{
    m.keys().collect()
}

/// Relies on `HashMap::iter`: every entry of the map once, in the map's
/// iteration order.
#[verifier::external_body]
fn hash_entries_of<'a, V>(m: &'a HashMap<String, V>) -> (r: Vec<(&'a String, &'a V)>)
    ensures
        r@.len() == m@.dom().len(),
        forall|i: int| 0 <= i < r@.len() ==> m@.dom().contains(*#[trigger] r@[i].0) && m@[*r@[i].0] == *r@[i].1,
{
    m.iter().collect()
}

/// Maps whose keys can be matched against a formula.
pub trait MapKeysMatchFormula<K, V> {
    /// The keys that the formula written by `formula` holds of.
    fn keys_match_formula<'a>(&'a self, formula: &str) -> std::vec::IntoIter<&'a K>;

    /// The values whose keys the formula written by `formula` holds of.
    fn values_match_key_formula<'a>(&'a self, formula: &str) -> std::vec::IntoIter<&'a V>;
}

impl<V> MapKeysMatchFormula<String, V> for BTreeMap<String, V> {
    fn keys_match_formula<'a>(&'a self, formula: &str) -> std::vec::IntoIter<&'a String> {
        let keys = keys_of(self);
        keys_match_formula(&keys, formula).into_iter()
    }

    fn values_match_key_formula<'a>(&'a self, formula: &str) -> std::vec::IntoIter<&'a V> {
        let entries = entries_of(self);
        values_match_key_formula(&entries, formula).into_iter()
    }
}

impl<V> MapKeysMatchFormula<String, V> for HashMap<String, V> {
    fn keys_match_formula<'a>(&'a self, formula: &str) -> std::vec::IntoIter<&'a String> {
        let keys = hash_keys_of(self);
        keys_match_formula(&keys, formula).into_iter()
    }

    fn values_match_key_formula<'a>(&'a self, formula: &str) -> std::vec::IntoIter<&'a V> {
        let entries = hash_entries_of(self);
        values_match_key_formula(&entries, formula).into_iter()
    }
}

} // verus!
