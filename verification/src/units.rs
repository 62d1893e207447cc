//! Unit algebra: parsing, canonicalization and arithmetic on unit expressions.
//!
//! A unit string follows the grammar `product [ "/" product ]` with
//! `product = factor ("*" factor)*` and `factor = base [ "^" int ]`.
//! Parsing yields a bag mapping each base symbol to its (nonzero) integer
//! exponent; multiplying units adds exponents, dividing subtracts them.
//! The canonical string lists positive-exponent factors sorted by base,
//! then `/` and the negated negative-exponent factors, `1` standing in for
//! an empty numerator.

use vstd::prelude::*;

verus! {

// ---------------------------------------------------------------------------
// Character-level helpers
// ---------------------------------------------------------------------------

/// ASCII whitespace, as trimmed from unit strings.
pub open spec fn is_space(c: char) -> bool {
    c == ' ' || c == '\t' || c == '\n' || c == '\r'
}

/// Digit character for a value in 0..=9.
pub open spec fn digit_char(d: int) -> char {
    if d == 0 { '0' } else if d == 1 { '1' } else if d == 2 { '2' } else if d == 3 { '3' }
    else if d == 4 { '4' } else if d == 5 { '5' } else if d == 6 { '6' } else if d == 7 { '7' }
    else if d == 8 { '8' } else { '9' }
}

pub open spec fn is_digit(c: char) -> bool {
    '0' as u32 <= c as u32 && c as u32 <= '9' as u32
}

pub open spec fn digit_val(c: char) -> int {
    c as u32 - '0' as u32
}

/// Strict lexicographic order on character sequences, by code point.
pub open spec fn lex_lt(a: Seq<char>, b: Seq<char>) -> bool
    decreases a.len(),
{
    if b.len() == 0 {
        false
    } else if a.len() == 0 {
        true
    } else if (a[0] as u32) < (b[0] as u32) {
        true
    } else if a[0] == b[0] {
        lex_lt(a.drop_first(), b.drop_first())
    } else {
        false
    }
}

pub open spec fn trim_front(s: Seq<char>) -> Seq<char>
    decreases s.len(),
{
    if s.len() > 0 && is_space(s[0]) {
        trim_front(s.drop_first())
    } else {
        s
    }
}

pub open spec fn trim_back(s: Seq<char>) -> Seq<char>
    decreases s.len(),
{
    if s.len() > 0 && is_space(s.last()) {
        trim_back(s.drop_last())
    } else {
        s
    }
}

/// Both-ends whitespace trim.
pub open spec fn trim_spec(s: Seq<char>) -> Seq<char> {
    trim_back(trim_front(s))
}

/// Index of the first occurrence of `c` in `s`, or -1 if absent.
pub open spec fn find_char(s: Seq<char>, c: char) -> int
    decreases s.len(),
{
    if s.len() == 0 {
        -1
    } else if s[0] == c {
        0
    } else {
        let r = find_char(s.drop_first(), c);
        if r == -1 { -1 } else { r + 1 }
    }
}

/// Splitting on a separator character, as `str::split` does: always at least
/// one part, with empty parts kept.
pub open spec fn split_char(s: Seq<char>, c: char) -> Seq<Seq<char>>
    decreases s.len(),
{
    if s.len() == 0 {
        seq![Seq::<char>::empty()]
    } else if s[0] == c {
        seq![Seq::<char>::empty()].add(split_char(s.drop_first(), c))
    } else {
        let rest = split_char(s.drop_first(), c);
        seq![seq![s[0]].add(rest[0])].add(rest.drop_first())
    }
}

// ---------------------------------------------------------------------------
// The grammar, as a specification
// ---------------------------------------------------------------------------

/// Value of a digit string read in base 10.
pub open spec fn digits_val(s: Seq<char>) -> int
    decreases s.len(),
{
    if s.len() == 0 {
        0
    } else {
        digits_val(s.drop_last()) * 10 + digit_val(s.last())
    }
}

pub open spec fn all_digits(s: Seq<char>) -> bool {
    forall|i: int| 0 <= i < s.len() ==> is_digit(#[trigger] s[i])
}

/// Integer parsing with the semantics of `i32::from_str`: an optional sign,
/// then one or more ASCII digits, value within the 32-bit signed range.
pub open spec fn parse_exp(s: Seq<char>) -> Option<int> {
    if s.len() == 0 {
        None
    } else {
        let sgn: int = if s[0] == '-' { -1 } else { 1 };
        let digits = if s[0] == '-' || s[0] == '+' { s.drop_first() } else { s };
        if digits.len() == 0 || !all_digits(digits) {
            None
        } else {
            let v = sgn * digits_val(digits);
            if -0x8000_0000 <= v <= 0x7FFF_FFFF { Some(v) } else { None }
        }
    }
}

/// One factor `base [ "^" int ]`. Anything after a second `^` is ignored,
/// as `split('^')` iteration does. The base is trimmed and must be nonempty.
pub open spec fn parse_factor(f: Seq<char>) -> Option<(Seq<char>, int)> {
    let parts = split_char(f, '^');
    let base = trim_spec(parts[0]);
    if base.len() == 0 {
        None
    } else if parts.len() == 1 {
        Some((base, 1))
    } else {
        match parse_exp(parts[1]) {
            None => None,
            Some(e) => Some((base, e)),
        }
    }
}

/// Exponent of `k` in the bag, zero when absent.
pub open spec fn bval(m: Map<Seq<char>, int>, k: Seq<char>) -> int {
    if m.dom().contains(k) { m[k] } else { 0 }
}

/// Adds `d` to the exponent of `k`, dropping the key if it cancels to zero.
pub open spec fn bag_add(m: Map<Seq<char>, int>, k: Seq<char>, d: int) -> Map<Seq<char>, int> {
    if bval(m, k) + d == 0 { m.remove(k) } else { m.insert(k, bval(m, k) + d) }
}

/// Folds the factors of a product into the bag, each exponent scaled by
/// `sign` (+1 for a numerator, -1 for a denominator).
pub open spec fn parse_product_rec(parts: Seq<Seq<char>>, sign: int, m: Map<Seq<char>, int>)
    -> Option<Map<Seq<char>, int>>
    decreases parts.len(),
{
    if parts.len() == 0 {
        Some(m)
    } else {
        match parse_factor(parts[0]) {
            None => None,
            Some(be) => parse_product_rec(parts.drop_first(), sign, bag_add(m, be.0, be.1 * sign)),
        }
    }
}

/// A product: blank or the literal `1` contributes nothing; otherwise each
/// `*`-separated factor is folded in.
pub open spec fn parse_product_spec(s: Seq<char>, sign: int, m: Map<Seq<char>, int>)
    -> Option<Map<Seq<char>, int>>
{
    if trim_spec(s).len() == 0 || s == seq!['1'] {
        Some(m)
    } else {
        parse_product_rec(split_char(s, '*'), sign, m)
    }
}

/// The whole grammar: blank input and more than one `/` are errors.
pub open spec fn parse_spec(s: Seq<char>) -> Option<Map<Seq<char>, int>> {
    if trim_spec(s).len() == 0 {
        None
    } else {
        let parts = split_char(s, '/');
        match parse_product_spec(parts[0], 1, Map::empty()) {
            None => None,
            Some(m1) => {
                if parts.len() == 1 {
                    Some(m1)
                } else {
                    match parse_product_spec(parts[1], -1, m1) {
                        None => None,
                        Some(m2) => if parts.len() == 2 { Some(m2) } else { None },
                    }
                }
            }
        }
    }
}

// ---------------------------------------------------------------------------
// The canonical string, as a specification
// ---------------------------------------------------------------------------

/// Decimal digits of a nonnegative integer.
pub open spec fn dec_spec(n: int) -> Seq<char>
    decreases n,
{
    if n <= 9 {
        seq![digit_char(if n < 0 { 0 } else { n })]
    } else {
        dec_spec(n / 10).push(digit_char(n % 10))
    }
}

/// One printed factor: the bare base for exponent one, else `base^e`.
pub open spec fn fmt_factor(base: Seq<char>, e: int) -> Seq<char> {
    if e == 1 { base } else { base.push('^').add(dec_spec(e)) }
}

/// Factors joined with `*`.
pub open spec fn join_factors(parts: Seq<(Seq<char>, int)>) -> Seq<char>
    decreases parts.len(),
{
    if parts.len() == 0 {
        Seq::empty()
    } else if parts.len() == 1 {
        fmt_factor(parts[0].0, parts[0].1)
    } else {
        join_factors(parts.drop_last()).push('*').add(fmt_factor(parts.last().0, parts.last().1))
    }
}

/// One side of the canonical form; `1` for an empty side.
pub open spec fn canon_side(parts: Seq<(Seq<char>, int)>) -> Seq<char> {
    if parts.len() == 0 { seq!['1'] } else { join_factors(parts) }
}

/// One side of a term list: for the numerator (`neg` false) the terms with
/// positive exponent; for the denominator the negative ones, negated.
pub open spec fn side_terms(s: Seq<(Seq<char>, int)>, neg: bool) -> Seq<(Seq<char>, int)>
    decreases s.len(),
{
    if s.len() == 0 {
        Seq::empty()
    } else {
        let r = side_terms(s.drop_last(), neg);
        let t = s.last();
        if !neg && t.1 > 0 {
            r.push((t.0, t.1))
        } else if neg && t.1 < 0 {
            r.push((t.0, -t.1))
        } else {
            r
        }
    }
}

/// The view of a term list: base views paired with mathematical exponents.
pub open spec fn terms_view(s: Seq<(String, i64)>) -> Seq<(Seq<char>, int)>
    decreases s.len(),
{
    if s.len() == 0 {
        Seq::empty()
    } else {
        terms_view(s.drop_last()).push((s.last().0@, s.last().1 as int))
    }
}

/// The canonical string of a term list (bases paired with signed
/// exponents): the positive side, and a `/` denominator unless the
/// denominator side prints as `1`.
pub open spec fn canon_spec(terms: Seq<(Seq<char>, int)>) -> Seq<char> {
    let n = canon_side(side_terms(terms, false));
    let d = canon_side(side_terms(terms, true));
    if d == seq!['1'] { n } else { n.push('/').add(d) }
}

} // verus!

verus! {

// ---------------------------------------------------------------------------
// Facts about the character-level helpers
// ---------------------------------------------------------------------------

/// `find_char` returns either -1 (no occurrence) or the first occurrence.
pub proof fn lemma_find_char_is(s: Seq<char>, c: char, i: int)
    requires
        0 <= i <= s.len(),
        forall|j: int| 0 <= j < i ==> s[j] != c,
        i == s.len() || s[i] == c,
    ensures
        find_char(s, c) == if i == s.len() { -1 as int } else { i },
    decreases s.len(),
{
    if s.len() == 0 {
    } else if s[0] == c {
        assert(i == 0);
    } else {
        assert(i >= 1);
        let t = s.drop_first();
        assert(forall|j: int| 0 <= j < i - 1 ==> t[j] == s[j + 1] && s[j + 1] != c);
        assert(i - 1 == t.len() || t[i - 1] == c);
        lemma_find_char_is(t, c, i - 1);
    }
}

/// `find_char` stays in range and lands on the first occurrence.
pub proof fn lemma_find_char_range(s: Seq<char>, c: char)
    ensures
        -1 <= find_char(s, c) < s.len(),
        find_char(s, c) >= 0 ==> s[find_char(s, c)] == c,
        forall|j: int| 0 <= j < find_char(s, c) ==> s[j] != c,
        find_char(s, c) == -1 ==> forall|j: int| 0 <= j < s.len() ==> s[j] != c,
    decreases s.len(),
{
    if s.len() == 0 {
    } else if s[0] == c {
    } else {
        let t = s.drop_first();
        lemma_find_char_range(t, c);
        let r = find_char(t, c);
        if r >= 0 {
            assert(s[r + 1] == t[r]);
        }
        assert forall|j: int| 0 <= j < find_char(s, c) implies s[j] != c by {
            if j >= 1 {
                assert(s[j] == t[j - 1]);
            }
        }
        if find_char(s, c) == -1 {
            assert forall|j: int| 0 <= j < s.len() implies s[j] != c by {
                if j >= 1 {
                    assert(s[j] == t[j - 1]);
                }
            }
        }
    }
}

/// Unfolds `split_char` at the first separator occurrence.
pub proof fn lemma_split_first(s: Seq<char>, c: char)
    ensures
        find_char(s, c) == -1 ==> split_char(s, c) =~~= seq![s],
        find_char(s, c) >= 0 ==> {
            let i = find_char(s, c);
            split_char(s, c) =~~= seq![s.take(i)].add(split_char(s.skip(i + 1), c))
        },
    decreases s.len(),
{
    lemma_find_char_range(s, c);
    if s.len() == 0 {
    } else if s[0] == c {
        assert(find_char(s, c) == 0);
        assert(s.take(0) =~= Seq::<char>::empty());
        assert(s.skip(1) =~= s.drop_first());
    } else {
        let t = s.drop_first();
        lemma_find_char_range(t, c);
        lemma_split_first(t, c);
        let r = find_char(t, c);
        if r == -1 {
            assert(split_char(t, c) =~~= seq![t]);
            assert(seq![s[0]].add(t) =~= s);
            assert(split_char(s, c) =~~= seq![s]);
        } else {
            let i = r + 1;
            assert(find_char(s, c) == i);
            // split_char(t) = [t.take(r)] + split_char(t.skip(r+1))
            let rest = split_char(t, c);
            assert(rest =~~= seq![t.take(r)].add(split_char(t.skip(r + 1), c)));
            assert(rest[0] == t.take(r));
            assert(seq![s[0]].add(t.take(r)) =~= s.take(i));
            assert(t.skip(r + 1) =~= s.skip(i + 1));
            assert(split_char(s, c) =~~=
                seq![s.take(i)].add(split_char(s.skip(i + 1), c)));
        }
    }
}

/// Every part of a split is free of the separator.
pub proof fn lemma_split_no_sep(s: Seq<char>, c: char)
    ensures
        split_char(s, c).len() >= 1,
        forall|k: int, i: int|
            0 <= k < split_char(s, c).len() && 0 <= i < split_char(s, c)[k].len()
                ==> split_char(s, c)[k][i] != c,
    decreases s.len(),
{
    if s.len() == 0 {
    } else if s[0] == c {
        lemma_split_no_sep(s.drop_first(), c);
    } else {
        let t = s.drop_first();
        lemma_split_no_sep(t, c);
        let rest = split_char(t, c);
        let first = seq![s[0]].add(rest[0]);
        assert forall|i: int| 0 <= i < first.len() implies first[i] != c by {
            if i > 0 {
                assert(first[i] == rest[0][i - 1]);
            }
        }
    }
}

/// `trim_front` drops exactly the leading whitespace.
pub proof fn lemma_trim_front_is(s: Seq<char>, k: int)
    requires
        0 <= k <= s.len(),
        forall|j: int| 0 <= j < k ==> is_space(s[j]),
        k == s.len() || !is_space(s[k]),
    ensures
        trim_front(s) =~= s.skip(k),
    decreases k,
{
    if k == 0 {
        assert(s.skip(0) =~= s);
    } else {
        let t = s.drop_first();
        assert(forall|j: int| 0 <= j < k - 1 ==> t[j] == s[j + 1] && is_space(s[j + 1]));
        lemma_trim_front_is(t, k - 1);
        assert(t.skip(k - 1) =~= s.skip(k));
    }
}

/// `trim_back` drops exactly the trailing whitespace.
pub proof fn lemma_trim_back_is(s: Seq<char>, k: int)
    requires
        0 <= k <= s.len(),
        forall|j: int| k <= j < s.len() ==> is_space(s[j]),
        k == 0 || !is_space(s[k - 1]),
    ensures
        trim_back(s) =~= s.take(k),
    decreases s.len(),
{
    if k == s.len() {
        if s.len() > 0 && is_space(s.last()) {
            assert(false);
        }
        assert(s.take(k) =~= s);
    } else {
        let t = s.drop_last();
        lemma_trim_back_is(t, k);
        assert(t.take(k) =~= s.take(k));
    }
}

/// A string whose first character is not whitespace stays nonempty under
/// `trim_back`.
pub proof fn lemma_trim_back_keeps_head(s: Seq<char>)
    requires
        s.len() > 0,
        !is_space(s[0]),
    ensures
        trim_back(s).len() > 0,
        trim_back(s)[0] == s[0],
    decreases s.len(),
{
    if s.len() > 0 && is_space(s.last()) {
        lemma_trim_back_keeps_head(s.drop_last());
    }
}

// ---------------------------------------------------------------------------
// Exec counterparts of the character-level helpers
// ---------------------------------------------------------------------------

/// Whether the character at `i` is whitespace.
fn space_at(s: &str, i: usize) -> (r: bool)
    requires
        i < s@.len(),
    ensures
        r == is_space(s@[i as int]),
{
    let ch = s.get_char(i);
    ch == ' ' || ch == '\t' || ch == '\n' || ch == '\r'
}

/// First occurrence of `c` in `s` at or after `from`.
fn find_from(s: &str, c: char, from: usize) -> (r: Option<usize>)
    requires
        from <= s@.len(),
    ensures
        match r {
            Some(i) => from <= i < s@.len() && s@[i as int] == c
                && forall|j: int| from <= j < i ==> s@[j] != c,
            None => forall|j: int| from <= j < s@.len() ==> s@[j] != c,
        },
{
    let n = s.unicode_len();
    let mut i: usize = from;
    while i < n
        invariant
            from <= i <= n,
            n == s@.len(),
            forall|j: int| from <= j < i ==> s@[j] != c,
        decreases n - i,
    {
        if s.get_char(i) == c {
            return Some(i);
        }
        i = i + 1;
    }
    None
}

/// Trimmed bounds of `s@.subrange(lo, hi)`: the subrange of the result
/// bounds equals the whitespace trim of the input subrange.
fn trim_bounds(s: &str, lo: usize, hi: usize) -> (r: (usize, usize))
    requires
        lo <= hi <= s@.len(),
    ensures
        lo <= r.0 <= r.1 <= hi,
        s@.subrange(r.0 as int, r.1 as int) == trim_spec(s@.subrange(lo as int, hi as int)),
        r.0 < r.1 ==> !is_space(s@[r.0 as int]) && !is_space(s@[r.1 - 1]),
{
    let ghost sub = s@.subrange(lo as int, hi as int);
    let mut a: usize = lo;
    while a < hi && space_at(s, a)
        invariant
            lo <= a <= hi,
            hi <= s@.len(),
            forall|j: int| lo <= j < a ==> is_space(s@[j]),
        decreases hi - a,
    {
        a = a + 1;
    }
    proof {
        assert(forall|j: int| 0 <= j < a - lo ==> sub[j] == s@[j + lo] && is_space(sub[j]));
        assert(a - lo == sub.len() || !is_space(sub[a - lo]));
        lemma_trim_front_is(sub, a - lo);
    }
    let ghost fronted = sub.skip(a - lo);
    if a == hi {
        proof {
            assert(fronted =~= Seq::<char>::empty());
            assert(trim_back(fronted) =~= Seq::<char>::empty());
            assert(s@.subrange(a as int, a as int) =~= trim_spec(sub));
        }
        return (a, a);
    }
    let mut b: usize = hi;
    while b > a && space_at(s, b - 1)
        invariant
            a <= b <= hi,
            hi <= s@.len(),
            a < hi,
            forall|j: int| b <= j < hi ==> is_space(s@[j]),
        decreases b,
    {
        b = b - 1;
    }
    proof {
        assert(forall|j: int| 0 <= j < fronted.len() ==> fronted[j] == s@[j + a]);
        assert(forall|j: int| b - a <= j < fronted.len() ==> is_space(fronted[j]));
        if b > a {
            assert(!is_space(s@[b - 1]));
            assert(fronted[b - a - 1] == s@[b - 1]);
        }
        lemma_trim_back_is(fronted, b - a);
        assert(s@.subrange(a as int, b as int) =~= fronted.take(b - a));
        if b > a {
            assert(!is_space(s@[a as int]));
        }
    }
    (a, b)
}

/// Whether the subrange is entirely whitespace, i.e. trims to empty.
fn is_blank_range(s: &str, lo: usize, hi: usize) -> (r: bool)
    requires
        lo <= hi <= s@.len(),
    ensures
        r == (trim_spec(s@.subrange(lo as int, hi as int)).len() == 0),
{
    let (a, b) = trim_bounds(s, lo, hi);
    proof {
        assert(s@.subrange(a as int, b as int).len() == b - a);
    }
    a == b
}

} // verus!

verus! {

// ---------------------------------------------------------------------------
// The parsed unit: a sorted association list of bases and exponents
// ---------------------------------------------------------------------------

/// The bag that a term list denotes.
pub open spec fn as_map(s: Seq<(String, i64)>) -> Map<Seq<char>, int>
    decreases s.len(),
{
    if s.len() == 0 {
        Map::empty()
    } else {
        as_map(s.drop_last()).insert(s.last().0@, s.last().1 as int)
    }
}

/// A base symbol as stored: nonempty, trimmed, and free of the three
/// separator characters, so that printing and re-parsing recovers it.
pub open spec fn valid_base(b: Seq<char>) -> bool {
    b.len() > 0 && !is_space(b[0]) && !is_space(b.last())
        && forall|i: int| 0 <= i < b.len()
            ==> #[trigger] b[i] != '/' && b[i] != '*' && b[i] != '^'
}

/// Every exponent within `B` in magnitude.
pub open spec fn bag_bounded(m: Map<Seq<char>, int>, bound: int) -> bool {
    forall|k: Seq<char>| m.dom().contains(k) ==> -bound <= #[trigger] m[k] <= bound
}

/// A parsed representation of a unit, mapping each base symbol to its
/// nonzero exponent. Example: `kg*m/s^2` -> `{ kg: 1, m: 1, s: -2 }`.
/// The terms are kept sorted by base, so structural equality of the list
/// is equality of the bags after cancellation.
#[derive(Debug, Default)]
pub struct ParsedUnit {
    /// Sorted by base; exponents never zero. Kept public so that the view
    /// and well-formedness predicate can be open to callers.
    pub terms: Vec<(String, i64)>,
}

impl View for ParsedUnit {
    type V = Map<Seq<char>, int>;

    open spec fn view(&self) -> Map<Seq<char>, int> {
        as_map(self.terms@)
    }
}

impl ParsedUnit {
    /// Sorted strictly by base, no zero exponents, every base printable.
    pub open spec fn wf(&self) -> bool {
        &&& forall|i: int, j: int| 0 <= i < j < self.terms@.len()
            ==> lex_lt(#[trigger] self.terms@[i].0@, #[trigger] self.terms@[j].0@)
        &&& forall|i: int| 0 <= i < self.terms@.len()
            ==> #[trigger] self.terms@[i].1 != 0 && self.terms@[i].1 > i64::MIN
        &&& forall|i: int| 0 <= i < self.terms@.len()
            ==> valid_base(#[trigger] self.terms@[i].0@)
    }

    /// The dimensionless unit.
    pub fn new() -> (r: Self)
        ensures
            r.wf(),
            r@ == Map::<Seq<char>, int>::empty(),
    {
        ParsedUnit { terms: Vec::new() }
    }
}

impl Clone for ParsedUnit {
    fn clone(&self) -> (r: Self)
        ensures
            r.terms@.len() == self.terms@.len(),
            forall|i: int| 0 <= i < self.terms@.len()
                ==> #[trigger] r.terms@[i].0@ == self.terms@[i].0@
                    && r.terms@[i].1 == self.terms@[i].1,
            r@ == self@,
            self.wf() ==> r.wf(),
    {
        let mut out: Vec<(String, i64)> = Vec::new();
        let n = self.terms.len();
        let mut i: usize = 0;
        while i < n
            invariant
                i <= n,
                n == self.terms@.len(),
                out@.len() == i,
                forall|j: int| 0 <= j < i
                    ==> #[trigger] out@[j].0@ == self.terms@[j].0@
                        && out@[j].1 == self.terms@[j].1,
            decreases n - i,
        {
            let ghost out0 = out@;
            let key = self.terms[i].0.clone();
            let v = self.terms[i].1;
            out.push((key, v));
            proof {
                assert(out@ == out0.push((key, v)));
                assert forall|j: int| 0 <= j < i + 1
                    implies (#[trigger] out@[j]).0@ == self.terms@[j].0@
                        && out@[j].1 == self.terms@[j].1 by {
                    if j < i {
                        assert(out@[j] == out0[j]);
                        assert(out0[j].0@ == self.terms@[j].0@ && out0[j].1 == self.terms@[j].1);
                    } else {
                        assert(out@[j] == (key, v));
                    }
                }
            }
            i = i + 1;
        }
        proof {
            lemma_as_map_congruent(out@, self.terms@);
            if self.wf() {
                assert forall|p: int, q: int| 0 <= p < q < out@.len()
                    implies lex_lt(#[trigger] out@[p].0@, #[trigger] out@[q].0@) by {
                    assert(out@[p].0@ == self.terms@[p].0@);
                    assert(out@[q].0@ == self.terms@[q].0@);
                }
                assert forall|p: int| 0 <= p < out@.len()
                    implies #[trigger] out@[p].1 != 0 && out@[p].1 > i64::MIN by {
                    assert(out@[p].0@ == self.terms@[p].0@);
                }
                assert forall|p: int| 0 <= p < out@.len()
                    implies valid_base(#[trigger] out@[p].0@) by {
                    assert(out@[p].0@ == self.terms@[p].0@);
                }
            }
        }
        ParsedUnit { terms: out }
    }
}

// ---------------------------------------------------------------------------
// Facts about the association list
// ---------------------------------------------------------------------------

/// Two term lists with pairwise view-equal entries denote the same bag.
pub proof fn lemma_as_map_congruent(a: Seq<(String, i64)>, b: Seq<(String, i64)>)
    requires
        a.len() == b.len(),
        forall|i: int| 0 <= i < a.len()
            ==> #[trigger] a[i].0@ == b[i].0@ && a[i].1 == b[i].1,
    ensures
        as_map(a) == as_map(b),
    decreases a.len(),
{
    if a.len() > 0 {
        assert forall|i: int| 0 <= i < a.len() - 1
            implies (#[trigger] a.drop_last()[i]).0@ == (#[trigger] b.drop_last()[i]).0@
                && a.drop_last()[i].1 == b.drop_last()[i].1 by {
            assert(a.drop_last()[i] == a[i]);
            assert(b.drop_last()[i] == b[i]);
            assert(a[i].0@ == b[i].0@ && a[i].1 == b[i].1);
        }
        lemma_as_map_congruent(a.drop_last(), b.drop_last());
        assert(a.last().0@ == b.last().0@ && a.last().1 == b.last().1);
    }
}

/// Which keys the bag of a term list has.
pub proof fn lemma_as_map_dom(s: Seq<(String, i64)>, k: Seq<char>)
    ensures
        as_map(s).dom().contains(k) <==> exists|i: int| 0 <= i < s.len() && #[trigger] s[i].0@ == k,
    decreases s.len(),
{
    if s.len() > 0 {
        lemma_as_map_dom(s.drop_last(), k);
        if s.last().0@ == k {
            assert(s[s.len() - 1].0@ == k);
        } else if as_map(s).dom().contains(k) {
            let i = choose|i: int| 0 <= i < s.drop_last().len() && #[trigger] s.drop_last()[i].0@ == k;
            assert(s[i].0@ == k);
        } else {
            assert forall|i: int| 0 <= i < s.len() implies #[trigger] s[i].0@ != k by {
                if i < s.len() - 1 {
                    assert(s.drop_last()[i].0@ == s[i].0@);
                }
            }
        }
    }
}

/// With distinct keys, each entry gives its key's exponent.
pub proof fn lemma_as_map_index(s: Seq<(String, i64)>, i: int)
    requires
        forall|p: int, q: int| 0 <= p < q < s.len()
            ==> (#[trigger] s[p].0)@ != (#[trigger] s[q].0)@,
        0 <= i < s.len(),
    ensures
        as_map(s).dom().contains(s[i].0@),
        as_map(s)[s[i].0@] == s[i].1 as int,
    decreases s.len(),
{
    if i == s.len() - 1 {
    } else {
        assert(forall|p: int, q: int| 0 <= p < q < s.drop_last().len()
            ==> (#[trigger] s.drop_last()[p].0)@ != (#[trigger] s.drop_last()[q].0)@);
        lemma_as_map_index(s.drop_last(), i);
        assert(s.drop_last()[i].0@ == s[i].0@);
        assert(s[i].0@ != s.last().0@);
    }
}

/// Strict lexicographic order is irreflexive.
pub proof fn lemma_lex_irrefl(a: Seq<char>)
    ensures
        !lex_lt(a, a),
    decreases a.len(),
{
    if a.len() > 0 {
        lemma_lex_irrefl(a.drop_first());
    }
}

/// Trichotomy: incomparable sequences are equal.
pub proof fn lemma_lex_connected(a: Seq<char>, b: Seq<char>)
    requires
        !lex_lt(a, b),
        !lex_lt(b, a),
    ensures
        a == b,
    decreases a.len(),
{
    if a.len() == 0 || b.len() == 0 {
        assert(a =~= b);
    } else if a[0] == b[0] {
        lemma_lex_connected(a.drop_first(), b.drop_first());
        assert(a =~= seq![a[0]].add(a.drop_first()));
        assert(b =~= seq![b[0]].add(b.drop_first()));
    } else {
        if (a[0] as u32) < (b[0] as u32) {
            assert(lex_lt(a, b));
        } else if (b[0] as u32) < (a[0] as u32) {
            assert(lex_lt(b, a));
        } else {
            let u = a[0] as u32;
            vstd::utf8::char_u32_cast(a[0], u);
            vstd::utf8::char_u32_cast(b[0], u);
            assert(a[0] == b[0]);
        }
        assert(false);
    }
}

/// Strict lexicographic order is transitive.
pub proof fn lemma_lex_trans(a: Seq<char>, b: Seq<char>, c: Seq<char>)
    requires
        lex_lt(a, b),
        lex_lt(b, c),
    ensures
        lex_lt(a, c),
    decreases a.len() + b.len() + c.len(),
{
    if c.len() == 0 || b.len() == 0 {
    } else if a.len() == 0 {
    } else {
        if a[0] == b[0] && b[0] == c[0] {
            lemma_lex_trans(a.drop_first(), b.drop_first(), c.drop_first());
        }
    }
}

// ---------------------------------------------------------------------------
// Lexicographic comparison, executable
// ---------------------------------------------------------------------------

/// `lex_lt` on string suffixes starting at `i`.
fn str_lt_from(a: &str, b: &str, i: usize) -> (r: bool)
    requires
        i <= a@.len(),
        i <= b@.len(),
    ensures
        r == lex_lt(a@.skip(i as int), b@.skip(i as int)),
    decreases a@.len() - i,
{
    let ghost sa = a@.skip(i as int);
    let ghost sb = b@.skip(i as int);
    let na = a.unicode_len();
    let nb = b.unicode_len();
    if i == nb {
        return false;
    }
    if i == na {
        return true;
    }
    let ca = a.get_char(i);
    let cb = b.get_char(i);
    proof {
        assert(sa[0] == a@[i as int]);
        assert(sb[0] == b@[i as int]);
    }
    if (ca as u32) < (cb as u32) {
        true
    } else if ca == cb {
        let r = str_lt_from(a, b, i + 1);
        proof {
            assert(sa.drop_first() =~= a@.skip(i + 1));
            assert(sb.drop_first() =~= b@.skip(i + 1));
        }
        r
    } else {
        false
    }
}

/// Strict lexicographic comparison of two strings, by code point.
fn str_lt(a: &str, b: &str) -> (r: bool)
    ensures
        r == lex_lt(a@, b@),
{
    let r = str_lt_from(a, b, 0);
    proof {
        assert(a@.skip(0) =~= a@);
        assert(b@.skip(0) =~= b@);
    }
    r
}

} // verus!

verus! {

/// Pairwise sorted keys are pairwise distinct.
pub proof fn lemma_sorted_distinct(s: Seq<(String, i64)>)
    requires
        forall|i: int, j: int| 0 <= i < j < s.len()
            ==> lex_lt(#[trigger] s[i].0@, #[trigger] s[j].0@),
    ensures
        forall|i: int, j: int| 0 <= i < j < s.len()
            ==> (#[trigger] s[i].0)@ != (#[trigger] s[j].0)@,
{
    assert forall|i: int, j: int| 0 <= i < j < s.len()
        implies (#[trigger] s[i].0)@ != (#[trigger] s[j].0)@ by {
        if s[i].0@ == s[j].0@ {
            lemma_lex_irrefl(s[i].0@);
        }
    }
}

/// A term list denotes exactly the bag with the keys it lists and the
/// exponents it stores.
pub proof fn lemma_as_map_ext(x: Seq<(String, i64)>, m: Map<Seq<char>, int>)
    requires
        forall|p: int, q: int| 0 <= p < q < x.len()
            ==> (#[trigger] x[p].0)@ != (#[trigger] x[q].0)@,
        forall|k: Seq<char>| m.dom().contains(k)
            ==> exists|i: int| 0 <= i < x.len() && (#[trigger] x[i].0)@ == k,
        forall|i: int| 0 <= i < x.len()
            ==> m.dom().contains((#[trigger] x[i].0)@) && m[x[i].0@] == x[i].1 as int,
    ensures
        as_map(x) == m,
{
    assert forall|k: Seq<char>| as_map(x).dom().contains(k) implies m.dom().contains(k) by {
        lemma_as_map_dom(x, k);
        let i = choose|i: int| 0 <= i < x.len() && #[trigger] x[i].0@ == k;
        assert(m.dom().contains(x[i].0@));
    }
    assert forall|k: Seq<char>| m.dom().contains(k) implies as_map(x).dom().contains(k) by {
        lemma_as_map_dom(x, k);
    }
    assert forall|k: Seq<char>| m.dom().contains(k) implies as_map(x)[k] == m[k] by {
        lemma_as_map_dom(x, k);
        let i = choose|i: int| 0 <= i < x.len() && #[trigger] x[i].0@ == k;
        lemma_as_map_index(x, i);
    }
    assert(as_map(x) =~= m);
}

impl ParsedUnit {
    /// Adds `delta` to the exponent of `base`, keeping the list sorted and
    /// dropping the entry when the exponent cancels to zero.
    fn insert_term(&mut self, base: String, delta: i64)
        requires
            old(self).wf(),
            valid_base(base@),
            i64::MIN < bval(old(self)@, base@) + delta <= i64::MAX,
        ensures
            final(self).wf(),
            final(self)@ == bag_add(old(self)@, base@, delta as int),
    {
        let ghost k = base@;
        let ghost t0 = self.terms@;
        proof {
            lemma_sorted_distinct(t0);
        }
        let n = self.terms.len();
        let mut i: usize = 0;
        loop
            invariant
                0 <= i <= n,
                n == self.terms@.len(),
                self.terms@ == t0,
                k == base@,
                forall|j: int| 0 <= j < i ==> lex_lt(#[trigger] t0[j].0@, k),
            ensures
                0 <= i <= n,
                forall|j: int| 0 <= j < i ==> lex_lt(#[trigger] t0[j].0@, k),
                i == n || !lex_lt(t0[i as int].0@, k),
            decreases n - i,
        {
            if i >= n {
                break;
            }
            let smaller = str_lt(self.terms[i].0.as_str(), base.as_str());
            if !smaller {
                break;
            }
            i = i + 1;
        }
        let found = i < n && self.terms[i].0 == base;
        proof {
            if !found {
                // `k` is not a key: smaller entries are before `i`,
                // larger ones after.
                assert forall|j: int| 0 <= j < t0.len() implies (#[trigger] t0[j].0)@ != k by {
                    if j < i {
                        if t0[j].0@ == k {
                            lemma_lex_irrefl(k);
                        }
                    } else if j > i {
                        if t0[j].0@ == k {
                            assert(lex_lt(t0[i as int].0@, t0[j].0@));
                        }
                    }
                }
                lemma_as_map_dom(t0, k);
                assert(bval(old(self)@, k) == 0);
            } else {
                lemma_as_map_index(t0, i as int);
                assert(bval(old(self)@, k) == t0[i as int].1 as int);
            }
        }
        if found {
            let v = self.terms[i].1;
            let nv = v + delta;
            if nv == 0 {
                self.terms.remove(i);
                proof {
                    let x = self.terms@;
                    let m = old(self)@.remove(k);
                    assert forall|p: int, q: int| 0 <= p < q < x.len()
                        implies (#[trigger] x[p].0)@ != (#[trigger] x[q].0)@ by {
                        let p0 = if p < i { p } else { p + 1 };
                        let q0 = if q < i { q } else { q + 1 };
                        assert(x[p].0@ == t0[p0].0@ && x[q].0@ == t0[q0].0@);
                    }
                    assert forall|k2: Seq<char>| m.dom().contains(k2)
                        implies exists|j: int| 0 <= j < x.len() && (#[trigger] x[j].0)@ == k2 by {
                        lemma_as_map_dom(t0, k2);
                        let j0 = choose|j: int| 0 <= j < t0.len() && #[trigger] t0[j].0@ == k2;
                        let j = if j0 < i { j0 } else { j0 - 1 };
                        assert(x[j].0@ == k2);
                    }
                    assert forall|j: int| 0 <= j < x.len()
                        implies m.dom().contains((#[trigger] x[j].0)@)
                            && m[x[j].0@] == x[j].1 as int by {
                        let j0 = if j < i { j } else { j + 1 };
                        assert(x[j] == t0[j0]);
                        lemma_as_map_index(t0, j0);
                    }
                    lemma_as_map_ext(x, m);
                    assert(self@ == bag_add(old(self)@, k, delta as int));
                    assert forall|p: int, q: int| 0 <= p < q < x.len()
                        implies lex_lt(#[trigger] x[p].0@, #[trigger] x[q].0@) by {
                        let p0 = if p < i { p } else { p + 1 };
                        let q0 = if q < i { q } else { q + 1 };
                        assert(x[p].0@ == t0[p0].0@ && x[q].0@ == t0[q0].0@);
                    }
                }
            } else {
                self.terms.set(i, (base, nv));
                proof {
                    let x = self.terms@;
                    let m = old(self)@.insert(k, bval(old(self)@, k) + delta);
                    assert(x[i as int].0@ == t0[i as int].0@);
                    assert forall|p: int, q: int| 0 <= p < q < x.len()
                        implies (#[trigger] x[p].0)@ != (#[trigger] x[q].0)@ by {
                        assert(x[p].0@ == t0[p].0@ && x[q].0@ == t0[q].0@);
                    }
                    assert forall|k2: Seq<char>| m.dom().contains(k2)
                        implies exists|j: int| 0 <= j < x.len() && (#[trigger] x[j].0)@ == k2 by {
                        if k2 == k {
                            assert(x[i as int].0@ == k2);
                        } else {
                            lemma_as_map_dom(t0, k2);
                            let j = choose|j: int| 0 <= j < t0.len() && #[trigger] t0[j].0@ == k2;
                            assert(x[j].0@ == k2);
                        }
                    }
                    assert forall|j: int| 0 <= j < x.len()
                        implies m.dom().contains((#[trigger] x[j].0)@)
                            && m[x[j].0@] == x[j].1 as int by {
                        if j != i {
                            assert(x[j] == t0[j]);
                            lemma_as_map_index(t0, j);
                            assert(t0[j].0@ != k);
                        }
                    }
                    lemma_as_map_ext(x, m);
                    assert(self@ == bag_add(old(self)@, k, delta as int));
                    assert forall|p: int, q: int| 0 <= p < q < x.len()
                        implies lex_lt(#[trigger] x[p].0@, #[trigger] x[q].0@) by {
                        assert(x[p].0@ == t0[p].0@ && x[q].0@ == t0[q].0@);
                    }
                }
            }
        } else {
            if delta != 0 {
                let ghost iv = i as int;
                proof {
                    // The insertion point keeps the list sorted.
                    if i < n && !lex_lt(k, t0[iv].0@) {
                        lemma_lex_connected(k, t0[iv].0@);
                        assert(false);
                    }
                    assert forall|j: int| iv <= j < t0.len()
                        implies lex_lt(k, #[trigger] t0[j].0@) by {
                        if j > iv {
                            lemma_lex_trans(k, t0[iv].0@, t0[j].0@);
                        }
                    }
                }
                self.terms.insert(i, (base, delta));
                proof {
                    let x = self.terms@;
                    let m = old(self)@.insert(k, delta as int);
                    assert forall|p: int, q: int| 0 <= p < q < x.len()
                        implies lex_lt(#[trigger] x[p].0@, #[trigger] x[q].0@) by {
                        let p0 = if p < iv { p } else { p - 1 };
                        let q0 = if q < iv { q } else { q - 1 };
                        if p == iv {
                            assert(x[q].0@ == t0[q0].0@);
                        } else if q == iv {
                            assert(x[p].0@ == t0[p0].0@);
                        } else {
                            assert(x[p].0@ == t0[p0].0@ && x[q].0@ == t0[q0].0@);
                        }
                    }
                    lemma_sorted_distinct(x);
                    assert forall|k2: Seq<char>| m.dom().contains(k2)
                        implies exists|j: int| 0 <= j < x.len() && (#[trigger] x[j].0)@ == k2 by {
                        if k2 == k {
                            assert(x[iv].0@ == k2);
                        } else {
                            lemma_as_map_dom(t0, k2);
                            let j0 = choose|j: int| 0 <= j < t0.len() && #[trigger] t0[j].0@ == k2;
                            let j = if j0 < iv { j0 } else { j0 + 1 };
                            assert(x[j].0@ == k2);
                        }
                    }
                    assert forall|j: int| 0 <= j < x.len()
                        implies m.dom().contains((#[trigger] x[j].0)@)
                            && m[x[j].0@] == x[j].1 as int by {
                        if j != iv {
                            let j0 = if j < iv { j } else { j - 1 };
                            assert(x[j] == t0[j0]);
                            lemma_as_map_index(t0, j0);
                            assert(t0[j0].0@ != k);
                        }
                    }
                    lemma_as_map_ext(x, m);
                    assert(self@ == bag_add(old(self)@, k, delta as int));
                }
            } else {
                proof {
                    assert(old(self)@.remove(k) =~= old(self)@);
                    assert(self@ == bag_add(old(self)@, k, delta as int));
                }
            }
        }
    }
}

} // verus!

verus! {

// ---------------------------------------------------------------------------
// Digit strings
// ---------------------------------------------------------------------------

/// A digit string has a nonnegative value.
pub proof fn lemma_digits_val_nonneg(s: Seq<char>)
    requires
        all_digits(s),
    ensures
        digits_val(s) >= 0,
    decreases s.len(),
{
    if s.len() > 0 {
        assert(all_digits(s.drop_last())) by {
            assert(forall|i: int| 0 <= i < s.len() - 1 ==> s.drop_last()[i] == s[i]);
        }
        lemma_digits_val_nonneg(s.drop_last());
        assert(is_digit(s.last()));
    }
}

/// Reading more digits never shrinks the value.
pub proof fn lemma_digits_val_mono(s: Seq<char>, j: int)
    requires
        all_digits(s),
        0 <= j <= s.len(),
    ensures
        digits_val(s.take(j)) <= digits_val(s),
    decreases s.len() - j,
{
    if j == s.len() {
        assert(s.take(j) =~= s);
    } else {
        let p = s.take(j + 1);
        assert(p.drop_last() =~= s.take(j));
        assert(all_digits(s.take(j))) by {
            assert(forall|i: int| 0 <= i < j ==> s.take(j)[i] == s[i]);
        }
        lemma_digits_val_nonneg(s.take(j));
        assert(is_digit(s[j]));
        assert(digits_val(p) == digits_val(s.take(j)) * 10 + digit_val(s[j]));
        lemma_digits_val_mono(s, j + 1);
    }
}

/// Integer parsing with `i32::from_str` semantics: an optional `+`/`-` sign,
/// then decimal digits; rejects anything else and values outside the 32-bit
/// signed range.
fn parse_exp_str(s: &str) -> (r: Result<i32, ()>)
    ensures
        match r {
            Ok(v) => parse_exp(s@) == Some(v as int),
            Err(_) => parse_exp(s@) == None::<int>,
        },
{
    let n = s.unicode_len();
    if n == 0 {
        return Err(());
    }
    let c0 = s.get_char(0);
    let signed = c0 == '-' || c0 == '+';
    let neg = c0 == '-';
    let start: usize = if signed { 1 } else { 0 };
    let ghost digits: Seq<char> = if signed { s@.drop_first() } else { s@ };
    if n == start {
        proof {
            assert(digits.len() == 0);
        }
        return Err(());
    }
    let cap: i64 = 0x8000_0001;
    let mut acc: i64 = 0;
    let mut i: usize = start;
    while i < n
        invariant
            start <= i <= n,
            n == s@.len(),
            start == if s@[0] == '-' || s@[0] == '+' { 1int } else { 0int },
            digits == if s@[0] == '-' || s@[0] == '+' { s@.drop_first() } else { s@ },
            digits.len() == n - start,
            cap == 0x8000_0001,
            forall|j: int| 0 <= j < i - start ==> is_digit(#[trigger] digits[j]),
            0 <= acc <= cap,
            digits_val(digits.take(i - start)) <= 0x8000_0000
                ==> acc == digits_val(digits.take(i - start)),
            digits_val(digits.take(i - start)) > 0x8000_0000 ==> acc == cap,
        decreases n - i,
    {
        let c = s.get_char(i);
        let cu = c as u32;
        proof {
            assert(digits[i - start] == s@[i as int]);
        }
        if cu < 48 || cu > 57 {
            proof {
                assert('0' as u32 == 48 && '9' as u32 == 57);
                assert(!is_digit(digits[i - start]));
                assert(!all_digits(digits));
            }
            return Err(());
        }
        let d = (cu - 48) as i64;
        let ghost pfx = digits.take(i - start);
        let ghost pfx1 = digits.take(i - start + 1);
        proof {
            assert('0' as u32 == 48);
            assert(is_digit(digits[i - start]));
            assert(pfx1.drop_last() =~= pfx);
            assert(pfx1.last() == digits[i - start]);
            assert(digits_val(pfx1) == digits_val(pfx) * 10 + digit_val(digits[i - start]));
            assert(forall|j: int| 0 <= j < pfx.len() ==> pfx[j] == digits[j]);
            assert(all_digits(pfx));
            lemma_digits_val_nonneg(pfx);
        }
        let nv = if acc > 0x0CCC_CCCC_CCCC_CCCC {
            cap
        } else {
            let t = acc * 10 + d;
            if t > 0x8000_0000 { cap } else { t }
        };
        proof {
            if digits_val(pfx) > 0x8000_0000 {
                assert(digits_val(pfx1) > 0x8000_0000);
            }
        }
        acc = nv;
        i = i + 1;
    }
    proof {
        assert(digits.take(n - start) =~= digits);
        assert(all_digits(digits));
        lemma_digits_val_nonneg(digits);
        if signed {
            assert(s@[0] == '-' || s@[0] == '+');
        }
    }
    if neg {
        if acc > 0x8000_0000 {
            proof {
                assert(acc == cap);
                assert(digits_val(digits) > 0x8000_0000);
                assert(s@.len() > 0);
                assert(s@[0] == '-');
                assert(digits == s@.drop_first());
                assert(digits.len() > 0);
                assert(all_digits(digits));
                assert(-1 * digits_val(digits) < -0x8000_0000);
                assert(parse_exp(s@) == None::<int>);
            }
            return Err(());
        }
        proof {
            assert(acc == digits_val(digits));
            assert(s@[0] == '-');
            assert(-0x8000_0000 <= -acc <= 0x7FFF_FFFF);
            assert(parse_exp(s@) == Some(-1 * digits_val(digits)));
            assert(((-acc) as i32) as int == -acc);
        }
        Ok((-acc) as i32)
    } else {
        if acc > 0x7FFF_FFFF {
            proof {
                assert(digits_val(digits) > 0x7FFF_FFFF);
                assert(parse_exp(s@) == None::<int>);
            }
            return Err(());
        }
        proof {
            assert(acc == digits_val(digits));
            assert(!(s@[0] == '-'));
            assert(parse_exp(s@) == Some(1 * digits_val(digits)));
            assert((acc as i32) as int == acc);
        }
        Ok(acc as i32)
    }
}

} // verus!

verus! {

/// Exponent sign of a product side.
pub open spec fn sign_of(neg: bool) -> int {
    if neg { -1 } else { 1 }
}

/// One `bag_add` step widens an exponent bound by at most one 32-bit step.
pub proof fn lemma_bag_add_bounded(m: Map<Seq<char>, int>, k: Seq<char>, d: int, bound: int)
    requires
        bag_bounded(m, bound),
        bound >= 0,
        -0x8000_0000 <= d <= 0x8000_0000,
    ensures
        bag_bounded(bag_add(m, k, d), bound + 0x8000_0000),
{
    let m2 = bag_add(m, k, d);
    assert forall|k2: Seq<char>| m2.dom().contains(k2)
        implies -(bound + 0x8000_0000) <= #[trigger] m2[k2] <= bound + 0x8000_0000 by {
        if k2 == k {
            assert(m2[k2] == bval(m, k) + d);
        } else {
            assert(m2[k2] == m[k2]);
        }
    }
}

impl ParsedUnit {
    /// Folds one factor (`base [ "^" int ]`) into the bag with the sign of
    /// its product side.
    fn apply_factor(&mut self, f: &str, neg: bool, Ghost(bound): Ghost<int>) -> (r: Result<(), ()>)
        requires
            old(self).wf(),
            forall|i: int| 0 <= i < f@.len() ==> #[trigger] f@[i] != '/' && f@[i] != '*',
            0 <= bound,
            bound + 0x8000_0000 <= i64::MAX,
            bag_bounded(old(self)@, bound),
        ensures
            match r {
                Ok(_) => {
                    &&& parse_factor(f@) is Some
                    &&& final(self)@ == bag_add(
                        old(self)@,
                        parse_factor(f@).unwrap().0,
                        parse_factor(f@).unwrap().1 * sign_of(neg),
                    )
                    &&& final(self).wf()
                    &&& bag_bounded(final(self)@, bound + 0x8000_0000)
                },
                Err(_) => parse_factor(f@) is None,
            },
    {
        let n = f.unicode_len();
        let caret = find_from(f, '^', 0);
        let ghost parts = split_char(f@, '^');
        let bhi: usize = match caret {
            None => n,
            Some(i) => i,
        };
        proof {
            match caret {
                None => {
                    lemma_find_char_is(f@, '^', n as int);
                    lemma_split_first(f@, '^');
                    assert(parts =~~= seq![f@]);
                    assert(parts[0] == f@.subrange(0, bhi as int)) by {
                        assert(f@.subrange(0, n as int) =~= f@);
                    }
                },
                Some(i) => {
                    lemma_find_char_is(f@, '^', i as int);
                    lemma_split_first(f@, '^');
                    assert(parts[0] == f@.take(i as int));
                    assert(f@.take(i as int) =~= f@.subrange(0, bhi as int));
                },
            }
        }
        // The exponent: the text between the first and second `^`, if any.
        let exp: i32 = match caret {
            None => 1,
            Some(i) => {
                let second = find_from(f, '^', i + 1);
                let ehi: usize = match second {
                    None => n,
                    Some(j) => j,
                };
                let ghost rest = f@.skip(i + 1);
                proof {
                    lemma_split_first(f@, '^');
                    match second {
                        None => {
                            assert(forall|j: int| 0 <= j < rest.len()
                                ==> #[trigger] rest[j] == f@[j + i + 1]);
                            lemma_find_char_is(rest, '^', rest.len() as int);
                            lemma_split_first(rest, '^');
                            assert(split_char(rest, '^') =~~= seq![rest]);
                            assert(parts[1] == rest);
                            assert(rest =~= f@.subrange(i + 1, ehi as int));
                        },
                        Some(j) => {
                            assert(forall|q: int| 0 <= q < rest.len()
                                ==> #[trigger] rest[q] == f@[q + i + 1]);
                            lemma_find_char_is(rest, '^', j - i - 1);
                            lemma_split_first(rest, '^');
                            assert(parts[1] == rest.take(j - i - 1));
                            assert(rest.take(j - i - 1) =~= f@.subrange(i + 1, ehi as int));
                        },
                    }
                    assert(parts[1] == f@.subrange(i + 1, ehi as int));
                }
                let estr = f.substring_char(i + 1, ehi);
                match parse_exp_str(estr) {
                    Ok(v) => {
                        proof {
                            lemma_split_no_sep(f@.skip(i + 1), '^');
                            assert(parts.len() >= 2);
                            assert(estr@ == parts[1]);
                            assert(parse_exp(parts[1]) == Some(v as int));
                        }
                        v
                    },
                    Err(_) => {
                        proof {
                            assert(parts.len() >= 2);
                            assert(parse_factor(f@) is None);
                        }
                        return Err(());
                    },
                }
            },
        };
        proof {
            match caret {
                None => {
                    assert(parts.len() == 1);
                },
                Some(i) => {
                    assert(parts.len() >= 2);
                    assert(parse_exp(parts[1]) == Some(exp as int));
                },
            }
        }
        let (a, b) = trim_bounds(f, 0, bhi);
        proof {
            assert(f@.subrange(0, bhi as int) == parts[0]);
        }
        if a == b {
            proof {
                assert(trim_spec(parts[0]).len() == 0);
            }
            return Err(());
        }
        let base = f.substring_char(a, b).to_owned();
        proof {
            assert(base@ == trim_spec(parts[0]));
            assert(base@.len() > 0);
            assert(base@[0] == f@[a as int]);
            assert(base@.last() == f@[b - 1]);
            assert forall|q: int| 0 <= q < base@.len()
                implies #[trigger] base@[q] != '/' && base@[q] != '*' && base@[q] != '^' by {
                assert(base@[q] == f@[q + a]);
                match caret {
                    None => {
                        lemma_find_char_is(f@, '^', n as int);
                    },
                    Some(i) => {},
                }
            }
            assert(valid_base(base@));
        }
        let delta: i64 = if neg {
            -(exp as i64)
        } else {
            exp as i64
        };
        proof {
            assert(-0x8000_0000 <= delta <= 0x8000_0000);
            if old(self)@.dom().contains(base@) {
                assert(-bound <= old(self)@[base@] <= bound);
            }
            assert(i64::MIN < bval(old(self)@, base@) + delta <= i64::MAX);
        }
        self.insert_term(base, delta);
        proof {
            assert(parse_factor(f@) == Some((trim_spec(parts[0]), exp as int)));
            let be = parse_factor(f@).unwrap();
            assert(be.0 == trim_spec(parts[0]));
            assert(be.1 == exp as int);
            if neg {
                assert(delta as int == be.1 * (-1int));
            } else {
                assert(delta as int == be.1 * 1int);
            }
            assert(delta as int == be.1 * sign_of(neg));
            lemma_bag_add_bounded(old(self)@, be.0, delta as int, bound);
        }
        Ok(())
    }

    /// Folds every `*`-separated factor of `s` into the bag.
    fn parse_factors(&mut self, s: &str, neg: bool, Ghost(bound): Ghost<int>) -> (r: Result<(), ()>)
        requires
            old(self).wf(),
            forall|i: int| 0 <= i < s@.len() ==> #[trigger] s@[i] != '/',
            0 <= bound,
            bound + 0x8000_0000 * (s@.len() + 1) <= i64::MAX,
            bag_bounded(old(self)@, bound),
        ensures
            match r {
                Ok(_) => {
                    &&& parse_product_rec(split_char(s@, '*'), sign_of(neg), old(self)@)
                        == Some(final(self)@)
                    &&& final(self).wf()
                    &&& bag_bounded(final(self)@, bound + 0x8000_0000 * (s@.len() + 1))
                },
                Err(_) => parse_product_rec(split_char(s@, '*'), sign_of(neg), old(self)@)
                    is None,
            },
        decreases s@.len(),
    {
        let n = s.unicode_len();
        let star = find_from(s, '*', 0);
        match star {
            None => {
                proof {
                    lemma_find_char_is(s@, '*', n as int);
                    lemma_split_first(s@, '*');
                    assert(split_char(s@, '*') =~~= seq![s@]);
                }
                let res = self.apply_factor(s, neg, Ghost(bound));
                proof {
                    let parts = split_char(s@, '*');
                    assert(parts.drop_first() =~~= Seq::<Seq<char>>::empty());
                    if res is Ok {
                        let be = parse_factor(s@).unwrap();
                        assert(parts[0] == s@);
                        assert(self@ == bag_add(old(self)@, be.0, be.1 * sign_of(neg)));
                        assert(parse_product_rec(parts.drop_first(), sign_of(neg), self@)
                            == Some(self@));
                        assert(parse_product_rec(parts, sign_of(neg), old(self)@)
                            == Some(self@));
                    }
                }
                match res {
                    Ok(_) => Ok(()),
                    Err(_) => Err(()),
                }
            },
            Some(i) => {
                proof {
                    lemma_find_char_is(s@, '*', i as int);
                    lemma_split_first(s@, '*');
                }
                let f = s.substring_char(0, i);
                let ghost parts = split_char(s@, '*');
                proof {
                    assert(parts[0] == s@.take(i as int));
                    assert(f@ == s@.take(i as int)) by {
                        assert(s@.subrange(0, i as int) =~= s@.take(i as int));
                    }
                    assert(forall|q: int| 0 <= q < f@.len()
                        ==> #[trigger] f@[q] == s@[q]);
                }
                let res1 = self.apply_factor(f, neg, Ghost(bound));
                match res1 {
                    Ok(_) => {
                        let rest = s.substring_char(i + 1, n);
                        proof {
                            assert(rest@ == s@.skip(i + 1)) by {
                                assert(s@.subrange(i + 1, n as int) =~= s@.skip(i + 1));
                            }
                            assert(forall|q: int| 0 <= q < rest@.len()
                                ==> #[trigger] rest@[q] == s@[q + i + 1]);
                            assert(parts.drop_first() =~~= split_char(rest@, '*'));
                        }
                        let res2 = self.parse_factors(rest, neg, Ghost(bound + 0x8000_0000));
                        proof {
                            if res2 is Ok {
                                assert(parse_product_rec(parts, sign_of(neg), old(self)@)
                                    == Some(self@));
                            }
                        }
                        match res2 {
                            Ok(_) => Ok(()),
                            Err(_) => Err(()),
                        }
                    },
                    Err(_) => {
                        proof {
                            assert(parse_factor(parts[0]) is None);
                        }
                        Err(())
                    },
                }
            },
        }
    }

    /// Folds a whole product into the bag: blank input or the literal `1`
    /// contributes nothing.
    fn parse_product_into(&mut self, s: &str, neg: bool, Ghost(bound): Ghost<int>)
        -> (r: Result<(), ()>)
        requires
            old(self).wf(),
            forall|i: int| 0 <= i < s@.len() ==> #[trigger] s@[i] != '/',
            0 <= bound,
            bound + 0x8000_0000 * (s@.len() + 1) <= i64::MAX,
            bag_bounded(old(self)@, bound),
        ensures
            match r {
                Ok(_) => {
                    &&& parse_product_spec(s@, sign_of(neg), old(self)@) == Some(final(self)@)
                    &&& final(self).wf()
                    &&& bag_bounded(final(self)@, bound + 0x8000_0000 * (s@.len() + 1))
                },
                Err(_) => parse_product_spec(s@, sign_of(neg), old(self)@) is None,
            },
    {
        let n = s.unicode_len();
        if is_blank_range(s, 0, n) {
            proof {
                assert(s@.subrange(0, n as int) =~= s@);
            }
            return Ok(());
        }
        if n == 1 && s.get_char(0) == '1' {
            proof {
                assert(s@ =~= seq!['1']);
            }
            return Ok(());
        }
        proof {
            assert(s@.subrange(0, n as int) =~= s@);
            assert(trim_spec(s@).len() != 0);
            if s@ == seq!['1'] {
                assert(s@.len() == 1 && s@[0] == '1');
                assert(false);
            }
        }
        self.parse_factors(s, neg, Ghost(bound))
    }
}

} // verus!

verus! {

impl ParsedUnit {
    /// Parses a unit string. Blank input, more than one `/`, an empty base,
    /// or a malformed exponent are errors; the result is the exponent bag of
    /// the grammar `product [ "/" product ]`.
    ///
    /// The length bound keeps every accumulated exponent within a signed
    /// 64-bit word.
    pub fn from_str(s: &str) -> (r: Result<Self, ()>)
        requires
            s@.len() <= 0xFFFF_FF00,
        ensures
            match r {
                Ok(u) => parse_spec(s@) == Some(u@) && u.wf(),
                Err(_) => parse_spec(s@) is None,
            },
    {
        let n = s.unicode_len();
        if is_blank_range(s, 0, n) {
            proof {
                assert(s@.subrange(0, n as int) =~= s@);
            }
            return Err(());
        }
        proof {
            assert(s@.subrange(0, n as int) =~= s@);
        }
        let ghost parts = split_char(s@, '/');
        let slash = find_from(s, '/', 0);
        match slash {
            None => {
                proof {
                    lemma_find_char_is(s@, '/', n as int);
                    lemma_split_first(s@, '/');
                    assert(parts =~~= seq![s@]);
                }
                let mut u = ParsedUnit::new();
                let res = u.parse_product_into(s, false, Ghost(0));
                match res {
                    Ok(_) => {
                        proof {
                            assert(parse_spec(s@) == Some(u@));
                        }
                        Ok(u)
                    },
                    Err(_) => Err(()),
                }
            },
            Some(i) => {
                let second = find_from(s, '/', i + 1);
                let ghost rest = s@.skip(i + 1);
                proof {
                    lemma_find_char_is(s@, '/', i as int);
                    lemma_split_first(s@, '/');
                    assert(parts =~~= seq![s@.take(i as int)].add(split_char(rest, '/')));
                    assert(forall|q: int| 0 <= q < rest.len()
                        ==> #[trigger] rest[q] == s@[q + i + 1]);
                }
                if second.is_some() {
                    proof {
                        let j = second.unwrap();
                        lemma_find_char_is(rest, '/', j - i - 1);
                        lemma_split_first(rest, '/');
                        assert(split_char(rest, '/').len() >= 2);
                        assert(parts.len() >= 3);
                    }
                    return Err(());
                }
                proof {
                    lemma_find_char_is(rest, '/', rest.len() as int);
                    lemma_split_first(rest, '/');
                    assert(split_char(rest, '/') =~~= seq![rest]);
                    assert(parts.len() == 2);
                    assert(parts[1] == rest);
                }
                let num = s.substring_char(0, i);
                let den = s.substring_char(i + 1, n);
                proof {
                    assert(num@ == parts[0]) by {
                        assert(s@.subrange(0, i as int) =~= s@.take(i as int));
                    }
                    assert(den@ == parts[1]) by {
                        assert(s@.subrange(i + 1, n as int) =~= s@.skip(i + 1));
                    }
                    assert(forall|q: int| 0 <= q < num@.len() ==> #[trigger] num@[q] == s@[q]);
                }
                let mut u = ParsedUnit::new();
                let res1 = u.parse_product_into(num, false, Ghost(0));
                match res1 {
                    Ok(_) => {},
                    Err(_) => {
                        return Err(());
                    },
                }
                let ghost mid = u@;
                let res2 = u.parse_product_into(
                    den,
                    true,
                    Ghost(0x8000_0000 * (num@.len() as int + 1)),
                );
                match res2 {
                    Ok(_) => {
                        proof {
                            assert(parse_spec(s@) == Some(u@));
                        }
                        Ok(u)
                    },
                    Err(_) => Err(()),
                }
            },
        }
    }

    /// Multiplies this unit by `other`: exponents are added pointwise.
    /// The bound keeps every sum within a signed 64-bit word.
    pub fn multiply(&mut self, other: &Self)
        requires
            old(self).wf(),
            other.wf(),
            forall|k: Seq<char>| i64::MIN < #[trigger] bval(old(self)@, k) + #[trigger] bval(other@, k) <= i64::MAX,
        ensures
            final(self).wf(),
            final(self)@ == bag_merge(old(self)@, other@, 1),
    {
        self.merge_terms(other, false);
    }

    /// Divides this unit by `other`: exponents are subtracted pointwise.
    /// The bound keeps every difference within a signed 64-bit word.
    pub fn divide(&mut self, other: &Self)
        requires
            old(self).wf(),
            other.wf(),
            forall|k: Seq<char>| i64::MIN < #[trigger] bval(old(self)@, k) - #[trigger] bval(other@, k) <= i64::MAX,
        ensures
            final(self).wf(),
            final(self)@ == bag_merge(old(self)@, other@, -1),
    {
        self.merge_terms(other, true);
    }

    /// Merges `other`'s exponents into this unit, negated when dividing.
    fn merge_terms(&mut self, other: &Self, neg: bool)
        requires
            old(self).wf(),
            other.wf(),
            forall|k: Seq<char>|
                i64::MIN < #[trigger] bval(old(self)@, k) + sign_of(neg) * #[trigger] bval(other@, k)
                    <= i64::MAX,
        ensures
            final(self).wf(),
            final(self)@ == bag_merge(old(self)@, other@, sign_of(neg)),
    {
        let ghost m0 = self@;
        let ghost sgn = sign_of(neg);
        let n = other.terms.len();
        proof {
            lemma_sorted_distinct(other.terms@);
        }
        proof {
            assert(other.terms@.take(0) =~= Seq::<(String, i64)>::empty());
            let e = bag_merge(m0, as_map(other.terms@.take(0)), sgn);
            assert forall|k: Seq<char>| m0.dom().contains(k)
                implies e.dom().contains(k) && e[k] == m0[k] by {
                lemma_as_map_dom(old(self).terms@, k);
                let j = choose|j: int| 0 <= j < old(self).terms@.len()
                    && #[trigger] old(self).terms@[j].0@ == k;
                lemma_sorted_distinct(old(self).terms@);
                lemma_as_map_index(old(self).terms@, j);
                assert(m0[k] == old(self).terms@[j].1 as int);
                assert(m0[k] != 0);
            }
            assert(e =~= m0);
        }
        let mut i: usize = 0;
        while i < n
            invariant
                0 <= i <= n,
                n == other.terms@.len(),
                other.wf(),
                self.wf(),
                sgn == sign_of(neg),
                forall|p: int, q: int| 0 <= p < q < other.terms@.len()
                    ==> (#[trigger] other.terms@[p].0)@ != (#[trigger] other.terms@[q].0)@,
                forall|k: Seq<char>| i64::MIN < #[trigger] bval(m0, k) + sgn * #[trigger] bval(other@, k) <= i64::MAX,
                self@ == bag_merge(m0, as_map(other.terms@.take(i as int)), sgn),
            decreases n - i,
        {
            let ghost pfx = other.terms@.take(i as int);
            let ghost cur = self@;
            let key = other.terms[i].0.clone();
            let v = other.terms[i].1;
            let delta: i64 = if neg { -v } else { v };
            let ghost k = key@;
            proof {
                assert(key@ == other.terms@[i as int].0@);
                assert(v == other.terms@[i as int].1);
                lemma_as_map_index(other.terms@, i as int);
                assert(bval(other@, k) == v as int);
                // `k` is absent from the processed prefix, so the current
                // exponent of `k` is still the original one.
                lemma_as_map_dom(pfx, k);
                assert(forall|q: int| 0 <= q < pfx.len() ==> pfx[q] == other.terms@[q]);
                assert(!as_map(pfx).dom().contains(k));
                assert(bval(as_map(pfx), k) == 0);
                assert(bval(cur, k) == bval(m0, k));
                assert(valid_base(k));
                assert(i64::MIN < bval(m0, k) + sgn * bval(other@, k) <= i64::MAX);
                if neg {
                    assert(sgn * bval(other@, k) == -1 * (v as int));
                } else {
                    assert(sgn * bval(other@, k) == 1 * (v as int));
                }
                assert(delta as int == sgn * bval(other@, k));
                assert(i64::MIN < bval(cur, k) + delta <= i64::MAX);
            }
            self.insert_term(key, delta);
            proof {
                let pfx1 = other.terms@.take(i + 1);
                assert(pfx1.drop_last() =~= pfx);
                assert(pfx1.last() == other.terms@[i as int]);
                assert(as_map(pfx1) == as_map(pfx).insert(k, v as int));
                let lhs = bag_add(cur, k, delta as int);
                let rhs = bag_merge(m0, as_map(pfx1), sgn);
                assert forall|k2: Seq<char>| rhs.dom().contains(k2)
                    implies lhs.dom().contains(k2) && lhs[k2] == rhs[k2] by {
                    if k2 == k {
                        assert(bval(as_map(pfx1), k2) == v as int);
                    } else {
                        assert(bval(as_map(pfx1), k2) == bval(as_map(pfx), k2));
                    }
                }
                assert forall|k2: Seq<char>| lhs.dom().contains(k2)
                    implies rhs.dom().contains(k2) by {
                    if k2 == k {
                        assert(bval(as_map(pfx1), k2) == v as int);
                    } else {
                        assert(bval(as_map(pfx1), k2) == bval(as_map(pfx), k2));
                    }
                }
                assert(lhs =~= rhs);
            }
            i = i + 1;
        }
        proof {
            assert(other.terms@.take(n as int) =~= other.terms@);
        }
    }
}

/// Exponent bags merged pointwise: the exponent of each key is the sum
/// (or difference) of its exponents, keys with zero sum dropped.
pub open spec fn bag_merge(a: Map<Seq<char>, int>, b: Map<Seq<char>, int>, sgn: int)
    -> Map<Seq<char>, int>
{
    Map::new(
        |k: Seq<char>| (a.dom().contains(k) || b.dom().contains(k))
            && bval(a, k) + sgn * bval(b, k) != 0,
        |k: Seq<char>| bval(a, k) + sgn * bval(b, k),
    )
}

} // verus!

verus! {

/// The decimal digit character of `d`.
fn digit_str(d: u64) -> (r: &'static str)
    requires
        d <= 9,
    ensures
        r@ =~= seq![digit_char(d as int)],
{
    proof {
        reveal_strlit("0");
        reveal_strlit("1");
        reveal_strlit("2");
        reveal_strlit("3");
        reveal_strlit("4");
        reveal_strlit("5");
        reveal_strlit("6");
        reveal_strlit("7");
        reveal_strlit("8");
        reveal_strlit("9");
    }
    if d == 0 { "0" } else if d == 1 { "1" } else if d == 2 { "2" } else if d == 3 { "3" }
    else if d == 4 { "4" } else if d == 5 { "5" } else if d == 6 { "6" } else if d == 7 { "7" }
    else if d == 8 { "8" } else { "9" }
}

/// The decimal digits of `n`.
pub(crate) fn dec_u64(n: u64) -> (r: String)
    ensures
        r@ == dec_spec(n as int),
    decreases n,
{
    if n <= 9 {
        digit_str(n).to_owned()
    } else {
        let q = dec_u64(n / 10);
        let r = q.concat(digit_str(n % 10));
        proof {
            assert((n / 10) as int == (n as int) / 10);
            assert((n % 10) as int == (n as int) % 10);
            assert(r@ =~= dec_spec((n as int) / 10).push(digit_char((n as int) % 10)));
        }
        r
    }
}

/// One printed factor: the base alone for exponent one, else `base^e`.
fn fmt_term(base: &String, e: i64) -> (r: String)
    requires
        e >= 1,
    ensures
        r@ == fmt_factor(base@, e as int),
{
    if e == 1 {
        base.clone()
    } else {
        let s = base.clone().concat("^");
        let d = dec_u64(e as u64);
        let r = s.concat(d.as_str());
        proof {
            reveal_strlit("^");
            assert("^"@ =~= seq!['^']);
            assert(r@ =~= base@.push('^').add(dec_spec(e as int)));
        }
        r
    }
}

impl ParsedUnit {
    /// The canonical string form: positive-exponent factors sorted by base
    /// and joined with `*`, then `/` and the negated-exponent factors, with
    /// `1` standing in for an empty numerator. A denominator that prints as
    /// `1` is omitted.
    pub fn to_string(&self) -> (r: String)
        requires
            self.wf(),
        ensures
            r@ == canon_spec(terms_view(self.terms@)),
    {
        let n = self.terms.len();
        let mut num = String::new();
        let mut num_cnt: usize = 0;
        let mut den = String::new();
        let mut den_cnt: usize = 0;
        let mut i: usize = 0;
        while i < n
            invariant
                0 <= i <= n,
                n == self.terms@.len(),
                self.wf(),
                num_cnt == side_terms(terms_view(self.terms@.take(i as int)), false).len(),
                den_cnt == side_terms(terms_view(self.terms@.take(i as int)), true).len(),
                num@ == join_factors(side_terms(terms_view(self.terms@.take(i as int)), false)),
                den@ == join_factors(side_terms(terms_view(self.terms@.take(i as int)), true)),
                num_cnt <= i,
                den_cnt <= i,
            decreases n - i,
        {
            let ghost tv0 = terms_view(self.terms@.take(i as int));
            let v = self.terms[i].1;
            proof {
                let t1 = self.terms@.take(i + 1);
                assert(t1.drop_last() =~= self.terms@.take(i as int));
                assert(t1.last() == self.terms@[i as int]);
                assert(terms_view(t1) == tv0.push((self.terms@[i as int].0@, v as int)));
                assert(terms_view(t1).drop_last() =~= tv0);
            }
            let ghost tv1 = terms_view(self.terms@.take(i + 1));
            if v > 0 {
                let f = fmt_term(&self.terms[i].0, v);
                proof {
                    assert(side_terms(tv1, false)
                        == side_terms(tv0, false).push((self.terms@[i as int].0@, v as int)));
                    assert(side_terms(tv1, true) == side_terms(tv0, true));
                }
                if num_cnt == 0 {
                    num = f;
                    proof {
                        assert(side_terms(tv1, false).len() == 1);
                        assert(side_terms(tv1, false).drop_last() =~= side_terms(tv0, false));
                    }
                } else {
                    num.append("*");
                    num.append(f.as_str());
                    proof {
                        reveal_strlit("*");
                        assert("*"@ =~= seq!['*']);
                        assert(side_terms(tv1, false).drop_last() =~= side_terms(tv0, false));
                        assert(num@ =~= join_factors(side_terms(tv0, false)).push('*').add(
                            fmt_factor(self.terms@[i as int].0@, v as int)));
                    }
                }
                num_cnt = num_cnt + 1;
            } else {
                proof {
                    assert(v != 0 && v > i64::MIN);
                }
                let f = fmt_term(&self.terms[i].0, -v);
                proof {
                    assert(side_terms(tv1, true)
                        == side_terms(tv0, true).push((self.terms@[i as int].0@, -(v as int))));
                    assert(side_terms(tv1, false) == side_terms(tv0, false));
                    assert((-v) as int == -(v as int));
                }
                if den_cnt == 0 {
                    den = f;
                    proof {
                        assert(side_terms(tv1, true).len() == 1);
                        assert(side_terms(tv1, true).drop_last() =~= side_terms(tv0, true));
                    }
                } else {
                    den.append("*");
                    den.append(f.as_str());
                    proof {
                        reveal_strlit("*");
                        assert("*"@ =~= seq!['*']);
                        assert(side_terms(tv1, true).drop_last() =~= side_terms(tv0, true));
                        assert(den@ =~= join_factors(side_terms(tv0, true)).push('*').add(
                            fmt_factor(self.terms@[i as int].0@, -(v as int))));
                    }
                }
                den_cnt = den_cnt + 1;
            }
            i = i + 1;
        }
        proof {
            assert(self.terms@.take(n as int) =~= self.terms@);
            reveal_strlit("1");
            assert("1"@ =~= seq!['1']);
        }
        let ghost tv = terms_view(self.terms@);
        let n_str = if num_cnt == 0 {
            proof {
                assert(canon_side(side_terms(tv, false)) == seq!['1']);
            }
            "1".to_owned()
        } else {
            num
        };
        if den_cnt == 0 {
            proof {
                assert(canon_side(side_terms(tv, true)) == seq!['1']);
            }
            return n_str;
        }
        let den_is_one = den.unicode_len() == 1 && {
            let c = den.as_str().get_char(0);
            c == '1'
        };
        if den_is_one {
            proof {
                assert(den@ =~= seq!['1']);
            }
            n_str
        } else {
            let r = n_str.concat("/").concat(den.as_str());
            proof {
                reveal_strlit("/");
                assert("/"@ =~= seq!['/']);
                assert(canon_side(side_terms(tv, true)) == den@);
                assert(canon_side(side_terms(tv, true)) != seq!['1']);
                assert(r@ =~= canon_side(side_terms(tv, false)).push('/').add(den@));
            }
            r
        }
    }

    /// Multiplies this unit by `other`; an alias of [`Self::multiply`].
    pub fn multiply_by(&mut self, other: &Self)
        requires
            old(self).wf(),
            other.wf(),
            forall|k: Seq<char>| i64::MIN < #[trigger] bval(old(self)@, k)
                + #[trigger] bval(other@, k) <= i64::MAX,
        ensures
            final(self).wf(),
            final(self)@ == bag_merge(old(self)@, other@, 1),
    {
        self.multiply(other);
    }

    /// Divides this unit by `other`; an alias of [`Self::divide`].
    pub fn divide_by(&mut self, other: &Self)
        requires
            old(self).wf(),
            other.wf(),
            forall|k: Seq<char>| i64::MIN < #[trigger] bval(old(self)@, k)
                - #[trigger] bval(other@, k) <= i64::MAX,
        ensures
            final(self).wf(),
            final(self)@ == bag_merge(old(self)@, other@, -1),
    {
        self.divide(other);
    }
}

} // verus!

verus! {

/// The merged exponent of a key is always the signed sum of its exponents,
/// whether or not the key survives in the merged bag's domain.
pub proof fn lemma_bval_merge(a: Map<Seq<char>, int>, b: Map<Seq<char>, int>, sgn: int, k: Seq<char>)
    ensures
        bval(bag_merge(a, b, sgn), k) == bval(a, k) + sgn * bval(b, k),
{
}

/// Multiplication of unit bags is commutative.
pub proof fn lemma_bag_merge_comm(a: Map<Seq<char>, int>, b: Map<Seq<char>, int>)
    ensures
        bag_merge(a, b, 1) == bag_merge(b, a, 1),
{
    assert(bag_merge(a, b, 1) =~= bag_merge(b, a, 1));
}

/// Multiplication of unit bags is associative.
pub proof fn lemma_bag_merge_assoc(
    a: Map<Seq<char>, int>,
    b: Map<Seq<char>, int>,
    c: Map<Seq<char>, int>,
)
    ensures
        bag_merge(bag_merge(a, b, 1), c, 1) == bag_merge(a, bag_merge(b, c, 1), 1),
{
    let lhs = bag_merge(bag_merge(a, b, 1), c, 1);
    let rhs = bag_merge(a, bag_merge(b, c, 1), 1);
    assert forall|k: Seq<char>| #[trigger] lhs.dom().contains(k) == rhs.dom().contains(k)
        && (lhs.dom().contains(k) ==> lhs[k] == rhs[k]) by {
        lemma_bval_merge(a, b, 1, k);
        lemma_bval_merge(b, c, 1, k);
    }
    assert(lhs =~= rhs);
}

/// Division is multiplication by the pointwise-negated bag: dividing and
/// then multiplying by the same unit restores the original bag.
pub proof fn lemma_divide_multiply_cancel(a: Map<Seq<char>, int>, b: Map<Seq<char>, int>)
    requires
        forall|k: Seq<char>| a.dom().contains(k) ==> #[trigger] a[k] != 0,
    ensures
        bag_merge(bag_merge(a, b, -1), b, 1) == a,
{
    let lhs = bag_merge(bag_merge(a, b, -1), b, 1);
    assert forall|k: Seq<char>| #[trigger] lhs.dom().contains(k) == a.dom().contains(k)
        && (a.dom().contains(k) ==> bval(lhs, k) == a[k]) by {
        lemma_bval_merge(a, b, -1, k);
        lemma_bval_merge(bag_merge(a, b, -1), b, 1, k);
    }
    assert(lhs =~= a);
}

} // verus!

verus! {

/// Decimal printing produces digits that read back to the same value.
pub proof fn lemma_dec_spec_digits(n: int)
    requires
        n >= 0,
    ensures
        all_digits(dec_spec(n)),
        digits_val(dec_spec(n)) == n,
        dec_spec(n).len() >= 1,
    decreases n,
{
    if n <= 9 {
        let s = dec_spec(n);
        assert(s =~= seq![digit_char(n)]);
        assert('0' as u32 == 48 && '1' as u32 == 49 && '2' as u32 == 50 && '3' as u32 == 51
            && '4' as u32 == 52 && '5' as u32 == 53 && '6' as u32 == 54 && '7' as u32 == 55
            && '8' as u32 == 56 && '9' as u32 == 57);
        assert(is_digit(digit_char(n)));
        assert(s.drop_last() =~= Seq::<char>::empty());
        assert(digits_val(Seq::<char>::empty()) == 0);
        assert(s.last() == digit_char(n));
        assert(digits_val(s) == digits_val(s.drop_last()) * 10 + digit_val(s.last()));
        assert(digits_val(s) == digit_val(digit_char(n)));
        assert(digit_val(digit_char(n)) == n);
    } else {
        lemma_dec_spec_digits(n / 10);
        let s = dec_spec(n);
        assert(s == dec_spec(n / 10).push(digit_char(n % 10)));
        assert(s.drop_last() =~= dec_spec(n / 10));
        assert(s.last() == digit_char(n % 10));
        assert(is_digit(digit_char(n % 10)));
        assert(digit_val(digit_char(n % 10)) == n % 10);
        assert forall|i: int| 0 <= i < s.len() implies is_digit(#[trigger] s[i]) by {
            if i < s.len() - 1 {
                assert(s[i] == dec_spec(n / 10)[i]);
            }
        }
        assert(digits_val(s) == (n / 10) * 10 + n % 10);
    }
}

} // verus!

verus! {

impl ParsedUnit {
    /// The exponent of `base`, or `None` when the base is absent.
    pub fn get_exp(&self, base: &String) -> (r: Option<i64>)
        requires
            self.wf(),
        ensures
            match r {
                Some(v) => self@.dom().contains(base@) && v as int == self@[base@],
                None => !self@.dom().contains(base@),
            },
    {
        proof {
            lemma_sorted_distinct(self.terms@);
        }
        let n = self.terms.len();
        let mut i: usize = 0;
        while i < n
            invariant
                0 <= i <= n,
                n == self.terms@.len(),
                self.wf(),
                forall|p: int, q: int| 0 <= p < q < self.terms@.len()
                    ==> (#[trigger] self.terms@[p].0)@ != (#[trigger] self.terms@[q].0)@,
                forall|j: int| 0 <= j < i ==> (#[trigger] self.terms@[j].0)@ != base@,
            decreases n - i,
        {
            if self.terms[i].0 == *base {
                proof {
                    lemma_as_map_index(self.terms@, i as int);
                }
                return Some(self.terms[i].1);
            }
            i = i + 1;
        }
        proof {
            lemma_as_map_dom(self.terms@, base@);
        }
        None
    }

    /// Merges `other` in (negated when dividing) only when every combined
    /// exponent stays within the signed 64-bit range; otherwise leaves
    /// this unit untouched and reports failure.
    pub fn try_merge(&mut self, other: &Self, neg: bool) -> (r: bool)
        requires
            old(self).wf(),
            other.wf(),
        ensures
            final(self).wf(),
            r ==> final(self)@ == bag_merge(old(self)@, other@, sign_of(neg)),
            !r ==> *final(self) == *old(self),
            !r ==> exists|k: Seq<char>| !(i64::MIN < #[trigger] bval(old(self)@, k)
                + sign_of(neg) * #[trigger] bval(other@, k) <= i64::MAX),
    {
        proof {
            lemma_sorted_distinct(other.terms@);
        }
        let n = other.terms.len();
        let mut i: usize = 0;
        while i < n
            invariant
                0 <= i <= n,
                n == other.terms@.len(),
                self.wf(),
                other.wf(),
                *self == *old(self),
                forall|p: int, q: int| 0 <= p < q < other.terms@.len()
                    ==> (#[trigger] other.terms@[p].0)@ != (#[trigger] other.terms@[q].0)@,
                forall|j: int| 0 <= j < i ==> {
                    let k = (#[trigger] other.terms@[j].0)@;
                    i64::MIN < bval(old(self)@, k) + sign_of(neg) * bval(other@, k) <= i64::MAX
                },
            decreases n - i,
        {
            let v = other.terms[i].1;
            let d: i64 = if neg { -v } else { v };
            let cur: i64 = match self.get_exp(&other.terms[i].0) {
                Some(c) => c,
                None => 0,
            };
            let overflows = if d > 0 {
                cur > i64::MAX - d
            } else {
                cur < i64::MIN - d || cur + d == i64::MIN
            };
            if overflows {
                proof {
                    let k = other.terms@[i as int].0@;
                    lemma_as_map_index(other.terms@, i as int);
                    assert(bval(other@, k) == v as int);
                    assert(bval(old(self)@, k) == cur as int);
                    if neg {
                        assert(sign_of(neg) * bval(other@, k) == -1 * (v as int));
                    } else {
                        assert(sign_of(neg) * bval(other@, k) == 1 * (v as int));
                    }
                    assert(!(i64::MIN < bval(old(self)@, k)
                        + sign_of(neg) * bval(other@, k) <= i64::MAX));
                }
                return false;
            }
            proof {
                let k = other.terms@[i as int].0@;
                lemma_as_map_index(other.terms@, i as int);
                assert(bval(other@, k) == v as int);
                assert(bval(old(self)@, k) == cur as int);
                if neg {
                    assert(sign_of(neg) * bval(other@, k) == -1 * (v as int));
                } else {
                    assert(sign_of(neg) * bval(other@, k) == 1 * (v as int));
                }
                assert(i64::MIN < bval(old(self)@, k) + sign_of(neg) * bval(other@, k)
                    <= i64::MAX);
            }
            i = i + 1;
        }
        proof {
            assert forall|k: Seq<char>|
                i64::MIN < #[trigger] bval(old(self)@, k)
                    + sign_of(neg) * #[trigger] bval(other@, k) <= i64::MAX by {
                lemma_as_map_dom(other.terms@, k);
                if other@.dom().contains(k) {
                    lemma_sorted_distinct(other.terms@);
                    let j = choose|j: int| 0 <= j < other.terms@.len()
                        && (#[trigger] other.terms@[j].0)@ == k;
                    assert(i64::MIN < bval(old(self)@, k)
                        + sign_of(neg) * bval(other@, k) <= i64::MAX);
                } else {
                    assert(bval(other@, k) == 0);
                    if neg {
                        assert(sign_of(neg) * bval(other@, k) == 0);
                    } else {
                        assert(sign_of(neg) * bval(other@, k) == 0);
                    }
                    if old(self)@.dom().contains(k) {
                        lemma_as_map_dom(old(self).terms@, k);
                        let j = choose|j: int| 0 <= j < old(self).terms@.len()
                            && (#[trigger] old(self).terms@[j].0)@ == k;
                        lemma_sorted_distinct(old(self).terms@);
                        lemma_as_map_index(old(self).terms@, j);
                    }
                }
            }
        }
        self.merge_terms(other, neg);
        true
    }
}

} // verus!

verus! {

/// A stored term is in the bag with its stored nonzero exponent.
pub proof fn lemma_unit_term_in_bag(u: &ParsedUnit, i: int)
    requires
        u.wf(),
        0 <= i < u.terms@.len(),
    ensures
        u@.dom().contains(u.terms@[i].0@),
        u@[u.terms@[i].0@] == u.terms@[i].1 as int,
        u@[u.terms@[i].0@] != 0,
{
    lemma_sorted_distinct(u.terms@);
    lemma_as_map_index(u.terms@, i);
}

/// The sorted, zero-free representation is canonical: two well-formed
/// units denoting the same bag store identical term lists.
pub proof fn lemma_rep_canonical(a: Seq<(String, i64)>, b: Seq<(String, i64)>)
    requires
        forall|i: int, j: int| 0 <= i < j < a.len()
            ==> lex_lt(#[trigger] a[i].0@, #[trigger] a[j].0@),
        forall|i: int| 0 <= i < a.len() ==> (#[trigger] a[i]).1 != 0,
        forall|i: int, j: int| 0 <= i < j < b.len()
            ==> lex_lt(#[trigger] b[i].0@, #[trigger] b[j].0@),
        forall|i: int| 0 <= i < b.len() ==> (#[trigger] b[i]).1 != 0,
        as_map(a) == as_map(b),
    ensures
        a.len() == b.len(),
        forall|i: int| 0 <= i < a.len()
            ==> (#[trigger] a[i].0)@ == b[i].0@ && a[i].1 == b[i].1,
    decreases a.len(),
{
    lemma_sorted_distinct(a);
    lemma_sorted_distinct(b);
    if a.len() == 0 {
        if b.len() > 0 {
            lemma_as_map_index(b, b.len() - 1);
            lemma_as_map_dom(a, b.last().0@);
        }
    } else if b.len() == 0 {
        lemma_as_map_index(a, a.len() - 1);
        lemma_as_map_dom(b, a.last().0@);
    } else {
        let ka = a.last().0@;
        let kb = b.last().0@;
        // Both last keys are the maximum of the same domain, so equal.
        lemma_as_map_index(a, a.len() - 1);
        lemma_as_map_index(b, b.len() - 1);
        lemma_as_map_dom(b, ka);
        lemma_as_map_dom(a, kb);
        let ja = choose|j: int| 0 <= j < b.len() && (#[trigger] b[j].0)@ == ka;
        let jb = choose|j: int| 0 <= j < a.len() && (#[trigger] a[j].0)@ == kb;
        assert(ka == kb) by {
            if ka != kb {
                assert(ja < b.len() - 1);
                assert(lex_lt(b[ja].0@, kb));
                assert(jb < a.len() - 1);
                assert(lex_lt(a[jb].0@, ka));
                lemma_lex_trans(ka, kb, ka);
                lemma_lex_irrefl(ka);
            }
        }
        assert(a.last().1 == b.last().1) by {
            lemma_as_map_index(b, b.len() - 1);
        }
        let a2 = a.drop_last();
        let b2 = b.drop_last();
        assert(forall|i: int| 0 <= i < a2.len() ==> #[trigger] a2[i] == a[i]);
        assert(forall|i: int| 0 <= i < b2.len() ==> #[trigger] b2[i] == b[i]);
        assert(as_map(a2) == as_map(b2)) by {
            assert(as_map(a) == as_map(a2).insert(ka, a.last().1 as int));
            assert(as_map(b) == as_map(b2).insert(kb, b.last().1 as int));
            assert forall|k: Seq<char>| true
                implies #[trigger] as_map(a2).dom().contains(k)
                    == as_map(b2).dom().contains(k)
                    && (as_map(a2).dom().contains(k) ==> as_map(a2)[k] == as_map(b2)[k]) by {
                lemma_as_map_dom(a2, k);
                lemma_as_map_dom(b2, k);
                if k == ka {
                    if as_map(a2).dom().contains(k) {
                        let j = choose|j: int| 0 <= j < a2.len()
                            && (#[trigger] a2[j].0)@ == k;
                        assert(lex_lt(a[j].0@, ka));
                        lemma_lex_irrefl(ka);
                    }
                    if as_map(b2).dom().contains(k) {
                        let j = choose|j: int| 0 <= j < b2.len()
                            && (#[trigger] b2[j].0)@ == k;
                        assert(lex_lt(b[j].0@, kb));
                        lemma_lex_irrefl(kb);
                    }
                } else {
                    if as_map(a2).dom().contains(k) {
                        let j = choose|j: int| 0 <= j < a2.len()
                            && (#[trigger] a2[j].0)@ == k;
                        lemma_as_map_index(a2, j);
                        assert(as_map(a)[k] == as_map(a2)[k]);
                        assert(as_map(b).dom().contains(k));
                        lemma_as_map_dom(b, k);
                        let j2 = choose|j2: int| 0 <= j2 < b.len()
                            && (#[trigger] b[j2].0)@ == k;
                        assert(j2 != b.len() - 1);
                        assert(b2[j2].0@ == k);
                        lemma_as_map_index(b2, j2);
                        assert(as_map(b)[k] == as_map(b2)[k]);
                    } else if as_map(b2).dom().contains(k) {
                        let j = choose|j: int| 0 <= j < b2.len()
                            && (#[trigger] b2[j].0)@ == k;
                        lemma_as_map_index(b2, j);
                        assert(as_map(b).dom().contains(k));
                        lemma_as_map_dom(a, k);
                        let j2 = choose|j2: int| 0 <= j2 < a.len()
                            && (#[trigger] a[j2].0)@ == k;
                        assert(j2 != a.len() - 1);
                        assert(a2[j2].0@ == k);
                    }
                }
            }
            assert(as_map(a2) =~= as_map(b2));
        }
        lemma_rep_canonical(a2, b2);
        assert forall|i: int| 0 <= i < a.len()
            implies (#[trigger] a[i].0)@ == b[i].0@ && a[i].1 == b[i].1 by {
            if i < a.len() - 1 {
                assert(a2[i].0@ == b2[i].0@ && a2[i].1 == b2[i].1);
            }
        }
    }
}

impl ParsedUnit {
    /// Whether two units denote the same exponent bag. Because the
    /// representation is canonical, this is a plain term-list comparison.
    pub fn same_bag(&self, other: &Self) -> (r: bool)
        requires
            self.wf(),
            other.wf(),
        ensures
            r == (self@ == other@),
    {
        let n = self.terms.len();
        if n != other.terms.len() {
            proof {
                if self@ == other@ {
                    lemma_rep_canonical(self.terms@, other.terms@);
                }
            }
            return false;
        }
        let mut i: usize = 0;
        while i < n
            invariant
                0 <= i <= n,
                n == self.terms@.len(),
                n == other.terms@.len(),
                self.wf(),
                other.wf(),
                forall|j: int| 0 <= j < i
                    ==> (#[trigger] self.terms@[j].0)@ == other.terms@[j].0@,
                forall|j: int| 0 <= j < i
                    ==> (#[trigger] self.terms@[j]).1 == other.terms@[j].1,
            decreases n - i,
        {
            let keys_eq = self.terms[i].0 == other.terms[i].0;
            let vals_eq = self.terms[i].1 == other.terms[i].1;
            if !keys_eq || !vals_eq {
                proof {
                    if self@ == other@ {
                        lemma_rep_canonical(self.terms@, other.terms@);
                    }
                }
                return false;
            }
            proof {
                assert(self.terms@[i as int].0@ == other.terms@[i as int].0@);
                assert(self.terms@[i as int].1 == other.terms@[i as int].1);
            }
            i = i + 1;
        }
        proof {
            lemma_as_map_congruent(self.terms@, other.terms@);
        }
        true
    }
}

} // verus!

verus! {

/// No occurrence of `c` anywhere in `s`.
pub open spec fn no_char(s: Seq<char>, c: char) -> bool {
    forall|i: int| 0 <= i < s.len() ==> #[trigger] s[i] != c
}

/// Decimal digits are digits: free of separators and whitespace.
proof fn lemma_dec_chars(n: int)
    requires
        n >= 0,
    ensures
        no_char(dec_spec(n), '/'),
        no_char(dec_spec(n), '*'),
        no_char(dec_spec(n), '^'),
        forall|i: int| 0 <= i < dec_spec(n).len() ==> !is_space(#[trigger] dec_spec(n)[i]),
        forall|i: int| 0 <= i < dec_spec(n).len() ==> is_digit(#[trigger] dec_spec(n)[i]),
{
    lemma_dec_spec_digits(n);
    assert forall|i: int| 0 <= i < dec_spec(n).len()
        implies #[trigger] dec_spec(n)[i] != '/' && dec_spec(n)[i] != '*'
            && dec_spec(n)[i] != '^' && !is_space(dec_spec(n)[i]) by {
        let c = dec_spec(n)[i];
        assert(is_digit(c));
        assert('/' as u32 == 47 && '*' as u32 == 42 && '^' as u32 == 94);
        assert(' ' as u32 == 32 && '\t' as u32 == 9 && '\n' as u32 == 10 && '\r' as u32 == 13);
        assert('0' as u32 == 48 && '9' as u32 == 57);
    }
}

/// The printed factor of a valid base: where its separator sits and what
/// it contains.
proof fn lemma_fmt_factor_chars(b: Seq<char>, e: int)
    requires
        valid_base(b),
        1 <= e,
    ensures
        fmt_factor(b, e).len() > 0,
        no_char(fmt_factor(b, e), '/'),
        no_char(fmt_factor(b, e), '*'),
        fmt_factor(b, e)[0] == b[0],
        !is_space(fmt_factor(b, e)[0]),
        !is_space(fmt_factor(b, e).last()),
        e == 1 ==> no_char(fmt_factor(b, e), '^'),
        e == 1 ==> fmt_factor(b, e) == b,
        e >= 2 ==> fmt_factor(b, e).len() == b.len() + 1 + dec_spec(e).len()
            && fmt_factor(b, e)[b.len() as int] == '^'
            && (forall|i: int| 0 <= i < b.len() ==> #[trigger] fmt_factor(b, e)[i] == b[i])
            && (forall|i: int| b.len() < i < fmt_factor(b, e).len()
                ==> #[trigger] fmt_factor(b, e)[i] == dec_spec(e)[i - b.len() - 1]),
        e >= 2 ==> no_char(fmt_factor(b, e).skip(b.len() as int + 1), '^'),
{
    lemma_dec_chars(e);
    if e == 1 {
        assert(fmt_factor(b, e).last() == b.last());
    } else {
        let f = fmt_factor(b, e);
        assert(f == b.push('^').add(dec_spec(e)));
        assert(f.len() == b.len() + 1 + dec_spec(e).len());
        assert forall|i: int| 0 <= i < f.len()
            implies #[trigger] f[i] != '/' && f[i] != '*' by {
            if i < b.len() {
                assert(f[i] == b[i]);
            } else if i == b.len() {
                assert(f[i] == '^');
                assert('/' as u32 == 47 && '*' as u32 == 42 && '^' as u32 == 94);
            } else {
                assert(f[i] == dec_spec(e)[i - b.len() - 1]);
            }
        }
        assert(f[0] == b[0]);
        assert forall|i: int| 0 <= i < f.skip(b.len() as int + 1).len()
            implies #[trigger] f.skip(b.len() as int + 1)[i] != '^' by {
            assert(f.skip(b.len() as int + 1)[i] == dec_spec(e)[i]);
        }
        assert(f.last() == dec_spec(e).last());
    }
}

/// A trimmed nonempty string trims to itself.
proof fn lemma_trim_of_valid(b: Seq<char>)
    requires
        b.len() > 0,
        !is_space(b[0]),
        !is_space(b.last()),
    ensures
        trim_spec(b) == b,
{
    lemma_trim_front_is(b, 0);
    assert(b.skip(0) =~= b);
    lemma_trim_back_is(b, b.len() as int);
    assert(b.take(b.len() as int) =~= b);
}

/// Parsing one printed factor recovers its base and exponent.
proof fn lemma_parse_fmt_factor(b: Seq<char>, e: int)
    requires
        valid_base(b),
        1 <= e <= 0x7FFF_FFFF,
    ensures
        parse_factor(fmt_factor(b, e)) == Some((b, e)),
{
    let f = fmt_factor(b, e);
    lemma_fmt_factor_chars(b, e);
    if e == 1 {
        lemma_find_char_is(f, '^', f.len() as int);
        lemma_split_first(f, '^');
        assert(split_char(f, '^') =~~= seq![f]);
        lemma_trim_of_valid(b);
        assert(parse_factor(f) == Some((b, 1int)));
    } else {
        lemma_find_char_is(f, '^', b.len() as int);
        lemma_split_first(f, '^');
        let rest = f.skip(b.len() as int + 1);
        assert(rest =~= dec_spec(e));
        lemma_find_char_is(rest, '^', rest.len() as int);
        lemma_split_first(rest, '^');
        assert(split_char(rest, '^') =~~= seq![rest]);
        assert(split_char(f, '^') =~~= seq![f.take(b.len() as int), rest]);
        assert(f.take(b.len() as int) =~= b);
        lemma_trim_of_valid(b);
        // The digits read back as `e`.
        lemma_dec_spec_digits(e);
        assert(parse_exp(dec_spec(e)) == Some(e)) by {
            let s = dec_spec(e);
            assert(s.len() > 0);
            assert(is_digit(s[0]));
            assert('-' as u32 == 45 && '+' as u32 == 43 && '0' as u32 == 48 && '9' as u32 == 57);
            assert(s[0] != '-' && s[0] != '+');
            assert(digits_val(s) == e);
        }
        assert(parse_factor(f) == Some((b, e)));
    }
}

} // verus!

verus! {

/// Every printed factor of a list, in order.
pub open spec fn fmt_seq(parts: Seq<(Seq<char>, int)>) -> Seq<Seq<char>> {
    Seq::new(parts.len(), |i: int| fmt_factor(parts[i].0, parts[i].1))
}

/// Terms whose bases are printable and whose exponents fit the parser.
pub open spec fn printable_terms(parts: Seq<(Seq<char>, int)>) -> bool {
    forall|i: int| 0 <= i < parts.len()
        ==> valid_base((#[trigger] parts[i]).0) && 1 <= parts[i].1 <= 0x7FFF_FFFF
}

/// Joining from the front: the first factor, a star, then the rest.
proof fn lemma_join_front(parts: Seq<(Seq<char>, int)>)
    requires
        parts.len() >= 2,
    ensures
        join_factors(parts) == fmt_factor(parts[0].0, parts[0].1).push('*').add(
            join_factors(parts.drop_first())),
    decreases parts.len(),
{
    if parts.len() == 2 {
        assert(parts.drop_last() =~= seq![parts[0]]);
        assert(parts.drop_first() =~= seq![parts[1]]);
        assert(join_factors(seq![parts[0]]) == fmt_factor(parts[0].0, parts[0].1));
        assert(join_factors(seq![parts[1]]) == fmt_factor(parts[1].0, parts[1].1));
    } else {
        let dl = parts.drop_last();
        lemma_join_front(dl);
        assert(dl.drop_first() =~= parts.drop_first().drop_last());
        assert(dl[0] == parts[0]);
        assert(parts.drop_first().len() >= 2);
        assert(join_factors(parts)
            == join_factors(dl).push('*').add(fmt_factor(parts.last().0, parts.last().1)));
        assert(parts.drop_first().last() == parts.last());
        assert(join_factors(parts.drop_first())
            == join_factors(parts.drop_first().drop_last()).push('*').add(
                fmt_factor(parts.last().0, parts.last().1)));
        assert(join_factors(parts) =~= fmt_factor(parts[0].0, parts[0].1).push('*').add(
            join_factors(parts.drop_first())));
    }
}

/// The join of printable factors has no slash, starts with the first
/// base's head, and splitting it on stars recovers the factors.
proof fn lemma_split_join(parts: Seq<(Seq<char>, int)>)
    requires
        printable_terms(parts),
        parts.len() >= 1,
    ensures
        split_char(join_factors(parts), '*') =~~= fmt_seq(parts),
        no_char(join_factors(parts), '/'),
        join_factors(parts).len() > 0,
        join_factors(parts)[0] == parts[0].0[0],
        !is_space(join_factors(parts).last()),
    decreases parts.len(),
{
    if parts.len() == 1 {
        let f = fmt_factor(parts[0].0, parts[0].1);
        lemma_fmt_factor_chars(parts[0].0, parts[0].1);
        assert(join_factors(parts) == f);
        lemma_find_char_is(f, '*', f.len() as int);
        lemma_split_first(f, '*');
        assert(split_char(f, '*') =~~= seq![f]);
        assert(fmt_seq(parts) =~~= seq![f]);
        assert(join_factors(parts).last() == f.last());
    } else {
        let f = fmt_factor(parts[0].0, parts[0].1);
        lemma_fmt_factor_chars(parts[0].0, parts[0].1);
        lemma_join_front(parts);
        let j = join_factors(parts);
        let rest = join_factors(parts.drop_first());
        assert(forall|i: int| 0 <= i < parts.drop_first().len()
            ==> #[trigger] parts.drop_first()[i] == parts[i + 1]);
        lemma_split_join(parts.drop_first());
        assert(j == f.push('*').add(rest));
        assert(j.len() == f.len() + 1 + rest.len());
        assert forall|i: int| 0 <= i < f.len() implies #[trigger] j[i] == f[i] by {}
        assert(j[f.len() as int] == '*');
        assert forall|i: int| f.len() < i < j.len()
            implies #[trigger] j[i] == rest[i - f.len() - 1] by {}
        lemma_find_char_is(j, '*', f.len() as int);
        lemma_split_first(j, '*');
        assert(j.take(f.len() as int) =~= f);
        assert(j.skip(f.len() as int + 1) =~= rest);
        assert(split_char(j, '*') =~~= seq![f].add(split_char(rest, '*')));
        assert(split_char(j, '*') =~~= fmt_seq(parts)) by {
            assert(split_char(rest, '*') =~~= fmt_seq(parts.drop_first()));
            assert forall|i: int| 0 <= i < fmt_seq(parts).len()
                implies #[trigger] fmt_seq(parts)[i]
                    == seq![f].add(fmt_seq(parts.drop_first()))[i] by {
                if i > 0 {
                    assert(fmt_seq(parts.drop_first())[i - 1]
                        == fmt_factor(parts[i].0, parts[i].1));
                }
            }
        }
        assert forall|i: int| 0 <= i < j.len() implies #[trigger] j[i] != '/' by {
            if i < f.len() {
                assert(j[i] == f[i]);
            } else if i == f.len() {
                assert('/' as u32 == 47 && '*' as u32 == 42);
            } else {
                assert(j[i] == rest[i - f.len() - 1]);
            }
        }
        assert(j.last() == rest.last());
    }
}

/// Folding printed factors into a bag adds each signed exponent in turn.
proof fn lemma_fold_fmt(parts: Seq<(Seq<char>, int)>, sign: int, m: Map<Seq<char>, int>)
    requires
        printable_terms(parts),
    ensures
        parse_product_rec(fmt_seq(parts), sign, m) == Some(add_all(m, parts, sign)),
    decreases parts.len(),
{
    if parts.len() == 0 {
        assert(fmt_seq(parts) =~~= Seq::<Seq<char>>::empty());
    } else {
        lemma_parse_fmt_factor(parts[0].0, parts[0].1);
        assert(fmt_seq(parts)[0] == fmt_factor(parts[0].0, parts[0].1));
        assert(fmt_seq(parts).drop_first() =~~= fmt_seq(parts.drop_first())) by {
            assert(forall|i: int| 0 <= i < parts.drop_first().len()
                ==> #[trigger] parts.drop_first()[i] == parts[i + 1]);
        }
        assert(forall|i: int| 0 <= i < parts.drop_first().len()
            ==> #[trigger] parts.drop_first()[i] == parts[i + 1]);
        lemma_fold_fmt(parts.drop_first(), sign, bag_add(m, parts[0].0, parts[0].1 * sign));
    }
}

/// The bag after folding a term list: each key gains its signed exponent.
pub open spec fn add_all(m: Map<Seq<char>, int>, parts: Seq<(Seq<char>, int)>, sign: int)
    -> Map<Seq<char>, int>
    decreases parts.len(),
{
    if parts.len() == 0 {
        m
    } else {
        add_all(bag_add(m, parts[0].0, parts[0].1 * sign), parts.drop_first(), sign)
    }
}

/// Folding fresh, distinct keys inserts each one.
proof fn lemma_add_all_fresh(m: Map<Seq<char>, int>, parts: Seq<(Seq<char>, int)>, sign: int)
    requires
        sign == 1 || sign == -1,
        forall|i: int| 0 <= i < parts.len() ==> 1 <= (#[trigger] parts[i]).1,
        forall|i: int, j: int| 0 <= i < j < parts.len()
            ==> (#[trigger] parts[i]).0 != (#[trigger] parts[j]).0,
        forall|i: int| 0 <= i < parts.len() ==> !m.dom().contains((#[trigger] parts[i]).0),
    ensures
        forall|k: Seq<char>| #[trigger] add_all(m, parts, sign).dom().contains(k)
            <==> (m.dom().contains(k) || exists|i: int| 0 <= i < parts.len()
                && (#[trigger] parts[i]).0 == k),
        forall|k: Seq<char>| m.dom().contains(k)
            ==> #[trigger] add_all(m, parts, sign)[k] == m[k],
        forall|i: int| 0 <= i < parts.len()
            ==> add_all(m, parts, sign)[(#[trigger] parts[i]).0] == parts[i].1 * sign,
    decreases parts.len(),
{
    if parts.len() > 0 {
        let k0 = parts[0].0;
        let m1 = bag_add(m, k0, parts[0].1 * sign);
        assert(bval(m, k0) == 0);
        assert(parts[0].1 * sign != 0) by {
            if sign == 1 {
                assert(parts[0].1 * 1 == parts[0].1);
            } else {
                assert(parts[0].1 * -1 == -parts[0].1);
            }
        }
        assert(m1 == m.insert(k0, parts[0].1 * sign));
        assert(forall|i: int| 0 <= i < parts.drop_first().len()
            ==> #[trigger] parts.drop_first()[i] == parts[i + 1]);
        lemma_add_all_fresh(m1, parts.drop_first(), sign);
        assert forall|k: Seq<char>| m.dom().contains(k)
            implies #[trigger] add_all(m, parts, sign)[k] == m[k] by {
            assert(add_all(m, parts, sign) == add_all(m1, parts.drop_first(), sign));
            assert(k != k0);
            assert(m1.dom().contains(k));
            assert(add_all(m1, parts.drop_first(), sign)[k] == m1[k]);
            assert(m1[k] == m[k]);
        }
        assert forall|i: int| 0 <= i < parts.len()
            implies add_all(m, parts, sign)[(#[trigger] parts[i]).0] == parts[i].1 * sign by {
            if i == 0 {
                assert(m1.dom().contains(k0));
                assert(add_all(m1, parts.drop_first(), sign)[k0] == m1[k0]);
            } else {
                assert(parts.drop_first()[i - 1] == parts[i]);
            }
        }
        assert forall|k: Seq<char>| #[trigger] add_all(m, parts, sign).dom().contains(k)
            implies (m.dom().contains(k) || exists|i: int| 0 <= i < parts.len()
                && (#[trigger] parts[i]).0 == k) by {
            if !m.dom().contains(k) {
                if k == k0 {
                    assert(parts[0].0 == k);
                    assert(exists|i: int| 0 <= i < parts.len()
                        && (#[trigger] parts[i]).0 == k);
                } else {
                    assert(add_all(m, parts, sign) == add_all(m1, parts.drop_first(), sign));
                    assert(add_all(m1, parts.drop_first(), sign).dom().contains(k));
                    assert(!m1.dom().contains(k));
                    assert(exists|i: int| 0 <= i < parts.drop_first().len()
                        && (#[trigger] parts.drop_first()[i]).0 == k);
                    let i = choose|i: int| 0 <= i < parts.drop_first().len()
                        && (#[trigger] parts.drop_first()[i]).0 == k;
                    assert(parts[i + 1].0 == k);
                    assert(exists|q: int| 0 <= q < parts.len()
                        && (#[trigger] parts[q]).0 == k);
                }
            }
        }
        assert forall|k: Seq<char>| (m.dom().contains(k) || exists|i: int|
            0 <= i < parts.len() && (#[trigger] parts[i]).0 == k)
            implies #[trigger] add_all(m, parts, sign).dom().contains(k) by {
            assert(add_all(m, parts, sign) == add_all(m1, parts.drop_first(), sign));
            if m.dom().contains(k) {
                assert(m1.dom().contains(k));
                assert(add_all(m1, parts.drop_first(), sign).dom().contains(k));
            } else {
                let i = choose|i: int| 0 <= i < parts.len() && (#[trigger] parts[i]).0 == k;
                if i == 0 {
                    assert(m1.dom().contains(k));
                    assert(add_all(m1, parts.drop_first(), sign).dom().contains(k));
                } else {
                    assert(parts.drop_first()[i - 1].0 == k);
                    assert(exists|q: int| 0 <= q < parts.drop_first().len()
                        && (#[trigger] parts.drop_first()[q]).0 == k);
                    assert(add_all(m1, parts.drop_first(), sign).dom().contains(k));
                }
            }
        }
    }
}

} // verus!

verus! {

/// The view of a term list reads off entry by entry.
proof fn lemma_terms_view_index(s: Seq<(String, i64)>)
    ensures
        terms_view(s).len() == s.len(),
        forall|i: int| 0 <= i < s.len()
            ==> #[trigger] terms_view(s)[i] == ((s[i].0)@, s[i].1 as int),
    decreases s.len(),
{
    if s.len() > 0 {
        lemma_terms_view_index(s.drop_last());
        assert(forall|i: int| 0 <= i < s.len() - 1 ==> #[trigger] s.drop_last()[i] == s[i]);
        assert forall|i: int| 0 <= i < s.len()
            implies #[trigger] terms_view(s)[i] == ((s[i].0)@, s[i].1 as int) by {
            if i < s.len() - 1 {
                assert(terms_view(s)[i] == terms_view(s.drop_last())[i]);
            }
        }
    }
}

/// One side of a term list: every entry comes from a term of the matching
/// sign, every matching term appears, and distinct keys stay distinct.
proof fn lemma_side_terms_props(s: Seq<(Seq<char>, int)>, neg: bool)
    requires
        forall|i: int, j: int| 0 <= i < j < s.len()
            ==> (#[trigger] s[i]).0 != (#[trigger] s[j]).0,
    ensures
        forall|i: int| 0 <= i < side_terms(s, neg).len()
            ==> exists|j: int| 0 <= j < s.len()
                && (#[trigger] side_terms(s, neg)[i]).0 == (#[trigger] s[j]).0
                && (if neg { s[j].1 == -side_terms(s, neg)[i].1 && s[j].1 < 0 } else {
                    s[j].1 == side_terms(s, neg)[i].1 && s[j].1 > 0
                }),
        forall|j: int| 0 <= j < s.len() && (if neg { (#[trigger] s[j]).1 < 0 } else {
            (#[trigger] s[j]).1 > 0
        }) ==> exists|i: int| 0 <= i < side_terms(s, neg).len()
            && (#[trigger] side_terms(s, neg)[i]).0 == s[j].0,
        forall|i1: int, i2: int| 0 <= i1 < i2 < side_terms(s, neg).len()
            ==> (#[trigger] side_terms(s, neg)[i1]).0 != (#[trigger] side_terms(s, neg)[i2]).0,
    decreases s.len(),
{
    if s.len() > 0 {
        let dl = s.drop_last();
        assert(forall|i: int| 0 <= i < dl.len() ==> #[trigger] dl[i] == s[i]);
        lemma_side_terms_props(dl, neg);
        let prev = side_terms(dl, neg);
        let cur = side_terms(s, neg);
        let t = s.last();
        let keep = if neg { t.1 < 0 } else { t.1 > 0 };
        if keep {
            assert(cur == prev.push((t.0, if neg { -t.1 } else { t.1 })));
            // The appended key is fresh among the side's keys.
            assert forall|i: int| 0 <= i < prev.len()
                implies (#[trigger] prev[i]).0 != t.0 by {
                let j = choose|j: int| 0 <= j < dl.len()
                    && (#[trigger] prev[i]).0 == (#[trigger] dl[j]).0
                    && (if neg { dl[j].1 == -prev[i].1 && dl[j].1 < 0 } else {
                        dl[j].1 == prev[i].1 && dl[j].1 > 0
                    });
                assert(s[j].0 != s[s.len() - 1].0);
            }
            assert forall|i: int| 0 <= i < cur.len()
                implies exists|j: int| 0 <= j < s.len()
                    && (#[trigger] cur[i]).0 == (#[trigger] s[j]).0
                    && (if neg { s[j].1 == -cur[i].1 && s[j].1 < 0 } else {
                        s[j].1 == cur[i].1 && s[j].1 > 0
                    }) by {
                if i < prev.len() {
                    let j = choose|j: int| 0 <= j < dl.len()
                        && (#[trigger] prev[i]).0 == (#[trigger] dl[j]).0
                        && (if neg { dl[j].1 == -prev[i].1 && dl[j].1 < 0 } else {
                            dl[j].1 == prev[i].1 && dl[j].1 > 0
                        });
                    assert(cur[i] == prev[i]);
                    assert(cur[i].0 == s[j].0);
                } else {
                    assert(cur[i].0 == s[s.len() - 1].0);
                }
            }
            assert forall|j: int| 0 <= j < s.len() && (if neg {
                (#[trigger] s[j]).1 < 0
            } else {
                (#[trigger] s[j]).1 > 0
            }) implies exists|i: int| 0 <= i < cur.len()
                && (#[trigger] cur[i]).0 == s[j].0 by {
                if j < s.len() - 1 {
                    let i = choose|i: int| 0 <= i < prev.len()
                        && (#[trigger] prev[i]).0 == dl[j].0;
                    assert(cur[i].0 == s[j].0);
                } else {
                    assert(cur[cur.len() - 1].0 == s[j].0);
                }
            }
        } else {
            assert(cur == prev);
            assert forall|i: int| 0 <= i < cur.len()
                implies exists|j: int| 0 <= j < s.len()
                    && (#[trigger] cur[i]).0 == (#[trigger] s[j]).0
                    && (if neg { s[j].1 == -cur[i].1 && s[j].1 < 0 } else {
                        s[j].1 == cur[i].1 && s[j].1 > 0
                    }) by {
                let j = choose|j: int| 0 <= j < dl.len()
                    && (#[trigger] prev[i]).0 == (#[trigger] dl[j]).0
                    && (if neg { dl[j].1 == -prev[i].1 && dl[j].1 < 0 } else {
                        dl[j].1 == prev[i].1 && dl[j].1 > 0
                    });
                assert(cur[i].0 == s[j].0);
            }
            assert forall|j: int| 0 <= j < s.len() && (if neg {
                (#[trigger] s[j]).1 < 0
            } else {
                (#[trigger] s[j]).1 > 0
            }) implies exists|i: int| 0 <= i < cur.len()
                && (#[trigger] cur[i]).0 == s[j].0 by {
                if j < s.len() - 1 {
                    let i = choose|i: int| 0 <= i < prev.len()
                        && (#[trigger] prev[i]).0 == dl[j].0;
                    assert(cur[i].0 == s[j].0);
                }
            }
        }
    }
}

} // verus!

verus! {

/// Common character facts used when reassembling canonical strings.
proof fn lemma_canon_chars()
    ensures
        !is_space('1'),
        '1' != '/',
        !is_space('/'),
{
    assert('1' as u32 == 49 && '/' as u32 == 47);
    assert(' ' as u32 == 32 && '\t' as u32 == 9 && '\n' as u32 == 10 && '\r' as u32 == 13);
}

/// A canonical side printing as the bare `1` can only be empty or the
/// excluded lone `1` base.
proof fn lemma_side_is_one(parts: Seq<(Seq<char>, int)>)
    requires
        printable_terms(parts),
        parts.len() >= 1,
        join_factors(parts) == seq!['1'],
    ensures
        parts[0].0 == seq!['1'] && parts[0].1 == 1 && parts.len() == 1,
{
    if parts.len() >= 2 {
        lemma_join_front(parts);
        lemma_fmt_factor_chars(parts[0].0, parts[0].1);
        lemma_split_join(parts.drop_first());
        assert(forall|i: int| 0 <= i < parts.drop_first().len()
            ==> #[trigger] parts.drop_first()[i] == parts[i + 1]);
        assert(join_factors(parts).len() >= 3);
    } else {
        assert(join_factors(parts) == fmt_factor(parts[0].0, parts[0].1));
        lemma_fmt_factor_chars(parts[0].0, parts[0].1);
        if parts[0].1 >= 2 {
            lemma_dec_spec_digits(parts[0].1);
            assert(fmt_factor(parts[0].0, parts[0].1).len() >= 3);
        }
        assert(parts[0].0 =~= seq!['1']);
    }
}

/// The round trip of the unit grammar: the canonical string of a
/// well-formed unit parses back to exactly its exponent bag. The two
/// printable exceptions are excluded: exponents beyond the 32-bit signed
/// range, and a base spelled `1` with exponent one or minus one, whose
/// printed factor would be swallowed as the dimensionless marker.
/// The string side of the round trip: with both sides printable,
/// duplicate-free and not the lone literal `1`, the canonical string
/// parses back to the folded bag.
#[verifier::rlimit(60)]
proof fn lemma_canon_parses(tv: Seq<(Seq<char>, int)>, m2: Map<Seq<char>, int>)
    requires
        printable_terms(side_terms(tv, false)),
        printable_terms(side_terms(tv, true)),
        side_terms(tv, false).len() == 1 ==> !(side_terms(tv, false)[0].0 == seq!['1']
            && side_terms(tv, false)[0].1 == 1),
        side_terms(tv, true).len() == 1 ==> !(side_terms(tv, true)[0].0 == seq!['1']
            && side_terms(tv, true)[0].1 == 1),
        add_all(add_all(Map::empty(), side_terms(tv, false), 1), side_terms(tv, true), -1)
            == m2,
        (side_terms(tv, false).len() == 0 && side_terms(tv, true).len() == 0) ==> m2
            == Map::<Seq<char>, int>::empty(),
    ensures
        parse_spec(canon_spec(tv)) == Some(m2),
{
    lemma_canon_chars();
    let pos = side_terms(tv, false);
    let neg = side_terms(tv, true);
    let m1 = add_all(Map::empty(), pos, 1);
    let nstr = canon_side(pos);
    let dstr = canon_side(neg);
    if pos.len() >= 1 {
        lemma_split_join(pos);
        assert(nstr != seq!['1']) by {
            if nstr == seq!['1'] {
                lemma_side_is_one(pos);
            }
        }
        lemma_trim_of_valid(nstr);
    } else {
        assert(nstr == seq!['1']);
        lemma_trim_of_valid(nstr);
    }
    if neg.len() >= 1 {
        lemma_split_join(neg);
        assert(dstr != seq!['1']) by {
            if dstr == seq!['1'] {
                lemma_side_is_one(neg);
            }
        }
        lemma_trim_of_valid(dstr);
    } else {
        assert(dstr == seq!['1']);
    }
    let c = canon_spec(tv);
    if dstr == seq!['1'] {
        assert(neg.len() == 0) by {
            if neg.len() >= 1 {
                assert(dstr != seq!['1']);
            }
        }
        assert(c == nstr);
        if pos.len() == 0 {
            assert(c == seq!['1']);
            lemma_find_char_is(c, '/', 1);
            lemma_split_first(c, '/');
            assert(split_char(c, '/') =~~= seq![c]);
            assert(trim_spec(c) == c);
            assert(parse_product_spec(c, 1, Map::empty())
                == Some(Map::<Seq<char>, int>::empty()));
            assert(parse_spec(c) == Some(m2));
        } else {
            lemma_find_char_is(c, '/', c.len() as int);
            lemma_split_first(c, '/');
            assert(split_char(c, '/') =~~= seq![c]);
            assert(trim_spec(c).len() != 0);
            lemma_fold_fmt(pos, 1, Map::empty());
            assert(parse_product_rec(split_char(c, '*'), 1, Map::empty()) == Some(m1));
            assert(parse_product_spec(c, 1, Map::empty()) == Some(m1));
            assert(m1 == m2);
            assert(parse_spec(c) == Some(m2));
        }
    } else {
        assert(neg.len() >= 1);
        assert(c == nstr.push('/').add(dstr));
        assert(c.len() == nstr.len() + 1 + dstr.len());
        assert(forall|i: int| 0 <= i < nstr.len() ==> #[trigger] c[i] == nstr[i]);
        assert(c[nstr.len() as int] == '/');
        assert(forall|i: int| nstr.len() < i < c.len()
            ==> #[trigger] c[i] == dstr[i - nstr.len() - 1]);
        assert forall|i: int| 0 <= i < nstr.len() implies #[trigger] c[i] != '/' by {
            if pos.len() == 0 {
                assert(nstr[i] == '1');
            }
        }
        lemma_find_char_is(c, '/', nstr.len() as int);
        lemma_split_first(c, '/');
        let rest = c.skip(nstr.len() as int + 1);
        assert(rest =~= dstr);
        lemma_find_char_is(rest, '/', rest.len() as int);
        lemma_split_first(rest, '/');
        assert(split_char(rest, '/') =~~= seq![rest]);
        assert(split_char(c, '/') =~~= seq![nstr, dstr]) by {
            assert(c.take(nstr.len() as int) =~= nstr);
        }
        assert(!is_space(c[0]));
        assert(!is_space(c.last()));
        lemma_trim_of_valid(c);
        if pos.len() == 0 {
            assert(nstr == seq!['1']);
            assert(parse_product_spec(nstr, 1, Map::empty())
                == Some(Map::<Seq<char>, int>::empty()));
            assert(m1 =~= Map::<Seq<char>, int>::empty());
        } else {
            lemma_fold_fmt(pos, 1, Map::empty());
            assert(parse_product_spec(nstr, 1, Map::empty()) == Some(m1));
        }
        lemma_fold_fmt(neg, -1, m1);
        assert(parse_product_spec(dstr, -1, m1) == Some(m2));
        assert(parse_spec(c) == Some(m2));
    }
}

/// The round trip of the unit grammar: the canonical string of a
/// well-formed unit parses back to exactly its exponent bag. The two
/// printable exceptions are excluded: exponents beyond the 32-bit signed
/// range, and a base spelled `1` with exponent one or minus one, whose
/// printed factor would be swallowed as the dimensionless marker.
/// The two sides of a well-formed unit are printable and share no key.
#[verifier::rlimit(60)]
proof fn lemma_sides_printable(u: &ParsedUnit)
    requires
        u.wf(),
        forall|i: int| 0 <= i < u.terms@.len()
            ==> -0x7FFF_FFFF <= (#[trigger] u.terms@[i]).1 <= 0x7FFF_FFFF,
    ensures
        printable_terms(side_terms(terms_view(u.terms@), false)),
        printable_terms(side_terms(terms_view(u.terms@), true)),
        forall|i1: int, i2: int|
            0 <= i1 < side_terms(terms_view(u.terms@), false).len()
                && 0 <= i2 < side_terms(terms_view(u.terms@), true).len()
            ==> (#[trigger] side_terms(terms_view(u.terms@), false)[i1]).0
                != (#[trigger] side_terms(terms_view(u.terms@), true)[i2]).0,
        forall|i: int, j: int| 0 <= i < j < terms_view(u.terms@).len()
            ==> (#[trigger] terms_view(u.terms@)[i]).0 != (#[trigger] terms_view(u.terms@)[j]).0,
{
    let tv = terms_view(u.terms@);
    lemma_terms_view_index(u.terms@);
    lemma_sorted_distinct(u.terms@);
    assert forall|i: int, j: int| 0 <= i < j < tv.len()
        implies (#[trigger] tv[i]).0 != (#[trigger] tv[j]).0 by {
        assert(tv[i].0 == u.terms@[i].0@ && tv[j].0 == u.terms@[j].0@);
    }
    let pos = side_terms(tv, false);
    let neg = side_terms(tv, true);
    lemma_side_terms_props(tv, false);
    lemma_side_terms_props(tv, true);
    assert forall|i: int| 0 <= i < pos.len()
        implies valid_base((#[trigger] pos[i]).0) && 1 <= pos[i].1 <= 0x7FFF_FFFF by {
        let j = choose|j: int| 0 <= j < tv.len() && (#[trigger] pos[i]).0 == (#[trigger] tv[j]).0
            && tv[j].1 == pos[i].1 && tv[j].1 > 0;
        assert(tv[j].0 == u.terms@[j].0@);
        assert(valid_base(u.terms@[j].0@));
        assert(u.terms@[j].1 <= 0x7FFF_FFFF);
    }
    assert forall|i: int| 0 <= i < neg.len()
        implies valid_base((#[trigger] neg[i]).0) && 1 <= neg[i].1 <= 0x7FFF_FFFF by {
        let j = choose|j: int| 0 <= j < tv.len() && (#[trigger] neg[i]).0 == (#[trigger] tv[j]).0
            && tv[j].1 == -neg[i].1 && tv[j].1 < 0;
        assert(tv[j].0 == u.terms@[j].0@);
        assert(valid_base(u.terms@[j].0@));
        assert(u.terms@[j].1 >= -0x7FFF_FFFF);
    }
    assert forall|i1: int, i2: int| 0 <= i1 < pos.len() && 0 <= i2 < neg.len()
        implies (#[trigger] pos[i1]).0 != (#[trigger] neg[i2]).0 by {
        if pos[i1].0 == neg[i2].0 {
            let j1 = choose|j: int| 0 <= j < tv.len()
                && (#[trigger] pos[i1]).0 == (#[trigger] tv[j]).0
                && tv[j].1 == pos[i1].1 && tv[j].1 > 0;
            let j2 = choose|j: int| 0 <= j < tv.len()
                && (#[trigger] neg[i2]).0 == (#[trigger] tv[j]).0
                && tv[j].1 == -neg[i2].1 && tv[j].1 < 0;
            if j1 != j2 {
                if j1 < j2 {
                    assert(tv[j1].0 != tv[j2].0);
                } else {
                    assert(tv[j2].0 != tv[j1].0);
                }
            }
        }
    }
}

/// Folding the two sides rebuilds exactly the unit's bag.
#[verifier::rlimit(60)]
proof fn lemma_sides_fold_to_bag(u: &ParsedUnit)
    requires
        u.wf(),
        forall|i: int| 0 <= i < u.terms@.len()
            ==> -0x7FFF_FFFF <= (#[trigger] u.terms@[i]).1 <= 0x7FFF_FFFF,
    ensures
        add_all(
            add_all(Map::empty(), side_terms(terms_view(u.terms@), false), 1),
            side_terms(terms_view(u.terms@), true),
            -1,
        ) == u@,
{
    let tv = terms_view(u.terms@);
    lemma_terms_view_index(u.terms@);
    lemma_sorted_distinct(u.terms@);
    lemma_sides_printable(u);
    let pos = side_terms(tv, false);
    let neg = side_terms(tv, true);
    lemma_side_terms_props(tv, false);
    lemma_side_terms_props(tv, true);
    let m1 = add_all(Map::empty(), pos, 1);
    let m2 = add_all(m1, neg, -1);
    lemma_add_all_fresh(Map::empty(), pos, 1);
    assert forall|i: int| 0 <= i < neg.len()
        implies !m1.dom().contains((#[trigger] neg[i]).0) by {
        if m1.dom().contains(neg[i].0) {
            let i1 = choose|q: int| 0 <= q < pos.len() && (#[trigger] pos[q]).0 == neg[i].0;
            assert(pos[i1].0 != neg[i].0);
        }
    }
    lemma_add_all_fresh(m1, neg, -1);
    assert forall|k: Seq<char>| #[trigger] u@.dom().contains(k)
        implies m2.dom().contains(k) && m2[k] == u@[k] by {
        lemma_as_map_dom(u.terms@, k);
        let j = choose|j: int| 0 <= j < u.terms@.len()
            && (#[trigger] u.terms@[j].0)@ == k;
        lemma_as_map_index(u.terms@, j);
        assert(tv[j] == (k, u.terms@[j].1 as int));
        if u.terms@[j].1 > 0 {
            let i = choose|i: int| 0 <= i < pos.len() && (#[trigger] pos[i]).0 == tv[j].0;
            let j2 = choose|j2: int| 0 <= j2 < tv.len()
                && (#[trigger] pos[i]).0 == (#[trigger] tv[j2]).0
                && tv[j2].1 == pos[i].1 && tv[j2].1 > 0;
            assert(j2 == j) by {
                if j2 != j {
                    if j2 < j {
                        assert(tv[j2].0 != tv[j].0);
                    } else {
                        assert(tv[j].0 != tv[j2].0);
                    }
                }
            }
            assert(m1[k] == pos[i].1 * 1);
            assert(m1.dom().contains(k));
            assert(m2[k] == m1[k]);
        } else {
            assert(u.terms@[j].1 < 0);
            let i = choose|i: int| 0 <= i < neg.len() && (#[trigger] neg[i]).0 == tv[j].0;
            let j2 = choose|j2: int| 0 <= j2 < tv.len()
                && (#[trigger] neg[i]).0 == (#[trigger] tv[j2]).0
                && tv[j2].1 == -neg[i].1 && tv[j2].1 < 0;
            assert(j2 == j) by {
                if j2 != j {
                    if j2 < j {
                        assert(tv[j2].0 != tv[j].0);
                    } else {
                        assert(tv[j].0 != tv[j2].0);
                    }
                }
            }
            assert(m2[neg[i].0] == neg[i].1 * -1);
        }
    }
    assert forall|k: Seq<char>| #[trigger] m2.dom().contains(k)
        implies u@.dom().contains(k) by {
        if m1.dom().contains(k) {
            let i = choose|q: int| 0 <= q < pos.len() && (#[trigger] pos[q]).0 == k;
            let j = choose|j: int| 0 <= j < tv.len()
                && (#[trigger] pos[i]).0 == (#[trigger] tv[j]).0
                && tv[j].1 == pos[i].1 && tv[j].1 > 0;
            lemma_as_map_dom(u.terms@, k);
            assert(u.terms@[j].0@ == k);
        } else {
            let i = choose|q: int| 0 <= q < neg.len() && (#[trigger] neg[q]).0 == k;
            let j = choose|j: int| 0 <= j < tv.len()
                && (#[trigger] neg[i]).0 == (#[trigger] tv[j]).0
                && tv[j].1 == -neg[i].1 && tv[j].1 < 0;
            lemma_as_map_dom(u.terms@, k);
            assert(u.terms@[j].0@ == k);
        }
    }
    assert(m2 =~= u@);
}

/// The round trip of the unit grammar: the canonical string of a
/// well-formed unit parses back to exactly its exponent bag. The two
/// printable exceptions are excluded: exponents beyond the 32-bit signed
/// range, and a base spelled `1` with exponent one or minus one, whose
/// printed factor would be swallowed as the dimensionless marker.
#[verifier::rlimit(60)]
pub proof fn lemma_unit_round_trip(u: &ParsedUnit)
    requires
        u.wf(),
        forall|i: int| 0 <= i < u.terms@.len()
            ==> -0x7FFF_FFFF <= (#[trigger] u.terms@[i]).1 <= 0x7FFF_FFFF,
        !(u@.dom().contains(seq!['1']) && (u@[seq!['1']] == 1 || u@[seq!['1']] == -1)),
    ensures
        parse_spec(canon_spec(terms_view(u.terms@))) == Some(u@),
{
    let tv = terms_view(u.terms@);
    lemma_terms_view_index(u.terms@);
    lemma_sides_printable(u);
    lemma_sides_fold_to_bag(u);
    let pos = side_terms(tv, false);
    let neg = side_terms(tv, true);
    lemma_side_terms_props(tv, false);
    lemma_side_terms_props(tv, true);
    assert(pos.len() == 1 ==> !(pos[0].0 == seq!['1'] && pos[0].1 == 1)) by {
        if pos.len() == 1 && pos[0].0 == seq!['1'] && pos[0].1 == 1 {
            let j = choose|j: int| 0 <= j < tv.len()
                && (#[trigger] pos[0]).0 == (#[trigger] tv[j]).0
                && tv[j].1 == pos[0].1 && tv[j].1 > 0;
            lemma_sorted_distinct(u.terms@);
            lemma_as_map_index(u.terms@, j);
            assert(u@.dom().contains(seq!['1']) && u@[seq!['1']] == 1);
        }
    }
    assert(neg.len() == 1 ==> !(neg[0].0 == seq!['1'] && neg[0].1 == 1)) by {
        if neg.len() == 1 && neg[0].0 == seq!['1'] && neg[0].1 == 1 {
            let j = choose|j: int| 0 <= j < tv.len()
                && (#[trigger] neg[0]).0 == (#[trigger] tv[j]).0
                && tv[j].1 == -neg[0].1 && tv[j].1 < 0;
            lemma_sorted_distinct(u.terms@);
            lemma_as_map_index(u.terms@, j);
            assert(u@.dom().contains(seq!['1']) && u@[seq!['1']] == -1);
        }
    }
    assert((pos.len() == 0 && neg.len() == 0)
        ==> add_all(add_all(Map::empty(), pos, 1), neg, -1)
            == Map::<Seq<char>, int>::empty()) by {
        if pos.len() == 0 && neg.len() == 0 {
            assert(add_all(Map::empty(), pos, 1) == Map::<Seq<char>, int>::empty());
        }
    }
    lemma_canon_parses(tv, u@);
}

} // verus!
