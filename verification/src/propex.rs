//! Property expressions ("propex"): paths such as `msg.payload[0]["name"]`
//! that address a value nested inside objects and arrays.
//!
//! The grammar, written as spec functions over the characters of the expression:
//!
//! ```text
//! expression   := first_property subproperty*            (whole input)
//! first_property := identifier | ws literal ws | quoted_index | nested
//! subproperty  := '.' identifier | ws '.' ws digits ws | quoted_index | bracket_index | nested
//! quoted_index := ws '[' ws literal ws ']' ws
//! bracket_index := ws '[' ws digits ws ']' ws
//! nested       := ws '[' ws identifier subproperty+ ws ']' ws
//! literal      := '"' (not '"')+ '"' | '\'' (not '\'')+ '\''
//! identifier   := [A-Za-z_$] [A-Za-z0-9_$]*
//! ```
//! Alternatives are tried in order and the first that succeeds is taken;
//! repetitions are greedy.

use vstd::prelude::*;

use crate::uid::push_char;

verus! {

/// Errors of [`parse`].
#[derive(Debug)]
pub enum PropexError {
    /// The expression is empty.
    BadArguments,
    /// The expression does not follow the grammar; it holds the expression.
    BadSyntax(String),
    /// A number in the expression is not valid.
    InvalidDigit,
}

/// One step of a property path.
#[derive(Debug, PartialEq, Eq)]
pub enum PropexSegment {
    /// An array index: `[3]` or `.3`.
    Index(usize),
    /// An object property: `.name`, `['name']` or `["name"]`.
    Property(String),
    /// A property named by the value of another path: `[msg.topic]`.
    Nested(Vec<PropexSegment>),
}

/// A property path: one segment or several.
#[derive(Debug, PartialEq, Eq)]
pub enum PropexPath {
    Single(PropexSegment),
    Multiple(Vec<PropexSegment>),
}

/// The mathematical value of a segment.
pub enum SegView {
    Index(usize),
    Property(Seq<char>),
    Nested(Seq<SegView>),
}

impl PropexSegment {
    /// The mathematical value of this segment.
    pub open spec fn view(self) -> SegView
        decreases self,
    {
        match self {
            PropexSegment::Index(i) => SegView::Index(i),
            PropexSegment::Property(s) => SegView::Property(s@),
            PropexSegment::Nested(v) => SegView::Nested(segs_view(v@)),
        }
    }
}

impl PropexSegment {
    /// A copy of this segment.
    pub fn duplicate(&self) -> (r: PropexSegment)
        ensures
            r.view() == self.view(),
        decreases self,
    {
        match self {
            PropexSegment::Index(i) => PropexSegment::Index(*i),
            PropexSegment::Property(s) => PropexSegment::Property(s.clone()),
            PropexSegment::Nested(v) => PropexSegment::Nested(duplicate_segs(v)),
        }
    }
}

/// A copy of a vector of segments.
pub fn duplicate_segs(v: &Vec<PropexSegment>) -> (r: Vec<PropexSegment>)
    ensures
        segs_view(r@) == segs_view(v@),
    decreases v,
{
    let mut out: Vec<PropexSegment> = Vec::new();
    let mut i: usize = 0;
    while i < v.len()
        invariant
            i <= v.len(),
            segs_view(out@) == segs_view(v@.subrange(0, i as int)),
        decreases v.len() - i,
    {
        assert(decreases_to!(v => v@[i as int]));
        let c = v[i].duplicate();
        proof {
            let o2 = out@.push(c);
            assert(o2.subrange(0, o2.len() - 1) =~= out@);
            assert(v@.subrange(0, i + 1).subrange(0, i as int) =~= v@.subrange(0, i as int));
        }
        out.push(c);
        i = i + 1;
    }
    assert(v@.subrange(0, v.len() as int) =~= v@);
    out
}

impl Clone for PropexSegment {
    fn clone(&self) -> (r: PropexSegment)
        ensures
            r.view() == self.view(),
    {
        self.duplicate()
    }
}

/// The values of a sequence of segments.
pub open spec fn segs_view(s: Seq<PropexSegment>) -> Seq<SegView>
    decreases s,
{
    if s.len() == 0 {
        Seq::empty()
    } else {
        segs_view(s.subrange(0, s.len() - 1)).push(s[s.len() - 1].view())
    }
}

} // verus!

verus! {

// ---------------------------------------------------------------------------
// Character classes and scanners
// ---------------------------------------------------------------------------

/// Whitespace as skipped between tokens: space, tab, line feed, carriage return.
pub open spec fn is_space(c: char) -> bool {
    c == ' ' || c == '\t' || c == '\n' || c == '\r'
}

/// An ASCII letter.
pub open spec fn is_alpha(c: char) -> bool {
    ('a' <= c && c <= 'z') || ('A' <= c && c <= 'Z')
}

/// An ASCII decimal digit.
pub open spec fn is_digit(c: char) -> bool {
    '0' <= c && c <= '9'
}

/// A character that may start an identifier.
pub open spec fn is_ident_start(c: char) -> bool {
    is_alpha(c) || c == '_' || c == '$'
}

/// A character that may continue an identifier.
pub open spec fn is_ident_char(c: char) -> bool {
    is_ident_start(c) || is_digit(c)
}

/// Whether `s[p] == c`.
pub open spec fn char_at(s: Seq<char>, p: int, c: char) -> bool {
    0 <= p < s.len() && s[p] == c
}

/// The first position at or after `p` that is not whitespace.
pub open spec fn skip_spaces(s: Seq<char>, p: int) -> int
    decreases s.len() - p,
{
    if 0 <= p < s.len() && is_space(s[p]) {
        skip_spaces(s, p + 1)
    } else {
        p
    }
}

/// The first position at or after `p` that does not hold an identifier character.
pub open spec fn ident_end(s: Seq<char>, p: int) -> int
    decreases s.len() - p,
{
    if 0 <= p < s.len() && is_ident_char(s[p]) {
        ident_end(s, p + 1)
    } else {
        p
    }
}

/// The first position at or after `p` that does not hold a digit.
pub open spec fn digits_end(s: Seq<char>, p: int) -> int
    decreases s.len() - p,
{
    if 0 <= p < s.len() && is_digit(s[p]) {
        digits_end(s, p + 1)
    } else {
        p
    }
}

/// The first position at or after `p` that holds `q`, or the end of `s`.
pub open spec fn find_char(s: Seq<char>, p: int, q: char) -> int
    decreases s.len() - p,
{
    if 0 <= p < s.len() && s[p] != q {
        find_char(s, p + 1, q)
    } else {
        p
    }
}

/// The decimal value of the digits `s[a..b)`.
pub open spec fn digits_value(s: Seq<char>, a: int, b: int) -> nat
    decreases b - a,
{
    if b <= a {
        0
    } else {
        digits_value(s, a, b - 1) * 10 + ((s[b - 1] as int - 48) as nat)
    }
}

pub proof fn lemma_scans_ge(s: Seq<char>, p: int, q: char)
    requires
        0 <= p <= s.len(),
    ensures
        p <= skip_spaces(s, p) <= s.len(),
        p <= ident_end(s, p) <= s.len(),
        p <= digits_end(s, p) <= s.len(),
        p <= find_char(s, p, q) <= s.len(),
    decreases s.len() - p,
{
    if p < s.len() {
        lemma_scans_ge(s, p + 1, q);
    }
}

// ---------------------------------------------------------------------------
// Tokens
// ---------------------------------------------------------------------------

/// An identifier starting at `p`: its end.
pub open spec fn spec_identifier(s: Seq<char>, p: int) -> Option<int> {
    if 0 <= p < s.len() && is_ident_start(s[p]) {
        Some(ident_end(s, p + 1))
    } else {
        None
    }
}

/// A quoted literal starting at `p` with at least one character between its quotes:
/// the bounds of its content and the position after the closing quote.
pub open spec fn spec_literal(s: Seq<char>, p: int) -> Option<(int, int, int)> {
    if 0 <= p < s.len() && (s[p] == '"' || s[p] == '\'') {
        let e = find_char(s, p + 1, s[p]);
        if e > p + 1 && e < s.len() {
            Some((p + 1, e, e + 1))
        } else {
            None
        }
    } else {
        None
    }
}

/// A decimal number that fits in `usize`, starting at `p`: its value and end.
pub open spec fn spec_usize(s: Seq<char>, p: int) -> Option<(usize, int)> {
    let e = digits_end(s, p);
    if e > p && digits_value(s, p, e) <= usize::MAX {
        Some((digits_value(s, p, e) as usize, e))
    } else {
        None
    }
}

// ---------------------------------------------------------------------------
// Segments
// ---------------------------------------------------------------------------

/// `identifier` (first segment only).
pub open spec fn spec_first_direct(s: Seq<char>, p: int) -> Option<(SegView, int)> {
    match spec_identifier(s, p) {
        Some(e) => Some((SegView::Property(s.subrange(p, e)), e)),
        None => None,
    }
}

/// `ws literal ws` (first segment only).
pub open spec fn spec_first_literal(s: Seq<char>, p: int) -> Option<(SegView, int)> {
    match spec_literal(s, skip_spaces(s, p)) {
        Some((a, b, e)) => Some((SegView::Property(s.subrange(a, b)), skip_spaces(s, e))),
        None => None,
    }
}

/// `ws '[' ws literal ws ']' ws`.
pub open spec fn spec_quoted_index(s: Seq<char>, p: int) -> Option<(SegView, int)> {
    let q = skip_spaces(s, p);
    if char_at(s, q, '[') {
        match spec_literal(s, skip_spaces(s, q + 1)) {
            Some((a, b, e)) => {
                let r = skip_spaces(s, e);
                if char_at(s, r, ']') {
                    Some((SegView::Property(s.subrange(a, b)), skip_spaces(s, r + 1)))
                } else {
                    None
                }
            },
            None => None,
        }
    } else {
        None
    }
}

/// `'.' identifier`.
pub open spec fn spec_dot_identifier(s: Seq<char>, p: int) -> Option<(SegView, int)> {
    if char_at(s, p, '.') {
        match spec_identifier(s, p + 1) {
            Some(e) => Some((SegView::Property(s.subrange(p + 1, e)), e)),
            None => None,
        }
    } else {
        None
    }
}

/// `ws '.' ws digits ws`.
pub open spec fn spec_dot_index(s: Seq<char>, p: int) -> Option<(SegView, int)> {
    let q = skip_spaces(s, p);
    if char_at(s, q, '.') {
        match spec_usize(s, skip_spaces(s, q + 1)) {
            Some((n, e)) => Some((SegView::Index(n), skip_spaces(s, e))),
            None => None,
        }
    } else {
        None
    }
}

/// `ws '[' ws digits ws ']' ws`.
pub open spec fn spec_bracket_index(s: Seq<char>, p: int) -> Option<(SegView, int)> {
    let q = skip_spaces(s, p);
    if char_at(s, q, '[') {
        match spec_usize(s, skip_spaces(s, q + 1)) {
            Some((n, e)) => {
                let r = skip_spaces(s, e);
                if char_at(s, r, ']') {
                    Some((SegView::Index(n), skip_spaces(s, r + 1)))
                } else {
                    None
                }
            },
            None => None,
        }
    } else {
        None
    }
}

/// `ws '[' ws identifier subproperty+ ws ']' ws`.
pub open spec fn spec_nested(s: Seq<char>, p: int) -> Option<(SegView, int)>
    decreases s.len() - p, 0int,
{
    if 0 <= p <= s.len() {
        let q = skip_spaces(s, p);
        proof {
            lemma_scans_ge(s, p, ' ');
        }
        if char_at(s, q, '[') {
            let q2 = skip_spaces(s, q + 1);
            proof {
                lemma_scans_ge(s, q + 1, ' ');
            }
            match spec_first_direct(s, q2) {
                Some((first, e)) => {
                    proof {
                        lemma_scans_ge(s, q2 + 1, ' ');
                    }
                    match spec_subproperty(s, e) {
                        Some((second, e2)) => if e < e2 <= s.len() {
                            match spec_many_sub(s, e2) {
                                Some((rest, e3)) => {
                                    let r = skip_spaces(s, e3);
                                    if char_at(s, r, ']') {
                                        Some(
                                            (
                                                SegView::Nested(seq![first, second] + rest),
                                                skip_spaces(s, r + 1),
                                            ),
                                        )
                                    } else {
                                        None
                                    }
                                },
                                None => None,
                            }
                        } else {
                            None
                        },
                        None => None,
                    }
                },
                None => None,
            }
        } else {
            None
        }
    } else {
        None
    }
}

/// One segment after the first: the first alternative that succeeds among
/// `'.' identifier`, `.digits`, quoted index, bracket index and nested path.
pub open spec fn spec_subproperty(s: Seq<char>, p: int) -> Option<(SegView, int)>
    decreases s.len() - p, 1int,
{
    if 0 <= p <= s.len() {
        if spec_dot_identifier(s, p) is Some {
            spec_dot_identifier(s, p)
        } else if spec_dot_index(s, p) is Some {
            spec_dot_index(s, p)
        } else if spec_quoted_index(s, p) is Some {
            spec_quoted_index(s, p)
        } else if spec_bracket_index(s, p) is Some {
            spec_bracket_index(s, p)
        } else {
            spec_nested(s, p)
        }
    } else {
        None
    }
}

/// `subproperty*`, greedy: the segments and where they end. `None` only if a
/// segment matched without consuming input.
pub open spec fn spec_many_sub(s: Seq<char>, p: int) -> Option<(Seq<SegView>, int)>
    decreases s.len() - p, 2int,
{
    if 0 <= p <= s.len() {
        match spec_subproperty(s, p) {
            None => Some((Seq::empty(), p)),
            Some((seg, e)) => if p < e <= s.len() {
                match spec_many_sub(s, e) {
                    Some((rest, e2)) => Some((seq![seg] + rest, e2)),
                    None => None,
                }
            } else {
                None
            },
        }
    } else {
        None
    }
}

/// The first segment: the first alternative that succeeds among identifier,
/// quoted literal, quoted index and nested path.
pub open spec fn spec_first_property(s: Seq<char>, p: int) -> Option<(SegView, int)> {
    if spec_first_direct(s, p) is Some {
        spec_first_direct(s, p)
    } else if spec_first_literal(s, p) is Some {
        spec_first_literal(s, p)
    } else if spec_quoted_index(s, p) is Some {
        spec_quoted_index(s, p)
    } else {
        spec_nested(s, p)
    }
}

/// The segments of a whole expression, if it follows the grammar.
pub open spec fn spec_expression(s: Seq<char>) -> Option<Seq<SegView>> {
    match spec_first_property(s, 0) {
        Some((first, e)) => match spec_many_sub(s, e) {
            Some((rest, e2)) => if e2 == s.len() {
                Some(seq![first] + rest)
            } else {
                None
            },
            None => None,
        },
        None => None,
    }
}

} // verus!

verus! {

// ---------------------------------------------------------------------------
// Executable parser
// ---------------------------------------------------------------------------

/// Whether an executable segment result is the one the grammar gives.
pub open spec fn seg_result(r: Option<(PropexSegment, usize)>, g: Option<(SegView, int)>) -> bool {
    match g {
        Some((v, e)) => r matches Some((seg, e2)) && seg.view() == v && e2 == e,
        None => r is None,
    }
}

fn space_char(c: char) -> (r: bool)
    ensures
        r == is_space(c),
{
    c == ' ' || c == '\t' || c == '\n' || c == '\r'
}

fn alpha_char(c: char) -> (r: bool)
    ensures
        r == is_alpha(c),
{
    ('a' <= c && c <= 'z') || ('A' <= c && c <= 'Z')
}

fn digit_char(c: char) -> (r: bool)
    ensures
        r == is_digit(c),
{
    '0' <= c && c <= '9'
}

fn ident_start_char(c: char) -> (r: bool)
    ensures
        r == is_ident_start(c),
{
    alpha_char(c) || c == '_' || c == '$'
}

fn ident_char(c: char) -> (r: bool)
    ensures
        r == is_ident_char(c),
{
    ident_start_char(c) || digit_char(c)
}

fn skip_spaces_at(s: &Vec<char>, p: usize) -> (r: usize)
    requires
        p <= s.len(),
    ensures
        r == skip_spaces(s@, p as int),
        p <= r <= s.len(),
{
    let mut i = p;
    while i < s.len() && space_char(s[i])
        invariant
            p <= i <= s.len(),
            skip_spaces(s@, i as int) == skip_spaces(s@, p as int),
        decreases s.len() - i,
    {
        i = i + 1;
    }
    i
}

fn ident_end_at(s: &Vec<char>, p: usize) -> (r: usize)
    requires
        p <= s.len(),
    ensures
        r == ident_end(s@, p as int),
        p <= r <= s.len(),
{
    let mut i = p;
    while i < s.len() && ident_char(s[i])
        invariant
            p <= i <= s.len(),
            ident_end(s@, i as int) == ident_end(s@, p as int),
        decreases s.len() - i,
    {
        i = i + 1;
    }
    i
}

fn find_char_at(s: &Vec<char>, p: usize, q: char) -> (r: usize)
    requires
        p <= s.len(),
    ensures
        r == find_char(s@, p as int, q),
        p <= r <= s.len(),
{
    let mut i = p;
    while i < s.len() && s[i] != q
        invariant
            p <= i <= s.len(),
            find_char(s@, i as int, q) == find_char(s@, p as int, q),
        decreases s.len() - i,
    {
        i = i + 1;
    }
    i
}

proof fn lemma_digits_value_monotone(s: Seq<char>, a: int, k: int, b: int)
    requires
        a <= k <= b,
        forall|i: int| a <= i < b ==> is_digit(#[trigger] s[i]),
    ensures
        digits_value(s, a, k) <= digits_value(s, a, b),
    decreases b - k,
{
    if k < b {
        lemma_digits_value_monotone(s, a, k, b - 1);
    }
}

proof fn lemma_digits_end_all_digits(s: Seq<char>, p: int, i: int)
    requires
        0 <= p <= i <= s.len(),
        digits_end(s, i) == digits_end(s, p),
        forall|j: int| p <= j < i ==> is_digit(#[trigger] s[j]),
    ensures
        forall|j: int| p <= j < digits_end(s, p) ==> is_digit(#[trigger] s[j]),
        digits_end(s, p) <= s.len(),
    decreases s.len() - i,
{
    if i < s.len() && is_digit(s[i]) {
        lemma_digits_end_all_digits(s, p, i + 1);
    }
}

/// A decimal number fitting in `usize` at `p`.
fn usize_at(s: &Vec<char>, p: usize) -> (r: Option<(usize, usize)>)
    requires
        p <= s.len(),
    ensures
        match spec_usize(s@, p as int) {
            Some((n, e)) => r == Some::<(usize, usize)>((n, e as usize)),
            None => r is None,
        },
{
    let mut i = p;
    while i < s.len() && digit_char(s[i])
        invariant
            p <= i <= s.len(),
            digits_end(s@, i as int) == digits_end(s@, p as int),
            forall|j: int| p <= j < i ==> is_digit(#[trigger] s@[j]),
        decreases s.len() - i,
    {
        i = i + 1;
    }
    let e = i;
    proof {
        lemma_digits_end_all_digits(s@, p as int, e as int);
    }
    if e == p {
        return None;
    }
    let mut v: usize = 0;
    let mut k = p;
    while k < e
        invariant
            p <= k <= e,
            e == digits_end(s@, p as int),
            e <= s.len(),
            forall|j: int| p <= j < e ==> is_digit(#[trigger] s@[j]),
            v as nat == digits_value(s@, p as int, k as int),
        decreases e - k,
    {
        let d = (s[k] as u32 - 48) as usize;
        assert(is_digit(s@[k as int]));
        match v.checked_mul(10) {
            None => {
                proof { lemma_digits_value_monotone(s@, p as int, (k + 1) as int, e as int); }
                return None;
            },
            Some(t) => match t.checked_add(d) {
                None => {
                    proof { lemma_digits_value_monotone(s@, p as int, (k + 1) as int, e as int); }
                    return None;
                },
                Some(w) => {
                    v = w;
                },
            },
        }
        k = k + 1;
    }
    Some((v, e))
}

/// The characters `s[a..b)` as a `String`.
fn substring(s: &Vec<char>, a: usize, b: usize) -> (r: String)
    requires
        a <= b <= s.len(),
    ensures
        r@ == s@.subrange(a as int, b as int),
{
    let mut out = String::new();
    let mut i = a;
    while i < b
        invariant
            a <= i <= b,
            b <= s.len(),
            out@ == s@.subrange(a as int, i as int),
        decreases b - i,
    {
        push_char(&mut out, s[i]);
        assert(s@.subrange(a as int, i + 1) =~= s@.subrange(a as int, i as int).push(s@[i as int]));
        i = i + 1;
    }
    out
}

fn identifier_at(s: &Vec<char>, p: usize) -> (r: Option<usize>)
    requires
        p <= s.len(),
    ensures
        match spec_identifier(s@, p as int) {
            Some(e) => r == Some(e as usize) && p < e <= s.len(),
            None => r is None,
        },
{
    if p < s.len() && ident_start_char(s[p]) {
        Some(ident_end_at(s, p + 1))
    } else {
        None
    }
}

fn literal_at(s: &Vec<char>, p: usize) -> (r: Option<(usize, usize, usize)>)
    requires
        p <= s.len(),
    ensures
        match spec_literal(s@, p as int) {
            Some((a, b, e)) => r == Some::<(usize, usize, usize)>((a as usize, b as usize, e as usize)) && a <= b && e <= s.len(),
            None => r is None,
        },
{
    if p < s.len() && (s[p] == '"' || s[p] == '\'') {
        let e = find_char_at(s, p + 1, s[p]);
        if e > p + 1 && e < s.len() {
            Some((p + 1, e, e + 1))
        } else {
            None
        }
    } else {
        None
    }
}

fn first_direct_at(s: &Vec<char>, p: usize) -> (r: Option<(PropexSegment, usize)>)
    requires
        p <= s.len(),
    ensures
        seg_result(r, spec_first_direct(s@, p as int)),
        r matches Some((_, e)) ==> p < e <= s.len(),
{
    match identifier_at(s, p) {
        Some(e) => Some((PropexSegment::Property(substring(s, p, e)), e)),
        None => None,
    }
}

fn first_literal(s: &Vec<char>, p: usize) -> (r: Option<(PropexSegment, usize)>)
    requires
        p <= s.len(),
    ensures
        seg_result(r, spec_first_literal(s@, p as int)),
        r matches Some((_, e)) ==> e <= s.len(),
{
    let q = skip_spaces_at(s, p);
    match literal_at(s, q) {
        Some((a, b, e)) => Some((PropexSegment::Property(substring(s, a, b)), skip_spaces_at(s, e))),
        None => None,
    }
}

fn quoted_index_at(s: &Vec<char>, p: usize) -> (r: Option<(PropexSegment, usize)>)
    requires
        p <= s.len(),
    ensures
        seg_result(r, spec_quoted_index(s@, p as int)),
        r matches Some((_, e)) ==> e <= s.len(),
{
    let q = skip_spaces_at(s, p);
    if q < s.len() && s[q] == '[' {
        let q2 = skip_spaces_at(s, q + 1);
        match literal_at(s, q2) {
            Some((a, b, e)) => {
                let r = skip_spaces_at(s, e);
                if r < s.len() && s[r] == ']' {
                    Some((PropexSegment::Property(substring(s, a, b)), skip_spaces_at(s, r + 1)))
                } else {
                    None
                }
            },
            None => None,
        }
    } else {
        None
    }
}

fn dot_identifier_at(s: &Vec<char>, p: usize) -> (r: Option<(PropexSegment, usize)>)
    requires
        p <= s.len(),
    ensures
        seg_result(r, spec_dot_identifier(s@, p as int)),
        r matches Some((_, e)) ==> e <= s.len(),
{
    if p < s.len() && s[p] == '.' {
        match identifier_at(s, p + 1) {
            Some(e) => Some((PropexSegment::Property(substring(s, p + 1, e)), e)),
            None => None,
        }
    } else {
        None
    }
}

fn dot_index(s: &Vec<char>, p: usize) -> (r: Option<(PropexSegment, usize)>)
    requires
        p <= s.len(),
    ensures
        seg_result(r, spec_dot_index(s@, p as int)),
        r matches Some((_, e)) ==> e <= s.len(),
{
    let q = skip_spaces_at(s, p);
    if q < s.len() && s[q] == '.' {
        let q2 = skip_spaces_at(s, q + 1);
        match usize_at(s, q2) {
            Some((n, e)) => {
                proof { lemma_scans_ge(s@, q2 as int, ' '); }
                Some((PropexSegment::Index(n), skip_spaces_at(s, e)))
            },
            None => None,
        }
    } else {
        None
    }
}

fn bracket_index_at(s: &Vec<char>, p: usize) -> (r: Option<(PropexSegment, usize)>)
    requires
        p <= s.len(),
    ensures
        seg_result(r, spec_bracket_index(s@, p as int)),
        r matches Some((_, e)) ==> e <= s.len(),
{
    let q = skip_spaces_at(s, p);
    if q < s.len() && s[q] == '[' {
        let q2 = skip_spaces_at(s, q + 1);
        match usize_at(s, q2) {
            Some((n, e)) => {
                proof { lemma_scans_ge(s@, q2 as int, ' '); }
                let r = skip_spaces_at(s, e);
                if r < s.len() && s[r] == ']' {
                    Some((PropexSegment::Index(n), skip_spaces_at(s, r + 1)))
                } else {
                    None
                }
            },
            None => None,
        }
    } else {
        None
    }
}

} // verus!

verus! {

/// Each value of `segs_view(s)` is the value of the segment at the same position.
pub proof fn lemma_segs_view_index(s: Seq<PropexSegment>)
    ensures
        segs_view(s).len() == s.len(),
        forall|i: int| 0 <= i < s.len() ==> #[trigger] segs_view(s)[i] == s[i].view(),
    decreases s.len(),
{
    if s.len() > 0 {
        lemma_segs_view_index(s.subrange(0, s.len() - 1));
    }
}

/// The values of a concatenation are the concatenation of the values.
pub proof fn lemma_segs_view_concat(a: Seq<PropexSegment>, b: Seq<PropexSegment>)
    ensures
        segs_view(a + b) == segs_view(a) + segs_view(b),
{
    lemma_segs_view_index(a);
    lemma_segs_view_index(b);
    lemma_segs_view_index(a + b);
    assert(segs_view(a + b) =~= segs_view(a) + segs_view(b));
}

/// `Some((a + rest, e))` for `Some((rest, e))`.
pub open spec fn prepend(a: Seq<SegView>, r: Option<(Seq<SegView>, int)>) -> Option<(Seq<SegView>, int)> {
    match r {
        Some((rest, e)) => Some((a + rest, e)),
        None => None,
    }
}

fn many_sub(s: &Vec<char>, p0: usize) -> (r: Option<(Vec<PropexSegment>, usize)>)
    requires
        p0 <= s.len(),
    ensures
        match spec_many_sub(s@, p0 as int) {
            Some((v, e)) => r matches Some((segs, e2)) && segs_view(segs@) == v && e2 == e && e2 <= s.len(),
            None => r is None,
        },
    decreases s.len() - p0, 2int,
{
    let mut acc: Vec<PropexSegment> = Vec::new();
    let mut cur = p0;
    assert(segs_view(acc@) =~= Seq::<SegView>::empty());
    assert(prepend(segs_view(acc@), spec_many_sub(s@, cur as int)) =~= spec_many_sub(s@, cur as int)) by {
        match spec_many_sub(s@, cur as int) {
            Some((v, e)) => { assert(Seq::<SegView>::empty() + v =~= v); },
            None => {},
        }
    }
    loop
        invariant
            p0 <= cur <= s.len(),
            spec_many_sub(s@, p0 as int) == prepend(segs_view(acc@), spec_many_sub(s@, cur as int)),
        decreases s.len() - cur,
    {
        match subproperty(s, cur) {
            None => {
                assert(segs_view(acc@) + Seq::<SegView>::empty() =~= segs_view(acc@));
                return Some((acc, cur));
            },
            Some((seg, e)) => {
                if cur < e && e <= s.len() {
                    let ghost old_acc = acc@;
                    let ghost v = seg.view();
                    acc.push(seg);
                    proof {
                        assert(acc@.subrange(0, acc@.len() - 1) =~= old_acc);
                        assert(segs_view(acc@) == segs_view(old_acc).push(v));
                        match spec_many_sub(s@, e as int) {
                            Some((rest, e2)) => {
                                assert(segs_view(old_acc) + (seq![v] + rest) =~= segs_view(old_acc).push(v) + rest);
                            },
                            None => {},
                        }
                    }
                    cur = e;
                } else {
                    return None;
                }
            },
        }
    }
}

fn nested(s: &Vec<char>, p: usize) -> (r: Option<(PropexSegment, usize)>)
    requires
        p <= s.len(),
    ensures
        seg_result(r, spec_nested(s@, p as int)),
        r matches Some((_, e)) ==> e <= s.len(),
    decreases s.len() - p, 0int,
{
    let q = skip_spaces_at(s, p);
    if q < s.len() && s[q] == '[' {
        let q2 = skip_spaces_at(s, q + 1);
        match first_direct_at(s, q2) {
            Some((first, e)) => match subproperty(s, e) {
                Some((second, e2)) => {
                    if e < e2 && e2 <= s.len() {
                        match many_sub(s, e2) {
                            Some((rest, e3)) => {
                                let r = skip_spaces_at(s, e3);
                                if r < s.len() && s[r] == ']' {
                                    let ghost fv = first.view();
                                    let ghost sv = second.view();
                                    let ghost rv = rest@;
                                    let mut v: Vec<PropexSegment> = Vec::new();
                                    v.push(first);
                                    v.push(second);
                                    let mut rest = rest;
                                    let ghost head = v@;
                                    v.append(&mut rest);
                                    proof {
                                        lemma_segs_view_concat(head, rv);
                                        lemma_segs_view_index(head);
                                        assert(segs_view(head) =~= seq![fv, sv]);
                                    }
                                    Some((PropexSegment::Nested(v), skip_spaces_at(s, r + 1)))
                                } else {
                                    None
                                }
                            },
                            None => None,
                        }
                    } else {
                        None
                    }
                },
                None => None,
            },
            None => None,
        }
    } else {
        None
    }
}

fn subproperty(s: &Vec<char>, p: usize) -> (r: Option<(PropexSegment, usize)>)
    requires
        p <= s.len(),
    ensures
        seg_result(r, spec_subproperty(s@, p as int)),
        r matches Some((_, e)) ==> e <= s.len(),
    decreases s.len() - p, 1int,
{
    let r = dot_identifier_at(s, p);
    if r.is_some() {
        return r;
    }
    let r = dot_index(s, p);
    if r.is_some() {
        return r;
    }
    let r = quoted_index_at(s, p);
    if r.is_some() {
        return r;
    }
    let r = bracket_index_at(s, p);
    if r.is_some() {
        return r;
    }
    nested(s, p)
}

fn first_property(s: &Vec<char>, p: usize) -> (r: Option<(PropexSegment, usize)>)
    requires
        p <= s.len(),
    ensures
        seg_result(r, spec_first_property(s@, p as int)),
        r matches Some((_, e)) ==> e <= s.len(),
{
    let r = first_direct_at(s, p);
    if r.is_some() {
        return r;
    }
    let r = first_literal(s, p);
    if r.is_some() {
        return r;
    }
    let r = quoted_index_at(s, p);
    if r.is_some() {
        return r;
    }
    nested(s, p)
}

fn expression(s: &Vec<char>) -> (r: Option<Vec<PropexSegment>>)
    ensures
        match spec_expression(s@) {
            Some(v) => r matches Some(segs) && segs_view(segs@) == v,
            None => r is None,
        },
{
    match first_property(s, 0) {
        Some((first, e)) => match many_sub(s, e) {
            Some((rest, e2)) => {
                if e2 == s.len() {
                    let ghost fv = first.view();
                    let ghost rv = rest@;
                    let mut v: Vec<PropexSegment> = Vec::new();
                    v.push(first);
                    let ghost head = v@;
                    let mut rest = rest;
                    v.append(&mut rest);
                    proof {
                        lemma_segs_view_concat(head, rv);
                        lemma_segs_view_index(head);
                        assert(segs_view(head) =~= seq![fv]);
                    }
                    Some(v)
                } else {
                    None
                }
            },
            None => None,
        },
        None => None,
    }
}

impl PropexPath {
    /// The segments of the path.
    pub open spec fn segments(self) -> Seq<PropexSegment> {
        match self {
            PropexPath::Single(seg) => seq![seg],
            PropexPath::Multiple(segs) => segs@,
        }
    }

    /// The values of the segments of the path.
    pub open spec fn view(self) -> Seq<SegView> {
        segs_view(self.segments())
    }
}

/// Parses a property expression such as `msg.payload["a b"][0]`.
///
/// An empty expression is refused with `BadArguments`; an expression that does not
/// follow the grammar with `BadSyntax` holding the expression. A parsed path is
/// always `Multiple`, even of one segment.
pub fn parse(expr: &str) -> (r: Result<PropexPath, PropexError>)
    ensures
        expr@.len() == 0 ==> r matches Err(PropexError::BadArguments),
        expr@.len() != 0 ==> match spec_expression(expr@) {
            Some(v) => r matches Ok(PropexPath::Multiple(segs)) && segs_view(segs@) == v,
            None => r matches Err(PropexError::BadSyntax(t)) && t@ == expr@,
        },
{
    if expr.is_empty() {
        return Err(PropexError::BadArguments);
    }
    let chars = crate::text::chars_of(expr);
    match expression(&chars) {
        Some(v) => Ok(PropexPath::Multiple(v)),
        None => Err(PropexError::BadSyntax(expr.to_owned())),
    }
}

} // verus!

verus! {

/// A slice of one element borrowing `x` (`std::slice::from_ref`).
#[verifier::external_body]
fn slice_from_ref<T>(x: &T) -> (r: &[T])
    ensures
        r@ == seq![*x],
{
    std::slice::from_ref(x)
}

/// A mutable slice of one element borrowing `x` (`std::slice::from_mut`).
#[verifier::external_body]
fn slice_from_mut<T>(x: &mut T) -> (r: &mut [T])
    ensures
        r@ == seq![*old(x)],
        final(r)@ == seq![*final(x)],
{
    std::slice::from_mut(x)
}

impl PropexPath {
    /// The segments of the path as a slice.
    pub fn as_slice(&self) -> (r: &[PropexSegment])
        ensures
            r@ == self.segments(),
    {
        match self {
            PropexPath::Single(segment) => slice_from_ref(segment),
            PropexPath::Multiple(segments) => segments.as_slice(),
        }
    }

    /// The segments of the path as a mutable slice; what is written through it
    /// is written to the path.
    pub fn as_mut_slice(&mut self) -> (r: &mut [PropexSegment])
        ensures
            r@ == old(self).segments(),
            final(self).segments() == final(r)@,
            (*old(self) is Single) == (*final(self) is Single),
    {
        match self {
            PropexPath::Single(segment) => slice_from_mut(segment),
            PropexPath::Multiple(segments) => segments.as_mut_slice(),
        }
    }
}

impl core::ops::Deref for PropexPath {
    type Target = [PropexSegment];

    fn deref(&self) -> (r: &[PropexSegment])
        ensures
            r@ == self.segments(),
    {
        self.as_slice()
    }
}

impl PropexSegment {
    /// The property name, if this is a property segment.
    pub fn as_str(&self) -> (r: Option<&str>)
        ensures
            match self {
                PropexSegment::Property(s) => r matches Some(t) && t@ == s@,
                _ => r is None,
            },
    {
        match self {
            PropexSegment::Property(prop) => Some(prop.as_str()),
            _ => None,
        }
    }

    /// The index, if this is an index segment.
    pub fn as_index(&self) -> (r: Option<usize>)
        ensures
            match self {
                PropexSegment::Index(i) => r == Some(*i),
                _ => r is None,
            },
    {
        match self {
            PropexSegment::Index(index) => Some(*index),
            _ => None,
        }
    }
}

} // verus!

verus! {

/// Runs a segment parser on the start of `i`: the rest of `i` and the segment.
pub open spec fn seg_prefix_result(i: Seq<char>, r: Option<(&str, PropexSegment)>, g: Option<(SegView, int)>) -> bool {
    match g {
        Some((v, e)) => r matches Some((rest, seg)) && seg.view() == v && rest@ == i.subrange(e, i.len() as int),
        None => r is None,
    }
}

/// `['prop']` or `["prop"]`, with optional whitespace around the brackets,
/// at the start of `i`: the rest of `i` and the property.
pub fn quoted_index_property(i: &str) -> (r: Option<(&str, PropexSegment)>)
    ensures
        seg_prefix_result(i@, r, spec_quoted_index(i@, 0)),
{
    let chars = crate::text::chars_of(i);
    match quoted_index_at(&chars, 0) {
        Some((seg, e)) => Some((i.substring_char(e, chars.len()), seg)),
        None => None,
    }
}

/// An identifier at the start of `i`: the rest of `i` and the property.
pub fn first_direct_property(i: &str) -> (r: Option<(&str, PropexSegment)>)
    ensures
        seg_prefix_result(i@, r, spec_first_direct(i@, 0)),
{
    let chars = crate::text::chars_of(i);
    match first_direct_at(&chars, 0) {
        Some((seg, e)) => Some((i.substring_char(e, chars.len()), seg)),
        None => None,
    }
}

/// `.identifier` at the start of `i`: the rest of `i` and the property.
pub fn direct_identifier_property(i: &str) -> (r: Option<(&str, PropexSegment)>)
    ensures
        seg_prefix_result(i@, r, spec_dot_identifier(i@, 0)),
{
    let chars = crate::text::chars_of(i);
    match dot_identifier_at(&chars, 0) {
        Some((seg, e)) => Some((i.substring_char(e, chars.len()), seg)),
        None => None,
    }
}

/// `[123]`, with optional whitespace around the brackets and the number,
/// at the start of `i`: the rest of `i` and the index.
pub fn bracket_index(i: &str) -> (r: Option<(&str, PropexSegment)>)
    ensures
        seg_prefix_result(i@, r, spec_bracket_index(i@, 0)),
{
    let chars = crate::text::chars_of(i);
    match bracket_index_at(&chars, 0) {
        Some((seg, e)) => Some((i.substring_char(e, chars.len()), seg)),
        None => None,
    }
}

} // verus!

verus! {

// ---------------------------------------------------------------------------
// The text of a segment
// ---------------------------------------------------------------------------

/// The decimal digit for `d` (`0 <= d < 10`).
pub open spec fn decimal_digit(d: nat) -> char {
    ((d + 48) as u32) as char
}

/// The decimal digits of `n`, without leading zeros.
pub open spec fn decimal_text(n: nat) -> Seq<char>
    decreases n,
{
    if n < 10 {
        seq![decimal_digit(n)]
    } else {
        decimal_text(n / 10).push(decimal_digit(n % 10))
    }
}

/// The text of a segment, as it is displayed: `[3]` for an index, `["name"]`
/// for a property, and `[`, the texts of the inner segments, `]` for a nested one.
pub open spec fn seg_text(s: SegView) -> Seq<char>
    decreases s,
{
    match s {
        SegView::Index(i) => seq!['['] + decimal_text(i as nat) + seq![']'],
        SegView::Property(p) => seq!['[', '"'] + p + seq!['"', ']'],
        SegView::Nested(ns) => seq!['['] + segs_text(ns) + seq![']'],
    }
}

/// The texts of the segments, one after the other.
pub open spec fn segs_text(ns: Seq<SegView>) -> Seq<char>
    decreases ns,
{
    if ns.len() == 0 {
        Seq::empty()
    } else {
        segs_text(ns.subrange(0, ns.len() - 1)) + seg_text(ns[ns.len() - 1])
    }
}

/// Appends the characters of `t` to `out`.
pub(crate) fn push_text(out: &mut String, t: &str)
    ensures
        final(out)@ == old(out)@ + t@,
{
    let chars = crate::text::chars_of(t);
    let ghost start = out@;
    let mut i: usize = 0;
    while i < chars.len()
        invariant
            i <= chars@.len(),
            chars@ == t@,
            out@ == start + chars@.take(i as int),
        decreases chars.len() - i,
    {
        push_char(out, chars[i]);
        proof {
            assert(chars@.take(i + 1) =~= chars@.take(i as int).push(chars@[i as int]));
        }
        i = i + 1;
    }
    proof {
        assert(chars@.take(i as int) =~= chars@);
    }
}

/// Appends the decimal digits of `n` to `out`.
pub(crate) fn push_decimal(out: &mut String, n: usize)
    ensures
        final(out)@ == old(out)@ + decimal_text(n as nat),
    decreases n,
{
    let ghost start = out@;
    if n >= 10 {
        push_decimal(out, n / 10);
    }
    let d = (n % 10) as u8;
    push_char(out, (d + 48) as char);
    proof {
        if n >= 10 {
            assert(out@ =~= start + decimal_text(n as nat));
        } else {
            assert(out@ =~= start + decimal_text(n as nat));
        }
    }
}

impl PropexSegment {
    /// Appends the text of this segment to `out`.
    fn write_text(&self, out: &mut String)
        ensures
            final(out)@ == old(out)@ + seg_text(self.view()),
        decreases self,
    {
        let ghost start = out@;
        match self {
            PropexSegment::Index(i) => {
                push_char(out, '[');
                push_decimal(out, *i);
                push_char(out, ']');
                proof {
                    assert(out@ =~= start + seg_text(self.view()));
                }
            },
            PropexSegment::Property(p) => {
                push_char(out, '[');
                push_char(out, '"');
                push_text(out, p.as_str());
                push_char(out, '"');
                push_char(out, ']');
                proof {
                    assert(out@ =~= start + seg_text(self.view()));
                }
            },
            PropexSegment::Nested(ns) => {
                push_char(out, '[');
                let ghost sv = segs_view(ns@);
                proof {
                    lemma_segs_view_index(ns@);
                    assert(sv.subrange(0, 0) =~= Seq::<SegView>::empty());
                }
                let mut i: usize = 0;
                while i < ns.len()
                    invariant
                        *self == PropexSegment::Nested(*ns),
                        i <= ns@.len(),
                        sv == segs_view(ns@),
                        sv.len() == ns@.len(),
                        forall|j: int| 0 <= j < ns@.len() ==> #[trigger] sv[j] == ns@[j].view(),
                        out@ == start.push('[') + segs_text(sv.subrange(0, i as int)),
                    decreases ns.len() - i,
                {
                    proof {
                        assert(decreases_to!(*self => self->Nested_0));
                        assert(decreases_to!(self->Nested_0 => self->Nested_0@));
                        assert(decreases_to!(self->Nested_0@ => self->Nested_0@[i as int]));
                    }
                    let ghost before = out@;
                    ns[i].write_text(out);
                    proof {
                        let t = sv.subrange(0, i + 1);
                        assert(t.subrange(0, t.len() - 1) =~= sv.subrange(0, i as int));
                        assert(out@ =~= start.push('[') + segs_text(sv.subrange(0, i + 1)));
                    }
                    i = i + 1;
                }
                push_char(out, ']');
                proof {
                    assert(sv.subrange(0, i as int) =~= sv);
                    assert(out@ =~= start + seg_text(self.view()));
                }
            },
        }
    }

    /// The text of this segment, as it is displayed (see `seg_text`).
    pub fn to_string(&self) -> (r: String)
        ensures
            r@ == seg_text(self.view()),
    {
        let mut out = String::new();
        self.write_text(&mut out);
        proof {
            assert(out@ =~= seg_text(self.view()));
        }
        out
    }
}

} // verus!

verus! {

// ---------------------------------------------------------------------------
// Dotted paths of identifiers
// ---------------------------------------------------------------------------

/// `w` is an identifier: `[A-Za-z_$][A-Za-z0-9_$]*`.
pub open spec fn is_identifier(w: Seq<char>) -> bool {
    &&& w.len() > 0
    &&& is_ident_start(w[0])
    &&& forall|i: int| 1 <= i < w.len() ==> #[trigger] is_ident_char(w[i])
}

/// `.w1.w2...`: each word preceded by a dot.
pub open spec fn dotted_tail(ws: Seq<Seq<char>>) -> Seq<char>
    decreases ws.len(),
{
    if ws.len() == 0 {
        Seq::empty()
    } else {
        seq!['.'] + ws[0] + dotted_tail(ws.drop_first())
    }
}

/// The property segments of the words, in order.
pub open spec fn property_segs(ws: Seq<Seq<char>>) -> Seq<SegView> {
    Seq::new(ws.len(), |i: int| SegView::Property(ws[i]))
}

/// Where the identifier characters `w` stand at `p` and are followed by the end
/// of the text or by a character that is not an identifier character, the
/// identifier scan from `p` stops right after them.
proof fn lemma_ident_end_over(s: Seq<char>, p: int, w: Seq<char>)
    requires
        0 <= p,
        p + w.len() <= s.len(),
        s.subrange(p, p + w.len()) == w,
        forall|i: int| 0 <= i < w.len() ==> #[trigger] is_ident_char(w[i]),
        p + w.len() == s.len() || !is_ident_char(s[p + w.len()]),
    ensures
        ident_end(s, p) == p + w.len(),
    decreases w.len(),
{
    if w.len() > 0 {
        assert(s[p] == w[0]) by {
            assert(s.subrange(p, p + w.len())[0] == s[p]);
        }
        assert(s.subrange(p + 1, p + w.len()) =~= w.drop_first()) by {
            assert forall|i: int| 0 <= i < w.len() - 1 implies s.subrange(p + 1, p + w.len())[i] == w.drop_first()[i] by {
                assert(s.subrange(p, p + w.len())[i + 1] == s[p + 1 + i]);
            }
        }
        lemma_ident_end_over(s, p + 1, w.drop_first());
    }
}

/// After `prefix`, the dotted identifiers `ws` read as their property segments
/// and the rest of the text.
proof fn lemma_many_sub_dotted(prefix: Seq<char>, ws: Seq<Seq<char>>)
    requires
        forall|i: int| 0 <= i < ws.len() ==> #[trigger] is_identifier(ws[i]),
    ensures
        spec_many_sub(prefix + dotted_tail(ws), prefix.len() as int) == Some(
            (property_segs(ws), (prefix + dotted_tail(ws)).len() as int),
        ),
    decreases ws.len(),
{
    let s = prefix + dotted_tail(ws);
    let p = prefix.len() as int;
    if ws.len() == 0 {
        assert(s =~= prefix);
        assert(skip_spaces(s, p) == p);
        assert(spec_subproperty(s, p) is None);
        assert(property_segs(ws) =~= Seq::<SegView>::empty());
    } else {
        let w = ws[0];
        let rest = ws.drop_first();
        let e = p + 1 + w.len();
        let prefix2 = prefix + seq!['.'] + w;
        assert(is_identifier(ws[0]));
        assert(s =~= prefix2 + dotted_tail(rest));
        assert(prefix2.len() == e);
        assert(s[p] == '.');
        assert(s[p + 1] == prefix2[p + 1]);
        assert(prefix2[p + 1] == w[0]);
        assert forall|i: int| 0 <= i < w.len() - 1 implies s.subrange(p + 2, e)[i] == w.drop_first()[i] by {
            assert(s[p + 2 + i] == prefix2[p + 2 + i]);
            assert(prefix2[p + 2 + i] == w[i + 1]);
        }
        assert(s.subrange(p + 2, e) =~= w.drop_first());
        if rest.len() > 0 {
            assert(s[e] == '.') by {
                assert(dotted_tail(rest)[0] == '.');
            }
        }
        lemma_ident_end_over(s, p + 2, w.drop_first());
        assert(spec_identifier(s, p + 1) == Some(e));
        assert(s.subrange(p + 1, e) =~= w);
        assert(spec_dot_identifier(s, p) == Some((SegView::Property(w), e)));
        assert forall|i: int| 0 <= i < rest.len() implies #[trigger] is_identifier(rest[i]) by {
            assert(rest[i] == ws[i + 1]);
        }
        lemma_many_sub_dotted(prefix2, rest);
        assert(property_segs(ws) =~= seq![SegView::Property(w)] + property_segs(rest));
    }
}

/// A dotted path of identifiers, such as `msg.payload.name`, reads as the path
/// of those properties, in order.
pub proof fn law_dotted_identifiers_parse_as_properties(first: Seq<char>, ws: Seq<Seq<char>>)
    requires
        is_identifier(first),
        forall|i: int| 0 <= i < ws.len() ==> #[trigger] is_identifier(ws[i]),
    ensures
        spec_expression(first + dotted_tail(ws)) == Some(property_segs(seq![first] + ws)),
{
    let s = first + dotted_tail(ws);
    let n = first.len() as int;
    assert(s.subrange(1, n) =~= first.drop_first());
    if ws.len() > 0 {
        assert(s[n] == '.') by {
            assert(dotted_tail(ws)[0] == '.');
        }
    }
    lemma_ident_end_over(s, 1, first.drop_first());
    assert(s.subrange(0, n) =~= first);
    assert(spec_first_direct(s, 0) == Some((SegView::Property(first), n)));
    lemma_many_sub_dotted(first, ws);
    assert(property_segs(seq![first] + ws) =~= seq![SegView::Property(first)] + property_segs(ws));
}

/// A parsed expression always has at least one segment.
pub proof fn law_parsed_path_is_not_empty(s: Seq<char>)
    ensures
        spec_expression(s) matches Some(p) ==> p.len() >= 1,
{
}

/// JavaScript-style names made of ASCII letters of either case, digits, `_`
/// and `$`, none starting with a digit, joined by dots (such as
/// `msg.payload.firstName`), read as the path of those properties, in order.
pub proof fn law_ascii_names_parse_as_properties(first: Seq<char>, ws: Seq<Seq<char>>)
    requires
        first.len() > 0,
        forall|i: int| 0 <= i < first.len() ==> ('a' <= #[trigger] first[i] && first[i] <= 'z') || ('A' <= first[i]
            && first[i] <= 'Z') || first[i] == '_' || first[i] == '$' || (i > 0 && '0' <= first[i] && first[i] <= '9'),
        forall|j: int| 0 <= j < ws.len() ==> #[trigger] ws[j].len() > 0,
        forall|j: int, i: int| 0 <= j < ws.len() && 0 <= i < ws[j].len() ==> ('a' <= #[trigger] ws[j][i] && ws[j][i] <= 'z')
            || ('A' <= ws[j][i] && ws[j][i] <= 'Z') || ws[j][i] == '_' || ws[j][i] == '$' || (i > 0 && '0' <= ws[j][i]
            && ws[j][i] <= '9'),
    ensures
        spec_expression(first + dotted_tail(ws)) == Some(Seq::new(ws.len() + 1, |i: int| SegView::Property(if i == 0 {
            first
        } else {
            ws[i - 1]
        }))),
{
    assert(is_identifier(first)) by {
        assert forall|i: int| 1 <= i < first.len() implies #[trigger] is_ident_char(first[i]) by {}
    }
    assert forall|j: int| 0 <= j < ws.len() implies #[trigger] is_identifier(ws[j]) by {
        assert(ws[j].len() > 0);
        assert(is_ident_start(ws[j][0])) by {
            assert(0 <= 0 < ws[j].len());
        }
        assert forall|i: int| 1 <= i < ws[j].len() implies #[trigger] is_ident_char(ws[j][i]) by {}
    }
    law_dotted_identifiers_parse_as_properties(first, ws);
    assert(property_segs(seq![first] + ws) =~= Seq::new(ws.len() + 1, |i: int| SegView::Property(if i == 0 {
        first
    } else {
        ws[i - 1]
    })));
}

} // verus!
