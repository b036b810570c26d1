//! The dynamic value model of messages and contexts: null, numbers, strings,
//! booleans, dates, regular expressions, bytes, arrays and objects, navigated
//! and updated by property expressions.

use vstd::prelude::*;

use crate::propex::{PropexSegment, SegView, segs_view, spec_expression};
use crate::EdgelinkError;

verus! {

#[verifier::external_type_specification]
#[verifier::external_body]
pub struct ExRegex(regex::Regex);

#[verifier::external_type_specification]
#[verifier::external_body]
pub struct ExSystemTime(std::time::SystemTime);

/// The pattern a regular expression was built from (what `Regex::as_str` returns).
pub uninterp spec fn regex_pattern(re: regex::Regex) -> Seq<char>;

/// `Regex::as_str`: the pattern the regular expression was built from.
#[verifier::external_body]
fn regex_as_str(re: &regex::Regex) -> (r: &str)
    ensures
        r@ == regex_pattern(*re),
{
    re.as_str()
}

/// `SystemTime == SystemTime` (a derived, field-by-field equality): whether the
/// two points in time are the same value.
#[verifier::external_body]
fn same_time(a: &std::time::SystemTime, b: &std::time::SystemTime) -> (r: bool)
    ensures
        r == (*a == *b),
{
    *a == *b
}

/// Errors of the operations on variants.
#[derive(Clone, Copy, Debug, PartialEq, Eq, Structural)]
pub enum VariantError {
    /// The variant is not of the kind the operation needs.
    WrongType,
    /// An index or path does not reach a value.
    OutOfRange,
    /// A value cannot be converted as needed (to a byte).
    BadCast,
}

/// The bits of a finite `f64`: the exponent field is not all ones.
pub open spec fn is_finite_bits(bits: u64) -> bool {
    (bits >> 52u64) & 0x7ffu64 != 0x7ffu64
}

#[derive(Debug, PartialEq, Eq, Structural)]
enum NumRepr {
    PosInt(u64),
    NegInt(i64),
    Float(u64),
}

/// A JSON number: a non-negative integer, a negative integer, or a finite
/// floating-point number (held by its IEEE-754 bits).
#[derive(Debug, Eq)]
pub struct Number {
    n: NumRepr,
}

/// The bits of a zero of either sign.
pub open spec fn is_zero_bits(bits: u64) -> bool {
    bits == 0 || bits == 0x8000_0000_0000_0000u64
}

/// Two numbers are equal when they are integers of the same kind with the same
/// value, or floating-point numbers that compare equal: the same bits, or two
/// zeros whatever their signs.
pub open spec fn same_number(a: Number, b: Number) -> bool {
    ||| a == b
    ||| (a.f64_bits() matches Some(x) && b.f64_bits() matches Some(y) && is_zero_bits(x) && is_zero_bits(y))
}

impl PartialEq for Number {
    /// Equal kinds with equal values; floating-point numbers compare as `f64`.
    fn eq(&self, other: &Number) -> (r: bool) {
        match (&self.n, &other.n) {
            (NumRepr::PosInt(a), NumRepr::PosInt(b)) => *a == *b,
            (NumRepr::NegInt(a), NumRepr::NegInt(b)) => *a == *b,
            (NumRepr::Float(a), NumRepr::Float(b)) => {
                *a == *b || ((*a == 0 || *a == 0x8000_0000_0000_0000u64) && (*b == 0 || *b
                    == 0x8000_0000_0000_0000u64))
            },
            _ => false,
        }
    }
}

impl vstd::std_specs::cmp::PartialEqSpecImpl for Number {
    open spec fn obeys_eq_spec() -> bool {
        true
    }

    open spec fn eq_spec(&self, other: &Number) -> bool {
        same_number(*self, *other)
    }
}

impl Number {
    #[verifier::type_invariant]
    spec fn inv(self) -> bool {
        match self.n {
            NumRepr::NegInt(i) => i < 0,
            NumRepr::Float(b) => is_finite_bits(b),
            NumRepr::PosInt(_) => true,
        }
    }

    /// The value as `i64`, if it is an integer that fits.
    pub closed spec fn i64_value(self) -> Option<i64> {
        match self.n {
            NumRepr::PosInt(u) => if u <= i64::MAX { Some(u as i64) } else { None },
            NumRepr::NegInt(i) => Some(i),
            NumRepr::Float(_) => None,
        }
    }

    /// The value as `u64`, if it is a non-negative integer.
    pub closed spec fn u64_value(self) -> Option<u64> {
        match self.n {
            NumRepr::PosInt(u) => Some(u),
            _ => None,
        }
    }

    /// The IEEE-754 bits of the value, if it is a floating-point number.
    pub closed spec fn f64_bits(self) -> Option<u64> {
        match self.n {
            NumRepr::Float(b) => Some(b),
            _ => None,
        }
    }

    /// The number `i`.
    pub fn from_i64(i: i64) -> (r: Number)
        ensures
            r.i64_value() == Some(i),
            r.u64_value() == (if i >= 0 { Some(i as u64) } else { None::<u64> }),
            r.f64_bits() is None,
    {
        if i < 0 {
            Number { n: NumRepr::NegInt(i) }
        } else {
            Number { n: NumRepr::PosInt(i as u64) }
        }
    }

    /// The number `u`.
    pub fn from_u64(u: u64) -> (r: Number)
        ensures
            r.u64_value() == Some(u),
            r.i64_value() == (if u <= i64::MAX { Some(u as i64) } else { None::<i64> }),
            r.f64_bits() is None,
    {
        Number { n: NumRepr::PosInt(u) }
    }

    /// The floating-point number with the IEEE-754 bits `bits`, unless it is
    /// infinite or not a number.
    pub fn from_f64_bits(bits: u64) -> (r: Option<Number>)
        ensures
            is_finite_bits(bits) ==> (r matches Some(n) && n.f64_bits() == Some(bits) && n.i64_value() is None
                && n.u64_value() is None),
            !is_finite_bits(bits) ==> r is None,
    {
        if (bits >> 52u64) & 0x7ffu64 != 0x7ffu64 {
            Some(Number { n: NumRepr::Float(bits) })
        } else {
            None
        }
    }

    /// Whether the number is an integer that fits in `i64`.
    pub fn is_i64(&self) -> (r: bool)
        ensures
            r == (self.i64_value() is Some),
    {
        match self.n {
            NumRepr::PosInt(u) => u <= i64::MAX as u64,
            NumRepr::NegInt(_) => true,
            NumRepr::Float(_) => false,
        }
    }

    /// Whether the number is a non-negative integer.
    pub fn is_u64(&self) -> (r: bool)
        ensures
            r == (self.u64_value() is Some),
    {
        match self.n {
            NumRepr::PosInt(_) => true,
            _ => false,
        }
    }

    /// Whether the number is a floating-point number.
    pub fn is_f64(&self) -> (r: bool)
        ensures
            r == (self.f64_bits() is Some),
    {
        match self.n {
            NumRepr::Float(_) => true,
            _ => false,
        }
    }

    /// The number as `i64`, if it is an integer that fits.
    pub fn as_i64(&self) -> (r: Option<i64>)
        ensures
            r == self.i64_value(),
    {
        match self.n {
            NumRepr::PosInt(u) => if u <= i64::MAX as u64 { Some(u as i64) } else { None },
            NumRepr::NegInt(i) => Some(i),
            NumRepr::Float(_) => None,
        }
    }

    /// The number as `u64`, if it is a non-negative integer.
    pub fn as_u64(&self) -> (r: Option<u64>)
        ensures
            r == self.u64_value(),
    {
        match self.n {
            NumRepr::PosInt(u) => Some(u),
            _ => None,
        }
    }

    /// The IEEE-754 bits of the number, if it is a floating-point number.
    pub fn as_f64_bits(&self) -> (r: Option<u64>)
        ensures
            r == self.f64_bits(),
    {
        match self.n {
            NumRepr::Float(b) => Some(b),
            _ => None,
        }
    }
}

impl Clone for Number {
    fn clone(&self) -> (r: Number)
        ensures
            r == *self,
    {
        proof {
            use_type_invariant(self);
        }
        match self.n {
            NumRepr::PosInt(u) => Number { n: NumRepr::PosInt(u) },
            NumRepr::NegInt(i) => Number { n: NumRepr::NegInt(i) },
            NumRepr::Float(b) => Number { n: NumRepr::Float(b) },
        }
    }
}

} // verus!

verus! {

// ---------------------------------------------------------------------------
// Keys and their order
// ---------------------------------------------------------------------------

/// The order of object keys: character by character by code point, a proper
/// prefix first (the order of `String`, whose bytes are UTF-8).
pub open spec fn key_lt(a: Seq<char>, b: Seq<char>) -> bool
    decreases a.len(),
{
    if a.len() == 0 {
        b.len() > 0
    } else if b.len() == 0 {
        false
    } else if a[0] != b[0] {
        (a[0] as int) < (b[0] as int)
    } else {
        key_lt(a.drop_first(), b.drop_first())
    }
}

/// Two different keys are ordered one way or the other; no key is before itself.
pub proof fn lemma_key_lt_total(a: Seq<char>, b: Seq<char>)
    ensures
        a != b ==> key_lt(a, b) || key_lt(b, a),
        !(key_lt(a, b) && key_lt(b, a)),
        !key_lt(a, a),
    decreases a.len(),
{
    if a.len() == 0 && b.len() == 0 {
        assert(a =~= b);
    } else if a.len() > 0 && b.len() > 0 && a[0] == b[0] {
        lemma_key_lt_total(a.drop_first(), b.drop_first());
        if a.drop_first() == b.drop_first() {
            assert(a =~= seq![a[0]] + a.drop_first());
            assert(b =~= seq![b[0]] + b.drop_first());
            assert(a =~= b);
        }
    }
    if a.len() > 0 && b.len() > 0 && a[0] != b[0] {
        assert((a[0] as int) != (b[0] as int));
    }
    if a.len() > 0 {
        lemma_key_lt_total(a.drop_first(), a.drop_first());
    }
}

/// The order of keys is transitive.
pub proof fn lemma_key_lt_transitive(a: Seq<char>, b: Seq<char>, c: Seq<char>)
    requires
        key_lt(a, b),
        key_lt(b, c),
    ensures
        key_lt(a, c),
    decreases a.len(),
{
    if a.len() > 0 && b.len() > 0 && c.len() > 0 {
        if a[0] == b[0] && b[0] == c[0] {
            lemma_key_lt_transitive(a.drop_first(), b.drop_first(), c.drop_first());
        }
    }
}

/// Compares two keys: negative, zero or positive as `a` is before, equal to or after `b`.
pub fn compare_keys(a: &str, b: &str) -> (r: i8)
    ensures
        r < 0 <==> key_lt(a@, b@),
        r == 0 <==> a@ == b@,
        r > 0 <==> key_lt(b@, a@),
{
    let x = crate::text::chars_of(a);
    let y = crate::text::chars_of(b);
    let mut i: usize = 0;
    proof {
        lemma_key_lt_total(a@, b@);
        assert(x@.subrange(0, 0) =~= y@.subrange(0, 0));
        assert(x@.subrange(0, x@.len() as int) =~= x@);
        assert(y@.subrange(0, y@.len() as int) =~= y@);
    }
    while i < x.len() && i < y.len()
        invariant
            x@ == a@,
            y@ == b@,
            i <= x@.len(),
            i <= y@.len(),
            x@.subrange(0, i as int) == y@.subrange(0, i as int),
            key_lt(a@, b@) == key_lt(x@.subrange(i as int, x@.len() as int), y@.subrange(i as int, y@.len() as int)),
            key_lt(b@, a@) == key_lt(y@.subrange(i as int, y@.len() as int), x@.subrange(i as int, x@.len() as int)),
        decreases x.len() - i,
    {
        let ghost xs = x@.subrange(i as int, x@.len() as int);
        let ghost ys = y@.subrange(i as int, y@.len() as int);
        assert(xs[0] == x@[i as int] && ys[0] == y@[i as int]);
        if x[i] != y[i] {
            proof {
                lemma_key_lt_total(a@, b@);
                assert(a@ != b@) by { assert(a@[i as int] != b@[i as int]); }
            }
            proof {
                assert(key_lt(xs, ys) == ((xs[0] as int) < (ys[0] as int)));
                assert(key_lt(ys, xs) == ((ys[0] as int) < (xs[0] as int)));
            }
            if x[i] < y[i] {
                return -1;
            } else {
                return 1;
            }
        }
        proof {
            assert(xs.drop_first() =~= x@.subrange(i + 1, x@.len() as int));
            assert(ys.drop_first() =~= y@.subrange(i + 1, y@.len() as int));
            assert(x@.subrange(0, i + 1) =~= x@.subrange(0, i as int).push(x@[i as int]));
            assert(y@.subrange(0, i + 1) =~= y@.subrange(0, i as int).push(y@[i as int]));
        }
        i = i + 1;
    }
    proof {
        lemma_key_lt_total(a@, b@);
    }
    if x.len() == y.len() {
        proof {
            assert(x@ =~= x@.subrange(0, i as int));
            assert(y@ =~= y@.subrange(0, i as int));
        }
        0
    } else if x.len() < y.len() {
        proof {
            assert(x@.subrange(i as int, x@.len() as int).len() == 0);
            assert(a@ != b@) by { assert(a@.len() != b@.len()); }
        }
        -1
    } else {
        proof {
            assert(y@.subrange(i as int, y@.len() as int).len() == 0);
            assert(a@ != b@) by { assert(a@.len() != b@.len()); }
        }
        1
    }
}

// ---------------------------------------------------------------------------
// Variants and objects
// ---------------------------------------------------------------------------

/// A value of any of the kinds a message or context can hold.
#[derive(Debug)]
pub enum Variant {
    /// No value.
    Null,
    /// A number.
    Number(Number),
    /// A string.
    String(String),
    /// A boolean.
    Bool(bool),
    /// A point in time.
    Date(std::time::SystemTime),
    /// A regular expression.
    Regexp(regex::Regex),
    /// A sequence of bytes.
    Bytes(Vec<u8>),
    /// An array of values.
    Array(Vec<Variant>),
    /// An object: values by string keys.
    Object(VariantObjectMap),
}

/// The properties of an object, by key, in the order of the keys.
#[derive(Debug)]
pub struct VariantObjectMap {
    keys: Vec<String>,
    values: Vec<Variant>,
}

/// The mathematical value of a variant.
pub enum VariantView {
    Null,
    Number(Number),
    String(Seq<char>),
    Bool(bool),
    Date(std::time::SystemTime),
    Regexp(Seq<char>),
    Bytes(Seq<u8>),
    Array(Seq<VariantView>),
    Object(Map<Seq<char>, VariantView>),
}

/// Two values are equal: of the same kind, numbers equal as `same_number` says,
/// arrays item by item, objects with the same keys and equal values by key, and
/// other values identical.
#[verifier::opaque]
pub open spec fn same_value(a: VariantView, b: VariantView) -> bool
    decreases a,
{
    match a {
        VariantView::Number(x) => match b {
            VariantView::Number(y) => same_number(x, y),
            _ => false,
        },
        VariantView::Array(xs) => match b {
            VariantView::Array(ys) => xs.len() == ys.len() && forall|i: int|
                0 <= i < xs.len() ==> same_value(#[trigger] xs[i], ys[i]),
            _ => false,
        },
        VariantView::Object(m) => match b {
            VariantView::Object(n) => m.dom() == n.dom() && forall|k: Seq<char>|
                #[trigger] m.contains_key(k) ==> same_value(m[k], n[k]),
            _ => false,
        },
        _ => a == b,
    }
}

/// One step of `same_value`: what it says of `a` and `b` in terms of the values
/// inside them.
pub proof fn lemma_same_value_step(a: VariantView, b: VariantView)
    ensures
        a is Number ==> same_value(a, b) == (b is Number && same_number(a->Number_0, b->Number_0)),
        a is Array ==> same_value(a, b) == (b is Array && a->Array_0.len() == b->Array_0.len() && forall|i: int|
            0 <= i < a->Array_0.len() ==> same_value(#[trigger] a->Array_0[i], b->Array_0[i])),
        a is Object ==> same_value(a, b) == (b is Object && a->Object_0.dom() == b->Object_0.dom() && forall|k: Seq<char>|
            #[trigger] a->Object_0.contains_key(k) ==> same_value(a->Object_0[k], b->Object_0[k])),
        !(a is Number) && !(a is Array) && !(a is Object) ==> same_value(a, b) == (a == b),
{
    reveal(same_value);
}

/// The keys `ks` are in strictly increasing order.
pub open spec fn keys_sorted(ks: Seq<String>) -> bool {
    forall|i: int, j: int| 0 <= i < j < ks.len() ==> key_lt(ks[i]@, ks[j]@)
}

impl Variant {
    /// The mathematical value of this variant.
    pub open spec fn view(self) -> VariantView
        decreases self,
    {
        match self {
            Variant::Null => VariantView::Null,
            Variant::Number(n) => VariantView::Number(n),
            Variant::String(s) => VariantView::String(s@),
            Variant::Bool(b) => VariantView::Bool(b),
            Variant::Date(d) => VariantView::Date(d),
            Variant::Regexp(re) => VariantView::Regexp(regex_pattern(re)),
            Variant::Bytes(b) => VariantView::Bytes(b@),
            Variant::Array(a) => VariantView::Array(items_view(a@)),
            Variant::Object(m) => VariantView::Object(m.view()),
        }
    }
}

/// The values of a sequence of variants.
pub closed spec fn items_view(s: Seq<Variant>) -> Seq<VariantView>
    decreases s,
{
    if s.len() == 0 {
        Seq::empty()
    } else {
        items_view(s.subrange(0, s.len() - 1)).push(s[s.len() - 1].view())
    }
}

/// The map of each key of `ks` to the value of the variant at the same position of `vs`.
pub closed spec fn entries_view(ks: Seq<String>, vs: Seq<Variant>) -> Map<Seq<char>, VariantView>
    decreases vs,
{
    if vs.len() == 0 {
        Map::empty()
    } else {
        entries_view(ks, vs.subrange(0, vs.len() - 1)).insert(ks[vs.len() - 1]@, vs[vs.len() - 1].view())
    }
}

impl VariantObjectMap {
    #[verifier::type_invariant]
    spec fn inv(self) -> bool {
        &&& keys_sorted(self.keys@)
        &&& self.keys@.len() == self.values@.len()
    }

    /// The properties, by key.
    pub closed spec fn view(self) -> Map<Seq<char>, VariantView>
        decreases self,
    {
        entries_view(self.keys@, self.values@)
    }
}

} // verus!

verus! {

/// The properties of an object map are the map of its entries.
proof fn lemma_map_view()
    ensures
        forall|m: VariantObjectMap| #[trigger] m.view() == entries_view(m.keys@, m.values@),
{
}

/// Each value of `items_view(s)` is the value of the variant at the same position.
pub proof fn lemma_items_view(s: Seq<Variant>)
    ensures
        items_view(s).len() == s.len(),
        forall|i: int| 0 <= i < s.len() ==> #[trigger] items_view(s)[i] == s[i].view(),
    decreases s.len(),
{
    if s.len() > 0 {
        lemma_items_view(s.subrange(0, s.len() - 1));
    }
}

/// With distinct keys, the map of entries holds exactly the keys, each with
/// the value at its position, and has as many keys as there are values.
pub proof fn lemma_entries_view(ks: Seq<String>, vs: Seq<Variant>)
    requires
        keys_sorted(ks),
        vs.len() <= ks.len(),
    ensures
        forall|i: int| 0 <= i < vs.len() ==> #[trigger] entries_view(ks, vs).contains_key(ks[i]@)
            && entries_view(ks, vs)[ks[i]@] == vs[i].view(),
        forall|k: Seq<char>| #[trigger] entries_view(ks, vs).contains_key(k) ==> exists|i: int| 0 <= i < vs.len() && ks[i]@ == k,
        entries_view(ks, vs).dom().finite(),
        entries_view(ks, vs).dom().len() == vs.len(),
    decreases vs.len(),
{
    if vs.len() > 0 {
        let n = vs.len() - 1;
        let p = vs.subrange(0, n);
        lemma_entries_view(ks, p);
        assert forall|i: int| 0 <= i < n implies ks[i]@ != ks[n]@ by {
            assert(key_lt(ks[i]@, ks[n]@));
            lemma_key_lt_total(ks[i]@, ks[i]@);
        }
        assert(!entries_view(ks, p).contains_key(ks[n]@)) by {
            if entries_view(ks, p).contains_key(ks[n]@) {
                let i = choose|i: int| 0 <= i < p.len() && ks[i]@ == ks[n]@;
            }
        }
        assert(entries_view(ks, vs) == entries_view(ks, p).insert(ks[n]@, vs[n].view()));
        assert forall|i: int| 0 <= i < vs.len() implies #[trigger] entries_view(ks, vs).contains_key(ks[i]@)
            && entries_view(ks, vs)[ks[i]@] == vs[i].view() by {
            if i < n {
                assert(vs[i] == p[i]);
            }
        }
    }
}

/// Replacing the value at a position replaces the value of its key.
proof fn lemma_entries_view_update(ks: Seq<String>, vs: Seq<Variant>, i: int)
    requires
        keys_sorted(ks),
        vs.len() <= ks.len(),
        0 <= i < vs.len(),
    ensures
        forall|x: Variant| #[trigger] entries_view(ks, vs.update(i, x)) == entries_view(ks, vs).insert(ks[i]@, x.view()),
{
    lemma_entries_view(ks, vs);
    assert forall|x: Variant| #[trigger] entries_view(ks, vs.update(i, x)) == entries_view(ks, vs).insert(ks[i]@, x.view()) by {
        let nv = vs.update(i, x);
        lemma_entries_view(ks, nv);
        assert forall|k: Seq<char>| #[trigger] entries_view(ks, nv).contains_key(k)
            <==> entries_view(ks, vs).insert(ks[i]@, x.view()).contains_key(k) by {
            if entries_view(ks, nv).contains_key(k) {
                let j = choose|j: int| 0 <= j < nv.len() && ks[j]@ == k;
            }
            if entries_view(ks, vs).contains_key(k) {
                let j = choose|j: int| 0 <= j < vs.len() && ks[j]@ == k;
            }
        }
        assert forall|k: Seq<char>| #[trigger] entries_view(ks, nv).contains_key(k) implies entries_view(ks, nv)[k]
            == entries_view(ks, vs).insert(ks[i]@, x.view())[k] by {
            let j = choose|j: int| 0 <= j < nv.len() && ks[j]@ == k;
            if j != i {
                assert(ks[j]@ != ks[i]@) by {
                    if j < i {
                        assert(key_lt(ks[j]@, ks[i]@));
                    } else {
                        assert(key_lt(ks[i]@, ks[j]@));
                    }
                    lemma_key_lt_total(ks[i]@, ks[i]@);
                }
            }
        }
        assert(entries_view(ks, nv) =~= entries_view(ks, vs).insert(ks[i]@, x.view()));
    }
}

impl VariantObjectMap {
    /// An empty object.
    pub fn new() -> (r: VariantObjectMap)
        ensures
            r.view() == Map::<Seq<char>, VariantView>::empty(),
    {
        VariantObjectMap { keys: Vec::new(), values: Vec::new() }
    }

    /// Where `key` is or would be: `Ok` with its position, or `Err` with the
    /// position that keeps the keys in order.
    fn find_key(&self, key: &str) -> (r: Result<usize, usize>)
        ensures
            match r {
                Ok(i) => i < self.keys@.len() && self.keys@[i as int]@ == key@,
                Err(p) => p <= self.keys@.len() && (forall|i: int| 0 <= i < p ==> key_lt(#[trigger] self.keys@[i]@, key@))
                    && (forall|i: int| p <= i < self.keys@.len() ==> key_lt(key@, #[trigger] self.keys@[i]@)),
            },
    {
        proof {
            use_type_invariant(self);
        }
        let mut i: usize = 0;
        while i < self.keys.len()
            invariant
                keys_sorted(self.keys@),
                i <= self.keys@.len(),
                forall|j: int| 0 <= j < i ==> key_lt(#[trigger] self.keys@[j]@, key@),
            decreases self.keys.len() - i,
        {
            let c = compare_keys(self.keys[i].as_str(), key);
            if c == 0 {
                return Ok(i);
            }
            if c > 0 {
                proof {
                    assert forall|j: int| i <= j < self.keys@.len() implies key_lt(key@, #[trigger] self.keys@[j]@) by {
                        if j > i {
                            lemma_key_lt_transitive(key@, self.keys@[i as int]@, self.keys@[j]@);
                        }
                    }
                }
                return Err(i);
            }
            i = i + 1;
        }
        Err(i)
    }

    /// The number of properties.
    pub fn len(&self) -> (r: usize)
        ensures
            r == self.view().len(),
    {
        proof {
            use_type_invariant(self);
            lemma_entries_view(self.keys@, self.values@);
        }
        self.values.len()
    }

    /// Whether there are no properties.
    pub fn is_empty(&self) -> (r: bool)
        ensures
            r == (self.view().len() == 0),
    {
        self.len() == 0
    }

    /// The value of the property `key`, if there is one.
    pub fn get(&self, key: &str) -> (r: Option<&Variant>)
        ensures
            match r {
                Some(v) => self.view().contains_key(key@) && v.view() == self.view()[key@],
                None => !self.view().contains_key(key@),
            },
    {
        proof {
            use_type_invariant(self);
            lemma_entries_view(self.keys@, self.values@);
        }
        match self.find_key(key) {
            Ok(i) => {
                proof {
                    assert(self.view().contains_key(self.keys@[i as int]@));
                }
                Some(&self.values[i])
            },
            Err(_) => {
                proof {
                    if self.view().contains_key(key@) {
                        let i = choose|i: int| 0 <= i < self.values@.len() && self.keys@[i]@ == key@;
                        lemma_key_lt_total(key@, key@);
                    }
                }
                None
            },
        }
    }

    /// The keys of the properties, in increasing order (the order of `key_lt`).
    pub fn keys(&self) -> (r: Vec<&str>)
        ensures
            r@.len() == self.view().len(),
            forall|i: int| 0 <= i < r@.len() ==> #[trigger] self.view().contains_key(r@[i]@),
            forall|i: int, j: int| 0 <= i < j < r@.len() ==> key_lt(r@[i]@, r@[j]@),
    {
        proof {
            use_type_invariant(self);
            lemma_entries_view(self.keys@, self.values@);
        }
        let mut out: Vec<&str> = Vec::new();
        for i in 0..self.keys.len()
            invariant
                keys_sorted(self.keys@),
                self.keys@.len() == self.values@.len(),
                out@.len() == i,
                forall|j: int| 0 <= j < i ==> #[trigger] out@[j]@ == self.keys@[j]@,
        {
            out.push(self.keys[i].as_str());
        }
        proof {
            assert forall|i: int| 0 <= i < out@.len() implies #[trigger] self.view().contains_key(out@[i]@) by {
                assert(out@[i]@ == self.keys@[i]@);
            }
            assert forall|i: int, j: int| 0 <= i < j < out@.len() implies key_lt(out@[i]@, out@[j]@) by {
                assert(out@[i]@ == self.keys@[i]@);
                assert(out@[j]@ == self.keys@[j]@);
            }
        }
        out
    }

    /// Whether there is a property `key`.
    pub fn contains_key(&self, key: &str) -> (r: bool)
        ensures
            r == self.view().contains_key(key@),
    {
        self.get(key).is_some()
    }

    /// Sets the property `key` to `value`, in the order of the keys; the value it
    /// had, if any.
    pub fn insert(&mut self, key: String, value: Variant) -> (r: Option<Variant>)
        ensures
            final(self).view() == old(self).view().insert(key@, value.view()),
            match r {
                Some(v) => old(self).view().contains_key(key@) && v.view() == old(self).view()[key@],
                None => !old(self).view().contains_key(key@),
            },
    {
        proof {
            use_type_invariant(&*self);
            lemma_entries_view(self.keys@, self.values@);
            lemma_map_view();
        }
        let ghost kv = key@;
        let ghost vv = value.view();
        let ghost ks = self.keys@;
        let ghost vs = self.values@;
        match self.find_key(key.as_str()) {
            Ok(i) => {
                let mut slot = value;
                proof {
                    lemma_entries_view_update(ks, vs, i as int);
                }
                std::mem::swap(&mut self.values[i], &mut slot);
                Some(slot)
            },
            Err(p) => {
                let mut taken = VariantObjectMap::new();
                std::mem::swap(&mut taken, self);
                let VariantObjectMap { mut keys, mut values } = taken;
                keys.insert(p, key);
                values.insert(p, value);
                proof {
                    let nk = keys@;
                    let nv = values@;
                    assert forall|j: int| 0 <= j < p implies nk[j] == ks[j] && nv[j] == vs[j] by {}
                    assert forall|j: int| p < j < nk.len() implies nk[j] == ks[j - 1] && nv[j] == vs[j - 1] by {}
                    assert(keys_sorted(nk)) by {
                        assert forall|a: int, b: int| 0 <= a < b < nk.len() implies key_lt(nk[a]@, nk[b]@) by {
                            if b == p {
                                assert(key_lt(ks[a]@, kv));
                            } else if a == p {
                                assert(key_lt(kv, ks[b - 1]@));
                            } else if b < p {
                            } else if a < p {
                                assert(key_lt(ks[a]@, ks[b - 1]@));
                            } else {
                                assert(key_lt(ks[a - 1]@, ks[b - 1]@));
                            }
                        }
                    }
                    lemma_entries_view(nk, nv);
                    assert(!entries_view(ks, vs).contains_key(kv)) by {
                        if entries_view(ks, vs).contains_key(kv) {
                            let j = choose|j: int| 0 <= j < vs.len() && ks[j]@ == kv;
                            lemma_key_lt_total(kv, kv);
                            if j < p {
                                assert(key_lt(ks[j]@, kv));
                            } else {
                                assert(key_lt(kv, ks[j]@));
                            }
                        }
                    }
                    assert(entries_view(nk, nv) =~= entries_view(ks, vs).insert(kv, vv)) by {
                        assert forall|k: Seq<char>| #[trigger] entries_view(nk, nv).contains_key(k)
                            <==> entries_view(ks, vs).insert(kv, vv).contains_key(k) by {
                            if k == kv {
                                assert(nk[p as int]@ == kv);
                                assert(entries_view(nk, nv).contains_key(nk[p as int]@));
                            }
                            if entries_view(nk, nv).contains_key(k) {
                                let j = choose|j: int| 0 <= j < nv.len() && nk[j]@ == k;
                                if j < p {
                                    assert(ks[j]@ == k);
                                } else if j > p {
                                    assert(ks[j - 1]@ == k);
                                }
                            }
                            if entries_view(ks, vs).contains_key(k) {
                                let j = choose|j: int| 0 <= j < vs.len() && ks[j]@ == k;
                                if j < p {
                                    assert(nk[j]@ == k);
                                } else {
                                    assert(nk[j + 1]@ == k);
                                }
                            }
                        }
                        assert forall|k: Seq<char>| #[trigger] entries_view(nk, nv).contains_key(k) implies entries_view(nk, nv)[k]
                            == entries_view(ks, vs).insert(kv, vv)[k] by {
                            let j = choose|j: int| 0 <= j < nv.len() && nk[j]@ == k;
                            if j < p {
                                assert(nv[j] == vs[j]);
                            } else if j > p {
                                assert(nv[j] == vs[j - 1]);
                            }
                        }
                    }
                }
                *self = VariantObjectMap { keys, values };
                None
            },
        }
    }

    /// Sets the property `key` to `value`.
    pub fn set_property(&mut self, key: String, value: Variant)
        ensures
            final(self).view() == old(self).view().insert(key@, value.view()),
    {
        let _ = self.insert(key, value);
    }
}

impl Default for VariantObjectMap {
    fn default() -> (r: VariantObjectMap)
        ensures
            r.view() == Map::<Seq<char>, VariantView>::empty(),
    {
        VariantObjectMap::new()
    }
}

} // verus!

verus! {

// ---------------------------------------------------------------------------
// Navigation and update, on values
// ---------------------------------------------------------------------------

/// The value a segment reaches from `v`: an array element by index, an object
/// property by key; a nested segment reaches nothing.
pub open spec fn get_seg_spec(v: VariantView, seg: SegView) -> Option<VariantView> {
    match seg {
        SegView::Index(i) => match v {
            VariantView::Array(a) => if i < a.len() { Some(a[i as int]) } else { None },
            _ => None,
        },
        SegView::Property(k) => match v {
            VariantView::Object(m) => if m.contains_key(k) { Some(m[k]) } else { None },
            _ => None,
        },
        SegView::Nested(_) => None,
    }
}

/// The value a path reaches from `v`; the empty path reaches `v`.
pub open spec fn get_segs_spec(v: VariantView, segs: Seq<SegView>) -> Option<VariantView>
    decreases segs.len(),
{
    if segs.len() == 0 {
        Some(v)
    } else {
        match get_seg_spec(v, segs[0]) {
            Some(c) => get_segs_spec(c, segs.drop_first()),
            None => None,
        }
    }
}

/// The byte a value converts to: a non-negative integer, truncated to 8 bits.
pub open spec fn as_u8_spec(v: VariantView) -> Option<u8> {
    match v {
        VariantView::Number(n) => match n.u64_value() {
            Some(u) => Some(u as u8),
            None => None,
        },
        _ => None,
    }
}

/// The bytes of a value that is not a number: those of a byte buffer, the
/// UTF-8 encoding of a string, and the items of an array whose items all convert
/// to a byte (as `as_u8_spec` says); nothing for other values.
pub open spec fn plain_bytes_spec(v: VariantView) -> Option<Seq<u8>> {
    match v {
        VariantView::Bytes(b) => Some(b),
        VariantView::String(s) => Some(vstd::utf8::encode_utf8(s)),
        VariantView::Array(a) => if forall|i: int| 0 <= i < a.len() ==> #[trigger] as_u8_spec(a[i]) is Some {
            Some(Seq::new(a.len(), |i: int| as_u8_spec(a[i])->Some_0))
        } else {
            None
        },
        _ => None,
    }
}

/// Setting array item `i` of `v`: an existing item is replaced, the item just past
/// the end is appended; a byte array takes the value as a byte.
pub open spec fn set_array_item_spec(v: VariantView, i: usize, value: VariantView) -> (VariantView, Result<(), VariantError>) {
    match v {
        VariantView::Array(a) => if i < a.len() {
            (VariantView::Array(a.update(i as int, value)), Ok(()))
        } else if i == a.len() {
            (VariantView::Array(a.push(value)), Ok(()))
        } else {
            (v, Err(VariantError::OutOfRange))
        },
        VariantView::Bytes(b) => if i <= b.len() {
            match as_u8_spec(value) {
                Some(x) => if i < b.len() {
                    (VariantView::Bytes(b.update(i as int, x)), Ok(()))
                } else {
                    (VariantView::Bytes(b.push(x)), Ok(()))
                },
                None => (v, Err(VariantError::BadCast)),
            }
        } else {
            (v, Err(VariantError::OutOfRange))
        },
        _ => (v, Err(VariantError::WrongType)),
    }
}

/// Setting object property `k` of `v`.
pub open spec fn set_object_property_spec(v: VariantView, k: Seq<char>, value: VariantView) -> (VariantView, Result<(), VariantError>) {
    match v {
        VariantView::Object(m) => (VariantView::Object(m.insert(k, value)), Ok(())),
        _ => (v, Err(VariantError::WrongType)),
    }
}

/// The outcome of an update: the value afterwards and the result, or a panic
/// (an update through a nested segment, which is not implemented).
pub enum SetOutcome {
    Done(VariantView, Result<(), VariantError>),
    Panics,
}

/// Setting what one segment reaches.
pub open spec fn set_seg_spec(v: VariantView, seg: SegView, value: VariantView) -> SetOutcome {
    match seg {
        SegView::Index(i) => {
            let (v2, r) = set_array_item_spec(v, i, value);
            SetOutcome::Done(v2, r)
        },
        SegView::Property(k) => {
            let (v2, r) = set_object_property_spec(v, k, value);
            SetOutcome::Done(v2, r)
        },
        SegView::Nested(_) => SetOutcome::Panics,
    }
}

/// `v` with what `seg` reaches replaced by `c`.
pub open spec fn replace_child(v: VariantView, seg: SegView, c: VariantView) -> VariantView {
    match seg {
        SegView::Index(i) => match v {
            VariantView::Array(a) => VariantView::Array(a.update(i as int, c)),
            _ => v,
        },
        SegView::Property(k) => match v {
            VariantView::Object(m) => VariantView::Object(m.insert(k, c)),
            _ => v,
        },
        SegView::Nested(_) => v,
    }
}

/// An empty container of the kind a segment addresses: an object for a
/// property, an array for an index.
pub open spec fn container_for(seg: SegView) -> VariantView {
    match seg {
        SegView::Index(_) => VariantView::Array(Seq::empty()),
        _ => VariantView::Object(Map::empty()),
    }
}

/// Going on into `c`, the child of `v` at `seg`, with the rest of the path.
pub open spec fn set_in_child(
    v: VariantView,
    seg: SegView,
    c: VariantView,
    rest: Seq<SegView>,
    value: VariantView,
    create: bool,
) -> SetOutcome
    decreases rest.len(), 1int,
{
    match set_segs_spec(c, rest, value, create) {
        SetOutcome::Panics => SetOutcome::Panics,
        SetOutcome::Done(c2, r) => SetOutcome::Done(replace_child(v, seg, c2), r),
    }
}

/// Setting what a path reaches. Each missing step but the last is created when
/// `create` holds (an object before a property, an array before an index) and
/// is an `OutOfRange` error otherwise; the last step is set as `set_seg_spec`
/// does. Steps created before an error stay.
pub open spec fn set_segs_spec(v: VariantView, segs: Seq<SegView>, value: VariantView, create: bool) -> SetOutcome
    decreases segs.len(), 0int,
{
    if segs.len() == 0 {
        SetOutcome::Done(v, Err(VariantError::OutOfRange))
    } else if segs.len() == 1 {
        set_seg_spec(v, segs[0], value)
    } else {
        match get_seg_spec(v, segs[0]) {
            Some(c) => set_in_child(v, segs[0], c, segs.drop_first(), value, create),
            None => if !create {
                SetOutcome::Done(v, Err(VariantError::OutOfRange))
            } else if segs[1] is Nested {
                SetOutcome::Panics
            } else {
                match set_seg_spec(v, segs[0], container_for(segs[1])) {
                    SetOutcome::Panics => SetOutcome::Panics,
                    SetOutcome::Done(v2, Err(e)) => SetOutcome::Done(v2, Err(e)),
                    SetOutcome::Done(v2, Ok(())) => set_in_child(
                        v2,
                        segs[0],
                        container_for(segs[1]),
                        segs.drop_first(),
                        value,
                        create,
                    ),
                }
            },
        }
    }
}

/// The path a property expression denotes, if it parses.
pub open spec fn nav_path(expr: Seq<char>) -> Option<Seq<SegView>> {
    if expr.len() == 0 {
        None
    } else {
        spec_expression(expr)
    }
}

} // verus!

verus! {


impl Variant {
    /// The empty string.
    pub fn empty_string() -> (r: Variant)
        ensures
            r.view() == VariantView::String(Seq::empty()),
    {
        Variant::String(String::new())
    }

    /// The empty object.
    pub fn empty_object() -> (r: Variant)
        ensures
            r.view() == VariantView::Object(Map::empty()),
    {
        Variant::Object(VariantObjectMap::new())
    }

    /// The empty array.
    pub fn empty_array() -> (r: Variant)
        ensures
            r.view() == VariantView::Array(Seq::empty()),
    {
        let r = Variant::Array(Vec::new());
        proof {
            assert(items_view(Seq::<Variant>::empty()) =~= Seq::empty());
        }
        r
    }

    /// The current time.
    pub fn now() -> (r: Variant)
        ensures
            r.view() is Date,
    {
        Variant::Date(crate::uid::system_now())
    }

    /// Whether this is a byte array.
    pub fn is_bytes(&self) -> (r: bool)
        ensures
            r == (self.view() is Bytes),
    {
        match self {
            Variant::Bytes(..) => true,
            _ => false,
        }
    }

    /// Whether this is a number.
    pub fn is_number(&self) -> (r: bool)
        ensures
            r == (self.view() is Number),
    {
        match self {
            Variant::Number(..) => true,
            _ => false,
        }
    }

    /// Whether this is an integer number that fits in `i64`.
    pub fn is_i64(&self) -> (r: bool)
        ensures
            r == (self.view() matches VariantView::Number(n) && n.i64_value() is Some),
    {
        match self {
            Variant::Number(n) => n.is_i64(),
            _ => false,
        }
    }

    /// Whether this is a non-negative integer number.
    pub fn is_u64(&self) -> (r: bool)
        ensures
            r == (self.view() matches VariantView::Number(n) && n.u64_value() is Some),
    {
        match self {
            Variant::Number(n) => n.is_u64(),
            _ => false,
        }
    }

    /// Whether this is a floating-point number.
    pub fn is_f64(&self) -> (r: bool)
        ensures
            r == (self.view() matches VariantView::Number(n) && n.f64_bits() is Some),
    {
        match self {
            Variant::Number(n) => n.is_f64(),
            _ => false,
        }
    }

    /// The number, if this is one.
    pub fn as_number(&self) -> (r: Option<&Number>)
        ensures
            match self.view() {
                VariantView::Number(n) => r == Some(&n),
                _ => r is None,
            },
    {
        match self {
            Variant::Number(number) => Some(number),
            _ => None,
        }
    }

    /// The number as `i64`, if this is an integer number that fits.
    pub fn as_i64(&self) -> (r: Option<i64>)
        ensures
            match self.view() {
                VariantView::Number(n) => r == n.i64_value(),
                _ => r is None,
            },
    {
        match self {
            Variant::Number(number) => number.as_i64(),
            _ => None,
        }
    }

    /// The number as `u64`, if this is a non-negative integer number.
    pub fn as_u64(&self) -> (r: Option<u64>)
        ensures
            match self.view() {
                VariantView::Number(n) => r == n.u64_value(),
                _ => r is None,
            },
    {
        match self {
            Variant::Number(number) => number.as_u64(),
            _ => None,
        }
    }

    /// The bytes of this value where it is not a number, as `plain_bytes_spec`
    /// says; a number's bytes are those of its text, which is written elsewhere.
    pub fn plain_bytes(&self) -> (r: Option<Vec<u8>>)
        ensures
            match plain_bytes_spec(self.view()) {
                Some(b) => r matches Some(v) && v@ == b,
                None => r is None,
            },
    {
        match self {
            Variant::Bytes(b) => Some(b.clone()),
            Variant::String(s) => Some(s.as_str().as_bytes_vec()),
            Variant::Array(arr) => {
                proof {
                    lemma_items_view(arr@);
                }
                let ghost items = items_view(arr@);
                let mut bytes: Vec<u8> = Vec::new();
                let mut i: usize = 0;
                while i < arr.len()
                    invariant
                        *self == Variant::Array(*arr),
                        items == items_view(arr@),
                        items.len() == arr@.len(),
                        forall|j: int| 0 <= j < arr@.len() ==> #[trigger] items[j] == arr@[j].view(),
                        i <= arr@.len(),
                        bytes@.len() == i,
                        forall|j: int| 0 <= j < i ==> #[trigger] as_u8_spec(items[j]) is Some,
                        forall|j: int| 0 <= j < i ==> bytes@[j] == #[trigger] as_u8_spec(items[j])->Some_0,
                    decreases arr.len() - i,
                {
                    match arr[i].as_u8() {
                        Some(x) => bytes.push(x),
                        None => {
                            proof {
                                assert(as_u8_spec(items[i as int]) is None);
                            }
                            return None;
                        },
                    }
                    i = i + 1;
                }
                proof {
                    assert(bytes@ =~= Seq::new(items.len(), |j: int| as_u8_spec(items[j])->Some_0));
                }
                Some(bytes)
            },
            _ => None,
        }
    }

    /// The number as a byte (its low 8 bits), if this is a non-negative integer number.
    pub fn as_u8(&self) -> (r: Option<u8>)
        ensures
            r == as_u8_spec(self.view()),
    {
        match self {
            Variant::Number(number) => match number.as_u64() {
                Some(x) => Some(x as u8),
                None => None,
            },
            _ => None,
        }
    }

    /// Whether this is a string.
    pub fn is_string(&self) -> (r: bool)
        ensures
            r == (self.view() is String),
    {
        match self {
            Variant::String(..) => true,
            _ => false,
        }
    }

    /// The string, if this is one.
    pub fn as_str(&self) -> (r: Option<&str>)
        ensures
            match self.view() {
                VariantView::String(s) => r matches Some(t) && t@ == s,
                _ => r is None,
            },
    {
        match self {
            Variant::String(s) => Some(s.as_str()),
            _ => None,
        }
    }

    /// Whether this is a boolean.
    pub fn is_bool(&self) -> (r: bool)
        ensures
            r == (self.view() is Bool),
    {
        match self {
            Variant::Bool(..) => true,
            _ => false,
        }
    }

    /// The boolean, if this is one.
    pub fn as_bool(&self) -> (r: Option<bool>)
        ensures
            match self.view() {
                VariantView::Bool(b) => r == Some(b),
                _ => r is None,
            },
    {
        match self {
            Variant::Bool(b) => Some(*b),
            _ => None,
        }
    }

    /// The boolean, if this is one; the variant itself otherwise.
    pub fn into_bool(self) -> (r: Result<bool, Variant>)
        ensures
            match self.view() {
                VariantView::Bool(b) => r == Ok::<bool, Variant>(b),
                _ => r == Err::<bool, Variant>(self),
            },
    {
        match self {
            Variant::Bool(b) => Ok(b),
            other => Err(other),
        }
    }

    /// Whether this is null.
    pub fn is_null(&self) -> (r: bool)
        ensures
            r == (self.view() is Null),
    {
        match self {
            Variant::Null => true,
            _ => false,
        }
    }

    /// Whether this is an array.
    pub fn is_array(&self) -> (r: bool)
        ensures
            r == (self.view() is Array),
    {
        match self {
            Variant::Array(..) => true,
            _ => false,
        }
    }

    /// The items, if this is an array.
    pub fn as_array(&self) -> (r: Option<&Vec<Variant>>)
        ensures
            match self.view() {
                VariantView::Array(a) => r matches Some(v) && items_view(v@) == a,
                _ => r is None,
            },
    {
        match self {
            Variant::Array(array) => Some(array),
            _ => None,
        }
    }

    /// The items, if this is an array; the variant itself otherwise.
    pub fn into_array(self) -> (r: Result<Vec<Variant>, Variant>)
        ensures
            match self.view() {
                VariantView::Array(a) => r matches Ok(v) && items_view(v@) == a,
                _ => r == Err::<Vec<Variant>, Variant>(self),
            },
    {
        match self {
            Variant::Array(vec) => Ok(vec),
            other => Err(other),
        }
    }

    /// Whether this is an object.
    pub fn is_object(&self) -> (r: bool)
        ensures
            r == (self.view() is Object),
    {
        match self {
            Variant::Object(..) => true,
            _ => false,
        }
    }

    /// The properties, if this is an object.
    pub fn as_object(&self) -> (r: Option<&VariantObjectMap>)
        ensures
            match self.view() {
                VariantView::Object(m) => r matches Some(o) && o.view() == m,
                _ => r is None,
            },
    {
        match self {
            Variant::Object(object) => Some(object),
            _ => None,
        }
    }

    /// The properties, if this is an object; the variant itself otherwise.
    pub fn into_object(self) -> (r: Result<VariantObjectMap, Variant>)
        ensures
            match self.view() {
                VariantView::Object(m) => r matches Ok(o) && o.view() == m,
                _ => r == Err::<VariantObjectMap, Variant>(self),
            },
    {
        match self {
            Variant::Object(object) => Ok(object),
            other => Err(other),
        }
    }

    /// Whether this is a regular expression.
    pub fn is_regexp(&self) -> (r: bool)
        ensures
            r == (self.view() is Regexp),
    {
        match self {
            Variant::Regexp(..) => true,
            _ => false,
        }
    }

    /// The regular expression, if this is one.
    pub fn as_regexp(&self) -> (r: Option<&regex::Regex>)
        ensures
            match self {
                Variant::Regexp(re) => r == Some(re),
                _ => r is None,
            },
    {
        match self {
            Variant::Regexp(re) => Some(re),
            _ => None,
        }
    }

    /// The bytes, if this is a byte array; the bytes of its UTF-8 encoding, if
    /// this is a string.
    pub fn as_bytes(&self) -> (r: Option<&[u8]>)
        ensures
            match self.view() {
                VariantView::Bytes(b) => r matches Some(x) && x@ == b,
                VariantView::String(s) => r matches Some(x) && x@ == vstd::utf8::encode_utf8(s),
                _ => r is None,
            },
    {
        match self {
            Variant::Bytes(bytes) => Some(bytes.as_slice()),
            Variant::String(s) => Some(s.as_str().as_bytes()),
            _ => None,
        }
    }

    /// The bytes, if this is a byte array; the variant itself otherwise.
    pub fn into_bytes(self) -> (r: Result<Vec<u8>, Variant>)
        ensures
            match self.view() {
                VariantView::Bytes(b) => r matches Ok(v) && v@ == b,
                _ => r == Err::<Vec<u8>, Variant>(self),
            },
    {
        match self {
            Variant::Bytes(vec) => Ok(vec),
            other => Err(other),
        }
    }

    /// Leaves null in place of this variant and returns it.
    pub fn take(&mut self) -> (r: Variant)
        ensures
            r == *old(self),
            *final(self) == Variant::Null,
    {
        let mut out = Variant::Null;
        std::mem::swap(self, &mut out);
        out
    }
}

impl Default for Variant {
    fn default() -> (r: Variant)
        ensures
            r == Variant::Null,
    {
        Variant::Null
    }
}

} // verus!

verus! {

/// Whether an optional borrowed variant is the optional value `g`.
pub open spec fn same_opt(r: Option<&Variant>, g: Option<VariantView>) -> bool {
    match g {
        Some(v) => r matches Some(x) && x.view() == v,
        None => r is None,
    }
}

/// A byte array's length; a string's length in UTF-8 bytes; an array's or
/// object's number of items; 0 for null and 1 for anything else.
pub open spec fn len_spec(v: VariantView) -> nat {
    match v {
        VariantView::Null => 0,
        VariantView::Object(m) => m.len(),
        VariantView::Array(a) => a.len(),
        VariantView::Bytes(b) => b.len(),
        VariantView::String(s) => vstd::utf8::encode_utf8(s).len(),
        _ => 1,
    }
}

/// Null, and empty strings, byte arrays, arrays and objects are empty.
pub open spec fn is_empty_spec(v: VariantView) -> bool {
    match v {
        VariantView::Null => true,
        VariantView::Object(m) => m.len() == 0,
        VariantView::Array(a) => a.len() == 0,
        VariantView::Bytes(b) => b.len() == 0,
        VariantView::String(s) => s.len() == 0,
        _ => false,
    }
}

impl Variant {
    /// See `len_spec`.
    pub fn len(&self) -> (r: usize)
        ensures
            r == len_spec(self.view()),
    {
        match self {
            Variant::Null => 0,
            Variant::Object(object) => object.len(),
            Variant::Array(array) => {
                proof { lemma_items_view(array@); }
                array.len()
            },
            Variant::Bytes(bytes) => bytes.len(),
            Variant::String(s) => s.as_str().as_bytes().len(),
            _ => 1,
        }
    }

    /// See `is_empty_spec`. A number is never empty: it is never NaN.
    pub fn is_empty(&self) -> (r: bool)
        ensures
            r == is_empty_spec(self.view()),
    {
        match self {
            Variant::Null => true,
            Variant::Object(object) => object.is_empty(),
            Variant::Array(array) => {
                proof { lemma_items_view(array@); }
                array.len() == 0
            },
            Variant::Bytes(bytes) => bytes.len() == 0,
            Variant::String(s) => s.as_str().is_empty(),
            _ => false,
        }
    }

    /// The item at `index`, if this is an array that long.
    pub fn get_array_item(&self, index: usize) -> (r: Option<&Variant>)
        ensures
            same_opt(r, get_seg_spec(self.view(), SegView::Index(index))),
    {
        match self {
            Variant::Array(arr) => {
                proof { lemma_items_view(arr@); }
                if index < arr.len() {
                    Some(&arr[index])
                } else {
                    None
                }
            },
            _ => None,
        }
    }

    /// The property `prop`, if this is an object that has it.
    pub fn get_object_property(&self, prop: &str) -> (r: Option<&Variant>)
        ensures
            same_opt(r, get_seg_spec(self.view(), SegView::Property(prop@))),
    {
        match self {
            Variant::Object(obj) => obj.get(prop),
            _ => None,
        }
    }

    /// What one segment reaches; a nested segment reaches nothing.
    pub fn get_seg(&self, pseg: &PropexSegment) -> (r: Option<&Variant>)
        ensures
            same_opt(r, get_seg_spec(self.view(), pseg.view())),
    {
        match pseg {
            PropexSegment::Index(index) => self.get_array_item(*index),
            PropexSegment::Property(prop) => self.get_object_property(prop.as_str()),
            PropexSegment::Nested(_) => None,
        }
    }

    /// What a path reaches; the empty path reaches this variant.
    pub fn get_segs(&self, psegs: &[PropexSegment]) -> (r: Option<&Variant>)
        ensures
            same_opt(r, get_segs_spec(self.view(), segs_view(psegs@))),
    {
        let ghost sv = segs_view(psegs@);
        proof {
            crate::propex::lemma_segs_view_index(psegs@);
            assert(sv.skip(0) =~= sv);
        }
        let mut cur: &Variant = self;
        let mut k: usize = 0;
        while k < psegs.len()
            invariant
                k <= psegs@.len(),
                sv == segs_view(psegs@),
                sv.len() == psegs@.len(),
                forall|i: int| 0 <= i < psegs@.len() ==> #[trigger] sv[i] == psegs@[i].view(),
                get_segs_spec(self.view(), sv) == get_segs_spec(cur.view(), sv.skip(k as int)),
            decreases psegs.len() - k,
        {
            proof {
                assert(sv.skip(k as int)[0] == sv[k as int]);
                assert(sv.skip(k as int).drop_first() =~= sv.skip(k + 1));
            }
            match cur.get_seg(&psegs[k]) {
                Some(c) => {
                    cur = c;
                    k = k + 1;
                },
                None => {
                    return None;
                },
            }
        }
        proof {
            assert(sv.skip(k as int).len() == 0);
        }
        Some(cur)
    }

    /// What a property expression reaches; nothing if it does not parse.
    pub fn get_nav_property(&self, expr: &str) -> (r: Option<&Variant>)
        ensures
            match nav_path(expr@) {
                Some(p) => same_opt(r, get_segs_spec(self.view(), p)),
                None => r is None,
            },
    {
        match crate::propex::parse(expr) {
            Ok(path) => {
                let segs = path.as_slice();
                self.get_segs(segs)
            },
            Err(_) => None,
        }
    }
}

} // verus!

verus! {

/// Replacing an item of a sequence of variants replaces its value.
proof fn lemma_items_view_update(s: Seq<Variant>, i: int, x: Variant)
    requires
        0 <= i < s.len(),
    ensures
        items_view(s.update(i, x)) == items_view(s).update(i, x.view()),
{
    lemma_items_view(s);
    lemma_items_view(s.update(i, x));
    assert(items_view(s.update(i, x)) =~= items_view(s).update(i, x.view()));
}

/// Appending a variant appends its value.
proof fn lemma_items_view_push(s: Seq<Variant>, x: Variant)
    ensures
        items_view(s.push(x)) == items_view(s).push(x.view()),
{
    lemma_items_view(s);
    lemma_items_view(s.push(x));
    assert(items_view(s.push(x)) =~= items_view(s).push(x.view()));
}

/// Replacing a child twice is replacing it once with the second value; the
/// child is still there after the first.
proof fn lemma_replace_child_twice(v: VariantView, seg: SegView, a: VariantView, b: VariantView)
    requires
        get_seg_spec(v, seg) is Some,
    ensures
        get_seg_spec(replace_child(v, seg, a), seg) == Some(a),
        replace_child(replace_child(v, seg, a), seg, b) == replace_child(v, seg, b),
{
    match seg {
        SegView::Index(i) => match v {
            VariantView::Array(s) => {
                assert(s.update(i as int, a).update(i as int, b) =~= s.update(i as int, b));
            },
            _ => {},
        },
        SegView::Property(k) => match v {
            VariantView::Object(m) => {
                assert(m.insert(k, a).insert(k, b) =~= m.insert(k, b));
            },
            _ => {},
        },
        SegView::Nested(_) => {},
    }
}

/// A segment that was set successfully to a value that is no byte reaches it.
proof fn lemma_set_seg_then_get(v: VariantView, seg: SegView, x: VariantView)
    requires
        as_u8_spec(x) is None,
        set_seg_spec(v, seg, x) matches SetOutcome::Done(_, Ok(())),
    ensures
        set_seg_spec(v, seg, x) matches SetOutcome::Done(v2, _) && get_seg_spec(v2, seg) == Some(x),
{
}

impl Variant {
    /// Sets the property `prop` to `value`, if this is an object.
    pub fn set_object_property(&mut self, prop: String, value: Variant) -> (r: Result<(), VariantError>)
        ensures
            (final(self).view(), r) == set_object_property_spec(old(self).view(), prop@, value.view()),
    {
        match self {
            Variant::Object(this_obj) => {
                this_obj.set_property(prop, value);
                Ok(())
            },
            _ => Err(VariantError::WrongType),
        }
    }

    /// Sets item `index` to `value`, if this is an array or a byte array; see
    /// `set_array_item_spec`.
    pub fn set_array_item(&mut self, index: usize, value: Variant) -> (r: Result<(), VariantError>)
        ensures
            (final(self).view(), r) == set_array_item_spec(old(self).view(), index, value.view()),
    {
        match self {
            Variant::Array(this_arr) => {
                let ghost old_arr = this_arr@;
                let ghost vv = value;
                proof {
                    lemma_items_view(old_arr);
                }
                if index < this_arr.len() {
                    this_arr.set(index, value);
                    proof {
                        lemma_items_view_update(old_arr, index as int, vv);
                    }
                    Ok(())
                } else if index == this_arr.len() {
                    this_arr.push(value);
                    proof {
                        lemma_items_view_push(old_arr, vv);
                    }
                    Ok(())
                } else {
                    Err(VariantError::OutOfRange)
                }
            },
            Variant::Bytes(this_bytes) => {
                if index < this_bytes.len() {
                    match value.as_u8() {
                        Some(x) => {
                            this_bytes.set(index, x);
                            Ok(())
                        },
                        None => Err(VariantError::BadCast),
                    }
                } else if index == this_bytes.len() {
                    match value.as_u8() {
                        Some(x) => {
                            this_bytes.push(x);
                            Ok(())
                        },
                        None => Err(VariantError::BadCast),
                    }
                } else {
                    Err(VariantError::OutOfRange)
                }
            },
            _ => Err(VariantError::WrongType),
        }
    }

    /// Sets what one segment addresses; a nested segment is not supported.
    pub fn set_seg_property(&mut self, pseg: &PropexSegment, value: Variant) -> (r: Result<(), VariantError>)
        requires
            !(pseg.view() is Nested),
        ensures
            set_seg_spec(old(self).view(), pseg.view(), value.view()) == SetOutcome::Done(final(self).view(), r),
    {
        match pseg {
            PropexSegment::Index(index) => self.set_array_item(*index, value),
            PropexSegment::Property(prop) => self.set_object_property(prop.as_str().to_owned(), value),
            PropexSegment::Nested(_) => {
                proof {
                    assert(false);
                }
                Err(VariantError::OutOfRange)
            },
        }
    }

    /// Leaves null where `pseg` reaches and returns what was there.
    fn take_child(&mut self, pseg: &PropexSegment) -> (r: Variant)
        requires
            get_seg_spec(old(self).view(), pseg.view()) is Some,
        ensures
            get_seg_spec(old(self).view(), pseg.view()) == Some(r.view()),
            final(self).view() == replace_child(old(self).view(), pseg.view(), VariantView::Null),
    {
        match pseg {
            PropexSegment::Index(i) => match self {
                Variant::Array(arr) => {
                    let ghost old_arr = arr@;
                    let mut out = Variant::Null;
                    proof {
                        lemma_items_view(old_arr);
                    }
                    arr.set_and_swap(*i, &mut out);
                    proof {
                        lemma_items_view_update(old_arr, *i as int, Variant::Null);
                    }
                    out
                },
                _ => {
                    proof {
                        assert(false);
                    }
                    Variant::Null
                },
            },
            PropexSegment::Property(k) => match self {
                Variant::Object(obj) => match obj.insert(k.as_str().to_owned(), Variant::Null) {
                    Some(out) => out,
                    None => {
                        proof {
                            assert(false);
                        }
                        Variant::Null
                    },
                },
                _ => {
                    proof {
                        assert(false);
                    }
                    Variant::Null
                },
            },
            PropexSegment::Nested(_) => {
                proof {
                    assert(false);
                }
                Variant::Null
            },
        }
    }

    /// Puts `c` where `pseg` reaches.
    fn put_child(&mut self, pseg: &PropexSegment, c: Variant)
        requires
            get_seg_spec(old(self).view(), pseg.view()) is Some,
        ensures
            final(self).view() == replace_child(old(self).view(), pseg.view(), c.view()),
    {
        let ghost cv = c;
        match pseg {
            PropexSegment::Index(i) => match self {
                Variant::Array(arr) => {
                    let ghost old_arr = arr@;
                    proof {
                        lemma_items_view(old_arr);
                    }
                    arr.set(*i, c);
                    proof {
                        lemma_items_view_update(old_arr, *i as int, cv);
                    }
                },
                _ => {},
            },
            PropexSegment::Property(k) => match self {
                Variant::Object(obj) => {
                    obj.set_property(k.as_str().to_owned(), c);
                },
                _ => {},
            },
            PropexSegment::Nested(_) => {},
        }
    }

    /// Sets what the path `psegs` from position `k` on addresses; see `set_segs_spec`.
    fn set_segs_from(&mut self, psegs: &[PropexSegment], k: usize, value: Variant, create: bool) -> (r: Result<(), VariantError>)
        requires
            k < psegs@.len(),
            set_segs_spec(old(self).view(), segs_view(psegs@).skip(k as int), value.view(), create) is Done,
        ensures
            set_segs_spec(old(self).view(), segs_view(psegs@).skip(k as int), value.view(), create)
                == SetOutcome::Done(final(self).view(), r),
        decreases psegs@.len() - k,
    {
        let ghost sv = segs_view(psegs@);
        let ghost t = sv.skip(k as int);
        let ghost v0 = self.view();
        let ghost vv = value.view();
        proof {
            crate::propex::lemma_segs_view_index(psegs@);
            assert(t[0] == psegs@[k as int].view());
        }
        if k == psegs.len() - 1 {
            return self.set_seg_property(&psegs[k], value);
        }
        proof {
            assert(t[1] == psegs@[k + 1].view());
            assert(t.drop_first() =~= sv.skip(k + 1));
        }
        let present = self.get_seg(&psegs[k]).is_some();
        if !present {
            if !create {
                return Err(VariantError::OutOfRange);
            }
            let container = match &psegs[k + 1] {
                PropexSegment::Index(_) => Variant::empty_array(),
                PropexSegment::Property(_) => Variant::empty_object(),
                PropexSegment::Nested(_) => {
                    proof {
                        assert(false);
                    }
                    Variant::Null
                },
            };
            proof {
                assert(container.view() == container_for(t[1]));
            }
            match self.set_seg_property(&psegs[k], container) {
                Ok(()) => {},
                Err(e) => {
                    return Err(e);
                },
            }
            proof {
                lemma_set_seg_then_get(v0, t[0], container_for(t[1]));
            }
        }
        let ghost mid = self.view();
        let mut child = self.take_child(&psegs[k]);
        let r = child.set_segs_from(psegs, k + 1, value, create);
        proof {
            lemma_replace_child_twice(mid, t[0], VariantView::Null, child.view());
        }
        self.put_child(&psegs[k], child);
        r
    }

    /// Sets what the path `psegs` addresses to `value`, creating missing steps
    /// when `create_missing` holds; see `set_segs_spec`. A path through a nested
    /// segment is not supported.
    pub fn set_segs_property(&mut self, psegs: &[PropexSegment], value: Variant, create_missing: bool) -> (r: Result<(), VariantError>)
        requires
            !(set_segs_spec(old(self).view(), segs_view(psegs@), value.view(), create_missing) is Panics),
        ensures
            set_segs_spec(old(self).view(), segs_view(psegs@), value.view(), create_missing)
                == SetOutcome::Done(final(self).view(), r),
    {
        proof {
            crate::propex::lemma_segs_view_index(psegs@);
            assert(segs_view(psegs@).skip(0) =~= segs_view(psegs@));
        }
        if psegs.len() == 0 {
            return Err(VariantError::OutOfRange);
        }
        self.set_segs_from(psegs, 0, value, create_missing)
    }

    /// Sets what a property expression addresses to `value`; an expression that
    /// does not parse is an `OutOfRange` error.
    pub fn set_nav_property(&mut self, expr: &str, value: Variant, create_missing: bool) -> (r: Result<(), VariantError>)
        requires
            match nav_path(expr@) {
                Some(p) => !(set_segs_spec(old(self).view(), p, value.view(), create_missing) is Panics),
                None => true,
            },
        ensures
            match nav_path(expr@) {
                Some(p) => set_segs_spec(old(self).view(), p, value.view(), create_missing)
                    == SetOutcome::Done(final(self).view(), r),
                None => r == Err::<(), VariantError>(VariantError::OutOfRange) && final(self).view() == old(self).view(),
            },
    {
        match crate::propex::parse(expr) {
            Ok(path) => {
                let segs = path.as_slice();
                self.set_segs_property(segs, value, create_missing)
            },
            Err(_) => Err(VariantError::OutOfRange),
        }
    }
}

} // verus!

verus! {

/// From a fresh container, the empty path reaches the container and no other
/// path reaches anything.
proof fn lemma_get_segs_container(seg: SegView, q: Seq<SegView>)
    ensures
        get_segs_spec(container_for(seg), q) == (if q.len() == 0 {
            Some(container_for(seg))
        } else {
            None::<VariantView>
        }),
{
}

/// Putting back the child a segment reaches changes nothing.
proof fn lemma_replace_child_same(v: VariantView, seg: SegView)
    requires
        get_seg_spec(v, seg) is Some,
    ensures
        get_seg_spec(v, seg) matches Some(c) && replace_child(v, seg, c) == v,
{
    match seg {
        SegView::Index(i) => match v {
            VariantView::Array(s) => {
                assert(s.update(i as int, s[i as int]) =~= s);
            },
            _ => {},
        },
        SegView::Property(k) => match v {
            VariantView::Object(m) => {
                assert(m.insert(k, m[k]) =~= m);
            },
            _ => {},
        },
        SegView::Nested(_) => {},
    }
}

/// A read gives back a write: after a successful update of what a path
/// addresses, the path reaches the value written, unless the place written is
/// an item of a byte array (which holds the value as a byte).
pub proof fn law_set_segs_then_get(v: VariantView, p: Seq<SegView>, x: VariantView, create: bool)
    requires
        set_segs_spec(v, p, x, create) matches SetOutcome::Done(_, Ok(())),
        !(get_segs_spec(v, p.drop_last()) matches Some(VariantView::Bytes(_))),
    ensures
        set_segs_spec(v, p, x, create) matches SetOutcome::Done(v2, _) && get_segs_spec(v2, p) == Some(x),
    decreases p.len(),
{
    if p.len() == 1 {
        assert(p.drop_last() =~= Seq::<SegView>::empty());
        assert(p.drop_first() =~= Seq::<SegView>::empty());
        if let SetOutcome::Done(v2, _) = set_seg_spec(v, p[0], x) {
            assert(get_seg_spec(v2, p[0]) == Some(x));
            assert(get_segs_spec(x, p.drop_first()) == Some(x));
            assert(get_segs_spec(v2, p) == Some(x));
        }
    } else if p.len() > 1 {
        let rest = p.drop_first();
        assert(p.drop_last().drop_first() =~= rest.drop_last());
        assert(p.drop_last()[0] == p[0]);
        match get_seg_spec(v, p[0]) {
            Some(c) => {
                law_set_segs_then_get(c, rest, x, create);
                if let SetOutcome::Done(c2, _) = set_segs_spec(c, rest, x, create) {
                    lemma_replace_child_twice(v, p[0], c2, c2);
                    let v2 = replace_child(v, p[0], c2);
                    assert(get_segs_spec(v2, p) == Some(x));
                }
            },
            None => {
                let cont = container_for(p[1]);
                if let SetOutcome::Done(v1, _) = set_seg_spec(v, p[0], cont) {
                    lemma_set_seg_then_get(v, p[0], cont);
                    lemma_get_segs_container(p[1], rest.drop_last());
                    law_set_segs_then_get(cont, rest, x, create);
                    if let SetOutcome::Done(c2, _) = set_segs_spec(cont, rest, x, create) {
                        lemma_replace_child_twice(v1, p[0], c2, c2);
                        let v2 = replace_child(v1, p[0], c2);
                                assert(get_segs_spec(v2, p) == Some(x));
                        }
                }
            },
        }
    }
}

/// Without creating missing steps, an update that fails changes nothing.
pub proof fn law_failed_set_segs_keeps_value(v: VariantView, p: Seq<SegView>, x: VariantView)
    requires
        set_segs_spec(v, p, x, false) matches SetOutcome::Done(_, Err(_)),
    ensures
        set_segs_spec(v, p, x, false) == SetOutcome::Done(v, set_segs_spec(v, p, x, false)->Done_1),
    decreases p.len(),
{
    if p.len() > 1 {
        let rest = p.drop_first();
        if let Some(c) = get_seg_spec(v, p[0]) {
            law_failed_set_segs_keeps_value(c, rest, x);
            lemma_replace_child_same(v, p[0]);
        }
    }
}

} // verus!

verus! {

impl Variant {
    /// The items, for change in place, if this is an array.
    pub fn as_array_mut(&mut self) -> (r: Option<&mut Vec<Variant>>)
        ensures
            match *old(self) {
                Variant::Array(a) => r is Some && *r.unwrap() == a && *final(self) == Variant::Array(*final(r.unwrap())),
                _ => r is None && *final(self) == *old(self),
            },
    {
        match self {
            Variant::Array(list) => Some(list),
            _ => None,
        }
    }

    /// The properties, for change in place, if this is an object.
    pub fn as_object_mut(&mut self) -> (r: Option<&mut VariantObjectMap>)
        ensures
            match *old(self) {
                Variant::Object(m) => r is Some && *r.unwrap() == m && *final(self) == Variant::Object(*final(r.unwrap())),
                _ => r is None && *final(self) == *old(self),
            },
    {
        match self {
            Variant::Object(object) => Some(object),
            _ => None,
        }
    }

    /// The bytes, for change in place, if this is a byte array.
    pub fn as_bytes_mut(&mut self) -> (r: Option<&mut Vec<u8>>)
        ensures
            match *old(self) {
                Variant::Bytes(b) => r is Some && *r.unwrap() == b && *final(self) == Variant::Bytes(*final(r.unwrap())),
                _ => r is None && *final(self) == *old(self),
            },
    {
        match self {
            Variant::Bytes(bytes) => Some(bytes),
            _ => None,
        }
    }

    /// The string, for change in place, if this is one.
    pub fn as_str_mut(&mut self) -> (r: Option<&mut String>)
        ensures
            match *old(self) {
                Variant::String(s) => r is Some && *r.unwrap() == s && *final(self) == Variant::String(*final(r.unwrap())),
                _ => r is None && *final(self) == *old(self),
            },
    {
        match self {
            Variant::String(s) => Some(s),
            _ => None,
        }
    }

    /// The item at `index`, for change in place, if this is an array that long.
    pub fn get_array_item_mut(&mut self, index: usize) -> (r: Option<&mut Variant>)
        ensures
            get_seg_spec(old(self).view(), SegView::Index(index)) matches Some(c) ==> r is Some && (*r.unwrap()).view() == c
                && final(self).view() == replace_child(old(self).view(), SegView::Index(index), (*final(r.unwrap())).view()),
            get_seg_spec(old(self).view(), SegView::Index(index)) is None ==> r is None && final(self).view() == old(self).view(),
    {
        match self {
            Variant::Array(arr) => {
                proof {
                    lemma_items_view(arr@);
                }
                if index < arr.len() {
                    proof {
                        lemma_items_view_update_all(arr@, index as int);
                        lemma_array_view();
                    }
                    Some(&mut arr[index])
                } else {
                    None
                }
            },
            _ => None,
        }
    }

    /// The property `prop`, for change in place, if this is an object that has it.
    pub fn get_object_property_mut(&mut self, prop: &str) -> (r: Option<&mut Variant>)
        ensures
            get_seg_spec(old(self).view(), SegView::Property(prop@)) matches Some(c) ==> r is Some && (*r.unwrap()).view() == c
                && final(self).view() == replace_child(old(self).view(), SegView::Property(prop@), (*final(r.unwrap())).view()),
            get_seg_spec(old(self).view(), SegView::Property(prop@)) is None ==> r is None && final(self).view() == old(self).view(),
    {
        match self {
            Variant::Object(obj) => obj.get_mut(prop),
            _ => None,
        }
    }

    /// What one segment reaches, for change in place; a nested segment reaches nothing.
    pub fn get_seg_mut(&mut self, pseg: &PropexSegment) -> (r: Option<&mut Variant>)
        ensures
            get_seg_spec(old(self).view(), pseg.view()) matches Some(c) ==> r is Some && (*r.unwrap()).view() == c
                && final(self).view() == replace_child(old(self).view(), pseg.view(), (*final(r.unwrap())).view()),
            get_seg_spec(old(self).view(), pseg.view()) is None ==> r is None && final(self).view() == old(self).view(),
    {
        match pseg {
            PropexSegment::Index(index) => self.get_array_item_mut(*index),
            PropexSegment::Property(prop) => self.get_object_property_mut(prop.as_str()),
            PropexSegment::Nested(_) => None,
        }
    }

    /// What the path `psegs` from position `k` on reaches, for change in place.
    fn get_segs_mut_from(&mut self, psegs: &[PropexSegment], k: usize) -> (r: Option<&mut Variant>)
        requires
            k <= psegs@.len(),
        ensures
            get_segs_spec(old(self).view(), segs_view(psegs@).skip(k as int)) matches Some(c) ==> r is Some
                && (*r.unwrap()).view() == c && final(self).view() == replace_path(
                old(self).view(),
                segs_view(psegs@).skip(k as int),
                (*final(r.unwrap())).view(),
            ),
            get_segs_spec(old(self).view(), segs_view(psegs@).skip(k as int)) is None ==> r is None && final(self).view()
                == old(self).view(),
        decreases psegs@.len() - k,
    {
        let ghost sv = segs_view(psegs@);
        proof {
            crate::propex::lemma_segs_view_index(psegs@);
        }
        if k == psegs.len() {
            proof {
                assert(sv.skip(k as int).len() == 0);
            }
            return Some(self);
        }
        proof {
            assert(sv.skip(k as int)[0] == psegs@[k as int].view());
            assert(sv.skip(k as int).drop_first() =~= sv.skip(k + 1));
        }
        proof {
            if get_seg_spec(self.view(), sv[k as int]) is Some {
                lemma_replace_child_same(self.view(), sv[k as int]);
            }
        }
        match self.get_seg_mut(&psegs[k]) {
            Some(c) => c.get_segs_mut_from(psegs, k + 1),
            None => None,
        }
    }

    /// What a path reaches, for change in place; the empty path reaches this variant.
    pub fn get_segs_mut(&mut self, psegs: &[PropexSegment]) -> (r: Option<&mut Variant>)
        ensures
            get_segs_spec(old(self).view(), segs_view(psegs@)) matches Some(c) ==> r is Some && (*r.unwrap()).view() == c
                && final(self).view() == replace_path(old(self).view(), segs_view(psegs@), (*final(r.unwrap())).view()),
            get_segs_spec(old(self).view(), segs_view(psegs@)) is None ==> r is None && final(self).view() == old(self).view(),
    {
        proof {
            assert(segs_view(psegs@).skip(0) =~= segs_view(psegs@));
        }
        self.get_segs_mut_from(psegs, 0)
    }
}

/// The value of an array is the sequence of the values of its items.
proof fn lemma_array_view()
    ensures
        forall|a: Vec<Variant>| #[trigger] Variant::Array(a).view() == VariantView::Array(items_view(a@)),
{
}

/// Replacing an item of a sequence of variants replaces its value, whatever the new item.
proof fn lemma_items_view_update_all(s: Seq<Variant>, i: int)
    requires
        0 <= i < s.len(),
    ensures
        forall|x: Variant| #[trigger] items_view(s.update(i, x)) == items_view(s).update(i, x.view()),
{
    assert forall|x: Variant| #[trigger] items_view(s.update(i, x)) == items_view(s).update(i, x.view()) by {
        lemma_items_view_update(s, i, x);
    }
}

/// `v` with what the path `p` reaches replaced by `x`; `v` itself where the
/// path reaches nothing.
pub open spec fn replace_path(v: VariantView, p: Seq<SegView>, x: VariantView) -> VariantView
    decreases p.len(),
{
    if p.len() == 0 {
        x
    } else {
        match get_seg_spec(v, p[0]) {
            Some(c) => replace_child(v, p[0], replace_path(c, p.drop_first(), x)),
            None => v,
        }
    }
}

impl VariantObjectMap {
    /// The value of the property `key`, for change in place, if there is one.
    pub fn get_mut(&mut self, key: &str) -> (r: Option<&mut Variant>)
        ensures
            old(self).view().contains_key(key@) ==> r is Some && (*r.unwrap()).view() == old(self).view()[key@]
                && final(self).view() == old(self).view().insert(key@, (*final(r.unwrap())).view()),
            !old(self).view().contains_key(key@) ==> r is None && final(self).view() == old(self).view(),
    {
        proof {
            use_type_invariant(&*self);
            lemma_entries_view(self.keys@, self.values@);
        }
        match self.find_key(key) {
            Ok(i) => {
                proof {
                    lemma_entries_view_update(self.keys@, self.values@, i as int);
                    lemma_map_view();
                }
                Some(&mut self.values[i])
            },
            Err(_) => {
                proof {
                    if self.view().contains_key(key@) {
                        let i = choose|i: int| 0 <= i < self.values@.len() && self.keys@[i]@ == key@;
                        lemma_key_lt_total(key@, key@);
                    }
                }
                None
            },
        }
    }
}

} // verus!

verus! {

/// A copy of a regular expression (`Regex::clone`, derived): the copy has the
/// same pattern; nothing else of it is stated.
#[verifier::external_body]
fn clone_regex(re: &regex::Regex) -> (r: regex::Regex)
    ensures
        regex_pattern(r) == regex_pattern(*re),
{
    re.clone()
}

/// Copies of the bytes.
fn copy_bytes(b: &Vec<u8>) -> (r: Vec<u8>)
    ensures
        r@ == b@,
{
    let mut r: Vec<u8> = Vec::new();
    for i in 0..b.len()
        invariant
            r@ == b@.subrange(0, i as int),
    {
        r.push(b[i]);
        proof {
            assert(b@.subrange(0, i + 1) =~= b@.subrange(0, i as int).push(b@[i as int]));
        }
    }
    proof {
        assert(b@.subrange(0, b@.len() as int) =~= b@);
    }
    r
}

impl Clone for Variant {
    /// A deep copy: equal in value, sharing nothing.
    fn clone(&self) -> (r: Variant)
        ensures
            r.view() == self.view(),
        decreases self,
    {
        broadcast use vstd::std_specs::vec::axiom_vec_index_decreases;

        match self {
            Variant::Null => Variant::Null,
            Variant::Number(n) => Variant::Number(n.clone()),
            Variant::String(s) => Variant::String(s.as_str().to_owned()),
            Variant::Bool(b) => Variant::Bool(*b),
            Variant::Date(d) => Variant::Date(*d),
            Variant::Regexp(re) => Variant::Regexp(clone_regex(re)),
            Variant::Bytes(b) => Variant::Bytes(copy_bytes(b)),
            Variant::Array(a) => {
                let mut items: Vec<Variant> = Vec::new();
                proof {
                    lemma_items_view(a@);
                }
                for i in 0..a.len()
                    invariant
                        *self == Variant::Array(*a),
                        items@.len() == i,
                        forall|j: int| 0 <= j < i ==> #[trigger] items@[j].view() == a@[j].view(),
                {
                    proof {
                        assert(decreases_to!(*self => self->Array_0));
                        assert(decreases_to!(self->Array_0 => self->Array_0[i as int]));
                    }
                    items.push(a[i].clone());
                }
                proof {
                    lemma_items_view(items@);
                    assert(items_view(items@) =~= items_view(a@));
                }
                Variant::Array(items)
            },
            Variant::Object(m) => {
                proof {
                    use_type_invariant(m);
                    lemma_entries_view(m.keys@, m.values@);
                }
                let mut keys: Vec<String> = Vec::new();
                let mut values: Vec<Variant> = Vec::new();
                for i in 0..m.values.len()
                    invariant
                        *self == Variant::Object(*m),
                        keys_sorted(m.keys@),
                        m.keys@.len() == m.values@.len(),
                        keys@.len() == i,
                        values@.len() == i,
                        forall|j: int| 0 <= j < i ==> #[trigger] keys@[j]@ == m.keys@[j]@,
                        forall|j: int| 0 <= j < i ==> #[trigger] values@[j].view() == m.values@[j].view(),
                {
                    proof {
                        assert(decreases_to!(*self => self->Object_0));
                        assert(decreases_to!(self->Object_0 => self->Object_0.values));
                        assert(decreases_to!(self->Object_0.values => self->Object_0.values[i as int]));
                    }
                    keys.push(m.keys[i].as_str().to_owned());
                    values.push(m.values[i].clone());
                }
                proof {
                    assert(keys_sorted(keys@)) by {
                        assert forall|a: int, b: int| 0 <= a < b < keys@.len() implies key_lt(keys@[a]@, keys@[b]@) by {
                            assert(keys@[a]@ == m.keys@[a]@);
                            assert(keys@[b]@ == m.keys@[b]@);
                        }
                    }
                    lemma_entries_view(keys@, values@);
                    assert(entries_view(keys@, values@) =~= entries_view(m.keys@, m.values@)) by {
                        assert forall|k: Seq<char>| #[trigger] entries_view(keys@, values@).contains_key(k)
                            <==> entries_view(m.keys@, m.values@).contains_key(k) by {
                            if entries_view(keys@, values@).contains_key(k) {
                                let j = choose|j: int| 0 <= j < values@.len() && keys@[j]@ == k;
                                assert(m.keys@[j]@ == k);
                            }
                            if entries_view(m.keys@, m.values@).contains_key(k) {
                                let j = choose|j: int| 0 <= j < m.values@.len() && m.keys@[j]@ == k;
                                assert(keys@[j]@ == k);
                            }
                        }
                        assert forall|k: Seq<char>| #[trigger] entries_view(keys@, values@).contains_key(k) implies
                            entries_view(keys@, values@)[k] == entries_view(m.keys@, m.values@)[k] by {
                            let j = choose|j: int| 0 <= j < values@.len() && keys@[j]@ == k;
                            assert(m.keys@[j]@ == k);
                        }
                    }
                }
                Variant::Object(VariantObjectMap { keys, values })
            },
        }
    }
}

} // verus!

verus! {

/// A read gives back a write through a property expression: after a successful
/// `set_nav_property`, `get_nav_property` with the same expression reaches the
/// value written, unless the place written is an item of a byte array.
pub proof fn law_set_nav_then_get(v: VariantView, expr: Seq<char>, x: VariantView, create: bool)
    requires
        nav_path(expr) matches Some(p) && set_segs_spec(v, p, x, create) matches SetOutcome::Done(_, Ok(()))
            && !(get_segs_spec(v, p.drop_last()) matches Some(VariantView::Bytes(_))),
    ensures
        nav_path(expr) matches Some(p) && set_segs_spec(v, p, x, create) matches SetOutcome::Done(v2, _)
            && get_segs_spec(v2, p) == Some(x),
{
    if let Some(p) = nav_path(expr) {
        law_set_segs_then_get(v, p, x, create);
    }
}

/// A write through the reference that `get_segs_mut` hands out is read back by
/// `get_segs` along the same path.
pub proof fn law_replace_path_then_get(v: VariantView, p: Seq<SegView>, x: VariantView)
    requires
        get_segs_spec(v, p) is Some,
    ensures
        get_segs_spec(replace_path(v, p, x), p) == Some(x),
    decreases p.len(),
{
    if p.len() > 0 {
        if let Some(c) = get_seg_spec(v, p[0]) {
            law_replace_path_then_get(c, p.drop_first(), x);
            lemma_replace_child_twice(v, p[0], replace_path(c, p.drop_first(), x), replace_path(c, p.drop_first(), x));
        }
    }
}

} // verus!

verus! {

// ---------------------------------------------------------------------------
// Bytes from numbers
// ---------------------------------------------------------------------------

/// The biased exponent field of the IEEE-754 bits `b`.
pub open spec fn float_exp_field(b: u64) -> u64 {
    (b >> 52u64) & 0x7ffu64
}

/// The significand of the finite float with bits `b`, the implicit leading one
/// included for a normal number.
pub open spec fn float_significand(b: u64) -> nat {
    let m = (b & 0xf_ffff_ffff_ffffu64) as nat;
    if float_exp_field(b) == 0 {
        m
    } else {
        m + vstd::arithmetic::power2::pow2(52)
    }
}

/// The binary exponent of the finite float with bits `b`: its magnitude is
/// `float_significand(b) * 2^float_scale(b)`.
pub open spec fn float_scale(b: u64) -> int {
    if float_exp_field(b) == 0 {
        -1074
    } else {
        float_exp_field(b) - 1075
    }
}

/// What `f as u8` gives for the float `f` with bits `b` when `0.0 <= f <= 255.0`
/// (its integer part); `None` when `f` is outside that range.
pub open spec fn float_byte(b: u64) -> Option<u8> {
    let s = float_significand(b);
    let x = float_scale(b);
    if s == 0 {
        Some(0u8)
    } else if (b >> 63u64) == 1 {
        None
    } else if x >= 0 {
        if s * vstd::arithmetic::power2::pow2(x as nat) <= 255 {
            Some((s * vstd::arithmetic::power2::pow2(x as nat)) as u8)
        } else {
            None
        }
    } else if s <= 255 * vstd::arithmetic::power2::pow2((-x) as nat) {
        Some((s / vstd::arithmetic::power2::pow2((-x) as nat)) as u8)
    } else {
        None
    }
}

/// See `float_byte`.
fn float_bits_to_byte(b: u64) -> (r: Option<u8>)
    ensures
        r == float_byte(b),
{
    let e = (b >> 52u64) & 0x7ffu64;
    let m = b & 0xf_ffff_ffff_ffffu64;
    proof {
        vstd::arithmetic::power2::lemma2_to64_rest();
        assert(m <= 0xf_ffff_ffff_ffffu64) by (bit_vector)
            requires
                m == b & 0xf_ffff_ffff_ffffu64,
        ;
        assert(e <= 0x7ff) by (bit_vector)
            requires
                e == (b >> 52u64) & 0x7ffu64,
        ;
    }
    let sig: u64 = if e == 0 { m } else { m + 0x10_0000_0000_0000u64 };
    assert(sig == float_significand(b));
    if sig == 0 {
        return Some(0);
    }
    if (b >> 63u64) == 1 {
        return None;
    }
    if e >= 1075 {
        proof {
            vstd::arithmetic::power2::lemma_pow2_pos((e - 1075) as nat);
            vstd::arithmetic::mul::lemma_mul_inequality(1, vstd::arithmetic::power2::pow2((e - 1075) as nat) as int, sig as int);
            assert(sig as int * vstd::arithmetic::power2::pow2((e - 1075) as nat) >= sig) by (nonlinear_arith)
                requires
                    vstd::arithmetic::power2::pow2((e - 1075) as nat) >= 1,
                    sig >= 0,
            ;
        }
        return None;
    }
    let shift: u64 = if e == 0 { 1074 } else { 1075 - e };
    assert(shift as int == -float_scale(b));
    let ghost p = vstd::arithmetic::power2::pow2(shift as nat);
    if shift > 52 {
        proof {
            if shift > 53 {
                vstd::arithmetic::power2::lemma_pow2_strictly_increases(53, shift as nat);
            }
            assert(sig < 0x20_0000_0000_0000u64);
            vstd::arithmetic::div_mod::lemma_basic_div(sig as int, p as int);
            assert(sig <= 255 * p) by (nonlinear_arith)
                requires
                    sig < p,
            ;
        }
        return Some(0);
    }
    proof {
        vstd::arithmetic::power2::lemma_pow2_pos(shift as nat);
        if shift < 52 {
            vstd::arithmetic::power2::lemma_pow2_strictly_increases(shift as nat, 52);
        }
        assert(255 * p <= 255 * 0x10_0000_0000_0000int) by (nonlinear_arith)
            requires
                p <= 0x10_0000_0000_0000int,
        ;
        vstd::bits::lemma_u64_shl_is_mul(255, shift);
        vstd::bits::lemma_u64_shr_is_div(sig, shift);
    }
    let limit = 255u64 << shift;
    if sig <= limit {
        proof {
            vstd::arithmetic::div_mod::lemma_div_is_ordered(sig as int, (255 * p) as int, p as int);
            vstd::arithmetic::div_mod::lemma_div_by_multiple(255, p as int);
        }
        Some((sig >> shift) as u8)
    } else {
        None
    }
}

/// Why an item does not convert to a byte.
pub enum ByteError {
    /// A number outside `0..=255`.
    OutOfRange,
    /// Not a number.
    NotANumber,
}

/// The byte an item converts to: an integer in `0..=255`, or a float in
/// `0.0..=255.0`, taken by its integer part.
pub open spec fn item_byte(v: VariantView) -> Result<u8, ByteError> {
    match v {
        VariantView::Number(n) => match n.i64_value() {
            Some(i) => if 0 <= i <= 255 {
                Ok(i as u8)
            } else {
                Err(ByteError::OutOfRange)
            },
            None => match n.u64_value() {
                Some(u) => if u <= 255 {
                    Ok(u as u8)
                } else {
                    Err(ByteError::OutOfRange)
                },
                None => match n.f64_bits() {
                    Some(b) => match float_byte(b) {
                        Some(x) => Ok(x),
                        None => Err(ByteError::OutOfRange),
                    },
                    None => Err(ByteError::OutOfRange),
                },
            },
        },
        _ => Err(ByteError::NotANumber),
    }
}

/// The bytes the items convert to, or the error of the first item that does not.
pub open spec fn items_bytes(items: Seq<VariantView>) -> Result<Seq<u8>, ByteError>
    decreases items.len(),
{
    if items.len() == 0 {
        Ok(Seq::empty())
    } else {
        match items_bytes(items.drop_last()) {
            Err(e) => Err(e),
            Ok(bs) => match item_byte(items.last()) {
                Ok(x) => Ok(bs.push(x)),
                Err(e) => Err(e),
            },
        }
    }
}

/// Once an item does not convert, neither do the items it is the first of.
proof fn lemma_items_bytes_err_stays(items: Seq<VariantView>, k: int)
    requires
        0 <= k <= items.len(),
        items_bytes(items.take(k)) is Err,
    ensures
        items_bytes(items) == items_bytes(items.take(k)),
    decreases items.len() - k,
{
    if k < items.len() {
        assert(items.take(k + 1).drop_last() =~= items.take(k));
        lemma_items_bytes_err_stays(items, k + 1);
    } else {
        assert(items.take(k) =~= items);
    }
}

impl Number {
    /// Every number is an integer that fits in `i64`, a non-negative integer, or a float.
    pub proof fn lemma_number_kinds(self)
        ensures
            self.i64_value() is Some || self.u64_value() is Some || self.f64_bits() is Some,
    {
    }
}

impl Variant {
    /// The byte array of `vec`, each item converted as `item_byte` says; the
    /// first item that does not convert is an error.
    pub fn bytes_from_vec(vec: &[Variant]) -> (r: Result<Variant, EdgelinkError>)
        ensures
            match items_bytes(items_view(vec@)) {
                Ok(bs) => r matches Ok(v) && v.view() == VariantView::Bytes(bs),
                Err(ByteError::OutOfRange) => r matches Err(EdgelinkError::OutOfRange),
                Err(ByteError::NotANumber) => r matches Err(EdgelinkError::InvalidOperation(m)) && m@
                    == "Invalid Variant type"@,
            },
    {
        let ghost iv = items_view(vec@);
        proof {
            lemma_items_view(vec@);
        }
        let mut bytes: Vec<u8> = Vec::new();
        let mut i: usize = 0;
        while i < vec.len()
            invariant
                i <= vec@.len(),
                iv == items_view(vec@),
                iv.len() == vec@.len(),
                forall|j: int| 0 <= j < vec@.len() ==> #[trigger] iv[j] == vec@[j].view(),
                items_bytes(iv.take(i as int)) == Ok::<Seq<u8>, ByteError>(bytes@),
            decreases vec.len() - i,
        {
            proof {
                assert(iv.take(i + 1).drop_last() =~= iv.take(i as int));
                assert(iv.take(i + 1).last() == vec@[i as int].view());
                if item_byte(iv[i as int]) is Err {
                    lemma_items_bytes_err_stays(iv, i + 1);
                }
            }
            let byte: u8 = match &vec[i] {
                Variant::Number(n) => {
                    proof {
                        use_type_invariant(n);
                    }
                    match n.as_i64() {
                        Some(x) => {
                            if 0 <= x && x <= 255 {
                                x as u8
                            } else {
                                return Err(EdgelinkError::OutOfRange);
                            }
                        },
                        None => match n.as_u64() {
                            Some(u) => {
                                if u <= 255 {
                                    u as u8
                                } else {
                                    return Err(EdgelinkError::OutOfRange);
                                }
                            },
                            None => match n.as_f64_bits() {
                                Some(b) => match float_bits_to_byte(b) {
                                    Some(x) => x,
                                    None => {
                                        return Err(EdgelinkError::OutOfRange);
                                    },
                                },
                                None => {
                                    proof {
                                        n.lemma_number_kinds();
                                        assert(false);
                                    }
                                    return Err(EdgelinkError::OutOfRange);
                                },
                            },
                        },
                    }
                },
                _ => {
                    return Err(EdgelinkError::InvalidOperation("Invalid Variant type".to_owned()));
                },
            };
            bytes.push(byte);
            i = i + 1;
        }
        proof {
            assert(iv.take(i as int) =~= iv);
        }
        Ok(Variant::Bytes(bytes))
    }
}


/// The byte a JSON array item gives: an integer in `0..=255`; the message of
/// the error otherwise.
pub open spec fn json_item_byte(v: VariantView) -> Result<u8, Seq<char>> {
    match v {
        VariantView::Number(n) => match n.i64_value() {
            Some(i) => if 0 <= i <= 255 {
                Ok(i as u8)
            } else {
                Err("Invalid byte value"@)
            },
            None => Err("Invalid byte JSON value type"@),
        },
        _ => Err("Invalid byte JSON value type"@),
    }
}

/// The bytes a JSON array gives, or the error of its first item that gives none.
pub open spec fn json_items_bytes(items: Seq<VariantView>) -> Result<Seq<u8>, Seq<char>>
    decreases items.len(),
{
    if items.len() == 0 {
        Ok(Seq::empty())
    } else {
        match json_items_bytes(items.drop_last()) {
            Err(e) => Err(e),
            Ok(bs) => match json_item_byte(items.last()) {
                Ok(x) => Ok(bs.push(x)),
                Err(e) => Err(e),
            },
        }
    }
}

/// Once an item gives no byte, neither do the items it is the first of.
proof fn lemma_json_items_bytes_err_stays(items: Seq<VariantView>, k: int)
    requires
        0 <= k <= items.len(),
        json_items_bytes(items.take(k)) is Err,
    ensures
        json_items_bytes(items) == json_items_bytes(items.take(k)),
    decreases items.len() - k,
{
    if k < items.len() {
        assert(items.take(k + 1).drop_last() =~= items.take(k));
        lemma_json_items_bytes_err_stays(items, k + 1);
    } else {
        assert(items.take(k) =~= items);
    }
}

/// The bytes a JSON value gives: those of an array of integers in `0..=255`, or
/// the UTF-8 bytes of a string; the message of the error otherwise.
pub open spec fn json_bytes(v: VariantView) -> Result<Seq<u8>, Seq<char>> {
    match v {
        VariantView::Array(items) => json_items_bytes(items),
        VariantView::String(s) => Ok(vstd::utf8::encode_utf8(s)),
        _ => Err("Invalid byte JSON Value"@),
    }
}

impl Variant {
    /// The byte array a JSON value gives (see `json_bytes`); the JSON value is
    /// taken as the variant it reads as. What gives no bytes is `NotSupported`.
    pub fn bytes_from_json_value(jv: &Variant) -> (r: Result<Variant, EdgelinkError>)
        ensures
            match json_bytes(jv.view()) {
                Ok(bs) => r matches Ok(v) && v.view() == VariantView::Bytes(bs),
                Err(m) => r matches Err(EdgelinkError::NotSupported(t)) && t@ == m,
            },
    {
        proof {
            reveal_strlit("Invalid byte value");
            reveal_strlit("Invalid byte JSON value type");
            reveal_strlit("Invalid byte JSON Value");
        }
        match jv {
            Variant::Array(array) => {
                let ghost iv = items_view(array@);
                proof {
                    lemma_items_view(array@);
                }
                let mut bytes: Vec<u8> = Vec::new();
                let mut i: usize = 0;
                while i < array.len()
                    invariant
                        i <= array@.len(),
                        iv == items_view(array@),
                        iv.len() == array@.len(),
                        forall|j: int| 0 <= j < array@.len() ==> #[trigger] iv[j] == array@[j].view(),
                        json_items_bytes(iv.take(i as int)) == Ok::<Seq<u8>, Seq<char>>(bytes@),
                        *jv == Variant::Array(*array),
                    decreases array.len() - i,
                {
                    proof {
                        reveal_strlit("Invalid byte value");
                        reveal_strlit("Invalid byte JSON value type");
                        assert(iv.take(i + 1).drop_last() =~= iv.take(i as int));
                        assert(iv.take(i + 1).last() == array@[i as int].view());
                        if json_item_byte(iv[i as int]) is Err {
                            lemma_json_items_bytes_err_stays(iv, i + 1);
                        }
                    }
                    match array[i].as_i64() {
                        Some(byte) => {
                            if !(0 <= byte && byte <= 0xFF) {
                                return Err(EdgelinkError::NotSupported("Invalid byte value".to_owned()));
                            }
                            bytes.push(byte as u8);
                        },
                        None => {
                            return Err(EdgelinkError::NotSupported("Invalid byte JSON value type".to_owned()));
                        },
                    }
                    i = i + 1;
                }
                proof {
                    assert(iv.take(i as int) =~= iv);
                }
                Ok(Variant::Bytes(bytes))
            },
            Variant::String(string) => {
                let b = string.as_str().as_bytes();
                Ok(Variant::Bytes(copy_slice(b)))
            },
            _ => Err(EdgelinkError::NotSupported("Invalid byte JSON Value".to_owned())),
        }
    }
}

/// A vector holding the bytes of `b`.
fn copy_slice(b: &[u8]) -> (r: Vec<u8>)
    ensures
        r@ == b@,
{
    let mut r: Vec<u8> = Vec::new();
    for i in 0..b.len()
        invariant
            r@ == b@.subrange(0, i as int),
    {
        r.push(b[i]);
        proof {
            assert(b@.subrange(0, i + 1) =~= b@.subrange(0, i as int).push(b@[i as int]));
        }
    }
    proof {
        assert(b@.subrange(0, b@.len() as int) =~= b@);
    }
    r
}

} // verus!

verus! {

/// Two byte sequences are the same.
fn same_bytes(a: &Vec<u8>, b: &Vec<u8>) -> (r: bool)
    ensures
        r == (a@ == b@),
{
    if a.len() != b.len() {
        return false;
    }
    let mut i: usize = 0;
    while i < a.len()
        invariant
            a@.len() == b@.len(),
            i <= a@.len(),
            forall|j: int| 0 <= j < i ==> a@[j] == b@[j],
        decreases a.len() - i,
    {
        if a[i] != b[i] {
            return false;
        }
        i = i + 1;
    }
    proof {
        assert(a@ =~= b@);
    }
    true
}

impl PartialEq for Variant {
    /// Equal kinds with equal contents; regular expressions are compared by
    /// their patterns.
    fn eq(&self, other: &Variant) -> (r: bool)
        decreases self,
    {
        broadcast use vstd::std_specs::vec::axiom_vec_index_decreases;

        proof {
            lemma_same_value_step(self.view(), other.view());
        }
        match (self, other) {
            (Variant::Null, Variant::Null) => true,
            (Variant::Number(a), Variant::Number(b)) => a == b,
            (Variant::String(a), Variant::String(b)) => crate::text::str_eq(a.as_str(), b.as_str()),
            (Variant::Bool(a), Variant::Bool(b)) => *a == *b,
            (Variant::Date(a), Variant::Date(b)) => same_time(a, b),
            (Variant::Regexp(a), Variant::Regexp(b)) => crate::text::str_eq(regex_as_str(a), regex_as_str(b)),
            (Variant::Bytes(a), Variant::Bytes(b)) => same_bytes(a, b),
            (Variant::Array(a), Variant::Array(b)) => {
                proof {
                    lemma_items_view(a@);
                    lemma_items_view(b@);
                }
                if a.len() != b.len() {
                    return false;
                }
                let mut i: usize = 0;
                while i < a.len()
                    invariant
                        *self == Variant::Array(*a),
                        *other == Variant::Array(*b),
                        a@.len() == b@.len(),
                        i <= a@.len(),
                        items_view(a@).len() == a@.len(),
                        items_view(b@).len() == b@.len(),
                        forall|j: int| 0 <= j < a@.len() ==> #[trigger] items_view(a@)[j] == a@[j].view(),
                        forall|j: int| 0 <= j < b@.len() ==> #[trigger] items_view(b@)[j] == b@[j].view(),
                        forall|j: int| 0 <= j < i ==> #[trigger] same_value(items_view(a@)[j], items_view(b@)[j]),
                    decreases a.len() - i,
                {
                    proof {
                        assert(decreases_to!(*self => self->Array_0));
                        assert(decreases_to!(self->Array_0 => self->Array_0[i as int]));
                    }
                    if !a[i].eq(&b[i]) {
                        proof {
                            assert(!same_value(items_view(a@)[i as int], items_view(b@)[i as int]));
                            lemma_same_value_step(self.view(), other.view());
                        }
                        return false;
                    }
                    i = i + 1;
                }
                true
            },
            (Variant::Object(m), Variant::Object(n)) => {
                proof {
                    use_type_invariant(m);
                    use_type_invariant(n);
                    lemma_entries_view(m.keys@, m.values@);
                    lemma_entries_view(n.keys@, n.values@);
                }
                if m.values.len() != n.len() {
                    return false;
                }
                let mut i: usize = 0;
                while i < m.values.len()
                    invariant
                        *self == Variant::Object(*m),
                        *other == Variant::Object(*n),
                        keys_sorted(m.keys@),
                        m.keys@.len() == m.values@.len(),
                        m.values@.len() == n.view().len(),
                        i <= m.values@.len(),
                        forall|j: int| 0 <= j < m.values@.len() ==> #[trigger] m.view().contains_key(m.keys@[j]@)
                            && m.view()[m.keys@[j]@] == m.values@[j].view(),
                        forall|k: Seq<char>| #[trigger] m.view().contains_key(k) ==> exists|j: int|
                            0 <= j < m.values@.len() && m.keys@[j]@ == k,
                        m.view().dom().finite(),
                        n.view().dom().finite(),
                        m.view().dom().len() == m.values@.len(),
                        forall|j: int| 0 <= j < i ==> #[trigger] n.view().contains_key(m.keys@[j]@)
                            && same_value(m.values@[j].view(), n.view()[m.keys@[j]@]),
                    decreases m.values.len() - i,
                {
                    proof {
                        assert(decreases_to!(*self => self->Object_0));
                        assert(decreases_to!(self->Object_0 => self->Object_0.values));
                        assert(decreases_to!(self->Object_0.values => self->Object_0.values[i as int]));
                    }
                    match n.get(m.keys[i].as_str()) {
                        Some(w) => {
                            let same = m.values[i].eq(w);
                            if !same {
                                proof {
                                    let k = m.keys@[i as int]@;
                                    assert(m.view().contains_key(m.keys@[i as int]@));
                                    assert(m.values@[i as int].view() == m.view()[k]);
                                    lemma_same_value_step(self.view(), other.view());
                                    assert(!same_value(m.view()[k], n.view()[k]));
                                }
                                return false;
                            }
                            proof {
                                assert(n.view().contains_key(m.keys@[i as int]@)
                                    && same_value(m.values@[i as int].view(), n.view()[m.keys@[i as int]@]));
                                assert forall|j: int| 0 <= j < i + 1 implies #[trigger] n.view().contains_key(m.keys@[j]@)
                                    && same_value(m.values@[j].view(), n.view()[m.keys@[j]@]) by {
                                    if j < i {
                                        assert(n.view().contains_key(m.keys@[j]@));
                                    }
                                }
                            }
                        },
                        None => {
                            proof {
                                let k = m.keys@[i as int]@;
                                assert(m.view().dom().contains(k) && !n.view().dom().contains(k));
                                lemma_same_value_step(self.view(), other.view());
                            }
                            return false;
                        },
                    }
                    i = i + 1;
                }
                proof {
                    assert(m.view().dom().subset_of(n.view().dom())) by {
                        assert forall|k: Seq<char>| #[trigger] m.view().dom().contains(k) implies n.view().dom().contains(k) by {
                            let j = choose|j: int| 0 <= j < m.values@.len() && m.keys@[j]@ == k;
                        }
                    }
                    vstd::set_lib::lemma_subset_equality(m.view().dom(), n.view().dom());
                    assert forall|k: Seq<char>| #[trigger] m.view().contains_key(k) implies same_value(
                        m.view()[k],
                        n.view()[k],
                    ) by {
                        let j = choose|j: int| 0 <= j < m.values@.len() && m.keys@[j]@ == k;
                    }
                    assert(m.view().dom() =~= n.view().dom());
                }
                true
            },
            _ => false,
        }
    }
}

impl vstd::std_specs::cmp::PartialEqSpecImpl for Variant {
    open spec fn obeys_eq_spec() -> bool {
        true
    }

    open spec fn eq_spec(&self, other: &Variant) -> bool {
        same_value(self.view(), other.view())
    }
}

} // verus!

verus! {

/// Creating missing steps, a path of properties can always be set in an empty
/// object, and reads back the value set.
pub proof fn law_property_path_created_in_empty_object(p: Seq<SegView>, x: VariantView)
    requires
        p.len() >= 1,
        forall|i: int| 0 <= i < p.len() ==> #[trigger] p[i] is Property,
    ensures
        set_segs_spec(VariantView::Object(Map::empty()), p, x, true) matches SetOutcome::Done(v2, Ok(()))
            && get_segs_spec(v2, p) == Some(x),
    decreases p.len(),
{
    let v = VariantView::Object(Map::empty());
    assert(p[0] is Property);
    if p.len() > 1 {
        let rest = p.drop_first();
        assert(p[1] is Property);
        assert forall|i: int| 0 <= i < rest.len() implies #[trigger] rest[i] is Property by {
            assert(rest[i] == p[i + 1]);
        }
        law_property_path_created_in_empty_object(rest, x);
        assert(container_for(p[1]) == v);
        assert(get_seg_spec(v, p[0]) is None);
        assert(p.drop_last()[0] == p[0]);
    } else {
        assert(p.drop_last() =~= Seq::<SegView>::empty());
    }
    law_set_segs_then_get(v, p, x, true);
}

/// The bytes of a JSON string, and the plain bytes of a string, are a valid
/// UTF-8 text that reads back as the string.
pub proof fn law_string_bytes_are_its_utf8(s: Seq<char>)
    ensures
        json_bytes(VariantView::String(s)) matches Ok(b) && vstd::utf8::valid_utf8(b) && vstd::utf8::decode_utf8(b) == s,
        plain_bytes_spec(VariantView::String(s)) matches Some(b) && vstd::utf8::valid_utf8(b)
            && vstd::utf8::decode_utf8(b) == s,
{
    vstd::utf8::encode_utf8_valid_utf8(s);
    vstd::utf8::encode_utf8_decode_utf8(s);
}

} // verus!
