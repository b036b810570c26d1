//! Identifiers of flows elements: 64-bit values written as 16 lowercase hex digits.

use vstd::prelude::*;
use vstd::std_specs::cmp::PartialEqSpec;
use vstd::arithmetic::div_mod::{lemma_div_denominator, lemma_fundamental_div_mod, lemma_div_pos_is_pos, lemma_basic_div, lemma_div_is_ordered_by_denominator};
use vstd::arithmetic::power::{pow, lemma_pow_positive, lemma_pow_adds, lemma_pow1};

use crate::EdgelinkError;
use crate::uid;

verus! {

/// Identifier of a flows element (flow, node, group ...).
#[derive(Copy, Clone, Debug, Hash, Eq, PartialOrd, Ord)]
pub struct ElementId(u64);

impl PartialEq for ElementId {
    /// Identifiers are equal when their values are.
    fn eq(&self, other: &ElementId) -> (r: bool) {
        self.0 == other.0
    }
}

impl vstd::std_specs::cmp::PartialEqSpecImpl for ElementId {
    open spec fn obeys_eq_spec() -> bool {
        true
    }

    open spec fn eq_spec(&self, other: &ElementId) -> bool {
        *self == *other
    }
}

/// The lowercase hexadecimal digit for `d` (`0 <= d < 16`).
pub open spec fn hex_digit_char(d: int) -> char {
    if d < 10 {
        ((d + 48) as u32) as char
    } else {
        ((d - 10 + 97) as u32) as char
    }
}

/// The `i`-th character (from the left) of the 16-digit, zero-padded,
/// lowercase hexadecimal rendering of `v`.
pub open spec fn hex16_char(v: u64, i: int) -> char {
    hex_digit_char(((v as int) / pow(16, (15 - i) as nat)) % 16)
}

/// The 16-digit, zero-padded, lowercase hexadecimal rendering of `v`.
pub open spec fn hex16(v: u64) -> Seq<char> {
    Seq::new(16, |i: int| hex16_char(v, i))
}

/// The value of a hexadecimal digit, if `c` is one (either case).
pub open spec fn hex_value(c: char) -> Option<int> {
    if '0' <= c && c <= '9' {
        Some(c as int - 48)
    } else if 'a' <= c && c <= 'f' {
        Some(c as int - 97 + 10)
    } else if 'A' <= c && c <= 'F' {
        Some(c as int - 65 + 10)
    } else {
        None
    }
}

/// Why a text is not the hexadecimal rendering of an identifier.
#[derive(Debug, Clone, Copy, PartialEq, Eq, Structural)]
pub enum ParseElementIdError {
    /// The text is empty.
    Empty,
    /// The text holds a character that is not a hexadecimal digit.
    InvalidDigit,
    /// The number does not fit in 64 bits.
    PosOverflow,
}

/// Outcome of scanning the digits `s[0..k)` left to right, as `u64::from_str_radix`
/// does with radix 16: the value so far, or the first error met.
pub open spec fn hex_scan(s: Seq<char>, k: int) -> Result<int, ParseElementIdError>
    decreases k,
{
    if k <= 0 {
        Ok(0)
    } else {
        match hex_scan(s, k - 1) {
            Err(e) => Err(e),
            Ok(v) => match hex_value(s[k - 1]) {
                None => Err(ParseElementIdError::InvalidDigit),
                Some(d) => if v * 16 + d > u64::MAX {
                    Err(ParseElementIdError::PosOverflow)
                } else {
                    Ok(v * 16 + d)
                },
            },
        }
    }
}

/// What `u64::from_str_radix(s, 16)` yields: an optional leading `+`,
/// then one or more hexadecimal digits whose value fits in 64 bits.
pub open spec fn parse_hex_u64(s: Seq<char>) -> Result<u64, ParseElementIdError> {
    if s.len() == 0 {
        Err(ParseElementIdError::Empty)
    } else if s.len() == 1 && (s[0] == '+' || s[0] == '-') {
        Err(ParseElementIdError::InvalidDigit)
    } else {
        let digits = if s[0] == '+' { s.drop_first() } else { s };
        match hex_scan(digits, digits.len() as int) {
            Ok(v) => Ok(v as u64),
            Err(e) => Err(e),
        }
    }
}

impl View for ElementId {
    type V = u64;

    /// The numeric value of the identifier.
    open spec fn view(&self) -> u64 {
        self.value()
    }
}

impl ElementId {
    /// The numeric value of the identifier.
    pub closed spec fn value(self) -> u64 {
        self.0
    }

    /// A fresh identifier from the time and a random number.
    pub fn new() -> (r: ElementId) {
        ElementId(uid::generate_uid())
    }

    /// The empty identifier, 0.
    pub fn empty() -> (r: ElementId)
        ensures
            r.value() == 0,
    {
        ElementId(0)
    }

    /// Whether this is the empty identifier.
    pub fn is_empty(&self) -> (r: bool)
        ensures
            r == (self.value() == 0),
    {
        self.0 == 0
    }

    /// The identifier with the given numeric value.
    pub fn with_u64(id: u64) -> (r: ElementId)
        ensures
            r.value() == id,
    {
        ElementId(id)
    }

    /// The identifier as 16 zero-padded lowercase hexadecimal digits.
    pub fn to_chars(&self) -> (r: [char; 16])
        ensures
            r@ == hex16(self.value()),
    {
        let mut chars: [char; 16] = ['0'; 16];
        let mut n: u64 = self.0;
        let mut k: usize = 0;
        proof {
            lemma_pow_positive(16, 0);
            vstd::arithmetic::power::lemma_pow0(16);
        }
        while k < 16
            invariant
                0 <= k <= 16,
                chars@.len() == 16,
                n as int == (self.0 as int) / pow(16, k as nat),
                forall|i: int| 16 - k <= i < 16 ==> chars@[i] == hex16_char(self.0, i),
            decreases 16 - k,
        {
            let d: u64 = n % 16;
            let c: char = hex_digit(d);
            proof {
                lemma_pow_positive(16, k as nat);
                lemma_div_denominator(self.0 as int, pow(16, k as nat), 16);
                lemma_pow_adds(16, k as nat, 1);
                lemma_pow1(16);
                assert(15 - (15 - k as int) == k as int);
            }
            chars[15 - k] = c;
            n = n / 16;
            k = k + 1;
        }
        assert(chars@ =~= hex16(self.0));
        chars
    }

    /// The identifier as a `String` of 16 zero-padded lowercase hexadecimal digits,
    /// as it is displayed.
    pub fn to_string(&self) -> (r: String)
        ensures
            r@ == hex16(self.value()),
    {
        let chars = self.to_chars();
        let mut s = String::new();
        let mut i: usize = 0;
        while i < 16
            invariant
                i <= 16,
                chars@ == hex16(self.0),
                s@ == chars@.take(i as int),
            decreases 16 - i,
        {
            uid::push_char(&mut s, chars[i]);
            assert(chars@.take(i + 1) =~= chars@.take(i as int).push(chars@[i as int]));
            i = i + 1;
        }
        assert(chars@.take(16) =~= chars@);
        s
    }

    /// Combines two non-empty identifiers into a new one by exclusive or.
    pub fn combine(lhs: &ElementId, rhs: &ElementId) -> (r: Result<ElementId, EdgelinkError>)
        ensures
            rhs.value() == 0 ==> (r matches Err(EdgelinkError::BadArgument(a)) && a@ == "rhs"@),
            rhs.value() != 0 && lhs.value() == 0 ==> (r matches Err(EdgelinkError::BadArgument(a))
                && a@ == "lhs"@),
            rhs.value() != 0 && lhs.value() != 0 ==> (r matches Ok(id) && id.value() == lhs.value()
                ^ rhs.value()),
    {
        if rhs.is_empty() {
            Err(EdgelinkError::BadArgument("rhs"))
        } else if lhs.is_empty() {
            Err(EdgelinkError::BadArgument("lhs"))
        } else {
            Ok(*lhs ^ *rhs)
        }
    }

    /// Parses the hexadecimal rendering of an identifier, as `u64::from_str_radix(s, 16)`.
    pub fn parse_hex(s: &str) -> (r: Result<ElementId, ParseElementIdError>)
        ensures
            match parse_hex_u64(s@) {
                Ok(v) => r matches Ok(id) && id.value() == v,
                Err(e) => r == Err::<ElementId, ParseElementIdError>(e),
            },
    {
        let chars = crate::text::chars_of(s);
        let len = chars.len();
        if len == 0 {
            return Err(ParseElementIdError::Empty);
        }
        if len == 1 && (chars[0] == '+' || chars[0] == '-') {
            return Err(ParseElementIdError::InvalidDigit);
        }
        let start: usize = if chars[0] == '+' { 1 } else { 0 };
        let ghost digits = if chars@[0] == '+' { chars@.drop_first() } else { chars@ };
        let mut v: u64 = 0;
        let mut i: usize = start;
        while i < len
            invariant
                start <= i <= len,
                len == chars@.len(),
                chars@ == s@,
                digits == (if s@[0] == '+' { s@.drop_first() } else { s@ }),
                len > 0,
                !(len == 1 && (chars@[0] == '+' || chars@[0] == '-')),
                start == (if chars@[0] == '+' { 1usize } else { 0usize }),
                start == 0 || start == 1,
                digits == chars@.subrange(start as int, len as int),
                hex_scan(digits, i - start) == Ok::<int, ParseElementIdError>(v as int),
            decreases len - i,
        {
            let d = hex_digit_value(chars[i]);
            assert(digits[i - start] == chars@[i as int]);
            match d {
                None => {
                    assert(hex_scan(digits, (i - start + 1) as int) == Err::<int, ParseElementIdError>(ParseElementIdError::InvalidDigit));
                    proof { lemma_hex_scan_err_propagates(digits, (i - start + 1) as int, digits.len() as int); }
                    return Err(ParseElementIdError::InvalidDigit);
                },
                Some(d) => {
                    if v > 0x0fff_ffff_ffff_ffff || (v == 0x0fff_ffff_ffff_ffff && d > 15) {
                        assert(hex_scan(digits, (i - start + 1) as int) == Err::<int, ParseElementIdError>(ParseElementIdError::PosOverflow));
                        proof { lemma_hex_scan_err_propagates(digits, (i - start + 1) as int, digits.len() as int); }
                        return Err(ParseElementIdError::PosOverflow);
                    }
                    v = v * 16 + d as u64;
                    i = i + 1;
                },
            }
        }
        assert(i - start == digits.len());
        Ok(ElementId(v))
    }
}

proof fn lemma_hex_scan_err_propagates(s: Seq<char>, k: int, n: int)
    requires
        0 < k <= n,
        hex_scan(s, k) is Err,
    ensures
        hex_scan(s, n) == hex_scan(s, k),
    decreases n - k,
{
    if n > k {
        lemma_hex_scan_err_propagates(s, k, n - 1);
    }
}

/// The lowercase hexadecimal digit of `d`.
fn hex_digit(d: u64) -> (c: char)
    requires
        d < 16,
    ensures
        c == hex_digit_char(d as int),
{
    if d < 10 {
        ((d as u8) + 48) as char
    } else {
        ((d as u8) - 10 + 97) as char
    }
}

/// The value of a hexadecimal digit of either case.
fn hex_digit_value(c: char) -> (r: Option<u8>)
    ensures
        match hex_value(c) {
            Some(d) => r == Some::<u8>(d as u8),
            None => r is None,
        },
{
    if '0' <= c && c <= '9' {
        Some((c as u32 - 48) as u8)
    } else if 'a' <= c && c <= 'f' {
        Some((c as u32 - 97 + 10) as u8)
    } else if 'A' <= c && c <= 'F' {
        Some((c as u32 - 65 + 10) as u8)
    } else {
        None
    }
}

impl From<u64> for ElementId {
    fn from(value: u64) -> (r: ElementId)
        ensures
            r.value() == value,
    {
        ElementId(value)
    }
}

impl vstd::std_specs::convert::FromSpecImpl<u64> for ElementId {
    open spec fn obeys_from_spec() -> bool {
        true
    }

    closed spec fn from_spec(v: u64) -> ElementId {
        ElementId(v)
    }
}

impl From<ElementId> for u64 {
    fn from(value: ElementId) -> (r: u64)
        ensures
            r == value.value(),
    {
        value.0
    }
}

impl vstd::std_specs::convert::FromSpecImpl<ElementId> for u64 {
    open spec fn obeys_from_spec() -> bool {
        true
    }

    closed spec fn from_spec(v: ElementId) -> u64 {
        v.0
    }
}

impl core::ops::BitXor for ElementId {
    type Output = ElementId;

    /// The identifier whose value is the exclusive or of the two values.
    fn bitxor(self, rhs: ElementId) -> (r: ElementId)
        ensures
            r.value() == self.value() ^ rhs.value(),
    {
        ElementId(self.0 ^ rhs.0)
    }
}

impl vstd::std_specs::ops::BitXorSpecImpl for ElementId {
    open spec fn obeys_bitxor_spec() -> bool {
        true
    }

    open spec fn bitxor_req(self, rhs: ElementId) -> bool {
        true
    }

    closed spec fn bitxor_spec(self, rhs: ElementId) -> ElementId {
        ElementId(self.0 ^ rhs.0)
    }
}

impl Default for ElementId {
    fn default() -> (r: ElementId)
        ensures
            r.value() == 0,
    {
        ElementId::empty()
    }
}

impl core::str::FromStr for ElementId {
    type Err = ParseElementIdError;

    fn from_str(s: &str) -> (r: Result<ElementId, ParseElementIdError>)
        ensures
            match parse_hex_u64(s@) {
                Ok(v) => r matches Ok(id) && id.value() == v,
                Err(e) => r == Err::<ElementId, ParseElementIdError>(e),
            },
    {
        ElementId::parse_hex(s)
    }
}

/// Reading back a lowercase hexadecimal digit gives its value.
proof fn lemma_hex_value_of_digit(d: int)
    requires
        0 <= d < 16,
    ensures
        hex_value(hex_digit_char(d)) == Some(d),
{
    if d < 10 {
        assert((((d + 48) as u32) as char) as int == d + 48);
    } else {
        assert((((d - 10 + 97) as u32) as char) as int == d + 87);
    }
}

/// Sixteen hexadecimal digits cover every 64-bit value.
proof fn lemma_pow16_16()
    ensures
        pow(16, 16) == 0x1_0000_0000_0000_0000int,
{
    reveal_with_fuel(pow, 17);
}

/// Scanning the first `k` digits of the rendering of `v` gives the value of
/// those digits: `v` without its last `16 - k` digits.
proof fn lemma_hex_scan_hex16(v: u64, k: int)
    requires
        0 <= k <= 16,
    ensures
        hex_scan(hex16(v), k) == Ok::<int, ParseElementIdError>((v as int) / pow(16, (16 - k) as nat)),
    decreases k,
{
    lemma_pow_positive(16, (16 - k) as nat);
    if k == 0 {
        lemma_pow16_16();
        lemma_basic_div(v as int, pow(16, 16));
    } else {
        lemma_hex_scan_hex16(v, k - 1);
        let p = pow(16, (16 - k) as nat);
        let x = (v as int) / p;
        lemma_pow_adds(16, (16 - k) as nat, 1);
        lemma_pow1(16);
        assert(pow(16, (16 - (k - 1)) as nat) == p * 16);
        lemma_div_denominator(v as int, p, 16);
        assert(hex16(v)[k - 1] == hex_digit_char(x % 16));
        lemma_hex_value_of_digit(x % 16);
        lemma_fundamental_div_mod(x, 16);
        lemma_div_is_ordered_by_denominator(v as int, 1, p);
        assert(x <= u64::MAX);
    }
}

/// Parsing the rendering of an identifier gives the identifier back: the
/// hexadecimal text of `to_string` (and of `to_chars`) reads back as the same
/// value, as serialising and deserialising an identifier relies on.
pub proof fn law_parse_hex_reads_back_rendering(v: u64)
    ensures
        parse_hex_u64(hex16(v)) == Ok::<u64, ParseElementIdError>(v),
{
    lemma_hex_scan_hex16(v, 16);
    vstd::arithmetic::power::lemma_pow0(16);
    let d0 = ((v as int) / pow(16, 15)) % 16;
    lemma_pow_positive(16, 15);
    assert(hex16(v)[0] == hex_digit_char(d0));
    lemma_hex_value_of_digit(d0);
    assert(hex16(v)[0] != '+' && hex16(v)[0] != '-');
}

/// Identifiers meet what the topological sorter needs of its items: `==`
/// compares their values, and a clone has the value of the identifier it copies.
pub proof fn lemma_element_id_item_laws()
    ensures
        crate::topo::item_laws::<ElementId>(),
{
    reveal(vstd::laws_eq::obeys_view_eq);
    assert(forall|a: ElementId, b: ElementId| a.eq_spec(&b) <==> a@ == b@);
}

} // verus!
