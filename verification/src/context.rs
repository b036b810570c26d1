//! Context-store keys: `#:(store)::key` selects the context store named `store`.

use vstd::prelude::*;

use crate::EdgelinkError;
use crate::propex::{char_at, is_alpha, is_digit, is_space, skip_spaces};
use crate::text::{chars_of, concat3};

verus! {

/// Name of the store of the global context.
pub const GLOBAL_STORE_NAME: &'static str = "global";

/// Name of the default store.
pub const DEFAULT_STORE_NAME: &'static str = "default";

/// Alias of the default store.
pub const DEFAULT_STORE_NAME_ALIAS: &'static str = "_";

/// A context property: the store it names, if any, and the key.
#[derive(Debug, Clone, Copy)]
pub struct ContextStoreProperty<'a> {
    pub store: Option<&'a str>,
    pub key: &'a str,
}

/// A context property that names its store.
pub struct ParsedContextStoreProperty<'a> {
    pub store: &'a str,
    pub key: &'a str,
}

/// A character that may start a store name or key identifier.
pub open spec fn is_name_start(c: char) -> bool {
    is_alpha(c) || c == '_'
}

/// A character that may continue a store name or key identifier.
pub open spec fn is_name_char(c: char) -> bool {
    is_name_start(c) || is_digit(c)
}

/// The first position at or after `p` that does not hold a name character.
pub open spec fn name_end(s: Seq<char>, p: int) -> int
    decreases s.len() - p,
{
    if 0 <= p < s.len() && is_name_char(s[p]) {
        name_end(s, p + 1)
    } else {
        p
    }
}

/// A name (`[A-Za-z_][A-Za-z0-9_]*`) starting at `p`: its end.
pub open spec fn spec_name(s: Seq<char>, p: int) -> Option<int> {
    if 0 <= p < s.len() && is_name_start(s[p]) {
        Some(name_end(s, p + 1))
    } else {
        None
    }
}

/// The prefix `#:(` ws name ws `)::`: the bounds of the store name and the
/// position after `::`.
pub open spec fn spec_store_prefix(s: Seq<char>) -> Option<(int, int, int)> {
    if char_at(s, 0, '#') && char_at(s, 1, ':') && char_at(s, 2, '(') {
        let a = skip_spaces(s, 3);
        match spec_name(s, a) {
            Some(b) => {
                let c = skip_spaces(s, b);
                if char_at(s, c, ')') && char_at(s, c + 1, ':') && char_at(s, c + 2, ':') {
                    Some((a, b, c + 3))
                } else {
                    None
                }
            },
            None => None,
        }
    } else {
        None
    }
}

fn name_start_char(c: char) -> (r: bool)
    ensures
        r == is_name_start(c),
{
    ('a' <= c && c <= 'z') || ('A' <= c && c <= 'Z') || c == '_'
}

fn name_char(c: char) -> (r: bool)
    ensures
        r == is_name_char(c),
{
    name_start_char(c) || ('0' <= c && c <= '9')
}

fn spaces_end(s: &Vec<char>, p: usize) -> (r: usize)
    requires
        p <= s.len(),
    ensures
        r == skip_spaces(s@, p as int),
        p <= r <= s.len(),
{
    let mut i = p;
    while i < s.len() && (s[i] == ' ' || s[i] == '\t' || s[i] == '\n' || s[i] == '\r')
        invariant
            p <= i <= s.len(),
            skip_spaces(s@, i as int) == skip_spaces(s@, p as int),
        decreases s.len() - i,
    {
        i = i + 1;
    }
    i
}

fn name_at(s: &Vec<char>, p: usize) -> (r: Option<usize>)
    requires
        p <= s.len(),
    ensures
        match spec_name(s@, p as int) {
            Some(e) => r == Some(e as usize) && p < e <= s.len(),
            None => r is None,
        },
{
    if p < s.len() && name_start_char(s[p]) {
        let mut i = p + 1;
        while i < s.len() && name_char(s[i])
            invariant
                p + 1 <= i <= s.len(),
                name_end(s@, i as int) == name_end(s@, p + 1),
            decreases s.len() - i,
        {
            i = i + 1;
        }
        Some(i)
    } else {
        None
    }
}

fn store_prefix(s: &Vec<char>) -> (r: Option<(usize, usize, usize)>)
    ensures
        match spec_store_prefix(s@) {
            Some((a, b, c)) => r == Some::<(usize, usize, usize)>((a as usize, b as usize, c as usize))
                && a <= b <= c <= s.len(),
            None => r is None,
        },
{
    if s.len() >= 3 && s[0] == '#' && s[1] == ':' && s[2] == '(' {
        let a = spaces_end(s, 3);
        match name_at(s, a) {
            Some(b) => {
                let c = spaces_end(s, b);
                if c < s.len() && s.len() - c > 2 && s[c] == ')' && s[c + 1] == ':' && s[c + 2] == ':' {
                    Some((a, b, c + 3))
                } else {
                    None
                }
            },
            None => None,
        }
    } else {
        None
    }
}

/// Splits a context property string, as written by the TypedInput editor, into
/// the store it names and the key. `#:(file)::foo.bar` names the store `file`
/// with the key `foo.bar`; a string without that prefix is a key of the default
/// store. This never fails.
pub fn parse_store(key: &str) -> (r: Result<ContextStoreProperty<'_>, EdgelinkError>)
    ensures
        r matches Ok(prop) && match spec_store_prefix(key@) {
            Some((a, b, c)) => prop.store matches Some(st) && st@ == key@.subrange(a, b)
                && prop.key@ == key@.subrange(c, key@.len() as int),
            None => prop.store is None && prop.key@ == key@,
        },
{
    let chars = chars_of(key);
    match store_prefix(&chars) {
        Some((a, b, c)) => Ok(
            ContextStoreProperty {
                store: Some(key.substring_char(a, b)),
                key: key.substring_char(c, chars.len()),
            },
        ),
        None => Ok(ContextStoreProperty { store: None, key }),
    }
}

/// Parses a context property string of the form `#:(store)::key`, where both the
/// store and the key are names (`[A-Za-z_][A-Za-z0-9_]*`); what follows the key
/// is ignored. Any other string is refused with `BadArguments`.
pub fn parse_context_store(key: &str) -> (r: Result<ParsedContextStoreProperty<'_>, EdgelinkError>)
    ensures
        match spec_store_prefix(key@) {
            Some((a, b, c)) => match spec_name(key@, c) {
                Some(e) => r matches Ok(prop) && prop.store@ == key@.subrange(a, b) && prop.key@
                    == key@.subrange(c, e),
                None => r matches Err(EdgelinkError::BadArguments(m)) && m@ == "Can not parse the key: '"@
                    + key@ + "'"@,
            },
            None => r matches Err(EdgelinkError::BadArguments(m)) && m@ == "Can not parse the key: '"@
                + key@ + "'"@,
        },
{
    let chars = chars_of(key);
    match store_prefix(&chars) {
        Some((a, b, c)) => match name_at(&chars, c) {
            Some(e) => {
                return Ok(
                    ParsedContextStoreProperty {
                        store: key.substring_char(a, b),
                        key: key.substring_char(c, e),
                    },
                );
            },
            None => {},
        },
        None => {},
    }
    Err(EdgelinkError::BadArguments(concat3("Can not parse the key: '", key, "'")))
}

/// Where the characters of `s` from `p` up to `e` are name characters and `e` is
/// the end of `s` or holds no name character, the name that goes on at `p`
/// ends at `e`.
proof fn lemma_name_end_over(s: Seq<char>, p: int, e: int)
    requires
        0 <= p <= e <= s.len(),
        forall|q: int| p <= q < e ==> #[trigger] is_name_char(s[q]),
        e == s.len() || !is_name_char(s[e]),
    ensures
        name_end(s, p) == e,
    decreases e - p,
{
    if p < e {
        lemma_name_end_over(s, p + 1, e);
    }
}

/// A store name and a key made of ASCII letters of either case, `_` and
/// digits, neither starting with a digit, read back from `#:(store)::key`: the
/// prefix gives the store and the name after it is the whole key.
pub proof fn law_store_and_key_read_back(st: Seq<char>, k: Seq<char>)
    requires
        st.len() > 0,
        k.len() > 0,
        forall|i: int| 0 <= i < st.len() ==> ('a' <= #[trigger] st[i] && st[i] <= 'z') || ('A' <= st[i] && st[i] <= 'Z')
            || st[i] == '_' || (i > 0 && '0' <= st[i] && st[i] <= '9'),
        forall|i: int| 0 <= i < k.len() ==> ('a' <= #[trigger] k[i] && k[i] <= 'z') || ('A' <= k[i] && k[i] <= 'Z')
            || k[i] == '_' || (i > 0 && '0' <= k[i] && k[i] <= '9'),
    ensures
        spec_store_prefix("#:("@ + st + ")::"@ + k) matches Some((a, b, c)) && ("#:("@ + st + ")::"@ + k).subrange(a, b) == st
            && spec_name("#:("@ + st + ")::"@ + k, c) == Some(("#:("@ + st + ")::"@ + k).len() as int)
            && ("#:("@ + st + ")::"@ + k).subrange(c, ("#:("@ + st + ")::"@ + k).len() as int) == k,
{
    reveal_strlit("#:(");
    reveal_strlit(")::");
    let s = "#:("@ + st + ")::"@ + k;
    let l = st.len() as int;
    let n = s.len() as int;
    assert(n == 6 + l + k.len());
    assert forall|q: int| 3 <= q < 3 + l implies #[trigger] s[q] == st[q - 3] by {}
    assert forall|q: int| 6 + l <= q < n implies #[trigger] s[q] == k[q - 6 - l] by {}
    assert(s[0] == '#' && s[1] == ':' && s[2] == '(');
    assert(s[3 + l] == ')' && s[4 + l] == ':' && s[5 + l] == ':');
    assert(s[3] == st[0]);
    assert(!is_space(s[3]));
    assert(skip_spaces(s, 3) == 3);
    assert forall|q: int| 4 <= q < 3 + l implies #[trigger] is_name_char(s[q]) by {
        assert(s[q] == st[q - 3]);
    }
    lemma_name_end_over(s, 4, 3 + l);
    assert(spec_name(s, 3) == Some(3 + l));
    assert(skip_spaces(s, 3 + l) == 3 + l);
    assert(s.subrange(3, 3 + l) =~= st);
    assert(s[6 + l] == k[0]);
    assert forall|q: int| 7 + l <= q < n implies #[trigger] is_name_char(s[q]) by {
        assert(s[q] == k[q - 6 - l]);
    }
    lemma_name_end_over(s, 7 + l, n);
    assert(s.subrange(6 + l, n) =~= k);
}

} // verus!
