//! Evaluation of typed properties and of the environment entries of a flow.
//!
//! What only the outside can compute (a float read from text, the clock, the
//! environment, a JSON text read into a variant) is handed in as a value: the
//! functions here decide everything else.

use vstd::prelude::*;

use crate::propex::{is_space, skip_spaces};
use crate::prop_triple::{type_named, RedPropertyType};
use crate::text::str_eq;
use crate::variant::{get_segs_spec, json_bytes, nav_path, Variant, VariantObjectMap, VariantView};
use crate::EdgelinkError;

verus! {

// ---------------------------------------------------------------------------
// Trimming
// ---------------------------------------------------------------------------

/// The end of `s[lo..e)` with trailing whitespace removed.
pub open spec fn trim_end_at(s: Seq<char>, lo: int, e: int) -> int
    decreases e - lo,
{
    if e > lo && is_space(s[e - 1]) {
        trim_end_at(s, lo, e - 1)
    } else {
        e
    }
}

/// `s` without leading and trailing whitespace (space, tab, line feed, carriage return).
pub open spec fn trim_spaces(s: Seq<char>) -> Seq<char> {
    let a = skip_spaces(s, 0);
    s.subrange(a, trim_end_at(s, a, s.len() as int))
}

proof fn lemma_trim_end_bounds(s: Seq<char>, lo: int, e: int)
    requires
        0 <= lo <= e <= s.len(),
    ensures
        lo <= trim_end_at(s, lo, e) <= e,
    decreases e - lo,
{
    if e > lo && is_space(s[e - 1]) {
        lemma_trim_end_bounds(s, lo, e - 1);
    }
}

/// See `trim_spaces`.
fn trim(value: &str) -> (r: &str)
    ensures
        r@ == trim_spaces(value@),
{
    let chars = crate::text::chars_of(value);
    let n = chars.len();
    let mut a: usize = 0;
    proof {
        crate::propex::lemma_scans_ge(chars@, 0, ' ');
    }
    while a < n && (chars[a] == ' ' || chars[a] == '\t' || chars[a] == '\n' || chars[a] == '\r')
        invariant
            chars@ == value@,
            n == chars@.len(),
            a <= n,
            skip_spaces(chars@, a as int) == skip_spaces(chars@, 0),
        decreases n - a,
    {
        a = a + 1;
    }
    let mut b: usize = n;
    proof {
        lemma_trim_end_bounds(chars@, a as int, n as int);
    }
    while b > a && (chars[b - 1] == ' ' || chars[b - 1] == '\t' || chars[b - 1] == '\n' || chars[b - 1] == '\r')
        invariant
            chars@ == value@,
            n == chars@.len(),
            a <= b <= n,
            trim_end_at(chars@, a as int, b as int) == trim_end_at(chars@, a as int, n as int),
        decreases b - a,
    {
        b = b - 1;
    }
    value.substring_char(a, b)
}

// ---------------------------------------------------------------------------
// Typed properties
// ---------------------------------------------------------------------------

/// Why a property does not evaluate.
pub enum EvalError {
    /// The text of a `json` or `bin` property is not JSON; the message is the
    /// JSON reader's error.
    InvalidJson(Seq<char>),
    /// A `bin` property whose JSON gives no bytes; the message says why.
    NotSupported(Seq<char>),
    /// An environment entry names no property type.
    UnknownType,
}

/// The error the library reports for `e`.
pub open spec fn reports(r: EdgelinkError, e: EvalError) -> bool {
    match e {
        EvalError::InvalidJson(t) => r matches EdgelinkError::InvalidData(m) && m@ == t,
        EvalError::NotSupported(t) => r matches EdgelinkError::NotSupported(m) && m@ == t,
        EvalError::UnknownType => r matches EdgelinkError::NotSupported(m) && m@ == "Unknown property type"@,
    }
}

/// Whether the result `r` is the outcome `g`.
pub open spec fn eval_result(r: Result<Option<Variant>, EdgelinkError>, g: Result<Option<VariantView>, EvalError>) -> bool {
    match g {
        Ok(Some(v)) => r matches Ok(Some(x)) && x.view() == v,
        Ok(None) => r matches Ok(None),
        Err(e) => r matches Err(x) && reports(x, e),
    }
}

/// What a message property reads: the value the trimmed expression reaches in
/// the message; null when there is no message, the expression does not parse,
/// or it reaches nothing.
pub open spec fn msg_property(msg: Option<VariantView>, text: Seq<char>) -> VariantView {
    match msg {
        None => VariantView::Null,
        Some(m) => match nav_path(trim_spaces(text)) {
            Some(p) => match get_segs_spec(m, p) {
                Some(v) => v,
                None => VariantView::Null,
            },
            None => VariantView::Null,
        },
    }
}

/// The types whose evaluation is not written yet (they panic).
pub open spec fn unevaluated_type(ty: RedPropertyType) -> bool {
    ty == RedPropertyType::Re || ty == RedPropertyType::Flow || ty == RedPropertyType::Global
        || ty == RedPropertyType::Jsonata
}

/// The error that `serde_json` gives when it reads `text` as a JSON value
/// (its message), or `None` when the text is JSON.
pub uninterp spec fn json_error_of(text: Seq<char>) -> Option<Seq<char>>;

/// Reads `text` as a JSON value with `serde_json::from_str` and gives the
/// message of the error it reports, if any. The contract names the result
/// (`json_error_of`); nothing else is claimed of it.
#[verifier::external_body]
fn json_parse_error(text: &str) -> (r: Option<String>)
    ensures
        match json_error_of(text@) {
            Some(m) => r matches Some(x) && x@ == m,
            None => r is None,
        },
{
    match serde_json::from_str::<serde_json::Value>(text) {
        Ok(_) => None,
        Err(e) => Some(e.to_string()),
    }
}

/// The value of a property with text `value` and type `ty`. `json_error` is the
/// error reading the text as JSON gives (`json_error_of`), and `outside` what
/// the outside evaluation gives for the text: the JSON value it reads as (for
/// `json` and `bin`), the number it reads as (`num`), the date (`date`) or the
/// environment value (`env`). A string is its text, a boolean is whether the
/// text is `true`, a message property is `msg_property`; `json` and `bin` fail
/// with the JSON error where there is one; `num`, `date` and `env` give what was
/// handed in.
pub open spec fn node_property(
    value: Seq<char>,
    ty: RedPropertyType,
    msg: Option<VariantView>,
    outside: Option<VariantView>,
    json_error: Option<Seq<char>>,
) -> Result<Option<VariantView>, EvalError> {
    match ty {
        RedPropertyType::Str => Ok(Some(VariantView::String(value))),
        RedPropertyType::Bool => Ok(Some(VariantView::Bool(value == "true"@))),
        RedPropertyType::Msg => Ok(Some(msg_property(msg, value))),
        RedPropertyType::Json => match json_error {
            Some(m) => Err(EvalError::InvalidJson(m)),
            None => Ok(outside),
        },
        RedPropertyType::Bin => match json_error {
            Some(m) => Err(EvalError::InvalidJson(m)),
            None => match outside {
                Some(j) => match json_bytes(j) {
                    Ok(bs) => Ok(Some(VariantView::Bytes(bs))),
                    Err(m) => Err(EvalError::NotSupported(m)),
                },
                None => Ok(None),
            },
        },
        _ => Ok(outside),
    }
}


/// Whether an optional borrowed variant has the optional value `g`.
pub open spec fn opt_view(r: Option<&Variant>) -> Option<VariantView> {
    match r {
        Some(x) => Some(x.view()),
        None => None,
    }
}

/// Whether an optional borrowed text has the optional value `g`.
pub open spec fn opt_text(r: Option<&str>) -> Option<Seq<char>> {
    match r {
        Some(x) => Some(x@),
        None => None,
    }
}

/// Evaluates a typed property given the JSON error of its text; see
/// `node_property`.
pub fn evaluate_property_with(
    value: &str,
    ty: RedPropertyType,
    msg: Option<&Variant>,
    outside: Option<&Variant>,
    json_error: Option<&str>,
) -> (r: Result<Option<Variant>, EdgelinkError>)
    requires
        !unevaluated_type(ty),
    ensures
        eval_result(r, node_property(value@, ty, opt_view(msg), opt_view(outside), opt_text(json_error))),
{
    proof {
        reveal_strlit("true");
    }
    match ty {
        RedPropertyType::Str => Ok(Some(Variant::String(value.to_owned()))),
        RedPropertyType::Bool => Ok(Some(Variant::Bool(str_eq(value, "true")))),
        RedPropertyType::Msg => match msg {
            None => Ok(Some(Variant::Null)),
            Some(m) => {
                let text = trim(value);
                match m.get_nav_property(text) {
                    Some(v) => Ok(Some(v.clone())),
                    None => Ok(Some(Variant::Null)),
                }
            },
        },
        RedPropertyType::Json => match json_error {
            Some(e) => Err(EdgelinkError::InvalidData(e.to_owned())),
            None => match outside {
                Some(j) => Ok(Some(j.clone())),
                None => Ok(None),
            },
        },
        RedPropertyType::Bin => match json_error {
            Some(e) => Err(EdgelinkError::InvalidData(e.to_owned())),
            None => match outside {
                Some(j) => match Variant::bytes_from_json_value(j) {
                    Ok(b) => Ok(Some(b)),
                    Err(e) => Err(e),
                },
                None => Ok(None),
            },
        },
        _ => match outside {
            Some(v) => Ok(Some(v.clone())),
            None => Ok(None),
        },
    }
}

/// Evaluates a typed property: the text of a `json` or `bin` property is read
/// as JSON here, and its error reported; see `node_property`.
pub fn evaluate_node_property(
    value: &str,
    ty: RedPropertyType,
    msg: Option<&Variant>,
    outside: Option<&Variant>,
) -> (r: Result<Option<Variant>, EdgelinkError>)
    requires
        !unevaluated_type(ty),
    ensures
        eval_result(r, node_property(value@, ty, opt_view(msg), opt_view(outside), json_error_of(value@))),
{
    let json_error: Option<String> = match ty {
        RedPropertyType::Json | RedPropertyType::Bin => json_parse_error(value),
        _ => None,
    };
    let e: Option<&str> = match &json_error {
        Some(x) => Some(x.as_str()),
        None => None,
    };
    evaluate_property_with(value, ty, msg, outside, e)
}

// ---------------------------------------------------------------------------
// Environment entries
// ---------------------------------------------------------------------------

/// An environment entry of a flow: a name, the text of its value and its type.
pub struct RedEnvEntry {
    pub name: String,
    pub value: String,
    pub value_type: String,
}

/// The optional values of optional variants.
pub open spec fn outs_view(s: Seq<Option<Variant>>) -> Seq<Option<VariantView>> {
    Seq::new(s.len(), |i: int| match s[i] {
        Some(v) => Some(v.view()),
        None => None,
    })
}

/// An evaluation that is handed in as `None` reads as null.
pub open spec fn or_null(r: Result<Option<VariantView>, EvalError>) -> Result<VariantView, EvalError> {
    match r {
        Ok(Some(v)) => Ok(v),
        Ok(None) => Ok(VariantView::Null),
        Err(e) => Err(e),
    }
}

/// The value of the text `text` with the type named `value_type`; `None` where
/// the evaluation panics (a type whose evaluation is not written yet).
pub open spec fn typed_value(text: Seq<char>, value_type: Seq<char>, out: Option<VariantView>) -> Option<Result<VariantView, EvalError>> {
    match type_named(value_type) {
        None => Some(Err(EvalError::UnknownType)),
        Some(t) => if unevaluated_type(t) {
            None
        } else {
            Some(or_null(node_property(text, t, None, out, json_error_of(text))))
        },
    }
}

/// The value of an entry that is not named `env`: a `bool` entry is whether its
/// text is `true`; any other is `typed_value` of its text.
pub open spec fn first_value(e: RedEnvEntry, out: Option<VariantView>) -> Option<Result<VariantView, EvalError>> {
    if e.value_type@ == "bool"@ {
        Some(Ok(VariantView::Bool(e.value@ == "true"@)))
    } else {
        typed_value(e.value@, e.value_type@, out)
    }
}

/// The text an `env` entry looks up: `$parent.$<name>` when its value is its
/// name, its value otherwise.
pub open spec fn env_text(e: RedEnvEntry) -> Seq<char> {
    if e.name@ == e.value@ {
        "$parent.$"@ + e.name@
    } else {
        e.value@
    }
}

/// An object without a `__clone__` property is wrapped as
/// `{ value: v, __clone__: true }`; anything else is kept.
pub open spec fn wrap_clone(v: VariantView) -> VariantView {
    match v {
        VariantView::Object(m) => if m.contains_key("__clone__"@) {
            v
        } else {
            VariantView::Object(
                Map::<Seq<char>, VariantView>::empty().insert("value"@, v).insert("__clone__"@, VariantView::Bool(true)),
            )
        },
        _ => v,
    }
}

/// The value of an `env` entry given the entries evaluated so far `m`: an
/// evaluated entry named by its text is reused, otherwise the text is evaluated
/// with the entry's type; then `wrap_clone`.
pub open spec fn second_value(e: RedEnvEntry, out: Option<VariantView>, m: Map<Seq<char>, VariantView>) -> Option<Result<VariantView, EvalError>> {
    let text = env_text(e);
    let v = if m.contains_key(text) {
        Some(Ok(m[text]))
    } else {
        typed_value(text, e.value_type@, out)
    };
    match v {
        Some(Ok(x)) => Some(Ok(wrap_clone(x))),
        other => other,
    }
}

/// The entries not named `env` among the first `n`, evaluated in order into a
/// map by name; `None` where an evaluation panics, the first error otherwise.
pub open spec fn first_phase(es: Seq<RedEnvEntry>, outs: Seq<Option<VariantView>>, n: int) -> Option<Result<Map<Seq<char>, VariantView>, EvalError>>
    decreases n,
{
    if n <= 0 {
        Some(Ok(Map::empty()))
    } else {
        match first_phase(es, outs, n - 1) {
            Some(Ok(m)) => {
                let e = es[n - 1];
                if e.name@ == "env"@ {
                    Some(Ok(m))
                } else {
                    match first_value(e, outs[n - 1]) {
                        Some(Ok(v)) => Some(Ok(m.insert(e.name@, v))),
                        Some(Err(x)) => Some(Err(x)),
                        None => None,
                    }
                }
            },
            other => other,
        }
    }
}

/// Then the entries named `env` among the first `n`, in order, starting from `m0`.
pub open spec fn second_phase(
    es: Seq<RedEnvEntry>,
    outs: Seq<Option<VariantView>>,
    m0: Map<Seq<char>, VariantView>,
    n: int,
) -> Option<Result<Map<Seq<char>, VariantView>, EvalError>>
    decreases n,
{
    if n <= 0 {
        Some(Ok(m0))
    } else {
        match second_phase(es, outs, m0, n - 1) {
            Some(Ok(m)) => {
                let e = es[n - 1];
                if e.name@ != "env"@ {
                    Some(Ok(m))
                } else {
                    match second_value(e, outs[n - 1], m) {
                        Some(Ok(v)) => Some(Ok(m.insert(e.name@, v))),
                        Some(Err(x)) => Some(Err(x)),
                        None => None,
                    }
                }
            },
            other => other,
        }
    }
}

/// The evaluated environment entries: all entries not named `env` first, then
/// the `env` entries.
pub open spec fn env_entries(es: Seq<RedEnvEntry>, outs: Seq<Option<VariantView>>) -> Option<Result<Map<Seq<char>, VariantView>, EvalError>> {
    match first_phase(es, outs, es.len() as int) {
        Some(Ok(m)) => second_phase(es, outs, m, es.len() as int),
        other => other,
    }
}

proof fn lemma_first_phase_stops(es: Seq<RedEnvEntry>, outs: Seq<Option<VariantView>>, k: int, n: int)
    requires
        0 <= k <= n,
        !(first_phase(es, outs, k) matches Some(Ok(_))),
    ensures
        first_phase(es, outs, n) == first_phase(es, outs, k),
    decreases n - k,
{
    if n > k {
        lemma_first_phase_stops(es, outs, k, n - 1);
    }
}

proof fn lemma_second_phase_stops(
    es: Seq<RedEnvEntry>,
    outs: Seq<Option<VariantView>>,
    m0: Map<Seq<char>, VariantView>,
    k: int,
    n: int,
)
    requires
        0 <= k <= n,
        !(second_phase(es, outs, m0, k) matches Some(Ok(_))),
    ensures
        second_phase(es, outs, m0, n) == second_phase(es, outs, m0, k),
    decreases n - k,
{
    if n > k {
        lemma_second_phase_stops(es, outs, m0, k, n - 1);
    }
}

/// The value of `typed_value` for an entry that does not panic.
fn eval_typed(text: &str, value_type: &str, out: &Option<Variant>) -> (r: Result<Variant, EdgelinkError>)
    requires
        typed_value(text@, value_type@, match out {
            Some(v) => Some(v.view()),
            None => None,
        }) is Some,
    ensures
        match typed_value(text@, value_type@, match out {
            Some(v) => Some(v.view()),
            None => None,
        }) {
            Some(Ok(v)) => r matches Ok(x) && x.view() == v,
            Some(Err(e)) => r matches Err(x) && reports(x, e),
            None => false,
        },
{
    proof {
        reveal_strlit("Unknown property type");
    }
    match RedPropertyType::from_name(value_type) {
        None => Err(EdgelinkError::NotSupported("Unknown property type".to_owned())),
        Some(t) => {
            let o: Option<&Variant> = match out {
                Some(v) => Some(v),
                None => None,
            };
            match evaluate_node_property(text, t, None, o) {
                Ok(Some(v)) => Ok(v),
                Ok(None) => Ok(Variant::Null),
                Err(e) => Err(e),
            }
        },
    }
}

/// See `wrap_clone`.
fn wrap_if_object(v: Variant) -> (r: Variant)
    ensures
        r.view() == wrap_clone(v.view()),
{
    proof {
        reveal_strlit("__clone__");
        reveal_strlit("value");
    }
    let wrap = match &v {
        Variant::Object(om) => !om.contains_key("__clone__"),
        _ => false,
    };
    if wrap {
        let mut m = VariantObjectMap::new();
        m.insert("value".to_owned(), v);
        m.insert("__clone__".to_owned(), Variant::Bool(true));
        Variant::Object(m)
    } else {
        v
    }
}

/// Evaluates the environment entries of a flow (see `env_entries`). `outside`
/// holds, for each entry, what the outside evaluation gives for the text it
/// evaluates (see `node_property`). Entries of a type whose evaluation is not
/// written yet are left out by `requires`.
pub fn eval_env_entries(entries: &Vec<RedEnvEntry>, outside: &Vec<Option<Variant>>) -> (r: Result<VariantObjectMap, EdgelinkError>)
    requires
        outside@.len() == entries@.len(),
        env_entries(entries@, outs_view(outside@)) is Some,
    ensures
        match env_entries(entries@, outs_view(outside@)) {
            Some(Ok(m)) => r matches Ok(x) && x.view() == m,
            Some(Err(e)) => r matches Err(x) && reports(x, e),
            None => false,
        },
{
    let ghost es = entries@;
    let ghost outs = outs_view(outside@);
    let n = entries.len();
    proof {
        reveal_strlit("env");
        reveal_strlit("bool");
        reveal_strlit("true");
        reveal_strlit("$parent.$");
    }
    let mut map = VariantObjectMap::new();
    let mut i: usize = 0;
    while i < n
        invariant
            es == entries@,
            outs == outs_view(outside@),
            n == es.len(),
            outside@.len() == n,
            i <= n,
            env_entries(es, outs) is Some,
            first_phase(es, outs, i as int) == Some(Ok::<Map<Seq<char>, VariantView>, EvalError>(map.view())),
        decreases n - i,
    {
        let e = &entries[i];
        proof {
            reveal_strlit("env");
            reveal_strlit("bool");
            reveal_strlit("true");
            if !(first_phase(es, outs, i + 1) matches Some(Ok(_))) {
                lemma_first_phase_stops(es, outs, i + 1, n as int);
            }
            assert(outs[i as int] == match outside@[i as int] {
                Some(v) => Some(v.view()),
                None => None::<VariantView>,
            });
        }
        if !str_eq(e.name.as_str(), "env") {
            let v = if str_eq(e.value_type.as_str(), "bool") {
                Variant::Bool(str_eq(e.value.as_str(), "true"))
            } else {
                match eval_typed(e.value.as_str(), e.value_type.as_str(), &outside[i]) {
                    Ok(v) => v,
                    Err(x) => {
                        return Err(x);
                    },
                }
            };
            map.insert(e.name.as_str().to_owned(), v);
        }
        i = i + 1;
    }
    let ghost m1 = map.view();
    proof {
        assert(second_phase(es, outs, m1, 0) == Some(Ok::<Map<Seq<char>, VariantView>, EvalError>(m1)));
    }
    let mut j: usize = 0;
    while j < n
        invariant
            es == entries@,
            outs == outs_view(outside@),
            n == es.len(),
            outside@.len() == n,
            j <= n,
            first_phase(es, outs, n as int) == Some(Ok::<Map<Seq<char>, VariantView>, EvalError>(m1)),
            env_entries(es, outs) is Some,
            second_phase(es, outs, m1, j as int) == Some(Ok::<Map<Seq<char>, VariantView>, EvalError>(map.view())),
        decreases n - j,
    {
        let e = &entries[j];
        proof {
            reveal_strlit("env");
            reveal_strlit("$parent.$");
            if !(second_phase(es, outs, m1, j + 1) matches Some(Ok(_))) {
                lemma_second_phase_stops(es, outs, m1, j + 1, n as int);
            }
            assert(outs[j as int] == match outside@[j as int] {
                Some(v) => Some(v.view()),
                None => None::<VariantView>,
            });
        }
        if str_eq(e.name.as_str(), "env") {
            let text = if str_eq(e.name.as_str(), e.value.as_str()) {
                crate::text::concat3("$parent.$", e.name.as_str(), "")
            } else {
                e.value.as_str().to_owned()
            };
            proof {
                assert(text@ == env_text(es[j as int])) by {
                    reveal_strlit("");
                    assert(("$parent.$"@ + es[j as int].name@ + ""@) =~= "$parent.$"@ + es[j as int].name@);
                }
            }
            let found = match map.get(text.as_str()) {
                Some(x) => Some(x.clone()),
                None => None,
            };
            let v = match found {
                Some(x) => x,
                None => match eval_typed(text.as_str(), e.value_type.as_str(), &outside[j]) {
                    Ok(v) => v,
                    Err(x) => {
                        return Err(x);
                    },
                },
            };
            let w = wrap_if_object(v);
            map.insert(e.name.as_str().to_owned(), w);
        }
        j = j + 1;
    }
    Ok(map)
}

// ---------------------------------------------------------------------------
// Environment values
// ---------------------------------------------------------------------------

/// Whether `s` holds `${` somewhere.
pub open spec fn has_var_start(s: Seq<char>) -> bool {
    exists|i: int| 0 <= i && i + 1 < s.len() && s[i] == '$' && #[trigger] s[i + 1] == '{'
}

/// The one setting an `env` property text names, when it names one: the name
/// inside `${NAME}` when the whole text has that shape, the text itself when it
/// holds no `${`. `None` when the text is a template whose `${NAME}` parts are
/// replaced one by one (`substituted`).
pub open spec fn env_setting_name(s: Seq<char>) -> Option<Seq<char>> {
    if s.len() >= 3 && s[0] == '$' && s[1] == '{' && s[s.len() - 1] == '}' {
        Some(s.subrange(2, s.len() - 1))
    } else if !has_var_start(s) {
        Some(s)
    } else {
        None
    }
}

/// The position of the first `}` of `s` at `k` or after.
pub open spec fn first_close(s: Seq<char>, k: int) -> Option<int>
    decreases s.len() - k,
{
    if k < 0 || k >= s.len() {
        None
    } else if s[k] == '}' {
        Some(k)
    } else {
        first_close(s, k + 1)
    }
}

/// Where a `${NAME}` part starts at `i` (a name of at least one character and no
/// `}`, then `}`): the position of its closing `}`.
pub open spec fn var_at(s: Seq<char>, i: int) -> Option<int> {
    if 0 <= i && i + 1 < s.len() && s[i] == '$' && s[i + 1] == '{' {
        match first_close(s, i + 2) {
            Some(j) => if j > i + 2 {
                Some(j)
            } else {
                None
            },
            None => None,
        }
    } else {
        None
    }
}

/// A `${NAME}` part starting at `i` ends after its name.
pub proof fn lemma_var_at_after(s: Seq<char>, i: int)
    ensures
        var_at(s, i) matches Some(j) ==> i + 2 < j < s.len(),
{
    if 0 <= i && i + 1 < s.len() && s[i] == '$' && s[i + 1] == '{' {
        lemma_first_close_bounds(s, i + 2);
    }
}

/// The names of the `${NAME}` parts of `s` from position `i` on, in order, each
/// part read from where the previous one ends.
pub open spec fn var_names_from(s: Seq<char>, i: int) -> Seq<Seq<char>>
    decreases s.len() - i,
{
    if i < 0 || i >= s.len() {
        Seq::empty()
    } else {
        proof {
            lemma_var_at_after(s, i);
        }
        match var_at(s, i) {
            Some(j) => seq![s.subrange(i + 2, j)] + var_names_from(s, j + 1),
            None => var_names_from(s, i + 1),
        }
    }
}

/// The value for the `k`-th part: `vals[k]`, empty where none was given.
pub open spec fn value_at(vals: Seq<Seq<char>>, k: int) -> Seq<char> {
    if 0 <= k < vals.len() {
        vals[k]
    } else {
        Seq::empty()
    }
}

/// `s` from position `i` on with its `${NAME}` parts replaced, the `k`-th part
/// met from `i` by `value_at(vals, k)`; all other text is kept.
pub open spec fn substituted_from(s: Seq<char>, i: int, vals: Seq<Seq<char>>, k: int) -> Seq<char>
    decreases s.len() - i,
{
    if i < 0 || i >= s.len() {
        Seq::empty()
    } else {
        proof {
            lemma_var_at_after(s, i);
        }
        match var_at(s, i) {
            Some(j) => value_at(vals, k) + substituted_from(s, j + 1, vals, k + 1),
            None => seq![s[i]] + substituted_from(s, i + 1, vals, k),
        }
    }
}

/// The first `}` found from `k` is a `}` at `k` or after.
pub proof fn lemma_first_close_bounds(s: Seq<char>, k: int)
    requires
        0 <= k,
    ensures
        first_close(s, k) matches Some(j) ==> k <= j < s.len() && s[j] == '}',
    decreases s.len() - k,
{
    if k < s.len() && s[k] != '}' {
        lemma_first_close_bounds(s, k + 1);
    }
}

/// See `first_close`.
fn find_close(cs: &Vec<char>, k: usize) -> (r: Option<usize>)
    ensures
        match first_close(cs@, k as int) {
            Some(j) => r == Some(j as usize),
            None => r is None,
        },
{
    let mut p: usize = k;
    while p < cs.len()
        invariant
            k <= p,
            first_close(cs@, p as int) == first_close(cs@, k as int),
        decreases cs.len() - p,
    {
        if cs[p] == '}' {
            return Some(p);
        }
        p = p + 1;
    }
    None
}

/// See `var_at`.
fn find_var(cs: &Vec<char>, i: usize) -> (r: Option<usize>)
    requires
        i < cs@.len(),
    ensures
        match var_at(cs@, i as int) {
            Some(j) => r == Some(j as usize) && i + 2 < j < cs@.len(),
            None => r is None,
        },
{
    if cs.len() - i > 1 && cs[i] == '$' && cs[i + 1] == '{' {
        proof {
            lemma_first_close_bounds(cs@, i + 2);
        }
        match find_close(cs, i + 2) {
            Some(j) => if j > i + 2 {
                Some(j)
            } else {
                None
            },
            None => None,
        }
    } else {
        None
    }
}

/// The setting an `env` property text names, if it names one; see `env_setting_name`.
pub fn env_setting_of(value: &str) -> (r: Option<String>)
    ensures
        match env_setting_name(value@) {
            Some(n) => r matches Some(x) && x@ == n,
            None => r is None,
        },
{
    let cs = crate::text::chars_of(value);
    let n = cs.len();
    if n >= 3 && cs[0] == '$' && cs[1] == '{' && cs[n - 1] == '}' {
        return Some(value.substring_char(2, n - 1).to_owned());
    }
    let mut i: usize = 0;
    while n >= 2 && i <= n - 2
        invariant
            cs@ == value@,
            n == cs@.len(),
            !(n >= 3 && cs@[0] == '$' && cs@[1] == '{' && cs@[n - 1] == '}'),
            forall|q: int| 0 <= q < i && q + 1 < n ==> !(cs@[q] == '$' && #[trigger] cs@[q + 1] == '{'),
        decreases n - i,
    {
        if cs[i] == '$' && cs[i + 1] == '{' {
            proof {
                assert(cs@[i + 1] == '{');
            }
            return None;
        }
        i = i + 1;
    }
    proof {
        assert(!has_var_start(value@)) by {
            if has_var_start(value@) {
                let q = choose|q: int| 0 <= q && q + 1 < value@.len() && value@[q] == '$' && #[trigger] value@[q + 1] == '{';
                assert(!(cs@[q] == '$' && cs@[q + 1] == '{'));
            }
        }
    }
    Some(value.to_owned())
}

/// The names of the `${NAME}` parts of an `env` property text, in order; see
/// `var_names_from`.
pub fn env_var_names(value: &str) -> (r: Vec<String>)
    ensures
        r@.len() == var_names_from(value@, 0).len(),
        forall|k: int| 0 <= k < r@.len() ==> #[trigger] r@[k]@ == var_names_from(value@, 0)[k],
{
    let cs = crate::text::chars_of(value);
    let n = cs.len();
    let mut names: Vec<String> = Vec::new();
    let ghost done: Seq<Seq<char>> = Seq::empty();
    let mut i: usize = 0;
    while i < n
        invariant
            cs@ == value@,
            n == cs@.len(),
            i <= n,
            names@.len() == done.len(),
            forall|k: int| 0 <= k < names@.len() ==> #[trigger] names@[k]@ == done[k],
            done + var_names_from(cs@, i as int) == var_names_from(cs@, 0),
        decreases n - i,
    {
        match find_var(&cs, i) {
            Some(j) => {
                let name = value.substring_char(i + 2, j).to_owned();
                proof {
                    assert(done.push(name@) + var_names_from(cs@, j + 1) =~= done + var_names_from(cs@, i as int));
                    done = done.push(name@);
                }
                names.push(name);
                i = j + 1;
            },
            None => {
                i = i + 1;
            },
        }
    }
    proof {
        assert(done =~= var_names_from(cs@, 0));
    }
    names
}

/// An `env` property text with its `${NAME}` parts replaced by `values`, the
/// `k`-th part by `values[k]` (empty where there is none); see `substituted_from`.
pub fn substitute_env_vars(value: &str, values: &Vec<String>) -> (r: String)
    ensures
        r@ == substituted_from(value@, 0, values@.map_values(|v: String| v@), 0),
{
    let ghost vals = values@.map_values(|v: String| v@);
    let cs = crate::text::chars_of(value);
    let n = cs.len();
    let mut out = String::new();
    let mut i: usize = 0;
    let mut k: usize = 0;
    while i < n
        invariant
            cs@ == value@,
            n == cs@.len(),
            i <= n,
            k <= i,
            vals == values@.map_values(|v: String| v@),
            out@ + substituted_from(cs@, i as int, vals, k as int) == substituted_from(cs@, 0, vals, 0),
        decreases n - i,
    {
        match find_var(&cs, i) {
            Some(j) => {
                let ghost before = out@;
                if k < values.len() {
                    crate::propex::push_text(&mut out, values[k].as_str());
                }
                proof {
                    assert(out@ == before + value_at(vals, k as int));
                    assert(before + (value_at(vals, k as int) + substituted_from(cs@, j + 1, vals, k + 1))
                        =~= out@ + substituted_from(cs@, j + 1, vals, k + 1));
                }
                i = j + 1;
                k = k + 1;
            },
            None => {
                let ghost before = out@;
                crate::uid::push_char(&mut out, cs[i]);
                proof {
                    assert(before + (seq![cs@[i as int]] + substituted_from(cs@, i + 1, vals, k as int))
                        =~= out@ + substituted_from(cs@, i + 1, vals, k as int));
                }
                i = i + 1;
            },
        }
    }
    proof {
        assert(out@ =~= out@ + substituted_from(cs@, i as int, vals, k as int));
    }
    out
}

// ---------------------------------------------------------------------------
// Settings
// ---------------------------------------------------------------------------

/// Where a setting is read.
#[derive(Debug, Clone, Copy, PartialEq, Eq, Structural)]
pub enum SettingSource {
    /// The name of the node evaluating the property (`NR_NODE_NAME`).
    NodeName,
    /// The identifier of that node (`NR_NODE_ID`).
    NodeId,
    /// Null (`NR_NODE_PATH`).
    Null,
    /// The settings of the node's group.
    Group,
    /// The settings of the flow.
    Flow,
    /// The process environment.
    Process,
}

/// Where the setting `name` is read, for a property evaluated by a node or not
/// (`has_node`), whose node is in a group (`in_group`), with a flow given or not
/// (`has_flow`): the node's own names first; then, when there is a flow (given,
/// or the node's), the group's settings for a node in a group and the flow's
/// otherwise; without node and flow, the process environment.
pub open spec fn setting_source(name: Seq<char>, has_node: bool, in_group: bool, has_flow: bool) -> SettingSource {
    if has_node && name == "NR_NODE_NAME"@ {
        SettingSource::NodeName
    } else if has_node && name == "NR_NODE_ID"@ {
        SettingSource::NodeId
    } else if has_node && name == "NR_NODE_PATH"@ {
        SettingSource::Null
    } else if has_flow || has_node {
        if has_node && in_group {
            SettingSource::Group
        } else {
            SettingSource::Flow
        }
    } else {
        SettingSource::Process
    }
}

/// See `setting_source`.
pub fn setting_source_of(name: &str, has_node: bool, in_group: bool, has_flow: bool) -> (r: SettingSource)
    ensures
        r == setting_source(name@, has_node, in_group, has_flow),
{
    proof {
        reveal_strlit("NR_NODE_NAME");
        reveal_strlit("NR_NODE_ID");
        reveal_strlit("NR_NODE_PATH");
    }
    if has_node && str_eq(name, "NR_NODE_NAME") {
        SettingSource::NodeName
    } else if has_node && str_eq(name, "NR_NODE_ID") {
        SettingSource::NodeId
    } else if has_node && str_eq(name, "NR_NODE_PATH") {
        SettingSource::Null
    } else if has_flow || has_node {
        if has_node && in_group {
            SettingSource::Group
        } else {
            SettingSource::Flow
        }
    } else {
        SettingSource::Process
    }
}

/// What a flow's setting named `key` is.
#[derive(Debug, Clone, PartialEq, Eq)]
pub enum FlowSetting {
    /// The flow's label (`NR_FLOW_NAME`).
    FlowName,
    /// The flow's identifier (`NR_FLOW_ID`).
    FlowId,
    /// The engine's environment variable of this name.
    Engine(String),
}

/// The mathematical value of a `FlowSetting`.
pub enum FlowSettingView {
    FlowName,
    FlowId,
    Engine(Seq<char>),
}

/// What a flow's setting named `key` is, the key trimmed of whitespace:
/// `NR_FLOW_NAME` and `NR_FLOW_ID` are the flow's own; any other key is an
/// environment variable of the engine, without a leading `$parent.`.
pub open spec fn flow_setting(key: Seq<char>) -> FlowSettingView {
    let t = trim_spaces(key);
    if t == "NR_FLOW_NAME"@ {
        FlowSettingView::FlowName
    } else if t == "NR_FLOW_ID"@ {
        FlowSettingView::FlowId
    } else if t.len() >= 8 && t.subrange(0, 8) == "$parent."@ {
        FlowSettingView::Engine(t.subrange(8, t.len() as int))
    } else {
        FlowSettingView::Engine(t)
    }
}

/// See `flow_setting`.
pub fn flow_setting_of(key: &str) -> (r: FlowSetting)
    ensures
        match flow_setting(key@) {
            FlowSettingView::FlowName => r is FlowName,
            FlowSettingView::FlowId => r is FlowId,
            FlowSettingView::Engine(n) => r matches FlowSetting::Engine(x) && x@ == n,
        },
{
    proof {
        reveal_strlit("NR_FLOW_NAME");
        reveal_strlit("NR_FLOW_ID");
        reveal_strlit("$parent.");
    }
    let t = trim(key);
    if str_eq(t, "NR_FLOW_NAME") {
        return FlowSetting::FlowName;
    }
    if str_eq(t, "NR_FLOW_ID") {
        return FlowSetting::FlowId;
    }
    let cs = crate::text::chars_of(t);
    let n = cs.len();
    if n >= 8 {
        let head = t.substring_char(0, 8);
        if str_eq(head, "$parent.") {
            return FlowSetting::Engine(t.substring_char(8, n).to_owned());
        }
    }
    FlowSetting::Engine(t.to_owned())
}

// ---------------------------------------------------------------------------
// Laws of boolean properties
// ---------------------------------------------------------------------------

/// A `bool` property is true exactly when its text is `true`: any other text,
/// `false` among them, gives false, whatever the message, the outside value or
/// the JSON error.
pub proof fn law_bool_property_is_text_true(
    value: Seq<char>,
    msg: Option<VariantView>,
    outside: Option<VariantView>,
    json_error: Option<Seq<char>>,
)
    ensures
        node_property(value, RedPropertyType::Bool, msg, outside, json_error) matches Ok(Some(VariantView::Bool(b)))
            && (b <==> value == "true"@),
        node_property("false"@, RedPropertyType::Bool, msg, outside, json_error) == Ok::<Option<VariantView>, EvalError>(
            Some(VariantView::Bool(false)),
        ),
{
    reveal_strlit("true");
    reveal_strlit("false");
    assert("false"@ != "true"@) by {
        assert("false"@[0] != "true"@[0]);
    }
}

/// An environment entry of type `bool` is true exactly when its text is
/// `true`; a flow whose one entry is such an entry (not named `env`) maps its
/// name to that boolean.
pub proof fn law_bool_entry_is_text_true(e: RedEnvEntry, out: Option<VariantView>)
    requires
        e.value_type@ == "bool"@,
    ensures
        first_value(e, out) matches Some(Ok(VariantView::Bool(b))) && (b <==> e.value@ == "true"@),
        e.name@ != "env"@ ==> env_entries(seq![e], seq![out]) == Some(
            Ok::<Map<Seq<char>, VariantView>, EvalError>(
                Map::<Seq<char>, VariantView>::empty().insert(e.name@, VariantView::Bool(e.value@ == "true"@)),
            ),
        ),
{
    reveal_strlit("bool");
    reveal_strlit("true");
    if e.name@ != "env"@ {
        let es = seq![e];
        let outs = seq![out];
        assert(first_phase(es, outs, 0) == Some(Ok::<Map<Seq<char>, VariantView>, EvalError>(Map::empty())));
        let m = Map::<Seq<char>, VariantView>::empty().insert(e.name@, VariantView::Bool(e.value@ == "true"@));
        assert(first_phase(es, outs, 1) == Some(Ok::<Map<Seq<char>, VariantView>, EvalError>(m)));
        assert(second_phase(es, outs, m, 0) == Some(Ok::<Map<Seq<char>, VariantView>, EvalError>(m)));
        assert(second_phase(es, outs, m, 1) == Some(Ok::<Map<Seq<char>, VariantView>, EvalError>(m)));
    }
}

} // verus!
