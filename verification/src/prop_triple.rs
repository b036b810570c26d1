//! Typed property values as written in flows: the type of a property (`str`,
//! `num`, `msg`, ...) and the property triples `{ p, vt, v }`.

use vstd::prelude::*;

use crate::eid::ElementId;
use crate::text::str_eq;

verus! {

/// A type name together with an optional element id.
pub struct RedTypeValue<'a> {
    pub red_type: &'a str,
    pub id: Option<ElementId>,
}

/// The type of a typed property.
#[derive(Debug, Clone, Copy, PartialEq, Eq, Structural)]
pub enum RedPropertyType {
    Str,
    Num,
    Json,
    Re,
    Date,
    Bin,
    Msg,
    Flow,
    Global,
    Bool,
    Jsonata,
    Env,
}

/// Whether a property is addressed by a property expression or is a literal.
#[derive(Debug, Clone, Copy, PartialEq, Eq, Structural)]
pub enum RedPropertyTypeCategory {
    Propex,
    Literal,
}

/// A property triple of a flows node: the property `p`, its type `vt`, its value `v`.
#[derive(Debug, Clone)]
pub struct RedPropertyTriple {
    pub p: String,
    pub vt: RedPropertyType,
    pub v: String,
}

/// The name of each property type, as it is written in flows files.
pub open spec fn property_type_name(t: RedPropertyType) -> Seq<char> {
    match t {
        RedPropertyType::Str => "str"@,
        RedPropertyType::Num => "num"@,
        RedPropertyType::Json => "json"@,
        RedPropertyType::Re => "re"@,
        RedPropertyType::Date => "date"@,
        RedPropertyType::Bin => "bin"@,
        RedPropertyType::Msg => "msg"@,
        RedPropertyType::Flow => "flow"@,
        RedPropertyType::Global => "global"@,
        RedPropertyType::Bool => "bool"@,
        RedPropertyType::Jsonata => "jsonata"@,
        RedPropertyType::Env => "env"@,
    }
}

/// The property type written as `name` in flows files, if there is one.
pub open spec fn type_named(name: Seq<char>) -> Option<RedPropertyType> {
    if name == "str"@ {
        Some(RedPropertyType::Str)
    } else if name == "num"@ {
        Some(RedPropertyType::Num)
    } else if name == "json"@ {
        Some(RedPropertyType::Json)
    } else if name == "re"@ {
        Some(RedPropertyType::Re)
    } else if name == "date"@ {
        Some(RedPropertyType::Date)
    } else if name == "bin"@ {
        Some(RedPropertyType::Bin)
    } else if name == "msg"@ {
        Some(RedPropertyType::Msg)
    } else if name == "flow"@ {
        Some(RedPropertyType::Flow)
    } else if name == "global"@ {
        Some(RedPropertyType::Global)
    } else if name == "bool"@ {
        Some(RedPropertyType::Bool)
    } else if name == "jsonata"@ {
        Some(RedPropertyType::Jsonata)
    } else if name == "env"@ {
        Some(RedPropertyType::Env)
    } else {
        None
    }
}

impl RedPropertyType {
    /// Message, flow and global properties are addressed by a property
    /// expression; all others are literals.
    pub fn category(&self) -> (r: RedPropertyTypeCategory)
        ensures
            r == (match *self {
                RedPropertyType::Msg | RedPropertyType::Flow | RedPropertyType::Global => RedPropertyTypeCategory::Propex,
                _ => RedPropertyTypeCategory::Literal,
            }),
    {
        match self {
            RedPropertyType::Msg | RedPropertyType::Flow | RedPropertyType::Global => RedPropertyTypeCategory::Propex,
            _ => RedPropertyTypeCategory::Literal,
        }
    }

    /// The property type written as `name` in flows files, if there is one.
    pub fn from_name(name: &str) -> (r: Option<RedPropertyType>)
        ensures
            match r {
                Some(t) => property_type_name(t) == name@,
                None => forall|t: RedPropertyType| property_type_name(t) != name@,
            },
            r == type_named(name@),
    {
        proof {
            reveal_strlit("str");
            reveal_strlit("num");
            reveal_strlit("json");
            reveal_strlit("re");
            reveal_strlit("date");
            reveal_strlit("bin");
            reveal_strlit("msg");
            reveal_strlit("flow");
            reveal_strlit("global");
            reveal_strlit("bool");
            reveal_strlit("jsonata");
            reveal_strlit("env");
        }
        if str_eq(name, "str") {
            Some(RedPropertyType::Str)
        } else if str_eq(name, "num") {
            Some(RedPropertyType::Num)
        } else if str_eq(name, "json") {
            Some(RedPropertyType::Json)
        } else if str_eq(name, "re") {
            Some(RedPropertyType::Re)
        } else if str_eq(name, "date") {
            Some(RedPropertyType::Date)
        } else if str_eq(name, "bin") {
            Some(RedPropertyType::Bin)
        } else if str_eq(name, "msg") {
            Some(RedPropertyType::Msg)
        } else if str_eq(name, "flow") {
            Some(RedPropertyType::Flow)
        } else if str_eq(name, "global") {
            Some(RedPropertyType::Global)
        } else if str_eq(name, "bool") {
            Some(RedPropertyType::Bool)
        } else if str_eq(name, "jsonata") {
            Some(RedPropertyType::Jsonata)
        } else if str_eq(name, "env") {
            Some(RedPropertyType::Env)
        } else {
            None
        }
    }
}

impl Default for RedPropertyType {
    fn default() -> (r: RedPropertyType)
        ensures
            r == RedPropertyType::Str,
    {
        RedPropertyType::Str
    }
}

} // verus!
