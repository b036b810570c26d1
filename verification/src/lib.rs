//! Verified core of a Node-RED compatible flow runtime: property expressions,
//! element identifiers, dependency ordering, context-store keys and the
//! dynamic `Variant` value model.

use vstd::prelude::*;

pub mod eid;
pub mod uid;
pub mod text;
pub mod propex;
pub mod context;
pub mod prop_triple;
pub mod flow;
pub mod group;
pub mod registry;
pub mod topo;
pub mod variant;
pub mod json;
pub mod eval;

verus! {

/// The `PluginRegistrar` is defined by the application and passed to a plugin
/// entry point; a plugin module uses it to register itself with the application.
pub trait PluginRegistrar {
    fn register_plugin(&mut self, plugin: Box<dyn Plugin>);
}

/// `Plugin` is implemented by a plugin library for one or more types.
pub trait Plugin {
    /// A callback routine implemented by the plugin.
    fn callback1(&self);

    /// A callback that takes an argument and returns a value.
    fn callback2(&self, i: i32) -> i32;
}

/// Errors of the runtime.
#[derive(Debug)]
#[non_exhaustive]
pub enum EdgelinkError {
    PermissionDenied,
    BadFlowsJson(String),
    UnsupportedFlowsJsonFormat(String),
    NotSupported(String),
    BadArgument(&'static str),
    BadArguments(String),
    InvalidData(String),
    TaskCancelled,
    InvalidOperation(String),
    OutOfRange,
    Configuration,
    Timeout,
}

impl EdgelinkError {
    /// Builds the error reported for an operation that is not valid in the current state.
    pub fn invalid_operation(msg: &str) -> (r: EdgelinkError)
        ensures
            r matches EdgelinkError::InvalidOperation(s) && s@ == msg@,
    {
        EdgelinkError::InvalidOperation(msg.to_owned())
    }
}

} // verus!
