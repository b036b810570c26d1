//! Groups of nodes in a flow.
//!
//! A group knows what it belongs to by identifier: the flow or group that holds
//! it answers for settings the group does not have.

use vstd::prelude::*;

use crate::eid::{hex16, ElementId};
use crate::variant::{Variant, VariantObjectMap, VariantView};

verus! {

/// What a group belongs to: a flow or another group.
#[derive(Debug, Clone, Copy, PartialEq, Eq)]
pub enum GroupParent {
    Flow(ElementId),
    Group(ElementId),
}

/// A group of nodes: its identifier, name, whether it is disabled, what it
/// belongs to, and its own settings.
#[derive(Debug)]
pub struct Group {
    id: ElementId,
    name: String,
    disabled: bool,
    parent: GroupParent,
    envs: VariantObjectMap,
}

/// The settings of a group with identifier `id` and name `name` whose
/// environment entries are `env`: those entries, then `NR_GROUP_ID` (the
/// identifier in hexadecimal) and `NR_GROUP_NAME` (the name).
pub open spec fn group_envs(id: ElementId, name: Seq<char>, env: Map<Seq<char>, VariantView>) -> Map<Seq<char>, VariantView> {
    env.insert("NR_GROUP_ID"@, VariantView::String(hex16(id@))).insert("NR_GROUP_NAME"@, VariantView::String(name))
}

impl Group {
    /// The identifier.
    pub closed spec fn id_spec(&self) -> ElementId {
        self.id
    }

    /// The name.
    pub closed spec fn name_spec(&self) -> Seq<char> {
        self.name@
    }

    /// Whether the group is disabled.
    pub closed spec fn disabled_spec(&self) -> bool {
        self.disabled
    }

    /// What the group belongs to.
    pub closed spec fn parent_spec(&self) -> GroupParent {
        self.parent
    }

    /// The group's own settings.
    pub closed spec fn envs_spec(&self) -> Map<Seq<char>, VariantView> {
        self.envs.view()
    }

    fn build(id: ElementId, name: &str, disabled: bool, parent: GroupParent, env: VariantObjectMap) -> (r: Group)
        ensures
            r.id_spec() == id,
            r.name_spec() == name@,
            r.disabled_spec() == disabled,
            r.parent_spec() == parent,
            r.envs_spec() == group_envs(id, name@, env.view()),
    {
        let mut envs = env;
        envs.insert("NR_GROUP_ID".to_owned(), Variant::String(id.to_string()));
        envs.insert("NR_GROUP_NAME".to_owned(), Variant::String(name.to_owned()));
        Group { id, name: name.to_owned(), disabled, parent, envs }
    }

    /// A group of the flow `flow`, with the environment entries `env`.
    pub fn new_flow_group(id: ElementId, name: &str, disabled: bool, flow: ElementId, env: VariantObjectMap) -> (r: Group)
        ensures
            r.id_spec() == id,
            r.name_spec() == name@,
            r.disabled_spec() == disabled,
            r.parent_spec() == GroupParent::Flow(flow),
            r.envs_spec() == group_envs(id, name@, env.view()),
    {
        Self::build(id, name, disabled, GroupParent::Flow(flow), env)
    }

    /// A group inside the group `parent`, with the environment entries `env`.
    pub fn new_subgroup(id: ElementId, name: &str, disabled: bool, parent: &Group, env: VariantObjectMap) -> (r: Group)
        ensures
            r.id_spec() == id,
            r.name_spec() == name@,
            r.disabled_spec() == disabled,
            r.parent_spec() == GroupParent::Group(parent.id_spec()),
            r.envs_spec() == group_envs(id, name@, env.view()),
    {
        Self::build(id, name, disabled, GroupParent::Group(parent.id), env)
    }

    /// The identifier.
    pub fn id(&self) -> (r: ElementId)
        ensures
            r == self.id_spec(),
    {
        self.id
    }

    /// The name.
    pub fn name(&self) -> (r: &str)
        ensures
            r@ == self.name_spec(),
    {
        self.name.as_str()
    }

    /// The kind of flows element: `group`.
    pub fn type_str(&self) -> (r: &'static str)
        ensures
            r@ == "group"@,
    {
        proof {
            reveal_strlit("group");
        }
        "group"
    }

    /// The place of groups in the order of flows elements: 0.
    pub fn ordering(&self) -> (r: usize)
        ensures
            r == 0,
    {
        0
    }

    /// Whether the group is disabled.
    pub fn is_disabled(&self) -> (r: bool)
        ensures
            r == self.disabled_spec(),
    {
        self.disabled
    }

    /// What the group belongs to.
    pub fn get_parent(&self) -> (r: &GroupParent)
        ensures
            *r == self.parent_spec(),
    {
        &self.parent
    }

    /// The identifier of the flow or group the group belongs to.
    pub fn parent_element(&self) -> (r: Option<ElementId>)
        ensures
            r == Some(match self.parent_spec() {
                GroupParent::Flow(f) => f,
                GroupParent::Group(g) => g,
            }),
    {
        match self.parent {
            GroupParent::Flow(f) => Some(f),
            GroupParent::Group(g) => Some(g),
        }
    }

    /// The group's own settings.
    pub fn get_envs(&self) -> (r: &VariantObjectMap)
        ensures
            r.view() == self.envs_spec(),
    {
        &self.envs
    }

    /// The group's own setting `key`, if it has one.
    pub fn get_env(&self, key: &str) -> (r: Option<&Variant>)
        ensures
            match r {
                Some(v) => self.envs_spec().contains_key(key@) && v.view() == self.envs_spec()[key@],
                None => !self.envs_spec().contains_key(key@),
            },
    {
        self.envs.get(key)
    }
}

} // verus!
