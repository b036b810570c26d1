//! The registry of node types: what is known of each node type, by type name.
//!
//! What a node type's entry holds is left to the user of the registry (`M`).

use vstd::prelude::*;

use crate::text::str_eq;
use crate::EdgelinkError;

verus! {

/// The entries `metas` by the names `names` at the same positions.
pub open spec fn registry_view<M>(names: Seq<String>, metas: Seq<M>) -> Map<Seq<char>, M> {
    Map::new(
        |k: Seq<char>| exists|i: int| 0 <= i < names.len() && #[trigger] names[i]@ == k,
        |k: Seq<char>| metas[choose|i: int| 0 <= i < names.len() && #[trigger] names[i]@ == k],
    )
}

/// No name occurs twice.
pub open spec fn distinct_names(names: Seq<String>) -> bool {
    forall|i: int, j: int| 0 <= i < j < names.len() ==> names[i]@ != names[j]@
}

proof fn lemma_registry_at<M>(names: Seq<String>, metas: Seq<M>, i: int)
    requires
        distinct_names(names),
        0 <= i < names.len(),
    ensures
        registry_view(names, metas).contains_key(names[i]@),
        registry_view(names, metas)[names[i]@] == metas[i],
{
    let k = names[i]@;
    assert(names[i]@ == k);
    let j = choose|j: int| 0 <= j < names.len() && #[trigger] names[j]@ == k;
    if j != i {
        if j < i {
            assert(names[j]@ != names[i]@);
        } else {
            assert(names[i]@ != names[j]@);
        }
    }
}

/// Collects node types before the registry is built.
pub struct RegistryBuilder<M> {
    names: Vec<String>,
    metas: Vec<M>,
}

/// The built registry of node types.
pub struct RegistryHandle<M> {
    names: Vec<String>,
    metas: Vec<M>,
}

/// Finds the position of `name` in `names`.
fn position_of(names: &Vec<String>, name: &str) -> (r: Option<usize>)
    ensures
        match r {
            Some(i) => i < names@.len() && names@[i as int]@ == name@,
            None => forall|i: int| 0 <= i < names@.len() ==> #[trigger] names@[i]@ != name@,
        },
{
    let mut i: usize = 0;
    while i < names.len()
        invariant
            i <= names@.len(),
            forall|j: int| 0 <= j < i ==> #[trigger] names@[j]@ != name@,
        decreases names.len() - i,
    {
        if str_eq(names[i].as_str(), name) {
            return Some(i);
        }
        i = i + 1;
    }
    None
}

impl<M> RegistryBuilder<M> {
    #[verifier::type_invariant]
    spec fn inv(self) -> bool {
        &&& self.names@.len() == self.metas@.len()
        &&& distinct_names(self.names@)
    }

    /// The node types registered so far, by type name.
    pub closed spec fn view(&self) -> Map<Seq<char>, M> {
        registry_view(self.names@, self.metas@)
    }

    /// A builder with no node type.
    pub fn new() -> (r: Self)
        ensures
            r.view() == Map::<Seq<char>, M>::empty(),
    {
        let r = RegistryBuilder { names: Vec::new(), metas: Vec::new() };
        assert(r.view() =~= Map::<Seq<char>, M>::empty());
        r
    }

    /// Registers the node type `node_type` with the entry `meta`, replacing an
    /// entry of the same type name.
    pub fn register(self, node_type: &str, meta: M) -> (r: Self)
        ensures
            r.view() == self.view().insert(node_type@, meta),
    {
        proof {
            use_type_invariant(&self);
        }
        let ghost old_view = self.view();
        let ghost ns = self.names@;
        let ghost ms = self.metas@;
        let RegistryBuilder { mut names, mut metas } = self;
        match position_of(&names, node_type) {
            Some(i) => {
                metas.set(i, meta);
                let r = RegistryBuilder { names, metas };
                proof {
                    assert(r.view() =~= old_view.insert(node_type@, meta)) by {
                        assert forall|k: Seq<char>| #[trigger] r.view().contains_key(k) == old_view.insert(node_type@, meta).contains_key(k) by {
                            if r.view().contains_key(k) {
                                let j = choose|j: int| 0 <= j < r.names@.len() && #[trigger] r.names@[j]@ == k;
                                assert(ns[j]@ == k);
                            }
                            if old_view.contains_key(k) {
                                let j = choose|j: int| 0 <= j < ns.len() && #[trigger] ns[j]@ == k;
                                assert(r.names@[j]@ == k);
                            }
                            if k == node_type@ {
                                assert(r.names@[i as int]@ == k);
                            }
                        }
                        assert forall|k: Seq<char>| #[trigger] r.view().contains_key(k) implies r.view()[k]
                            == old_view.insert(node_type@, meta)[k] by {
                            let j = choose|j: int| 0 <= j < r.names@.len() && #[trigger] r.names@[j]@ == k;
                            lemma_registry_at(r.names@, r.metas@, j);
                            lemma_registry_at(ns, ms, j);
                            if j != i {
                                assert(k != node_type@);
                            }
                        }
                    }
                }
                r
            },
            None => {
                names.push(node_type.to_owned());
                metas.push(meta);
                let r = RegistryBuilder { names, metas };
                proof {
                    let n = ns.len() as int;
                    assert(r.view() =~= old_view.insert(node_type@, meta)) by {
                        assert forall|k: Seq<char>| #[trigger] r.view().contains_key(k) == old_view.insert(node_type@, meta).contains_key(k) by {
                            if r.view().contains_key(k) {
                                let j = choose|j: int| 0 <= j < r.names@.len() && #[trigger] r.names@[j]@ == k;
                                if j < n {
                                    assert(ns[j]@ == k);
                                }
                            }
                            if old_view.contains_key(k) {
                                let j = choose|j: int| 0 <= j < ns.len() && #[trigger] ns[j]@ == k;
                                assert(r.names@[j]@ == k);
                            }
                            if k == node_type@ {
                                assert(r.names@[n]@ == k);
                            }
                        }
                        assert forall|k: Seq<char>| #[trigger] r.view().contains_key(k) implies r.view()[k]
                            == old_view.insert(node_type@, meta)[k] by {
                            let j = choose|j: int| 0 <= j < r.names@.len() && #[trigger] r.names@[j]@ == k;
                            lemma_registry_at(r.names@, r.metas@, j);
                            if j < n {
                                lemma_registry_at(ns, ms, j);
                                assert(k != node_type@);
                            }
                        }
                    }
                }
                r
            },
        }
    }

    /// The registry of the node types registered; building never fails.
    pub fn build(self) -> (r: Result<RegistryHandle<M>, EdgelinkError>)
        ensures
            r matches Ok(h) && h.view() == self.view(),
    {
        proof {
            use_type_invariant(&self);
        }
        let RegistryBuilder { names, metas } = self;
        Ok(RegistryHandle { names, metas })
    }
}

impl<M> RegistryHandle<M> {
    #[verifier::type_invariant]
    spec fn inv(self) -> bool {
        &&& self.names@.len() == self.metas@.len()
        &&& distinct_names(self.names@)
    }

    /// The node types, by type name.
    pub closed spec fn view(&self) -> Map<Seq<char>, M> {
        registry_view(self.names@, self.metas@)
    }

    /// The entry of the node type `node_type`, if it is registered.
    pub fn get(&self, node_type: &str) -> (r: Option<&M>)
        ensures
            match r {
                Some(m) => self.view().contains_key(node_type@) && *m == self.view()[node_type@],
                None => !self.view().contains_key(node_type@),
            },
    {
        proof {
            use_type_invariant(self);
        }
        match position_of(&self.names, node_type) {
            Some(i) => {
                proof {
                    lemma_registry_at(self.names@, self.metas@, i as int);
                }
                Some(&self.metas[i])
            },
            None => {
                proof {
                    if self.view().contains_key(node_type@) {
                        let j = choose|j: int| 0 <= j < self.names@.len() && #[trigger] self.names@[j]@ == node_type@;
                    }
                }
                None
            },
        }
    }

    /// The number of node types.
    pub fn len(&self) -> (r: usize)
        ensures
            r == self.view().len(),
    {
        proof {
            use_type_invariant(self);
            let ks = self.names@.map_values(|n: String| n@);
            assert(ks.no_duplicates()) by {
                assert forall|i: int, j: int| 0 <= i < ks.len() && 0 <= j < ks.len() && i != j implies ks[i] != ks[j] by {
                    if i < j {
                        assert(self.names@[i]@ != self.names@[j]@);
                    } else {
                        assert(self.names@[j]@ != self.names@[i]@);
                    }
                }
            }
            ks.unique_seq_to_set();
            assert(self.view().dom() =~= ks.to_set()) by {
                assert forall|k: Seq<char>| self.view().dom().contains(k) implies ks.to_set().contains(k) by {
                    let j = choose|j: int| 0 <= j < self.names@.len() && #[trigger] self.names@[j]@ == k;
                    assert(ks[j] == k);
                }
                assert forall|k: Seq<char>| ks.to_set().contains(k) implies self.view().dom().contains(k) by {
                    let j = choose|j: int| 0 <= j < ks.len() && ks[j] == k;
                    assert(self.names@[j]@ == k);
                }
            }
        }
        self.names.len()
    }
}

} // verus!
