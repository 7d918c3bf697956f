//! Common grounded values.
use std::collections::HashMap;

use vstd::pervasive::cloned;
use vstd::prelude::*;
use vstd::std_specs::hash::obeys_key_model;

verus! {

/// A named operation, identified by its name.
#[derive(Clone, Debug)]
pub struct Operation {
    pub name: String,
    pub typ: String,
}

impl Operation {
    pub fn new(name: &str, typ: &str) -> (r: Operation)
        ensures
            r.name@ == name@,
            r.typ@ == typ@,
    {
        Operation { name: name.to_owned(), typ: typ.to_owned() }
    }

    pub fn duplicate(&self) -> (r: Operation)
        ensures
            r.name@ == self.name@,
            r.typ@ == self.typ@,
    {
        Operation { name: self.name.clone(), typ: self.typ.clone() }
    }
}

/// A function with a cache: each key is mapped once, later requests for it
/// return a clone of the cached value.
#[verifier::reject_recursive_types(K)]
#[verifier::reject_recursive_types(V)]
#[verifier::reject_recursive_types(F)]
pub struct CachingMapper<K: Clone + std::hash::Hash + Eq, V: Clone, F: Fn(K) -> V> {
    mapper: F,
    mapping: HashMap<K, V>,
}

impl<K: Clone + std::hash::Hash + Eq, V: Clone, F: Fn(K) -> V> CachingMapper<K, V, F> {
    pub closed spec fn spec_mapper(&self) -> F {
        self.mapper
    }

    /// The cached values, by key.
    pub closed spec fn spec_mapping(&self) -> Map<K, V> {
        self.mapping@
    }

    pub fn new(mapper: F) -> (r: Self)
        ensures
            r.spec_mapper() == mapper,
            r.spec_mapping() == Map::<K, V>::empty(),
    {
        Self { mapper, mapping: HashMap::new() }
    }

    /// The value of `key`: the cached one where there is one, else the
    /// mapper's, which is cached.
    pub fn replace(&mut self, key: K) -> (r: V)
        requires
            obeys_key_model::<K>(),
            forall|k: K| #[trigger] old(self).spec_mapper().requires((k,)),
        ensures
            final(self).spec_mapper() == old(self).spec_mapper(),
            old(self).spec_mapping().contains_key(key) ==> cloned(old(self).spec_mapping()[key], r)
                && final(self).spec_mapping() == old(self).spec_mapping(),
            !old(self).spec_mapping().contains_key(key) ==> exists|k: K, v: V|
                cloned(key, k) && old(self).spec_mapper().ensures((k,), r) && cloned(r, v)
                    && final(self).spec_mapping() == old(self).spec_mapping().insert(key, v),
    {
        broadcast use vstd::std_specs::hash::group_hash_axioms;

        match self.mapping.get(&key) {
            Some(mapped) => mapped.clone(),
            None => {
                let ghost old_key = key;
                let k = key.clone();
                let ghost kv = k;
                assert(self.spec_mapper().requires((k,)));
                let new_val = (self.mapper)(k);
                let stored = new_val.clone();
                let ghost sv = stored;
                self.mapping.insert(key, stored);
                assert(cloned(old_key, kv) && self.spec_mapper().ensures((kv,), new_val) && cloned(new_val, sv)
                    && self.spec_mapping() == old(self).spec_mapping().insert(old_key, sv));
                new_val
            },
        }
    }

    /// The cached values.
    pub fn mapping(&self) -> (r: &HashMap<K, V>)
        ensures
            r@ == self.spec_mapping(),
    {
        &self.mapping
    }
}

} // verus!
