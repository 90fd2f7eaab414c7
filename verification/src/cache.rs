//! Memoization caches that break recursion.
//!
//! A cache maps a key to a computed value and remembers, for every key it
//! has seen, one of three states: absent, in progress, or present. The
//! first request for a key marks it in progress, computes the value, and
//! stores it; later requests return the stored value without recomputing.
//! A request for a key that is still in progress is a reentrant request:
//! the computation of the key's value has, directly or through other
//! calls, asked for the same key again. [`Cache::get_maybe_recursive`]
//! reports that case as an empty result; [`Cache::get`] rules it out.
//!
//! Because the verifier tracks ownership, a computation that may re-enter
//! the cache takes the cache by value and hands it back alongside the
//! computed value, rather than sharing it behind an internal mutable cell.
//! The states a key moves through are the same either way, and the
//! [`Cache::begin`]/[`Cache::finish`] pair exposes them directly for
//! callers that drive a computation themselves.
//!
//! [`Cache`] stores values of any type; [`CopyCache`] is the same design
//! specialized to plain-data values, which it returns by value with exact
//! equalities in its contracts.

use core::hash::Hash;
use std::collections::HashMap;
use vstd::prelude::*;
use vstd::pervasive::cloned;
use vstd::pervasive::unreached;
use vstd::std_specs::hash::obeys_key_model;

verus! {

broadcast use vstd::std_specs::hash::group_hash_axioms;

/// What a cache knows about one key.
#[derive(Clone, Copy, Debug, PartialEq, Eq, Structural)]
pub enum EntryState {
    /// The key was never requested.
    Absent,
    /// A computation for the key has started and not yet finished.
    InProgress,
    /// A value for the key is stored.
    Present,
}

/// Cache for values of any type.
pub struct Cache<In, Out> {
    map: HashMap<In, Option<Out>>,
}

impl<In, Out> View for Cache<In, Out> {
    type V = Map<In, Option<Out>>;

    closed spec fn view(&self) -> Map<In, Option<Out>> {
        self.map@
    }
}

impl<In, Out> Cache<In, Out> {
    /// A value for `k` is stored.
    pub open spec fn spec_present(self, k: In) -> bool {
        self@.contains_key(k) && self@[k] is Some
    }

    /// `k` is marked as being computed right now.
    pub open spec fn spec_in_progress(self, k: In) -> bool {
        self@.contains_key(k) && self@[k] is None
    }

    /// The stored value for `k`.
    pub open spec fn spec_value(self, k: In) -> Out
        recommends
            self.spec_present(k),
    {
        self@[k]->0
    }
}

impl<In, Out> Default for Cache<In, Out> {
    /// An empty cache.
    fn default() -> (r: Self)
        ensures
            r@ == Map::<In, Option<Out>>::empty(),
    {
        Cache { map: HashMap::new() }
    }
}

impl<In: Copy + Eq + Hash, Out> Cache<In, Out> {
    /// Number of keys that are present or in progress.
    pub fn len(&self) -> (n: usize)
        requires
            obeys_key_model::<In>(),
        ensures
            n == self@.dom().len(),
    {
        self.map.len()
    }

    /// The state of `key`, without changing the cache.
    pub fn state(&self, key: &In) -> (r: EntryState)
        requires
            obeys_key_model::<In>(),
        ensures
            (r is Present) == self.spec_present(*key),
            (r is InProgress) == self.spec_in_progress(*key),
            (r is Absent) == !self@.contains_key(*key),
    {
        match self.map.get(key) {
            Some(entry) => match entry {
                Some(_) => EntryState::Present,
                None => EntryState::InProgress,
            },
            None => EntryState::Absent,
        }
    }

    /// The stored value for `key`, if one is present.
    pub fn peek<'a>(&'a self, key: &In) -> (r: Option<&'a Out>)
        requires
            obeys_key_model::<In>(),
        ensures
            match r {
                Some(v) => self.spec_present(*key) && *v == self.spec_value(*key),
                None => !self.spec_present(*key),
            },
    {
        match self.map.get(key) {
            Some(entry) => match entry {
                Some(v) => Some(v),
                None => None,
            },
            None => None,
        }
    }

    /// Marks `key` as in progress. The first step of a computation that is
    /// driven by the caller.
    pub fn begin(&mut self, key: In)
        requires
            obeys_key_model::<In>(),
            !old(self)@.contains_key(key),
        ensures
            final(self)@ == old(self)@.insert(key, None::<Out>),
    {
        self.map.insert(key, None);
    }

    /// Stores the computed value for `key`, moving it from in progress to
    /// present.
    pub fn finish(&mut self, key: In, value: Out)
        requires
            obeys_key_model::<In>(),
            old(self).spec_in_progress(key),
        ensures
            final(self)@ == old(self)@.insert(key, Some(value)),
    {
        self.map.insert(key, Some(value));
    }

    /// Returns the stored value for `key`, or runs `compute` once and
    /// stores its result.
    ///
    /// `compute` has no access to the cache here, and the exclusive borrow
    /// rules out any other way to reach it, so a reentrant request cannot
    /// arise inside this call; the `requires` additionally keeps `get` off
    /// keys whose caller-driven computation (via [`Cache::begin`]) is
    /// still in progress.
    pub fn get<'a, F: FnOnce(In) -> Out>(&'a mut self, key: In, compute: F) -> (r: &'a Out)
        requires
            obeys_key_model::<In>(),
            !old(self).spec_in_progress(key),
            call_requires(compute, (key,)),
        ensures
            old(self).spec_present(key) ==> final(self)@ == old(self)@ && *r == old(
                self,
            ).spec_value(key),
            !old(self)@.contains_key(key) ==> call_ensures(compute, (key,), *r) && final(self)@
                == old(self)@.insert(key, Some(*r)),
            final(self).spec_present(key) && *r == final(self).spec_value(key),
    {
        if !self.map.contains_key(&key) {
            let v = compute(key);
            self.map.insert(key, Some(v));
        }
        match self.map.get(&key) {
            Some(entry) => match entry {
                Some(v) => v,
                None => unreached(),
            },
            None => unreached(),
        }
    }

    /// Returns the stored value for `key`; runs `compute` if the key is
    /// absent; returns `None` if the key is in progress, that is, if this
    /// request is a reentrant one.
    ///
    /// `compute` receives the cache itself (with `key` already marked in
    /// progress) and gives it back, so it may look up or compute other
    /// keys — or re-request `key` and be told `None`.
    ///
    /// The stored value is exactly what `compute` returned; the value
    /// handed back to the caller is a clone of the stored one.
    pub fn get_maybe_recursive<F: FnOnce(Self, In) -> (Self, Out)>(
        self,
        key: In,
        compute: F,
    ) -> (r: (Self, Option<Out>)) where Out: Clone
        requires
            obeys_key_model::<In>(),
            forall|c0: Self|
                c0@ == self@.insert(key, None::<Out>) ==> #[trigger] call_requires(
                    compute,
                    (c0, key),
                ),
        ensures
            ({
                let (cache, res) = r;
                &&& self.spec_present(key) ==> cache@ == self@ && res is Some && cloned::<Out>(
                    self.spec_value(key),
                    res->0,
                )
                &&& self.spec_in_progress(key) ==> cache@ == self@ && res is None
                &&& !self@.contains_key(key) ==> exists|c0: Self, mid: Self, v: Out|
                    {
                        &&& c0@ == self@.insert(key, None::<Out>)
                        &&& #[trigger] call_ensures(compute, (c0, key), (mid, v))
                        &&& cache@ == mid@.insert(key, Some(v))
                        &&& res is Some && cloned::<Out>(v, res->0)
                    }
            }),
    {
        let mut this = self;
        match this.state(&key) {
            EntryState::Present => {
                let v = match this.peek(&key) {
                    Some(v) => v.clone(),
                    None => unreached(),
                };
                (this, Some(v))
            },
            EntryState::InProgress => (this, None),
            EntryState::Absent => {
                this.map.insert(key, None);
                let ghost c0g = this;
                let (mut cache, v) = compute(this, key);
                let ghost midg = cache;
                let ghost vg = v;
                let out = v.clone();
                cache.map.insert(key, Some(v));
                proof {
                    assert(call_ensures(compute, (c0g, key), (midg, vg)));
                }
                (cache, Some(out))
            },
        }
    }
}

/// Cache for plain-data values, returned by value with exact contracts.
pub struct CopyCache<In, Out> {
    map: HashMap<In, Option<Out>>,
}

impl<In, Out> View for CopyCache<In, Out> {
    type V = Map<In, Option<Out>>;

    closed spec fn view(&self) -> Map<In, Option<Out>> {
        self.map@
    }
}

impl<In, Out> CopyCache<In, Out> {
    /// A value for `k` is stored.
    pub open spec fn spec_present(self, k: In) -> bool {
        self@.contains_key(k) && self@[k] is Some
    }

    /// `k` is marked as being computed right now.
    pub open spec fn spec_in_progress(self, k: In) -> bool {
        self@.contains_key(k) && self@[k] is None
    }

    /// The stored value for `k`.
    pub open spec fn spec_value(self, k: In) -> Out
        recommends
            self.spec_present(k),
    {
        self@[k]->0
    }
}

impl<In, Out> Default for CopyCache<In, Out> {
    /// An empty cache.
    fn default() -> (r: Self)
        ensures
            r@ == Map::<In, Option<Out>>::empty(),
    {
        CopyCache { map: HashMap::new() }
    }
}

impl<In: Copy + Eq + Hash, Out: Copy> CopyCache<In, Out> {
    /// Number of keys that are present or in progress.
    pub fn len(&self) -> (n: usize)
        requires
            obeys_key_model::<In>(),
        ensures
            n == self@.dom().len(),
    {
        self.map.len()
    }

    /// The state of `key`, without changing the cache.
    pub fn state(&self, key: &In) -> (r: EntryState)
        requires
            obeys_key_model::<In>(),
        ensures
            (r is Present) == self.spec_present(*key),
            (r is InProgress) == self.spec_in_progress(*key),
            (r is Absent) == !self@.contains_key(*key),
    {
        match self.map.get(key) {
            Some(entry) => match entry {
                Some(_) => EntryState::Present,
                None => EntryState::InProgress,
            },
            None => EntryState::Absent,
        }
    }

    /// The stored value for `key`, if one is present.
    pub fn peek(&self, key: &In) -> (r: Option<Out>)
        requires
            obeys_key_model::<In>(),
        ensures
            match r {
                Some(v) => self.spec_present(*key) && v == self.spec_value(*key),
                None => !self.spec_present(*key),
            },
    {
        match self.map.get(key) {
            Some(entry) => match entry {
                Some(v) => Some(*v),
                None => None,
            },
            None => None,
        }
    }

    /// Marks `key` as in progress. The first step of a computation that is
    /// driven by the caller.
    pub fn begin(&mut self, key: In)
        requires
            obeys_key_model::<In>(),
            !old(self)@.contains_key(key),
        ensures
            final(self)@ == old(self)@.insert(key, None::<Out>),
    {
        self.map.insert(key, None);
    }

    /// Stores the computed value for `key`, moving it from in progress to
    /// present.
    pub fn finish(&mut self, key: In, value: Out)
        requires
            obeys_key_model::<In>(),
            old(self).spec_in_progress(key),
        ensures
            final(self)@ == old(self)@.insert(key, Some(value)),
    {
        self.map.insert(key, Some(value));
    }

    /// Returns the stored value for `key`, or runs `compute` once and
    /// stores its result.
    ///
    /// As with [`Cache::get`], a reentrant request cannot arise here:
    /// `compute` has no access to the cache.
    pub fn get<F: FnOnce(In) -> Out>(&mut self, key: In, compute: F) -> (r: Out)
        requires
            obeys_key_model::<In>(),
            !old(self).spec_in_progress(key),
            call_requires(compute, (key,)),
        ensures
            old(self).spec_present(key) ==> final(self)@ == old(self)@ && r == old(
                self,
            ).spec_value(key),
            !old(self)@.contains_key(key) ==> call_ensures(compute, (key,), r) && final(self)@
                == old(self)@.insert(key, Some(r)),
            final(self).spec_present(key) && r == final(self).spec_value(key),
    {
        match self.peek(&key) {
            Some(v) => v,
            None => {
                let v = compute(key);
                self.map.insert(key, Some(v));
                v
            },
        }
    }

    /// Returns the stored value for `key`; runs `compute` if the key is
    /// absent; returns `None` if the key is in progress, that is, if this
    /// request is a reentrant one.
    ///
    /// `compute` receives the cache itself (with `key` already marked in
    /// progress) and gives it back, so it may look up or compute other
    /// keys — or re-request `key` and be told `None`.
    pub fn get_maybe_recursive<F: FnOnce(Self, In) -> (Self, Out)>(
        self,
        key: In,
        compute: F,
    ) -> (r: (Self, Option<Out>))
        requires
            obeys_key_model::<In>(),
            forall|c0: Self|
                c0@ == self@.insert(key, None::<Out>) ==> #[trigger] call_requires(
                    compute,
                    (c0, key),
                ),
        ensures
            ({
                let (cache, res) = r;
                &&& self.spec_present(key) ==> cache@ == self@ && res == Some(self.spec_value(key))
                &&& self.spec_in_progress(key) ==> cache@ == self@ && res is None
                &&& !self@.contains_key(key) ==> exists|c0: Self, mid: Self, v: Out|
                    {
                        &&& c0@ == self@.insert(key, None::<Out>)
                        &&& #[trigger] call_ensures(compute, (c0, key), (mid, v))
                        &&& cache@ == mid@.insert(key, Some(v))
                        &&& res == Some(v)
                    }
            }),
    {
        let mut this = self;
        match this.state(&key) {
            EntryState::Present => {
                let v = match this.peek(&key) {
                    Some(v) => v,
                    None => unreached(),
                };
                (this, Some(v))
            },
            EntryState::InProgress => (this, None),
            EntryState::Absent => {
                this.map.insert(key, None);
                let ghost c0g = this;
                let (mut cache, v) = compute(this, key);
                let ghost midg = cache;
                cache.map.insert(key, Some(v));
                proof {
                    assert(call_ensures(compute, (c0g, key), (midg, v)));
                }
                (cache, Some(v))
            },
        }
    }
}

} // verus!
