//! A frequency map from large unsigned values to occurrence counts.
//!
//! The scan keeps one of these for the values currently inside its sliding
//! window. The counter is 64 bits wide rather than the narrowest type that
//! would do, so an increment is an exact `+ 1` for every workload that fits
//! in memory; a decrement never takes a count below zero.

use vstd::prelude::*;
use std::collections::HashMap;

verus! {

broadcast use vstd::std_specs::hash::group_hash_axioms;

/// Occurrence counts of the values currently inside the sliding window.
pub struct NumberMap {
    map: HashMap<u128, u64>,
}

impl NumberMap {
    /// The recorded count of `key`; zero when the key is absent.
    pub closed spec fn count(self, key: u128) -> u64 {
        if self.map@.contains_key(key) {
            self.map@[key]
        } else {
            0u64
        }
    }

    /// An empty map: every value has count zero.
    pub fn new() -> (m: NumberMap)
        ensures
            forall|k: u128| m.count(k) == 0,
    {
        NumberMap { map: HashMap::new() }
    }

    /// Raise the count of `key` by one; counts of other keys are untouched.
    /// The count saturates at `u64::MAX`, a bound no real workload reaches.
    pub fn inc(&mut self, key: u128)
        ensures
            old(self).count(key) < u64::MAX ==> final(self).count(key) == old(self).count(key)
                + 1,
            old(self).count(key) == u64::MAX ==> final(self).count(key) == u64::MAX,
            forall|k: u128| k != key ==> final(self).count(k) == old(self).count(k),
    {
        let value = self.get(key);
        if value < u64::MAX {
            self.map.insert(key, value + 1);
        }
    }

    /// Lower the count of `key` by one, but never below zero; counts of other
    /// keys are untouched.
    pub fn dec(&mut self, key: u128)
        ensures
            old(self).count(key) > 0 ==> final(self).count(key) == old(self).count(key) - 1,
            old(self).count(key) == 0 ==> final(self).count(key) == 0,
            forall|k: u128| k != key ==> final(self).count(k) == old(self).count(k),
    {
        let value = self.get(key);
        if value > 0 {
            self.map.insert(key, value - 1);
        }
    }

    /// The current count of `key`. Pure: the map is not changed, so repeated
    /// calls return the same value.
    pub fn get(&self, key: u128) -> (c: u64)
        ensures
            c == self.count(key),
    {
        match self.map.get(&key) {
            Some(v) => *v,
            None => 0,
        }
    }
}

/// One operation on a `NumberMap`: an increment or a decrement of one value.
#[derive(Clone, Copy)]
pub enum MapOp {
    Inc(u128),
    Dec(u128),
}

/// The count `value` carries after the operations `ops` have been applied to
/// an initially empty map: each increment adds one, each decrement takes one
/// away but never goes below zero.
pub open spec fn net_count(ops: Seq<MapOp>, value: u128) -> nat
    decreases ops.len(),
{
    if ops.len() == 0 {
        0
    } else {
        let prev = net_count(ops.drop_last(), value);
        match ops.last() {
            MapOp::Inc(k) => if k == value {
                prev + 1
            } else {
                prev
            },
            MapOp::Dec(k) => if k == value && prev > 0 {
                (prev - 1) as nat
            } else {
                prev
            },
        }
    }
}

/// No value is counted more often than there are operations.
pub proof fn lemma_net_count_bound(ops: Seq<MapOp>, value: u128)
    ensures
        net_count(ops, value) <= ops.len(),
    decreases ops.len(),
{
    if ops.len() > 0 {
        lemma_net_count_bound(ops.drop_last(), value);
    }
}

/// Law: after any sequence of increments and decrements applied to a fresh
/// map, the recorded count of every value equals its net count — the number
/// of increments of that value minus its decrements, with each decrement
/// floored at zero.
pub fn replay(ops: &Vec<MapOp>) -> (m: NumberMap)
    ensures
        forall|v: u128| m.count(v) == net_count(ops@, v),
{
    let mut m = NumberMap::new();
    let mut idx: usize = 0;
    while idx < ops.len()
        invariant
            idx <= ops@.len(),
            forall|v: u128| m.count(v) == net_count(ops@.take(idx as int), v),
        decreases ops@.len() - idx,
    {
        let ghost prefix = ops@.take(idx as int);
        let ghost next = ops@.take(idx + 1);
        proof {
            assert(next.drop_last() =~= prefix);
            assert(next.last() == ops@[idx as int]);
            lemma_net_count_bound(prefix, match ops@[idx as int] {
                MapOp::Inc(k) => k,
                MapOp::Dec(k) => k,
            });
        }
        match ops[idx] {
            MapOp::Inc(k) => m.inc(k),
            MapOp::Dec(k) => m.dec(k),
        }
        idx = idx + 1;
    }
    proof {
        assert(ops@.take(ops@.len() as int) =~= ops@);
    }
    m
}

} // verus!
