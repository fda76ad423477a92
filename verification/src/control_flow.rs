//! Builders for conditional and keyed list content: they only carry the
//! closures they are given to where the content is mounted.
use vstd::prelude::*;
use core::marker::PhantomData;

verus! {

/// The condition of a `show` block, before its branches are given.
pub struct ShowBuilder<C> {
    pub condition: C,
}

/// Starts a `show` block on `condition`.
pub fn show<C: FnMut() -> bool>(condition: C) -> (r: ShowBuilder<C>)
    ensures
        r.condition == condition,
{
    ShowBuilder { condition }
}

/// The source of a keyed list, before its key is given.
pub struct ForEachBuilder<T, S> {
    pub source: S,
    pub _marker: PhantomData<T>,
}

/// Starts a keyed list whose items `source` produces.
pub fn for_each<T, S: FnMut() -> Vec<T>>(source: S) -> (r: ForEachBuilder<T, S>)
    ensures
        r.source == source,
{
    ForEachBuilder { source, _marker: PhantomData }
}

/// The source and key of a keyed list, before its rows are given.
pub struct ForEachKeyBuilder<T, S, F, K> {
    pub source: S,
    pub key: F,
    pub _marker: PhantomData<(T, K)>,
}

impl<T, S> ForEachBuilder<T, S> {
    /// Gives the function that keys each item; the keys are made strings
    /// where the rows are built.
    pub fn key<K, F: Fn(&T) -> K>(self, key: F) -> (r: ForEachKeyBuilder<T, S, F, K>)
        ensures
            r.source == self.source,
            r.key == key,
    {
        ForEachKeyBuilder { source: self.source, key, _marker: PhantomData }
    }
}

} // verus!
