//! Entries: one key of a map, looked up once, then read, written or filled.
use vstd::prelude::*;
use crate::raw::edge::compatible;
use crate::sequential::RadixMap;

verus! {

/// A key of a map with no value under it.
pub struct Vacant<'a, 'k> {
    pub map: &'a mut RadixMap,
    pub key: &'k [u8],
}

/// The value stored under a key of a map.
pub struct Occupied<'a> {
    pub value: &'a mut u64,
}

/// A key of a map, with or without a value.
pub enum Entry<'a, 'k> {
    Vacant(Vacant<'a, 'k>),
    Occupied(Occupied<'a>),
}

impl RadixMap {
    /// The entry of `key`: its value, or the place where one can go.
    pub fn entry<'a, 'k>(&'a mut self, key: &'k [u8]) -> (r: Entry<'a, 'k>)
        requires
            old(self).wf(),
        ensures
            r is Occupied <==> old(self)@.contains_key(key@),
            r matches Entry::Occupied(o) ==> {
                &&& *o.value == old(self)@[key@]
                &&& final(self).wf()
                &&& final(self).history() == old(self).history()
                &&& final(self)@ == old(self)@.insert(key@, *final(o.value))
            },
            r matches Entry::Vacant(v) ==> {
                &&& v.key@ == key@
                &&& *v.map == *old(self)
                &&& *final(v.map) == *final(self)
            },
    {
        if self.get(key).is_some() {
            Entry::Occupied(Occupied { value: self.get_mut(key).unwrap() })
        } else {
            Entry::Vacant(Vacant { map: self, key })
        }
    }
}

impl<'a, 'k> Entry<'a, 'k> {
    /// The value of the entry, storing `default` first if it has none.
    pub fn or_insert(self, default: u64) -> (r: &'a mut u64)
        requires
            self matches Entry::Vacant(v) ==> v.map.wf() && compatible(v.key@, v.map.history()),
        ensures
            self matches Entry::Occupied(o) ==> *r == *o.value && *final(r) == *final(o.value),
            self matches Entry::Vacant(v) ==> {
                &&& *r == default
                &&& final(v.map).wf()
                &&& final(v.map).history() == (*v.map).history().insert(v.key@)
                &&& final(v.map)@ == (*v.map)@.insert(v.key@, *final(r))
            },
    {
        match self {
            Entry::Occupied(o) => o.into_mut(),
            Entry::Vacant(v) => v.insert(default),
        }
    }

    /// The value of the entry, storing what `default` returns first if it
    /// has none; `default` is called only then.
    pub fn or_insert_with<F: FnOnce() -> u64>(self, default: F) -> (r: &'a mut u64)
        requires
            self matches Entry::Vacant(v) ==> v.map.wf() && compatible(v.key@, v.map.history())
                && default.requires(()),
        ensures
            self matches Entry::Occupied(o) ==> *r == *o.value && *final(r) == *final(o.value),
            self matches Entry::Vacant(v) ==> {
                &&& default.ensures((), *r)
                &&& final(v.map).wf()
                &&& final(v.map).history() == (*v.map).history().insert(v.key@)
                &&& final(v.map)@ == (*v.map)@.insert(v.key@, *final(r))
            },
    {
        match self {
            Entry::Occupied(o) => o.into_mut(),
            Entry::Vacant(v) => {
                let d = default();
                v.insert(d)
            },
        }
    }

    /// The value of the entry, storing zero first if it has none.
    pub fn or_default(self) -> (r: &'a mut u64)
        requires
            self matches Entry::Vacant(v) ==> v.map.wf() && compatible(v.key@, v.map.history()),
        ensures
            self matches Entry::Occupied(o) ==> *r == *o.value && *final(r) == *final(o.value),
            self matches Entry::Vacant(v) ==> {
                &&& *r == 0
                &&& final(v.map).wf()
                &&& final(v.map).history() == (*v.map).history().insert(v.key@)
                &&& final(v.map)@ == (*v.map)@.insert(v.key@, *final(r))
            },
    {
        self.or_insert(0)
    }

    /// Replace the value `v` of an entry that has one by `f(v)`; an entry
    /// without one is handed back as it is.
    pub fn and_modify<F: FnOnce(u64) -> u64>(self, f: F) -> (r: Entry<'a, 'k>)
        requires
            self matches Entry::Occupied(o) ==> f.requires((*o.value,)),
        ensures
            self matches Entry::Occupied(o) ==> r matches Entry::Occupied(o2) && f.ensures(
                (*o.value,),
                *o2.value,
            ) && *final(o2.value) == *final(o.value),
            self matches Entry::Vacant(v) ==> r == self,
    {
        match self {
            Entry::Occupied(o) => {
                let value = o.value;
                let v = f(*value);
                *value = v;
                Entry::Occupied(Occupied { value })
            },
            Entry::Vacant(v) => Entry::Vacant(v),
        }
    }
}

impl<'a, 'k> Vacant<'a, 'k> {
    /// Store `value` under the key; returns a reference to it. What is
    /// written through the reference becomes the value under the key.
    pub fn insert(self, value: u64) -> (r: &'a mut u64)
        requires
            self.map.wf(),
            compatible(self.key@, self.map.history()),
        ensures
            *r == value,
            final(self.map).wf(),
            final(self.map).history() == old(self.map).history().insert(self.key@),
            final(self.map)@ == old(self.map)@.insert(self.key@, *final(r)),
    {
        let map = self.map;
        map.upsert(self.key, value);
        map.get_mut(self.key).unwrap()
    }
}

impl<'a> Occupied<'a> {
    /// The value.
    pub fn get(&self) -> (r: &u64)
        ensures
            *r == *old(self.value),
    {
        &*self.value
    }

    /// A reference to the value, for as long as the entry is borrowed.
    pub fn get_mut(&mut self) -> (r: &mut u64)
        ensures
            *r == *old(self).value,
            *final(self).value == *final(r),
            *final(final(self).value) == *final(old(self).value),
    {
        &mut *self.value
    }

    /// Replace the value `v` by `f(v)`.
    pub fn and_modify<F: FnOnce(u64) -> u64>(self, f: F)
        requires
            f.requires((*old(self.value),)),
        ensures
            f.ensures((*old(self.value),), *final(self.value)),
    {
        let v = f(*self.value);
        *self.value = v;
    }

    /// Replace the value by `value`; returns the value it replaced.
    pub fn insert(self, value: u64) -> (r: u64)
        ensures
            r == *old(self.value),
            *final(self.value) == value,
    {
        let old = *self.value;
        *self.value = value;
        old
    }

    /// The reference to the value, for as long as the map is borrowed.
    pub fn into_mut(self) -> (r: &'a mut u64)
        ensures
            *r == *old(self.value),
            *final(r) == *final(self.value),
    {
        self.value
    }
}

} // verus!
