//! Values that carry a version number.
use vstd::prelude::*;

verus! {

/// A value and its version.  Every change makes a new version.
#[derive(Debug)]
pub struct Versioned<T> {
    pub version: usize,
    pub value: T,
}

impl<T> Versioned<T> {
    /// The first version of a value.
    pub fn new(value: T) -> (r: Self)
        ensures
            r == (Versioned { version: 0, value }),
    {
        Versioned { version: 0, value }
    }

    /// The value.
    pub fn get(&self) -> (r: &T)
        ensures
            *r == self.value,
    {
        &self.value
    }

    /// The value, without its version.
    pub fn extract(self) -> (r: T)
        ensures
            r == self.value,
    {
        self.value
    }

    /// Whether `self` is an older version than `new`.
    pub fn old_version(&self, new: &Self) -> (r: bool)
        ensures
            r == (self.version < new.version),
    {
        self.version < new.version
    }

    /// The next version, whose value `change` makes out of a clone of this one's.
    pub fn mutate_clone<F: FnOnce(T) -> T>(&self, change: F) -> (r: Self) where T: Clone
        requires
            self.version < usize::MAX,
            forall|value: T| cloned(self.value, value) ==> call_requires(change, (value,)),
        ensures
            r.version == self.version + 1,
            exists|value: T| #[trigger]
                cloned(self.value, value) && call_ensures(change, (value,), r.value),
    {
        let value = self.value.clone();
        assert(cloned(self.value, value));
        Versioned { version: self.version + 1, value: change(value) }
    }
}

impl<T: Clone> Clone for Versioned<T> {
    fn clone(&self) -> (r: Self)
        ensures
            r.version == self.version,
            cloned(self.value, r.value),
    {
        Versioned { version: self.version, value: self.value.clone() }
    }
}

} // verus!
