//! The dynamic linker's view of the object-runtime bridge: a read-only
//! table resolving class and metaclass names to guest addresses, plus the
//! class reference written for constant string literals. The bridge
//! itself (class realization, selectors) lives outside this crate; the
//! embedder builds these tables before linking begins.

use vstd::prelude::*;

verus! {

use crate::tables::{table_lookup, lookup_address};

/// The class-pointer resolver the linker consults for class and
/// metaclass relocations, and for the reserved constant-string class
/// reference.
pub struct ObjC {
    pub classes: Vec<(String, u32)>,
    pub metaclasses: Vec<(String, u32)>,
    pub constant_string_class: u32,
}

impl ObjC {
    /// The guest address of the named class or metaclass, if registered.
    pub open spec fn spec_link_class(self, name: Seq<char>, is_metaclass: bool) -> Option<u32> {
        if is_metaclass {
            table_lookup(self.metaclasses@, name)
        } else {
            table_lookup(self.classes@, name)
        }
    }

    /// Resolve a class or metaclass name to its guest address.
    pub fn link_class(&self, name: &str, is_metaclass: bool) -> (r: Option<u32>)
        ensures
            r == self.spec_link_class(name@, is_metaclass),
    {
        if is_metaclass {
            lookup_address(&self.metaclasses, name)
        } else {
            lookup_address(&self.classes, name)
        }
    }
}

/// The string-object interner's answers: for each static string a host
/// implementation exposes as a guest constant, the guest address of its
/// interned string object. Built by the embedder before late linking.
pub struct StaticStrings {
    pub entries: Vec<(String, u32)>,
}

impl StaticStrings {
    /// The interned string object's address for `s`, if one exists.
    pub open spec fn spec_lookup(self, s: Seq<char>) -> Option<u32> {
        table_lookup(self.entries@, s)
    }

    pub fn lookup(&self, s: &str) -> (r: Option<u32>)
        ensures
            r == self.spec_lookup(s@),
    {
        lookup_address(&self.entries, s)
    }
}

} // verus!
