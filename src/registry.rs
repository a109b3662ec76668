//! The catalogue of declared types.

use crate::ast::{base_type_name, Type};
use crate::text::str_eq;
use vstd::prelude::*;

verus! {

/// The kinds of declared type.
#[derive(PartialEq, Eq, Structural, Clone, Copy, Debug)]
pub enum TypeKind {
    Scalar,
    Object,
    Interface,
    Union,
    Enum,
    InputObject,
}

/// A type declared in the schema; interfaces and unions list the object
/// types that belong to them.
#[derive(Debug)]
pub struct MetaType {
    pub name: String,
    pub kind: TypeKind,
    pub possible_types: Vec<String>,
}

/// The catalogue of declared types.
#[derive(Debug)]
pub struct Registry {
    pub types: Vec<MetaType>,
}

/// The first index at or after `start` of a type called `name`, or -1.
pub open spec fn type_pos_from(types: Seq<MetaType>, name: Seq<char>, start: int) -> int
    decreases types.len() - start,
{
    if start < 0 || start >= types.len() {
        -1
    } else if types[start].name@ == name {
        start
    } else {
        type_pos_from(types, name, start + 1)
    }
}

/// The type called `name`, if one is declared.
pub open spec fn lookup_type(types: Seq<MetaType>, name: Seq<char>) -> Option<MetaType> {
    let p = type_pos_from(types, name, 0);
    if p >= 0 {
        Some(types[p])
    } else {
        None
    }
}

/// An object of type `object` satisfies the type condition `cond`.
pub open spec fn type_applies(types: Seq<MetaType>, cond: Seq<char>, object: Seq<char>) -> bool {
    cond == object || match lookup_type(types, cond) {
        Some(t) => t.possible_types@.map_values(|s: String| s@).contains(object),
        None => false,
    }
}

impl Registry {
    pub fn new() -> (r: Registry)
        ensures
            r.types@.len() == 0,
    {
        Registry { types: Vec::new() }
    }

    /// Declares a type with no member types.
    pub fn add_type(&mut self, name: String, kind: TypeKind)
        ensures
            final(self).types@.len() == old(self).types@.len() + 1,
            final(self).types@.last().name == name,
            final(self).types@.last().kind == kind,
            final(self).types@.last().possible_types@.len() == 0,
            final(self).types@.drop_last() == old(self).types@,
    {
        self.types.push(MetaType { name, kind, possible_types: Vec::new() });
        proof { assert(self.types@.drop_last() =~= old(self).types@); }
    }

    /// Declares an interface or union together with the object types that belong to it.
    pub fn add_abstract_type(&mut self, name: String, kind: TypeKind, possible_types: Vec<String>)
        ensures
            final(self).types@.len() == old(self).types@.len() + 1,
            final(self).types@.last() == (MetaType { name, kind, possible_types }),
            final(self).types@.drop_last() == old(self).types@,
    {
        self.types.push(MetaType { name, kind, possible_types });
        proof { assert(self.types@.drop_last() =~= old(self).types@); }
    }

    /// Whether an object of type `object` satisfies the type condition `cond`:
    /// it is that type, or belongs to it.
    #[verifier::loop_isolation(false)]
    pub fn is_possible_type(&self, cond: &String, object: &String) -> (r: bool)
        ensures
            r == type_applies(self.types@, cond@, object@),
    {
        if str_eq(cond, object) {
            return true;
        }
        match self.lookup(cond) {
            Some(t) => {
                let mut i: usize = 0;
                while i < t.possible_types.len()
                    invariant
                        0 <= i <= t.possible_types@.len(),
                        forall|k: int| 0 <= k < i ==> t.possible_types@[k]@ != object@,
                    decreases t.possible_types@.len() - i,
                {
                    if str_eq(&t.possible_types[i], object) {
                        assert(t.possible_types@.map_values(|s: String| s@)[i as int] == object@);
                        return true;
                    }
                    i = i + 1;
                }
                proof {
                    let views = t.possible_types@.map_values(|s: String| s@);
                    assert forall|k: int| 0 <= k < views.len() implies #[trigger] views[k] != object@ by {
                        assert(t.possible_types@[k]@ != object@);
                    }
                }
                false
            },
            None => false,
        }
    }

    /// The type called `name`.
    pub fn lookup(&self, name: &String) -> (r: Option<&MetaType>)
        ensures
            match lookup_type(self.types@, name@) {
                Some(t) => r == Some(&t),
                None => r is None,
            },
    {
        let mut j: usize = 0;
        while j < self.types.len()
            invariant
                0 <= j <= self.types@.len(),
                type_pos_from(self.types@, name@, 0) == type_pos_from(self.types@, name@, j as int),
            decreases self.types@.len() - j,
        {
            if str_eq(&self.types[j].name, name) {
                return Some(&self.types[j]);
            }
            j = j + 1;
        }
        None
    }

    /// The declared type a type reference is built on, under its wrappers.
    pub fn concrete_type_by_parsed_type(&self, ty: &Type) -> (r: Option<&MetaType>)
        ensures
            match lookup_type(self.types@, base_type_name(*ty)) {
                Some(t) => r == Some(&t),
                None => r is None,
            },
    {
        self.lookup(ty.base_name())
    }
}

} // verus!
