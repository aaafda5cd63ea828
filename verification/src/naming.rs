//! Paths extend to their children, and every datom names its form.

use vstd::prelude::*;

use crate::anatomy::{Datom, Found};
use crate::kinds::{found, found_of};
use crate::worded::Worded;

verus! {

/// The kind a path bears: it extends to the path of a child.
pub trait Pathing {
    /// The path of the child at `index`.
    fn child(&self, index: i64) -> Vec<i64>;
}

impl Pathing for Vec<i64> {
    fn child(&self, index: i64) -> (p: Vec<i64>)
        ensures
            p@ == self@.push(index),
    {
        let mut p = self.clone();
        p.push(index);
        p
    }
}

/// The kind a datom bears: it names its form.
pub trait Naming {
    /// The name of the form.
    fn form_name(&self) -> &'static str;
}

impl Naming for Datom {
    fn form_name(&self) -> (n: &'static str)
        ensures
            n@ == <Found as Worded>::word_of(found_of(self@)),
    {
        match self {
            Datom::Variant(..) => "Variant",
            Datom::Struct(_) => "Struct",
            Datom::Vector(_) => "Vector",
            Datom::Mapping(_) => "Mapping",
            Datom::Text(_) => "Text",
            Datom::Meaning(_) => "Meaning",
            Datom::Word(_) => "Word",
        }
    }
}

} // verus!
