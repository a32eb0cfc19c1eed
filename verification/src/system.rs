//! Task descriptors: a unique name plus the names of the tasks that must
//! finish before this one may start.

use vstd::prelude::*;

verus! {

/// The mathematical view of a task descriptor: its name and its ordered list
/// of prerequisite names, both as character sequences.
pub struct SystemV {
    pub name: Seq<char>,
    pub after: Seq<Seq<char>>,
}

/// A task descriptor.  `name` must be unique across the set handed to the
/// scheduler; every entry of `after` must name another descriptor in the same
/// set.  The executable body of the task lives with the host embedding the
/// scheduler, keyed by the descriptor's index.
pub struct System {
    pub name: String,
    pub after: Vec<String>,
}

impl View for System {
    type V = SystemV;

    open spec fn view(&self) -> SystemV {
        SystemV { name: self.name@, after: self.after@.map_values(|s: String| s@) }
    }
}

/// The view of a whole descriptor list.
pub open spec fn views_of(v: Seq<System>) -> Seq<SystemV> {
    v.map_values(|s: System| s@)
}

impl System {
    /// Builds a descriptor from a name and its prerequisite names.
    pub fn new(name: String, after: Vec<String>) -> (s: System)
        ensures
            s@.name == name@,
            s@.after == after@.map_values(|a: String| a@),
    {
        System { name, after }
    }
}

} // verus!
