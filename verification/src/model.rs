//! The shortcut data model: a named, ordered sequence of combo/text steps,
//! identified by an id that is unique within the registry.

use vstd::prelude::*;

verus! {

/// One stored shortcut: an immutable id, a display name, and the ordered
/// list of steps (each step a combo token such as `Ctrl+S`, or literal text).
#[derive(Clone, Debug)]
pub struct Shortcut {
    pub id: u64,
    pub name: String,
    pub sequence: Vec<String>,
}

/// The mathematical value of a [`Shortcut`].
pub struct ShortcutV {
    pub id: u64,
    pub name: Seq<char>,
    pub sequence: Seq<Seq<char>>,
}

impl View for Shortcut {
    type V = ShortcutV;

    open spec fn view(&self) -> ShortcutV {
        ShortcutV { id: self.id, name: self.name@, sequence: self.sequence.deep_view() }
    }
}

impl DeepView for Shortcut {
    type V = ShortcutV;

    open spec fn deep_view(&self) -> ShortcutV {
        self.view()
    }
}

pub fn clone_string_vec(v: &Vec<String>) -> (r: Vec<String>)
    ensures
        r.deep_view() == v.deep_view(),
{
    let mut r: Vec<String> = Vec::new();
    let mut i: usize = 0;
    while i < v.len()
        invariant
            i <= v@.len(),
            r@.len() == i,
            forall|j: int| 0 <= j < i ==> r@[j]@ == v@[j]@,
        decreases v@.len() - i,
    {
        r.push(v[i].clone());
        i += 1;
    }
    proof {
        assert(r.deep_view() =~= v.deep_view());
    }
    r
}

impl Shortcut {
    /// A deep copy: same id, name and step sequence.
    pub fn duplicate(&self) -> (r: Shortcut)
        ensures
            r@ == self@,
    {
        let r = Shortcut {
            id: self.id,
            name: self.name.clone(),
            sequence: clone_string_vec(&self.sequence),
        };
        proof {
            assert(r@ == self@);
        }
        r
    }
}

/// A deep copy of a shortcut list; the view is unchanged.
pub fn clone_shortcuts(v: &Vec<Shortcut>) -> (r: Vec<Shortcut>)
    ensures
        r.deep_view() == v.deep_view(),
{
    let mut r: Vec<Shortcut> = Vec::new();
    let mut i: usize = 0;
    while i < v.len()
        invariant
            i <= v@.len(),
            r@.len() == i,
            forall|j: int| 0 <= j < i ==> r@[j]@ == v@[j]@,
        decreases v@.len() - i,
    {
        r.push(v[i].duplicate());
        i += 1;
    }
    proof {
        assert(r.deep_view() =~= v.deep_view());
    }
    r
}

} // verus!
