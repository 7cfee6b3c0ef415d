//! Paths to networked entity properties.
use vstd::prelude::*;

verus! {

broadcast use vstd::array::group_array_axioms;

/// Internal path representation for a networked entity property.
///
/// A `FieldPath` identifies a concrete property within an entity serializer
/// tree: its components `path[0..=last]`.
#[derive(Clone, Copy, Debug, Eq, Hash, PartialEq)]
pub struct FieldPath {
    path: [u16; 7],
    last: usize,
}

/// The contents of a field path: all seven component slots, and the index
/// of the last component in use.
pub struct FieldPathView {
    pub path: Seq<u16>,
    pub last: nat,
}

impl View for FieldPath {
    type V = FieldPathView;

    closed spec fn view(&self) -> FieldPathView {
        FieldPathView { path: self.path@, last: self.last as nat }
    }
}

/// `a + b` wrapped to 16 bits.
pub open spec fn wrap_add(a: u16, b: u16) -> u16 {
    ((a + b) % 0x10000) as u16
}

/// `a - b` wrapped to 16 bits.
pub open spec fn wrap_sub(a: u16, b: u16) -> u16 {
    ((a - b + 0x10000) % 0x10000) as u16
}

impl FieldPathView {
    /// The path with `val` appended.
    pub open spec fn pushed(self, val: u16) -> FieldPathView {
        FieldPathView { path: self.path.update((self.last + 1) as int, val), last: self.last + 1 }
    }

    /// The path without its last `n` components.
    pub open spec fn popped(self, n: nat) -> FieldPathView {
        FieldPathView { path: self.path, last: (self.last - n) as nat }
    }

    /// The path with `val` added to component `n`.
    pub open spec fn incremented(self, n: int, val: u16) -> FieldPathView {
        FieldPathView { path: self.path.update(n, wrap_add(self.path[n], val)), last: self.last }
    }

    /// The path with `val` subtracted from component `n`.
    pub open spec fn decremented(self, n: int, val: u16) -> FieldPathView {
        FieldPathView { path: self.path.update(n, wrap_sub(self.path[n], val)), last: self.last }
    }
}

impl FieldPath {
    /// A path has seven slots and its last component is one of them.
    pub closed spec fn wf(&self) -> bool {
        self.last < 7
    }

    /// A path's view has its seven slots, and the path is well formed
    /// exactly when its last component is one of them.
    pub proof fn lemma_slots(&self)
        ensures
            self@.path.len() == 7,
            self.wf() <==> self@.last < 7,
    {
    }

    /// The index of the last component in use.
    pub fn last(&self) -> (n: usize)
        ensures
            n == self@.last,
    {
        self.last
    }

    /// Component `i` of the path.
    pub fn component(&self, i: usize) -> (v: u16)
        requires
            i < 7,
        ensures
            v == self@.path[i as int],
    {
        self.path[i]
    }

    /// Appends a component.
    pub fn push(&mut self, val: u16)
        requires
            old(self)@.last < 6,
        ensures
            final(self).wf(),
            final(self)@ == old(self)@.pushed(val),
    {
        self.last = self.last + 1;
        self.path[self.last] = val;
    }

    /// Removes the last `n` components.
    pub fn pop(&mut self, n: usize)
        requires
            old(self).wf(),
            n <= old(self)@.last,
        ensures
            final(self).wf(),
            final(self)@ == old(self)@.popped(n as nat),
    {
        self.last = self.last - n;
    }

    /// Adds `val` to component `n`, wrapping around.
    pub fn inc(&mut self, n: usize, val: u16)
        requires
            n < 7,
        ensures
            final(self).wf() == old(self).wf(),
            final(self)@ == old(self)@.incremented(n as int, val),
    {
        self.path[n] = self.path[n].wrapping_add(val);
    }

    /// Subtracts `val` from component `n`, wrapping around.
    pub fn sub(&mut self, n: usize, val: u16)
        requires
            n < 7,
        ensures
            final(self).wf() == old(self).wf(),
            final(self)@ == old(self)@.decremented(n as int, val),
    {
        self.path[n] = self.path[n].wrapping_sub(val);
    }

    /// Adds `val` to the last component, wrapping around.
    pub fn inc_curr(&mut self, val: u16)
        requires
            old(self).wf(),
        ensures
            final(self).wf(),
            final(self)@ == old(self)@.incremented(old(self)@.last as int, val),
    {
        self.path[self.last] = self.path[self.last].wrapping_add(val);
    }
}

impl Default for FieldPath {
    /// The root path: one component, `u16::MAX`, so that the first
    /// increment moves to component zero.
    fn default() -> (fp: Self)
        ensures
            fp.wf(),
            fp@.path == seq![u16::MAX, 0u16, 0u16, 0u16, 0u16, 0u16, 0u16],
            fp@.last == 0,
    {
        let fp = FieldPath { path: [u16::MAX, 0, 0, 0, 0, 0, 0], last: 0 };
        proof {
            assert(fp@.path =~= seq![u16::MAX, 0u16, 0u16, 0u16, 0u16, 0u16, 0u16]);
        }
        fp
    }
}

/// Pushing a component and popping it again gives back the path's depth
/// and every component in use.
pub proof fn push_pop_round_trip(before: FieldPathView, val: u16)
    requires
        before.last < 6,
        before.path.len() == 7,
    ensures
        before.pushed(val).popped(1).last == before.last,
        forall|i: int| 0 <= i <= before.last ==> #[trigger] before.pushed(val).popped(1).path[i] == before.path[i],
{
}

/// Adding to a component and then subtracting the same amount gives back
/// the path.
pub proof fn inc_sub_round_trip(before: FieldPathView, n: int, val: u16)
    requires
        0 <= n < before.path.len(),
    ensures
        before.incremented(n, val).decremented(n, val) == before,
{
    let a = before.path[n];
    assert(wrap_sub(wrap_add(a, val), val) == a);
    assert(before.incremented(n, val).decremented(n, val).path =~= before.path);
}

} // verus!
