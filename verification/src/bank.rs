//! The size-indexed bank: slot `n` (stored at index `n - 1`) holds the
//! candidate programs of size exactly `n` found so far.

#![verifier::loop_isolation(false)]

use vstd::prelude::*;

use crate::lang::{args_view, AST, ASTV};

verus! {

broadcast use vstd::std_specs::vec::group_vec_axioms, vstd::seq::group_seq_axioms;

/// A size-indexed pool of candidate programs.
pub struct Bank {
    pub entries: Vec<Vec<AST>>,
}

/// What growing a bank to `n` slots does to its contents: existing slots
/// are kept, and empty slots are appended until there are at least `n`.
pub open spec fn grow_spec(s: Seq<Seq<ASTV>>, n: nat) -> Seq<Seq<ASTV>> {
    if s.len() >= n {
        s
    } else {
        s + Seq::new((n - s.len()) as nat, |i: int| Seq::<ASTV>::empty())
    }
}

/// Growing a bank is idempotent: growing twice to the same size leaves
/// the contents exactly as one growth left them.
pub proof fn lemma_grow_idempotent(s: Seq<Seq<ASTV>>, n: nat)
    ensures
        grow_spec(grow_spec(s, n), n) == grow_spec(s, n),
{
    assert(grow_spec(s, n).len() >= n);
}

impl View for Bank {
    type V = Seq<Seq<ASTV>>;

    open spec fn view(&self) -> Seq<Seq<ASTV>> {
        self.entries@.map_values(|v: Vec<AST>| args_view(v))
    }
}

impl Bank {
    /// An empty bank, with no slots at all.
    pub fn new() -> (r: Bank)
        ensures
            r@ == Seq::<Seq<ASTV>>::empty(),
    {
        let r = Bank { entries: Vec::new() };
        proof {
            assert(r@ =~= Seq::<Seq<ASTV>>::empty());
        }
        r
    }

    /// Ensures slots `1..=size` exist, appending empty slots as needed.
    pub fn grow_to(&mut self, size: usize)
        ensures
            final(self)@ == grow_spec(old(self)@, size as nat),
            final(self).entries.len() >= size,
    {
        while self.entries.len() < size
            invariant
                old(self).entries.len() >= size ==> *self == *old(self),
                old(self).entries.len() < size ==> self.entries.len() <= size
                    && self@ == grow_spec(old(self)@, self.entries@.len() as nat),
            decreases size - self.entries.len(),
        {
            let ghost pre = self@;
            self.entries.push(Vec::new());
            proof {
                assert(self@ =~= pre.push(Seq::<ASTV>::empty()));
                assert(self@ =~= grow_spec(old(self)@, self.entries@.len() as nat));
            }
        }
        proof {
            if old(self).entries.len() >= size {
                assert(self@ =~= grow_spec(old(self)@, size as nat));
            }
        }
    }

    /// The slot of programs of size exactly `size`.
    pub fn size(&self, size: usize) -> (r: &Vec<AST>)
        requires
            1 <= size <= self.entries.len(),
        ensures
            args_view(*r) == self@[size - 1],
    {
        &self.entries[size - 1]
    }

    /// The slot of programs of size exactly `size`, growing the bank
    /// first so that the slot exists.
    pub fn size_mut(&mut self, size: usize) -> (r: &mut Vec<AST>)
        requires
            size >= 1,
        ensures
            args_view(*r) == grow_spec(old(self)@, size as nat)[size - 1],
            final(self)@.len() == grow_spec(old(self)@, size as nat).len(),
            final(self).entries.len() == grow_spec(old(self)@, size as nat).len(),
            final(self)@[size - 1] == args_view(*final(r)),
            forall|j: int|
                0 <= j < final(self)@.len() && j != size - 1 ==> final(self)@[j] == grow_spec(
                    old(self)@,
                    size as nat,
                )[j],
    {
        self.grow_to(size);
        &mut self.entries[size - 1]
    }
}

} // verus!
