//! The write handle that a granted reservation hands to the producer.

use vstd::prelude::*;
use crate::ring::Ring;
use crate::sequence::slot;

verus! {

/// The error of a commit of more slots than were reserved.
#[derive(Debug, Clone, Copy, PartialEq, Eq, Structural)]
pub struct CommitError {
    /// The number of slots the caller asked to commit.
    pub attempted: usize,
    /// The number of slots the reservation holds.
    pub available: usize,
}

/// A run of reserved slots of a ring, borrowed from the ring until it is committed or
/// dropped. The producer fills the slots through `as_mut_slice` and publishes them by
/// one of the commits. Dropping the reservation publishes nothing.
pub struct Reservation<'a, T> {
    /// The ring the slots belong to.
    pub ring: &'a mut Ring<T>,
    /// The index of the first reserved slot.
    pub start: usize,
    /// The number of reserved slots.
    pub len: usize,
}

impl<'a, T> Reservation<'a, T> {
    /// The reservation covers between one slot and what the producer knows to be
    /// free, starts at the slot after the last published one and ends within the
    /// buffer.
    pub open spec fn wf(&self) -> bool {
        &&& self.ring.wf()
        &&& 1 <= self.len <= self.ring@.known_free()
        &&& self.start == slot(self.ring@.tail, self.ring@.capacity())
        &&& self.start + self.len <= self.ring@.capacity()
    }

    /// What the reserved slots hold.
    pub open spec fn slots(&self) -> Seq<Option<T>> {
        self.ring@.region(self.start as int, self.len as int)
    }

    /// Whether the first `k` reserved slots are filled.
    pub open spec fn filled(&self, k: nat) -> bool {
        forall|i: int| 0 <= i < k ==> (#[trigger] self.slots()[i]) is Some
    }

    /// The reserved slots, for writing. What is written changes neither the queue
    /// nor the counts of the ring.
    pub fn as_mut_slice(&mut self) -> (slice: &mut [Option<T>])
        requires
            old(self).wf(),
        ensures
            slice@ == old(self).slots(),
            final(self).start == old(self).start,
            final(self).len == old(self).len,
            *final(final(self).ring) == *final(old(self).ring),
            final(slice)@.len() == old(self).len ==> {
                &&& final(self).wf()
                &&& final(self).slots() == final(slice)@
                &&& final(self).ring.config() == old(self).ring.config()
                &&& final(self).ring@ == old(self).ring@.with_region(
                    old(self).start as int,
                    final(slice)@,
                )
                &&& final(self).ring@.items() == old(self).ring@.items()
            },
    {
        proof {
            let before = self.ring@;
            let start = self.start as int;
            let len = self.len as nat;
            before.lemma_bounded();
            assert forall|content: Seq<Option<T>>| content.len() == len implies {
                &&& (#[trigger] before.with_region(start, content)).wf()
                &&& before.with_region(start, content).items() == before.items()
                &&& before.with_region(start, content).region(start, len as int) == content
            } by {
                before.lemma_with_region(start, content);
            }
        }
        self.ring.region_mut(self.start, self.len)
    }

    /// The number of reserved slots.
    pub fn len(&self) -> (len: usize)
        ensures
            len == self.len,
    {
        self.len
    }

    /// Whether no slot is reserved, which holds of no reservation that a ring handed
    /// out.
    pub fn is_empty(&self) -> (empty: bool)
        ensures
            empty == (self.len == 0),
    {
        self.len == 0
    }

    /// Publishes all reserved slots, which the caller has filled.
    pub fn commit(self)
        requires
            self.wf(),
            self.filled(self.len as nat),
        ensures
            final(self.ring).wf(),
            final(self.ring).config() == old(self.ring).config(),
            final(self.ring)@ == old(self.ring)@.after_commit(self.len as nat),
            final(self.ring)@.items() == old(self.ring)@.items() + old(self.ring)@.pending(
                self.len as nat,
            ),
    {
        proof {
            self.ring@.lemma_filled_region(self.start as int, self.len as int, self.len as nat);
            self.ring@.lemma_after_commit(self.len as nat);
        }
        self.ring.commit_internal(self.len);
    }

    /// Publishes the first `n` reserved slots, which the caller has filled. Where `n`
    /// is more than was reserved nothing is published and the error tells both
    /// numbers.
    pub fn try_commit_n(self, n: usize) -> (result: Result<(), CommitError>)
        requires
            self.wf(),
            n <= self.len ==> self.filled(n as nat),
        ensures
            final(self.ring).wf(),
            final(self.ring).config() == old(self.ring).config(),
            n <= self.len ==> result is Ok && final(self.ring)@ == old(self.ring)@.after_commit(
                n as nat,
            ),
            n > self.len ==> result == Err::<(), CommitError>(
                CommitError { attempted: n, available: self.len },
            ) && final(self.ring)@ == old(self.ring)@,
    {
        if n > self.len {
            return Err(CommitError { attempted: n, available: self.len });
        }
        proof {
            self.ring@.lemma_filled_region(self.start as int, self.len as int, n as nat);
        }
        self.ring.commit_internal(n);
        Ok(())
    }

    /// Publishes the first `n` reserved slots, or all of them where `n` is more than
    /// was reserved, and returns how many were published. The caller has filled the
    /// slots that are published.
    pub fn commit_up_to(self, n: usize) -> (committed: usize)
        requires
            self.wf(),
            self.filled(crate::sequence::min_nat(n as nat, self.len as nat)),
        ensures
            committed == crate::sequence::min_nat(n as nat, self.len as nat),
            final(self.ring).wf(),
            final(self.ring).config() == old(self.ring).config(),
            final(self.ring)@ == old(self.ring)@.after_commit(committed as nat),
    {
        let to_commit: usize = if n <= self.len {
            n
        } else {
            self.len
        };
        proof {
            self.ring@.lemma_filled_region(self.start as int, self.len as int, to_commit as nat);
        }
        self.ring.commit_internal(to_commit);
        to_commit
    }
}

} // verus!
