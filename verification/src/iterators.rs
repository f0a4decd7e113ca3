//! The cursor capability shared by every iterator the merge layer consumes.
use vstd::prelude::*;

use crate::keys::entries_sorted;
use crate::Error;

verus! {

/// A cursor over key/value entries: a current entry, validity, and an
/// advance step. Abstractly a cursor is the sequence of entries it has not
/// yet consumed, current entry first, with strictly ascending keys.
pub trait StorageIterator: Sized {
    /// Well-formedness of the cursor.
    spec fn inv(&self) -> bool;

    /// The entries not yet consumed, current entry first.
    spec fn remaining(&self) -> Seq<(Seq<u8>, Seq<u8>)>;

    /// Every cursor yields strictly ascending keys.
    proof fn lemma_remaining_sorted(&self)
        requires
            self.inv(),
        ensures
            entries_sorted(self.remaining()),
    ;

    /// The key of the current entry.
    fn key(&self) -> (k: &[u8])
        requires
            self.inv(),
            self.remaining().len() > 0,
        ensures
            k@ == self.remaining()[0].0,
    ;

    /// The value of the current entry.
    fn value(&self) -> (v: &[u8])
        requires
            self.inv(),
            self.remaining().len() > 0,
        ensures
            v@ == self.remaining()[0].1,
    ;

    /// Whether this cursor's advance can never fail. In-memory cursors
    /// claim it; a merge claims it when all its children do.
    spec fn no_fail(&self) -> bool;

    /// Whether a current entry exists.
    fn is_valid(&self) -> (r: bool)
        requires
            self.inv(),
        ensures
            r == (self.remaining().len() > 0),
    ;

    /// Advance past the current entry; exhausted cursors stay exhausted. A
    /// failed advance leaves the remaining entries as they were, and a
    /// cursor that cannot fail always succeeds.
    fn next(&mut self) -> (r: Result<(), Error>)
        requires
            old(self).inv(),
        ensures
            final(self).inv(),
            final(self).no_fail() == old(self).no_fail(),
            old(self).no_fail() ==> r is Ok,
            r is Ok && old(self).remaining().len() > 0 ==> final(self).remaining() == old(
                self,
            ).remaining().drop_first(),
            r is Ok && old(self).remaining().len() == 0 ==> final(self).remaining() == old(
                self,
            ).remaining(),
            r is Err ==> final(self).remaining() == old(self).remaining(),
    ;
}

} // verus!
