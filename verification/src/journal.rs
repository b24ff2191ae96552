//! The journal of the core: every order is appended before it is matched.
use crate::types::Order;
use vstd::prelude::*;

verus! {

/// One line of the journal.
#[derive(Debug, Clone, Copy, PartialEq, Eq, Structural)]
pub struct JournalEntry {
    pub seq: u64,
    pub order: Order,
}

/// An append-only journal at a path. Entries are not written to disk yet.
pub struct Journal {
    path: String,
    appended: Ghost<Seq<JournalEntry>>,
}

impl Journal {
    /// Where the journal is kept.
    pub closed spec fn path(&self) -> Seq<char> {
        self.path@
    }

    /// The entries that have been appended, oldest first.
    pub closed spec fn entries(&self) -> Seq<JournalEntry> {
        self.appended@
    }

    /// Opens the journal at `path`.
    pub fn open(path: String) -> (journal: Result<Self, std::io::Error>)
        ensures
            journal matches Ok(journal) && journal.path() == path@ && journal.entries()
                == Seq::<JournalEntry>::empty(),
    {
        Ok(Journal { path, appended: Ghost(Seq::empty()) })
    }

    /// Appends `order` under the sequence number `seq`.
    pub fn append(&mut self, seq: u64, order: &Order) -> (appended: Result<(), std::io::Error>)
        ensures
            appended is Ok,
            final(self).path() == old(self).path(),
            final(self).entries() == old(self).entries().push(
                JournalEntry { seq, order: *order },
            ),
    {
        let entry = JournalEntry { seq, order: *order };
        self.appended = Ghost(self.appended@.push(entry));
        Ok(())
    }
}

} // verus!
