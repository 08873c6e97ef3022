//! The entry store / directory builder: accumulates one logical entry per
//! path, append-only, and tracks whether the zero-length root path has been
//! seen. Uniqueness of paths is a caller invariant, not enforced here.

use vstd::prelude::*;

use crate::entry::ZimEntry;

verus! {

/// Whether some entry of the sequence carries the empty (root) path.
pub open spec fn has_root_entry(entries: Seq<ZimEntry>) -> bool {
    exists|k: int| 0 <= k < entries.len() && entries[k].path@.len() == 0
}

/// The directory builder: the accumulated entries in insertion order.
pub struct EntryStore {
    pub entries: Vec<ZimEntry>,
    pub root_seen: bool,
}

impl EntryStore {
    /// The root flag tracks exactly whether an entry with the empty path was
    /// added.
    pub open spec fn wf(self) -> bool {
        self.root_seen == has_root_entry(self.entries@)
    }

    pub fn new() -> (s: EntryStore)
        ensures
            s.wf(),
            s.entries@.len() == 0,
    {
        EntryStore { entries: Vec::new(), root_seen: false }
    }

    /// Appends one entry. No uniqueness check: paths unique is the caller's
    /// invariant.
    pub fn add_entry(&mut self, e: ZimEntry)
        requires
            old(self).wf(),
        ensures
            final(self).wf(),
            final(self).entries@ == old(self).entries@.push(e),
    {
        let is_root = e.path.as_str().unicode_len() == 0;
        if is_root {
            self.root_seen = true;
        }
        self.entries.push(e);
        proof {
            let es = self.entries@;
            if is_root {
                assert(es[es.len() - 1].path@.len() == 0);
            } else {
                if has_root_entry(old(self).entries@) {
                    let k = choose|k: int|
                        0 <= k < old(self).entries@.len() && old(
                            self,
                        ).entries@[k].path@.len() == 0;
                    assert(es[k].path@.len() == 0);
                }
                if has_root_entry(es) {
                    let k = choose|k: int| 0 <= k < es.len() && es[k].path@.len() == 0;
                    if k < es.len() - 1 {
                        assert(old(self).entries@[k].path@.len() == 0);
                    }
                }
            }
        }
    }

    /// Whether an entry with the empty path was added.
    pub fn has_root(&self) -> (b: bool)
        requires
            self.wf(),
        ensures
            b == has_root_entry(self.entries@),
    {
        self.root_seen
    }
}

} // verus!
