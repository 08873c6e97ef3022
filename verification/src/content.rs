//! The content addresser: the compression-hint policy, the in-memory model
//! of the content pack, and the addresses it hands out.

use vstd::prelude::*;

verus! {

/// Direct-access items above this size are read as a byte range and marked
/// "do not recompress"; everything else is buffered whole and compressed.
pub const DIRECT_THRESHOLD: u64 = 4 * 1024 * 1024;

/// The opaque address a registration returns: the content pack's identifier
/// and a content identifier assigned monotonically within the pack.
#[derive(Clone, Copy, PartialEq, Eq, Structural, Debug)]
pub struct ContentAddress {
    pub pack_id: u32,
    pub content_id: u32,
}

/// The advisory compression hint handed to the pack writer.
#[derive(Clone, Copy, PartialEq, Eq, Structural, Debug)]
pub enum CompHint {
    Yes,
    No,
}

/// How an item's bytes reach the pack: buffered whole into memory, or read
/// as a range of the backing file.
#[derive(Clone, Copy, PartialEq, Eq, Structural, Debug)]
pub enum ReadPlan {
    Buffer,
    DirectRange,
}

/// The compression hint for an item: "do not recompress" exactly when the
/// source supports direct byte-range access and the size exceeds the
/// threshold.
pub open spec fn hint_for(direct_access: bool, size: u64) -> CompHint {
    if direct_access && size > DIRECT_THRESHOLD {
        CompHint::No
    } else {
        CompHint::Yes
    }
}

/// The read plan for an item: the range-limited reader exactly when the
/// source supports direct byte-range access and the size exceeds the
/// threshold; a size that merely reaches the threshold is still buffered.
pub open spec fn plan_for(direct_access: bool, size: u64) -> ReadPlan {
    if direct_access && size > DIRECT_THRESHOLD {
        ReadPlan::DirectRange
    } else {
        ReadPlan::Buffer
    }
}

/// Chooses the compression hint for an item.
pub fn compression_hint(direct_access: bool, size: u64) -> (h: CompHint)
    ensures
        h == hint_for(direct_access, size),
{
    if direct_access && size > DIRECT_THRESHOLD {
        CompHint::No
    } else {
        CompHint::Yes
    }
}

/// Chooses how an item's bytes are read before registration.
pub fn read_plan(direct_access: bool, size: u64) -> (p: ReadPlan)
    ensures
        p == plan_for(direct_access, size),
{
    if direct_access && size > DIRECT_THRESHOLD {
        ReadPlan::DirectRange
    } else {
        ReadPlan::Buffer
    }
}

/// The content pack under construction: the registered payloads in
/// registration order, with the hint each registration carried. Identical
/// byte sequences are never deduplicated: every registration yields a fresh
/// address.
pub struct ContentPack {
    pub pack_id: u32,
    pub contents: Vec<Vec<u8>>,
    pub hints: Vec<CompHint>,
}

/// The registered payloads as byte sequences, in registration order.
pub open spec fn pack_bytes(p: ContentPack) -> Seq<Seq<u8>> {
    p.contents@.map_values(|c: Vec<u8>| c@)
}

impl ContentPack {
    pub open spec fn wf(self) -> bool {
        &&& self.contents@.len() == self.hints@.len()
        &&& self.contents@.len() <= u32::MAX
    }

    pub fn new(pack_id: u32) -> (p: ContentPack)
        ensures
            p.wf(),
            p.pack_id == pack_id,
            p.contents@.len() == 0,
            p.hints@.len() == 0,
    {
        ContentPack { pack_id, contents: Vec::new(), hints: Vec::new() }
    }

    /// Registers one item's bytes and returns a fresh address. No content
    /// equality is consulted: two identical payloads get distinct addresses.
    pub fn add_content(&mut self, data: Vec<u8>, hint: CompHint) -> (addr: ContentAddress)
        requires
            old(self).wf(),
            old(self).contents@.len() < u32::MAX,
        ensures
            final(self).wf(),
            final(self).pack_id == old(self).pack_id,
            addr.pack_id == old(self).pack_id,
            addr.content_id == old(self).contents@.len(),
            final(self).contents@ == old(self).contents@.push(data),
            final(self).hints@ == old(self).hints@.push(hint),
            pack_bytes(*final(self)) == pack_bytes(*old(self)).push(data@),
    {
        let content_id = self.contents.len() as u32;
        let addr = ContentAddress { pack_id: self.pack_id, content_id };
        self.contents.push(data);
        self.hints.push(hint);
        proof {
            assert(pack_bytes(*self) =~= pack_bytes(*old(self)).push(self.contents@.last()@));
        }
        addr
    }
}

} // verus!
