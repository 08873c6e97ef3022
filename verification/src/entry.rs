//! The logical entry produced for each record: either a content entry
//! holding a content address and a MIME type, or a redirect to another path.

use vstd::prelude::*;

use crate::content::{hint_for, ContentPack, pack_bytes};
use crate::content::compression_hint;
use crate::content::read_plan;
use crate::dropper::{DropQueue, Droppable};
use crate::mime::{effective_mime, mime_or_fallback};
use crate::record::{record_wf, stripped, Record, RecordKind};

verus! {

/// What an entry resolves to: a redirect target, or registered content with
/// its MIME type.
pub enum ZimEntryKind {
    Redirect { target: String },
    Content { address: crate::content::ContentAddress, mime_type: String },
}

/// One logical entry of the output directory. `is_main` marks the record
/// whose original path was empty: the archive's designated home entry.
pub struct ZimEntry {
    pub path: String,
    pub data: ZimEntryKind,
    pub is_main: bool,
}

/// Whether two entry kinds carry the same data.
pub open spec fn same_entry_kind(a: ZimEntryKind, b: ZimEntryKind) -> bool {
    match a {
        ZimEntryKind::Redirect { target } => b matches ZimEntryKind::Redirect { target: t }
            && t@ == target@,
        ZimEntryKind::Content { address, mime_type } => b matches ZimEntryKind::Content {
            address: ba,
            mime_type: bm,
        } && ba == address && bm@ == mime_type@,
    }
}

/// The conversion contract for one record: the entry keeps the record's
/// separator-stripped path; a redirect record yields a redirect entry with
/// the stripped target; a content record yields a content entry whose
/// address is the given fresh address of the content pack and whose MIME
/// type is the declared type with the octet-stream fallback.
pub open spec fn entry_for_record(e: ZimEntry, r: Record, pack_id: u32, content_id: int) -> bool {
    &&& e.path@ == stripped(r.path@)
    &&& e.is_main == (r.path@.len() == 0)
    &&& match r.kind {
        RecordKind::Redirect { target } => e.data matches ZimEntryKind::Redirect { target: t }
            && t@ == stripped(target@),
        RecordKind::Item { item } => e.data matches ZimEntryKind::Content { address, mime_type }
            && address.pack_id == pack_id
            && address.content_id == content_id
            && mime_type@ == effective_mime(item.mime_type@),
    }
}

/// Copies a payload before it is registered.
fn clone_bytes(v: &Vec<u8>) -> (r: Vec<u8>)
    ensures
        r@ == v@,
{
    let r = v.clone();
    proof {
        assert(r@ =~= v@);
    }
    r
}

impl ZimEntry {
    /// Converts one record into its entry. A content record registers its
    /// bytes in the content pack under the compression hint for its size and
    /// access kind, and queues its transient foreign handles, parent first,
    /// on the dropper.
    pub fn new(record: &Record, record_id: usize, dropper: &mut DropQueue, adder: &mut ContentPack) -> (e:
        ZimEntry)
        requires
            record_wf(*record),
            old(adder).wf(),
            old(adder).contents@.len() < u32::MAX,
        ensures
            final(adder).wf(),
            final(adder).pack_id == old(adder).pack_id,
            entry_for_record(e, *record, old(adder).pack_id, old(adder).contents@.len() as int),
            final(dropper).released@ == old(dropper).released@,
            match record.kind {
                RecordKind::Redirect { .. } => {
                    &&& *final(adder) == *old(adder)
                    &&& final(dropper).pending@ == old(dropper).pending@
                },
                RecordKind::Item { item } => {
                    &&& pack_bytes(*final(adder)) == pack_bytes(*old(adder)).push(item.data@)
                    &&& final(adder).contents@.drop_last() == old(adder).contents@
                    &&& final(adder).contents@.last()@ == item.data@
                    &&& final(adder).hints@ == old(adder).hints@.push(
                        hint_for(item.direct_access, item.size),
                    )
                    &&& final(adder).contents@.len() == old(adder).contents@.len() + 1
                    &&& final(dropper).pending@ == old(dropper).pending@ + seq![
                        Droppable::Entry(record_id),
                        Droppable::Item(record_id),
                    ]
                },
            },
    {
        let is_main = record.path.as_str().unicode_len() == 0;
        let path = crate::record::strip_leading_separator(record.path.as_str());
        match &record.kind {
            RecordKind::Redirect { target } => {
                let t = crate::record::strip_leading_separator(target.as_str());
                Self::new_redirect(path, t, is_main)
            },
            RecordKind::Item { item } => {
                dropper.submit(Droppable::Entry(record_id));
                let hint = compression_hint(item.direct_access, item.size);
                // The read plan only decides how the bytes reach the pack:
                // buffered whole, or through a range-limited reader over the
                // backing file. Either way the registered bytes are the
                // item's bytes.
                let _plan = read_plan(item.direct_access, item.size);
                let bytes = clone_bytes(&item.data);
                let address = adder.add_content(bytes, hint);
                proof {
                    assert(adder.contents@.drop_last() =~= old(adder).contents@);
                }
                let mime_type = mime_or_fallback(item.mime_type.as_str());
                dropper.submit(Droppable::Item(record_id));
                ZimEntry { path, data: ZimEntryKind::Content { address, mime_type }, is_main }
            },
        }
    }

    /// Builds a redirect entry from an already prepared path and target.
    pub fn new_redirect(path: String, target: String, is_main: bool) -> (e: ZimEntry)
        ensures
            e.path == path,
            e.data matches ZimEntryKind::Redirect { target: t } && t == target,
            e.is_main == is_main,
    {
        ZimEntry { path, data: ZimEntryKind::Redirect { target }, is_main }
    }

    /// The entry's kind, as the directory builder consumes it.
    pub fn kind(&self) -> (k: ZimEntryKind)
        ensures
            same_entry_kind(k, self.data),
    {
        match &self.data {
            ZimEntryKind::Redirect { target } => ZimEntryKind::Redirect { target: target.clone() },
            ZimEntryKind::Content { address, mime_type } => ZimEntryKind::Content {
                address: *address,
                mime_type: mime_type.clone(),
            },
        }
    }

    /// The entry's name: its stored path.
    pub fn name(&self) -> (n: &str)
        ensures
            n@ == self.path@,
    {
        self.path.as_str()
    }
}

} // verus!
