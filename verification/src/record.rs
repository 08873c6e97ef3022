//! The source side of the conversion: records as the archive exposes them,
//! the namespace path filter, and the stripping of a leading separator.

use vstd::prelude::*;

verus! {

/// A content item of the source archive: its declared size, its declared
/// MIME type, whether the archive stores it as a contiguous byte range of an
/// on-disk file (direct access), and its payload bytes.
pub struct Item {
    pub size: u64,
    pub mime_type: String,
    pub direct_access: bool,
    pub data: Vec<u8>,
}

/// What a record holds: either a redirect to another path, or a content item.
pub enum RecordKind {
    Redirect { target: String },
    Item { item: Item },
}

/// One record of the source archive, as enumeration exposes it.
pub struct Record {
    pub path: String,
    pub kind: RecordKind,
}

/// A read-only view of a source archive: its records in enumeration order,
/// the resolved path of its designated main entry, and whether it already
/// uses the unified path namespace.
pub struct Source {
    pub records: Vec<Record>,
    pub main_entry_path: String,
    pub new_namespace_scheme: bool,
}

/// An item is well formed when its declared size matches its payload.
pub open spec fn item_wf(i: Item) -> bool {
    i.size == i.data@.len()
}

pub open spec fn record_wf(r: Record) -> bool {
    match r.kind {
        RecordKind::Item { item } => item_wf(item),
        RecordKind::Redirect { .. } => true,
    }
}

pub open spec fn is_content(r: Record) -> bool {
    r.kind is Item
}

/// A path with one leading `/` stripped; any other path is kept as it is.
pub open spec fn stripped(p: Seq<char>) -> Seq<char> {
    if p.len() > 0 && p[0] == '/' {
        p.subrange(1, p.len() as int)
    } else {
        p
    }
}

/// The namespace markers that pass the path filter of an archive that
/// predates the unified namespace: content, article and metadata-ish
/// namespaces.
pub open spec fn namespace_char(c: char) -> bool {
    c == '-' || c == 'A' || c == 'C' || c == 'J' || c == 'I'
}

/// Whether the path filter lets a record through: with the unified namespace
/// every path passes; otherwise only a non-empty path whose first character
/// is one of the allowed namespace markers.
pub open spec fn path_accepted(p: Seq<char>, new_namespace_scheme: bool) -> bool {
    new_namespace_scheme || (p.len() > 0 && namespace_char(p[0]))
}

/// The path filter, applied once per record before it enters the pipeline.
pub fn accept_path(path: &str, new_namespace_scheme: bool) -> (r: bool)
    ensures
        r == path_accepted(path@, new_namespace_scheme),
{
    if new_namespace_scheme {
        true
    } else {
        let n = path.unicode_len();
        if n == 0 {
            false
        } else {
            let c = path.get_char(0);
            c == '-' || c == 'A' || c == 'C' || c == 'J' || c == 'I'
        }
    }
}

/// Strips one leading separator from a path before it is stored.
pub fn strip_leading_separator(path: &str) -> (r: String)
    ensures
        r@ == stripped(path@),
{
    let n = path.unicode_len();
    if n > 0 && path.get_char(0) == '/' {
        let s = path.substring_char(1, n);
        s.to_owned()
    } else {
        path.to_owned()
    }
}

} // verus!
