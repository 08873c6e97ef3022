//! The container assembler: the three physical layouts an output container
//! can take, and the pack metadata the manifest records for each. The
//! concatenation mode governs physical file layout only, never logical
//! content: an embedded pack carries an empty locator, a sibling pack
//! carries its relative filename.

use vstd::prelude::*;

use crate::content::CompHint;
use crate::entry::ZimEntry;

verus! {

/// The pack identifier of the content pack.
pub const CONTENT_PACK_ID: u32 = 1;

/// The pack identifier of the directory pack.
pub const DIRECTORY_PACK_ID: u32 = 2;

/// The pack identifier of the manifest pack.
pub const MANIFEST_PACK_ID: u32 = 0;

/// The physical layout of the output, fixed at conversion start: everything
/// in one container file; the content pack as its own sibling file; or every
/// pack as its own file.
#[derive(Clone, Copy, PartialEq, Eq, Structural, Debug)]
pub enum ConcatMode {
    OneFile,
    TwoFiles,
    NoConcat,
}

/// What the manifest records of one pack: its identifier, its identity, and
/// its locator — empty when the pack is embedded in the container file,
/// otherwise the sibling file's relative name.
pub struct PackInfo {
    pub pack_id: u32,
    pub uuid: u128,
    pub locator: String,
}

/// The finished container: the directory's entries, the content pack's
/// payloads and hints by content identifier, and the manifest's record of
/// the three packs.
pub struct Container {
    pub entries: Vec<ZimEntry>,
    pub contents: Vec<Vec<u8>>,
    pub hints: Vec<CompHint>,
    pub concat_mode: ConcatMode,
    pub content_pack: PackInfo,
    pub directory_pack: PackInfo,
    pub manifest_pack: PackInfo,
}

/// The content pack's locator: embedded in the container file under
/// `OneFile`, a sibling file otherwise.
pub open spec fn content_locator_spec(mode: ConcatMode, base: Seq<char>) -> Seq<char> {
    match mode {
        ConcatMode::OneFile => Seq::empty(),
        ConcatMode::TwoFiles => base + ".jbkc"@,
        ConcatMode::NoConcat => base + ".jbkc"@,
    }
}

/// The directory pack's locator: embedded except under `NoConcat`.
pub open spec fn directory_locator_spec(mode: ConcatMode, base: Seq<char>) -> Seq<char> {
    match mode {
        ConcatMode::OneFile => Seq::empty(),
        ConcatMode::TwoFiles => Seq::empty(),
        ConcatMode::NoConcat => base + ".jbkd"@,
    }
}

/// The manifest pack's locator: the manifest is the pack a reader opens
/// first, so it is never located through itself.
pub open spec fn manifest_locator_spec(mode: ConcatMode, base: Seq<char>) -> Seq<char> {
    Seq::empty()
}

/// Builds the three locators for the given layout and output base name.
pub fn pack_locators(mode: ConcatMode, outfile: &str) -> (locs: (String, String, String))
    ensures
        locs.0@ == content_locator_spec(mode, outfile@),
        locs.1@ == directory_locator_spec(mode, outfile@),
        locs.2@ == manifest_locator_spec(mode, outfile@),
{
    match mode {
        ConcatMode::OneFile => (String::new(), String::new(), String::new()),
        ConcatMode::TwoFiles => {
            let mut content = outfile.to_owned();
            content.append(".jbkc");
            (content, String::new(), String::new())
        },
        ConcatMode::NoConcat => {
            let mut content = outfile.to_owned();
            content.append(".jbkc");
            let mut directory = outfile.to_owned();
            directory.append(".jbkd");
            (content, directory, String::new())
        },
    }
}

/// Relies on `rand::random`: a fresh pseudo-random pack identity; nothing is
/// promised of its value.
#[verifier::external_body]
pub(crate) fn fresh_uuid() -> u128 {
    rand::random()
}

} // verus!
