//! The converter: drives the emission plan over a source, feeds the entry
//! store and the content pack, synthesizes the root redirect when no record
//! produced one, and finalizes the container. Its contract pins the logical
//! outcome: the container's path map equals the source's, content entries
//! precede every redirect entry, and the root path exists exactly once.

use vstd::prelude::*;
use vstd::seq_lib::group_to_multiset_ensures;

use crate::assemble::{
    pack_locators, fresh_uuid, ConcatMode, Container, PackInfo, content_locator_spec,
    directory_locator_spec, manifest_locator_spec, DIRECTORY_PACK_ID, MANIFEST_PACK_ID,
    CONTENT_PACK_ID,
};
use crate::content::{hint_for, CompHint, ContentPack, pack_bytes};
use crate::dropper::DropQueue;
use crate::entry::{entry_for_record, ZimEntry, ZimEntryKind};
use crate::mime::effective_mime;
use crate::pipeline::{
    content_order, emission_ok, lemma_selected_indices_no_duplicates, lemma_selected_indices_props,
    lemma_selected_len, plan_emission, redirect_order, warm_up,
};
use crate::record::{
    is_content, path_accepted, record_wf, stripped, Item, Record, RecordKind, Source,
};
use crate::store::{has_root_entry, EntryStore};

verus! {

/// The item of a content record.
pub open spec fn item_of(r: Record) -> Item
    recommends
        is_content(r),
{
    r.kind->item
}

/// A content record's payload bytes.
pub open spec fn record_bytes(r: Record) -> Seq<u8> {
    item_of(r).data@
}

/// The compression hint a content record's registration carries.
pub open spec fn record_hint(r: Record) -> CompHint {
    hint_for(item_of(r).direct_access, item_of(r).size)
}

/// What a path resolves to in a finished conversion: payload bytes with a
/// MIME type, or a redirect target.
#[verifier::ext_equal]
pub enum Resolved {
    Content { bytes: Seq<u8>, mime_type: Seq<char> },
    Redirect { target: Seq<char> },
}

/// What a source record's path must resolve to in the output.
pub open spec fn record_resolved(r: Record) -> Resolved {
    match r.kind {
        RecordKind::Redirect { target } => (Resolved::Redirect { target: stripped(target@) }),
        RecordKind::Item { item } => (Resolved::Content {
            bytes: item.data@,
            mime_type: effective_mime(item.mime_type@),
        }),
    }
}

/// Record `i` is accepted by the filter and stores its entry under path `p`.
pub open spec fn source_has_path(s: Source, i: int, p: Seq<char>) -> bool {
    &&& 0 <= i < s.records@.len()
    &&& path_accepted(s.records@[i].path@, s.new_namespace_scheme)
    &&& stripped(s.records@[i].path@) == p
}

/// The logical map the accepted records alone define.
pub open spec fn source_base_map(s: Source) -> Map<Seq<char>, Resolved> {
    Map::new(
        |p: Seq<char>| exists|i: int| source_has_path(s, i, p),
        |p: Seq<char>| record_resolved(s.records@[choose|i: int| source_has_path(s, i, p)]),
    )
}

/// The logical map a conversion of `s` must produce: the accepted records'
/// map, with the root redirect to the source's main entry synthesized when
/// no accepted record claimed the empty path.
pub open spec fn source_map(s: Source) -> Map<Seq<char>, Resolved> {
    let base = source_base_map(s);
    if base.dom().contains(Seq::<char>::empty()) {
        base
    } else {
        base.insert(Seq::<char>::empty(), (Resolved::Redirect { target: s.main_entry_path@ }))
    }
}

/// Entry `k` exists and carries path `p`.
pub open spec fn entry_at(entries: Seq<ZimEntry>, k: int, p: Seq<char>) -> bool {
    0 <= k < entries.len() && entries[k].path@ == p
}

/// What an entry resolves to, given the content pack's payloads.
pub open spec fn entry_resolved(e: ZimEntry, bytes: Seq<Seq<u8>>) -> Resolved {
    match e.data {
        ZimEntryKind::Redirect { target } => (Resolved::Redirect { target: target@ }),
        ZimEntryKind::Content { address, mime_type } => (Resolved::Content {
            bytes: bytes[address.content_id as int],
            mime_type: mime_type@,
        }),
    }
}

/// The logical map a container's directory and content pack define.
pub open spec fn entries_map(entries: Seq<ZimEntry>, bytes: Seq<Seq<u8>>) -> Map<
    Seq<char>,
    Resolved,
> {
    Map::new(
        |p: Seq<char>| exists|k: int| entry_at(entries, k, p),
        |p: Seq<char>| entry_resolved(entries[choose|k: int| entry_at(entries, k, p)], bytes),
    )
}

/// A container's logical map.
pub open spec fn container_map(c: Container) -> Map<Seq<char>, Resolved> {
    entries_map(c.entries@, c.contents@.map_values(|v: Vec<u8>| v@))
}

/// Accepted records store distinct paths: the output directory's uniqueness
/// invariant, owed by the caller.
pub open spec fn distinct_source_paths(records: Seq<Record>, new_namespace_scheme: bool) -> bool {
    forall|i: int, j: int|
        #![trigger records[i], records[j]]
        0 <= i < records.len() && 0 <= j < records.len() && i != j && path_accepted(
            records[i].path@,
            new_namespace_scheme,
        ) && path_accepted(records[j].path@, new_namespace_scheme) ==> stripped(records[i].path@)
            != stripped(records[j].path@)
}

/// A source a conversion accepts: well-formed records, few enough to
/// address, with distinct output paths.
pub open spec fn source_wf(s: Source) -> bool {
    &&& forall|i: int| 0 <= i < s.records@.len() ==> record_wf(#[trigger] s.records@[i])
    &&& s.records@.len() < u32::MAX
    &&& distinct_source_paths(s.records@, s.new_namespace_scheme)
}

/// No two entries share a path.
pub open spec fn distinct_entry_paths(entries: Seq<ZimEntry>) -> bool {
    forall|k1: int, k2: int|
        #![trigger entries[k1], entries[k2]]
        0 <= k1 < k2 < entries.len() ==> entries[k1].path@ != entries[k2].path@
}

/// Every content entry stands before every redirect entry.
pub open spec fn contents_before_redirects(entries: Seq<ZimEntry>) -> bool {
    forall|k1: int, k2: int|
        #![trigger entries[k1], entries[k2]]
        0 <= k1 < entries.len() && 0 <= k2 < entries.len() && entries[k1].data is Content
            && entries[k2].data is Redirect ==> k1 < k2
}

/// Entry `k`, if it is a content entry, is backed by an accepted content
/// record of the source: same path, the item's bytes under its address, the
/// hint its size and access kind call for, and its MIME type with the
/// fallback applied.
pub open spec fn entry_backed(s: Source, c: Container, k: int) -> bool {
    match c.entries@[k].data {
        ZimEntryKind::Content { address, mime_type } => {
            &&& address.pack_id == c.content_pack.pack_id
            &&& 0 <= address.content_id < c.contents@.len()
            &&& exists|i: int|
                {
                    &&& #[trigger] source_has_path(s, i, c.entries@[k].path@)
                    &&& is_content(s.records@[i])
                    &&& c.contents@[address.content_id as int]@ == record_bytes(s.records@[i])
                    &&& c.hints@[address.content_id as int] == record_hint(s.records@[i])
                    &&& mime_type@ == effective_mime(item_of(s.records@[i]).mime_type@)
                }
        },
        ZimEntryKind::Redirect { .. } => true,
    }
}

pub open spec fn entries_backed(s: Source, c: Container) -> bool {
    forall|k: int| 0 <= k < c.entries@.len() ==> #[trigger] entry_backed(s, c, k)
}

/// Everything a conversion of `s` promises of its container: the logical
/// path map equals the source's; paths are unique; the root path exists;
/// content entries precede redirect entries; every content entry is backed
/// by its record; and the content pack holds exactly one registration per
/// accepted content record.
pub open spec fn converted_ok(s: Source, c: Container) -> bool {
    &&& container_map(c) == source_map(s)
    &&& distinct_entry_paths(c.entries@)
    &&& has_root_entry(c.entries@)
    &&& contents_before_redirects(c.entries@)
    &&& entries_backed(s, c)
    &&& c.contents@.len() == content_order(s.records@, s.new_namespace_scheme).len()
    &&& c.hints@.len() == c.contents@.len()
}

/// The converter's working state: the content pack under construction, the
/// directory builder, the deferred-release queue, and the layout fixed at
/// construction.
pub struct Converter {
    pub content_pack: ContentPack,
    pub entry_store: EntryStore,
    pub dropper: DropQueue,
    pub concat_mode: ConcatMode,
}

impl Converter {
    /// A converter that has registered nothing yet.
    pub open spec fn ready(self) -> bool {
        &&& self.content_pack.wf()
        &&& self.content_pack.contents@.len() == 0
        &&& self.entry_store.wf()
        &&& self.entry_store.entries@.len() == 0
    }

    pub fn new(concat_mode: ConcatMode) -> (c: Converter)
        ensures
            c.ready(),
            c.concat_mode == concat_mode,
            c.content_pack.pack_id == CONTENT_PACK_ID,
            c.dropper.pending@.len() == 0,
            c.dropper.released@.len() == 0,
    {
        Converter {
            content_pack: ContentPack::new(CONTENT_PACK_ID),
            entry_store: EntryStore::new(),
            dropper: DropQueue::new(),
            concat_mode,
        }
    }

    /// Converts one emitted record: builds its entry (registering a content
    /// record's bytes) and appends it to the store.
    fn handle(&mut self, record: &Record, record_id: usize)
        requires
            record_wf(*record),
            old(self).content_pack.wf(),
            old(self).content_pack.contents@.len() < u32::MAX,
            old(self).entry_store.wf(),
        ensures
            final(self).content_pack.wf(),
            final(self).entry_store.wf(),
            final(self).content_pack.pack_id == old(self).content_pack.pack_id,
            final(self).concat_mode == old(self).concat_mode,
            final(self).dropper.released@ == old(self).dropper.released@,
            final(self).entry_store.entries@.len() == old(self).entry_store.entries@.len() + 1,
            final(self).entry_store.entries@.drop_last() == old(self).entry_store.entries@,
            entry_for_record(
                final(self).entry_store.entries@.last(),
                *record,
                old(self).content_pack.pack_id,
                old(self).content_pack.contents@.len() as int,
            ),
            match record.kind {
                RecordKind::Redirect { .. } => {
                    &&& final(self).content_pack == old(self).content_pack
                    &&& final(self).dropper.pending@ == old(self).dropper.pending@
                },
                RecordKind::Item { item } => {
                    &&& pack_bytes(final(self).content_pack) == pack_bytes(
                        old(self).content_pack,
                    ).push(item.data@)
                    &&& final(self).content_pack.contents@.drop_last() == old(
                        self,
                    ).content_pack.contents@
                    &&& final(self).content_pack.contents@.last()@ == item.data@
                    &&& final(self).content_pack.hints@ == old(self).content_pack.hints@.push(
                        hint_for(item.direct_access, item.size),
                    )
                    &&& final(self).content_pack.contents@.len() == old(
                        self,
                    ).content_pack.contents@.len() + 1
                    &&& final(self).dropper.pending@ == old(self).dropper.pending@ + seq![
                        crate::dropper::Droppable::Entry(record_id),
                        crate::dropper::Droppable::Item(record_id),
                    ]
                },
            },
    {
        let e = ZimEntry::new(record, record_id, &mut self.dropper, &mut self.content_pack);
        self.entry_store.add_entry(e);
        proof {
            assert(self.entry_store.entries@.drop_last() =~= old(self).entry_store.entries@);
        }
    }

    /// Finalizes the packs, in order: the directory builder into the
    /// directory pack, then the content pack's metadata, then the directory
    /// pack's, then the manifest built from both plus the locators of the
    /// chosen layout.
    fn finalize(self, outfile: &str) -> (c: Container)
        ensures
            c.entries@ == self.entry_store.entries@,
            c.contents@ == self.content_pack.contents@,
            c.hints@ == self.content_pack.hints@,
            c.concat_mode == self.concat_mode,
            c.content_pack.pack_id == self.content_pack.pack_id,
            c.directory_pack.pack_id == DIRECTORY_PACK_ID,
            c.manifest_pack.pack_id == MANIFEST_PACK_ID,
            c.content_pack.locator@ == content_locator_spec(self.concat_mode, outfile@),
            c.directory_pack.locator@ == directory_locator_spec(self.concat_mode, outfile@),
            c.manifest_pack.locator@ == manifest_locator_spec(self.concat_mode, outfile@),
    {
        let (content_locator, directory_locator, manifest_locator) = pack_locators(
            self.concat_mode,
            outfile,
        );
        let content_uuid = fresh_uuid();
        let directory_uuid = fresh_uuid();
        let manifest_uuid = fresh_uuid();
        Container {
            entries: self.entry_store.entries,
            contents: self.content_pack.contents,
            hints: self.content_pack.hints,
            concat_mode: self.concat_mode,
            content_pack: PackInfo {
                pack_id: self.content_pack.pack_id,
                uuid: content_uuid,
                locator: content_locator,
            },
            directory_pack: PackInfo {
                pack_id: DIRECTORY_PACK_ID,
                uuid: directory_uuid,
                locator: directory_locator,
            },
            manifest_pack: PackInfo {
                pack_id: MANIFEST_PACK_ID,
                uuid: manifest_uuid,
                locator: manifest_locator,
            },
        }
    }

    /// Runs the whole conversion: plans the emission, converts every emitted
    /// record, synthesizes the root redirect if no record produced one,
    /// releases the queued handles, and finalizes the container.
    #[verifier::loop_isolation(false)]
    #[verifier::rlimit(100)]
    pub fn run(self, source: &Source, outfile: &str) -> (c: Container)
        requires
            source_wf(*source),
            self.ready(),
        ensures
            converted_ok(*source, c),
            c.concat_mode == self.concat_mode,
            c.content_pack.pack_id == self.content_pack.pack_id,
            c.directory_pack.pack_id == DIRECTORY_PACK_ID,
            c.manifest_pack.pack_id == MANIFEST_PACK_ID,
            c.content_pack.locator@ == content_locator_spec(self.concat_mode, outfile@),
            c.directory_pack.locator@ == directory_locator_spec(self.concat_mode, outfile@),
            c.manifest_pack.locator@ == manifest_locator_spec(self.concat_mode, outfile@),
    {
        let mut this = self;
        let ghost records = source.records@;
        let ghost ns = source.new_namespace_scheme;
        let ghost pid = this.content_pack.pack_id;
        let plan = plan_emission(source);
        let ghost plan_seq = plan@;
        let ghost co = content_order(records, ns);
        let ghost ro = redirect_order(records, ns);
        let ghost nc = co.len() as int;
        proof {
            broadcast use group_to_multiset_ensures;

            lemma_selected_indices_props(records, ns, true);
            lemma_selected_indices_props(records, ns, false);
            lemma_selected_indices_no_duplicates(records, ns, true);
            lemma_selected_len(records, ns, true);
            let cpart = plan_seq.take(nc);
            assert forall|j: int|
                0 <= j < nc implies ((#[trigger] plan_seq[j] as int) < records.len()
                && path_accepted(records[plan_seq[j] as int].path@, ns) && is_content(
                records[plan_seq[j] as int],
            )) by {
                assert(cpart[j] == plan_seq[j]);
                assert(cpart.contains(plan_seq[j]));
                assert(cpart.to_multiset().count(plan_seq[j]) > 0);
                assert(co.to_multiset().count(plan_seq[j]) > 0);
                assert(co.contains(plan_seq[j]));
                let w = choose|w: int| 0 <= w < co.len() && co[w] == plan_seq[j];
                assert(co[w] == plan_seq[j]);
            }
            assert forall|j: int|
                nc <= j < plan_seq.len() implies ((#[trigger] plan_seq[j] as int) < records.len()
                && path_accepted(records[plan_seq[j] as int].path@, ns) && !is_content(
                records[plan_seq[j] as int],
            ) && plan_seq[j] == ro[j - nc]) by {
                assert(plan_seq.skip(nc)[j - nc] == plan_seq[j]);
                assert(ro[j - nc] == plan_seq[j]);
            }
        }
        let n = plan.len();
        let mut k: usize = 0;
        while k < n
            invariant
                k <= n,
                this.content_pack.wf(),
                this.content_pack.pack_id == pid,
                this.concat_mode == self.concat_mode,
                this.entry_store.wf(),
                this.entry_store.entries@.len() == k,
                this.content_pack.contents@.len() == if k <= nc {
                    k as int
                } else {
                    nc
                },
                forall|j: int|
                    0 <= j < k ==> entry_for_record(
                        #[trigger] this.entry_store.entries@[j],
                        records[plan_seq[j] as int],
                        pid,
                        j,
                    ),
                forall|j: int|
                    0 <= j < this.content_pack.contents@.len() ==> (
                    #[trigger] this.content_pack.contents@[j])@ == record_bytes(
                        records[plan_seq[j] as int],
                    ),
                forall|j: int|
                    0 <= j < this.content_pack.hints@.len() ==> (
                    #[trigger] this.content_pack.hints@[j]) == record_hint(
                        records[plan_seq[j] as int],
                    ),
            decreases n - k,
        {
            let idx = plan[k];
            let record = &source.records[idx];
            warm_up(record, idx, &mut this.dropper);
            proof {
                if k < nc {
                    assert(is_content(records[idx as int]));
                } else {
                    assert(!is_content(records[idx as int]));
                }
                assert(this.content_pack.contents@.len() < u32::MAX);
            }
            let ghost pack_before = this.content_pack;
            let ghost entries_before = this.entry_store.entries@;
            this.handle(record, idx);
            proof {
                assert(this.entry_store.entries@.drop_last() == entries_before);
                assert forall|j: int|
                    0 <= j < k + 1 implies entry_for_record(
                    #[trigger] this.entry_store.entries@[j],
                    records[plan_seq[j] as int],
                    pid,
                    j,
                ) by {
                    if j < k {
                        assert(this.entry_store.entries@[j] == entries_before[j]);
                    } else {
                        assert(this.entry_store.entries@[j]
                            == this.entry_store.entries@.last());
                        if k < nc {
                            assert(pack_before.contents@.len() == k as int);
                        } else {
                            // a redirect record's conversion does not read
                            // the content identifier
                            assert(record.kind is Redirect);
                        }
                    }
                }
                if k < nc {
                    assert(this.content_pack.contents@.len() == k + 1);
                    assert forall|j: int|
                        0 <= j < this.content_pack.contents@.len() implies (
                    #[trigger] this.content_pack.contents@[j])@ == record_bytes(
                        records[plan_seq[j] as int],
                    ) by {
                        if j < k {
                            assert(this.content_pack.contents@.drop_last()[j]
                                == pack_before.contents@[j]);
                            assert(this.content_pack.contents@[j] == pack_before.contents@[j]);
                        } else {
                            assert(this.content_pack.contents@[j]
                                == this.content_pack.contents@.last());
                            assert(this.content_pack.contents@.last()@ == record_bytes(
                                records[idx as int],
                            ));
                        }
                    }
                    assert forall|j: int|
                        0 <= j < this.content_pack.hints@.len() implies (
                    #[trigger] this.content_pack.hints@[j]) == record_hint(
                        records[plan_seq[j] as int],
                    ) by {
                        if j < k {
                            assert(this.content_pack.hints@[j] == pack_before.hints@[j]);
                        } else {
                            assert(this.content_pack.hints@[j] == record_hint(
                                records[idx as int],
                            ));
                        }
                    }
                } else {
                    assert(this.content_pack == pack_before);
                }
            }
            k += 1;
        }
        let ghost entries_loop = this.entry_store.entries@;
        let ghost contents_loop = this.content_pack.contents@;
        let ghost hints_loop = this.content_pack.hints@;
        if !this.entry_store.has_root() {
            let target = source.main_entry_path.clone();
            let root = ZimEntry::new_redirect(String::new(), target, true);
            this.entry_store.add_entry(root);
        }
        this.dropper.drain();
        let ghost entries_final = this.entry_store.entries@;
        let c = this.finalize(outfile);
        proof {
            assert(c.entries@ == entries_final);
            assert(c.contents@ == contents_loop);
            assert(c.hints@ == hints_loop);
            if entries_final.len() == plan_seq.len() + 1 {
                assert(entries_final.take(plan_seq.len() as int) =~= entries_loop);
                assert(entries_final.last().path@ =~= Seq::<char>::empty());
            }
            assert forall|j: int|
                0 <= j < plan_seq.len() implies entry_for_record(
                #[trigger] c.entries@[j],
                records[plan_seq[j] as int],
                c.content_pack.pack_id,
                j,
            ) by {
                assert(c.entries@[j] == entries_loop[j]);
            }
            assert forall|j: int|
                0 <= j < c.contents@.len() implies ((#[trigger] c.contents@[j]@) == record_bytes(
                records[plan_seq[j] as int],
            ) && c.hints@[j] == record_hint(records[plan_seq[j] as int])) by {
                assert(c.contents@[j] == contents_loop[j]);
                assert(c.hints@[j] == hints_loop[j]);
            }
            lemma_correspondence(*source, plan_seq, c);
        }
        c
    }
}

/// From the emission plan's guarantees and the loop's pointwise facts to the
/// conversion contract: path uniqueness, the root entry, the ordering
/// invariant, per-entry backing, and equality of the logical maps.
#[verifier::rlimit(100)]
proof fn lemma_correspondence(s: Source, plan: Seq<usize>, c: Container)
    requires
        source_wf(s),
        emission_ok(s.records@, s.new_namespace_scheme, plan),
        plan.len() <= c.entries@.len() <= plan.len() + 1,
        forall|j: int|
            0 <= j < plan.len() ==> entry_for_record(
                #[trigger] c.entries@[j],
                s.records@[plan[j] as int],
                c.content_pack.pack_id,
                j,
            ),
        c.entries@.len() == plan.len() + 1 ==> !has_root_entry(c.entries@.take(plan.len() as int))
            && c.entries@.last().path@ == Seq::<char>::empty() && (c.entries@.last().data matches
        ZimEntryKind::Redirect { target } && target@ == s.main_entry_path@),
        c.entries@.len() == plan.len() ==> has_root_entry(c.entries@),
        c.contents@.len() == content_order(s.records@, s.new_namespace_scheme).len(),
        c.hints@.len() == c.contents@.len(),
        forall|j: int|
            0 <= j < c.contents@.len() ==> (#[trigger] c.contents@[j]@) == record_bytes(
                s.records@[plan[j] as int],
            ) && c.hints@[j] == record_hint(s.records@[plan[j] as int]),
    ensures
        converted_ok(s, c),
{
    broadcast use group_to_multiset_ensures;

    let records = s.records@;
    let ns = s.new_namespace_scheme;
    let co = content_order(records, ns);
    let ro = redirect_order(records, ns);
    let nc = co.len() as int;
    let entries = c.entries@;
    let ebytes = c.contents@.map_values(|v: Vec<u8>| v@);
    lemma_selected_indices_props(records, ns, true);
    lemma_selected_indices_props(records, ns, false);
    lemma_selected_indices_no_duplicates(records, ns, true);
    lemma_selected_indices_no_duplicates(records, ns, false);

    // where each plan position points, and what kind of record it is
    let cpart = plan.take(nc);
    assert forall|j: int|
        0 <= j < nc implies ((#[trigger] plan[j] as int) < records.len() && path_accepted(
        records[plan[j] as int].path@,
        ns,
    ) && is_content(records[plan[j] as int])) by {
        assert(cpart[j] == plan[j]);
        assert(cpart.contains(plan[j]));
        assert(cpart.to_multiset().count(plan[j]) > 0);
        assert(co.to_multiset().count(plan[j]) > 0);
        assert(co.contains(plan[j]));
        let w = choose|w: int| 0 <= w < co.len() && co[w] == plan[j];
        assert(co[w] == plan[j]);
    }
    assert forall|j: int|
        nc <= j < plan.len() implies ((#[trigger] plan[j] as int) < records.len() && path_accepted(
        records[plan[j] as int].path@,
        ns,
    ) && !is_content(records[plan[j] as int]) && plan[j] == ro[j - nc]) by {
        assert(plan.skip(nc)[j - nc] == plan[j]);
        assert(ro[j - nc] == plan[j]);
    }

    // the plan never repeats a record
    co.lemma_multiset_has_no_duplicates();
    assert(forall|x: usize| cpart.to_multiset().contains(x) ==> cpart.to_multiset().count(x) == 1);
    cpart.lemma_multiset_has_no_duplicates_conv();
    assert forall|j1: int, j2: int|
        #![trigger plan[j1], plan[j2]]
        0 <= j1 < j2 < plan.len() implies plan[j1] != plan[j2] by {
        if j2 < nc {
            assert(cpart[j1] == plan[j1]);
            assert(cpart[j2] == plan[j2]);
        } else if j1 < nc {
            assert(is_content(records[plan[j1] as int]));
            assert(!is_content(records[plan[j2] as int]));
        } else {
            assert(ro[j1 - nc] != ro[j2 - nc]);
        }
    }

    // each entry repeats its record's stripped path; kinds follow positions
    assert forall|j: int| 0 <= j < plan.len() implies (#[trigger] entries[j].data is Content <==> j
        < nc) by {
        assert(entry_for_record(entries[j], records[plan[j] as int], c.content_pack.pack_id, j));
        if j < nc {
            assert(is_content(records[plan[j] as int]));
        } else {
            assert(!is_content(records[plan[j] as int]));
        }
    }

    // distinct entry paths
    assert forall|k1: int, k2: int|
        #![trigger entries[k1], entries[k2]]
        0 <= k1 < k2 < entries.len() implies entries[k1].path@ != entries[k2].path@ by {
        if k2 < plan.len() {
            let i1 = plan[k1] as int;
            let i2 = plan[k2] as int;
            assert(entries[k1].path@ == stripped(records[i1].path@));
            assert(entries[k2].path@ == stripped(records[i2].path@));
            assert(i1 != i2);
        } else {
            assert(k2 == plan.len() && entries.len() == plan.len() + 1);
            assert(entries[k2].path@ == Seq::<char>::empty());
            assert(!has_root_entry(entries.take(plan.len() as int)));
            assert(entries.take(plan.len() as int)[k1] == entries[k1]);
            assert(entries[k1].path@.len() != 0);
        }
    }
    assert(distinct_entry_paths(entries));

    // the root entry exists
    if entries.len() == plan.len() + 1 {
        assert(entries[plan.len() as int].path@.len() == 0);
        assert(has_root_entry(entries));
    }

    // ordering: content before any redirect
    assert forall|k1: int, k2: int|
        #![trigger entries[k1], entries[k2]]
        0 <= k1 < entries.len() && 0 <= k2 < entries.len() && entries[k1].data is Content
            && entries[k2].data is Redirect implies k1 < k2 by {
        assert(k1 < plan.len());  // the synthesized entry is a redirect
        assert(k1 < nc);
        if k2 < plan.len() {
            assert(k2 >= nc);
        } else {
            assert(k2 == plan.len() && nc <= plan.len());
        }
    }
    assert(contents_before_redirects(entries));

    // backing of every content entry
    assert forall|k: int| 0 <= k < entries.len() implies #[trigger] entry_backed(s, c, k) by {
        if k < plan.len() && entries[k].data is Content {
            assert(k < nc);
            let i = plan[k] as int;
            assert(entry_for_record(entries[k], records[i], c.content_pack.pack_id, k));
            assert(source_has_path(s, i, entries[k].path@));
            assert(c.contents@[k]@ == record_bytes(records[i]));
            assert(c.hints@[k] == record_hint(records[i]));
        }
    }
    assert(entries_backed(s, c));

    // the logical maps agree
    let sm = source_map(s);
    let cm = container_map(c);
    let base = source_base_map(s);

    // a root entry among the converted records means the base map holds the
    // empty path, and conversely
    assert(has_root_entry(entries.take(plan.len() as int)) <==> base.dom().contains(
        Seq::<char>::empty(),
    )) by {
        if has_root_entry(entries.take(plan.len() as int)) {
            let k = choose|k: int|
                0 <= k < entries.take(plan.len() as int).len() && entries.take(
                    plan.len() as int,
                )[k].path@.len() == 0;
            let i = plan[k] as int;
            assert(entries[k].path@ == stripped(records[i].path@));
            assert(entries[k].path@ =~= Seq::<char>::empty());
            assert(source_has_path(s, i, Seq::<char>::empty()));
        }
        if base.dom().contains(Seq::<char>::empty()) {
            let i = choose|i: int| source_has_path(s, i, Seq::<char>::empty());
            if is_content(records[i]) {
                assert(co.contains((i as usize)));
                let w = choose|w: int| 0 <= w < co.len() && co[w] == (i as usize);
                assert(cpart.to_multiset().count((i as usize)) > 0);
                assert(cpart.contains((i as usize)));
                let j = choose|j: int| 0 <= j < cpart.len() && cpart[j] == (i as usize);
                assert(plan[j] == (i as usize));
                assert(entries[j].path@ == stripped(records[i].path@));
                assert(entries.take(plan.len() as int)[j].path@.len() == 0);
            } else {
                assert(ro.contains((i as usize)));
                let w = choose|w: int| 0 <= w < ro.len() && ro[w] == (i as usize);
                assert(plan[nc + w] == (i as usize));
                assert(entries[nc + w].path@ == stripped(records[i].path@));
                assert(entries.take(plan.len() as int)[nc + w].path@.len() == 0);
            }
        }
    }

    // container paths come from the source (or are the synthesized root),
    // with matching values
    assert forall|p: Seq<char>| #![trigger cm.dom().contains(p)] cm.dom().contains(p) implies sm.dom().contains(p) && cm[p]
        == sm[p] by {
        let k0 = choose|k: int| entry_at(entries, k, p);
        assert(entry_at(entries, k0, p));
        if k0 < plan.len() {
            let i0 = plan[k0] as int;
            assert(source_has_path(s, i0, p));
            assert(base.dom().contains(p));
            assert(sm.dom().contains(p));
            let iw = choose|i: int| source_has_path(s, i, p);
            assert(source_has_path(s, iw, p));
            assert(iw == i0) by {
                if iw != i0 {
                    assert(stripped(records[iw].path@) != stripped(records[i0].path@));
                }
            }
            assert(sm[p] == record_resolved(records[i0]));
            assert(cm[p] == entry_resolved(entries[k0], ebytes)) by {
                let kw = choose|k: int| entry_at(entries, k, p);
                assert(kw == k0);
            }
            assert(entry_for_record(entries[k0], records[i0], c.content_pack.pack_id, k0));
            match records[i0].kind {
                RecordKind::Redirect { target } => {
                    assert(cm[p] == sm[p]);
                },
                RecordKind::Item { item } => {
                    assert(k0 < nc);
                    assert(ebytes[k0] == c.contents@[k0]@);
                    assert(ebytes[k0] == item.data@);
                    assert(cm[p] == sm[p]);
                },
            }
        } else {
            // the synthesized root entry
            assert(k0 == plan.len() && entries.len() == plan.len() + 1);
            assert(p == Seq::<char>::empty());
            assert(!has_root_entry(entries.take(plan.len() as int)));
            assert(!base.dom().contains(Seq::<char>::empty()));
            assert(sm == base.insert(
                Seq::<char>::empty(),
                (Resolved::Redirect { target: s.main_entry_path@ }),
            ));
            assert(sm.dom().contains(p));
            assert(sm[p] == (Resolved::Redirect { target: s.main_entry_path@ }));
            let kw = choose|k: int| entry_at(entries, k, p);
            assert(entry_at(entries, kw, p));
            assert(kw == k0) by {
                if kw < plan.len() {
                    assert(entries.take(plan.len() as int)[kw].path@.len() == 0);
                }
            }
            assert(cm[p] == entry_resolved(entries[k0], ebytes));
            assert(cm[p] == sm[p]);
        }
    }

    // source paths all appear in the container
    assert forall|p: Seq<char>| #![trigger sm.dom().contains(p)] sm.dom().contains(p) implies cm.dom().contains(p) by {
        if exists|i: int| source_has_path(s, i, p) {
            let i = choose|i: int| source_has_path(s, i, p);
            if is_content(records[i]) {
                assert(co.contains((i as usize)));
                assert(cpart.to_multiset().count((i as usize)) > 0);
                assert(cpart.contains((i as usize)));
                let j = choose|j: int| 0 <= j < cpart.len() && cpart[j] == (i as usize);
                assert(plan[j] == (i as usize));
                assert(entries[j].path@ == stripped(records[i].path@));
                assert(entry_at(entries, j, p));
            } else {
                let w = choose|w: int| 0 <= w < ro.len() && ro[w] == (i as usize);
                assert(ro.contains((i as usize)));
                assert(plan[nc + w] == (i as usize));
                assert(entries[nc + w].path@ == stripped(records[i].path@));
                assert(entry_at(entries, nc + w, p));
            }
        } else {
            assert(p == Seq::<char>::empty());
            assert(!base.dom().contains(Seq::<char>::empty()));
            assert(!has_root_entry(entries.take(plan.len() as int)));
            assert(entries.len() == plan.len() + 1) by {
                if entries.len() == plan.len() {
                    assert(has_root_entry(entries));
                    let k = choose|k: int|
                        0 <= k < entries.len() && entries[k].path@.len() == 0;
                    assert(entries.take(plan.len() as int)[k].path@.len() == 0);
                }
            }
            assert(entry_at(entries, plan.len() as int, p));
        }
    }
    assert forall|p: Seq<char>| cm.dom().contains(p) <==> sm.dom().contains(p) by {
        if cm.dom().contains(p) {
            assert(sm.dom().contains(p));
        }
        if sm.dom().contains(p) {
            assert(cm.dom().contains(p));
        }
    }
    assert(cm.dom() =~= sm.dom());
    assert forall|p: Seq<char>| #[trigger] cm.dom().contains(p) implies cm[p] == sm[p] by {
    }
    assert(cm =~~= sm);
}

/// Law: after conversion the container holds exactly one entry at the empty
/// (root) path.
pub proof fn lemma_exactly_one_root(s: Source, c: Container)
    requires
        converted_ok(s, c),
    ensures
        exists|k: int| entry_at(c.entries@, k, Seq::<char>::empty()),
        forall|k1: int, k2: int|
            entry_at(c.entries@, k1, Seq::<char>::empty()) && entry_at(
                c.entries@,
                k2,
                Seq::<char>::empty(),
            ) ==> k1 == k2,
{
    let entries = c.entries@;
    let k = choose|k: int| 0 <= k < entries.len() && entries[k].path@.len() == 0;
    assert(entries[k].path@ =~= Seq::<char>::empty());
    assert(entry_at(entries, k, Seq::<char>::empty()));
    assert forall|k1: int, k2: int|
        entry_at(entries, k1, Seq::<char>::empty()) && entry_at(
            entries,
            k2,
            Seq::<char>::empty(),
        ) implies k1 == k2 by {
        if k1 < k2 {
            assert(entries[k1].path@ != entries[k2].path@);
        }
        if k2 < k1 {
            assert(entries[k1].path@ != entries[k2].path@);
        }
    }
}

/// What a content entry for record `i` looks like: same stripped path, the
/// item's bytes behind its address, the MIME type with the fallback.
pub open spec fn content_entry_matches(s: Source, c: Container, k: int, i: int) -> bool {
    &&& 0 <= k < c.entries@.len()
    &&& c.entries@[k].path@ == stripped(s.records@[i].path@)
    &&& c.entries@[k].data matches ZimEntryKind::Content { address, mime_type } && 0
        <= address.content_id < c.contents@.len() && c.contents@[address.content_id as int]@
        == record_bytes(s.records@[i]) && mime_type@ == effective_mime(
        item_of(s.records@[i]).mime_type@,
    )
}

/// Law: every accepted content record has exactly one content entry, whose
/// address resolves to bytes identical to the item's bytes.
pub proof fn lemma_content_round_trip(s: Source, c: Container, i: int)
    requires
        source_wf(s),
        converted_ok(s, c),
        0 <= i < s.records@.len(),
        path_accepted(s.records@[i].path@, s.new_namespace_scheme),
        is_content(s.records@[i]),
    ensures
        exists|k: int| #[trigger] content_entry_matches(s, c, k, i),
        forall|k1: int, k2: int|
            #[trigger] content_entry_matches(s, c, k1, i) && #[trigger] content_entry_matches(
                s,
                c,
                k2,
                i,
            ) ==> k1 == k2,
{
    let p = stripped(s.records@[i].path@);
    let ebytes = c.contents@.map_values(|v: Vec<u8>| v@);
    assert(source_has_path(s, i, p));
    let sm = source_map(s);
    let cm = container_map(c);
    assert(source_base_map(s).dom().contains(p));
    assert(sm.dom().contains(p));
    assert(cm.dom().contains(p));
    let iw = choose|iw: int| source_has_path(s, iw, p);
    assert(source_has_path(s, iw, p));
    assert(iw == i) by {
        if iw != i {
            assert(stripped(s.records@[iw].path@) != stripped(s.records@[i].path@));
        }
    }
    assert(sm[p] == record_resolved(s.records@[i]));
    let k = choose|k: int| entry_at(c.entries@, k, p);
    assert(entry_at(c.entries@, k, p));
    assert(cm[p] == entry_resolved(c.entries@[k], ebytes));
    assert(cm[p] == sm[p]);
    assert(record_resolved(s.records@[i]) matches Resolved::Content { .. });
    assert(c.entries@[k].data matches ZimEntryKind::Content { .. });
    assert(entry_backed(s, c, k));
    assert(content_entry_matches(s, c, k, i)) by {
        let address = c.entries@[k].data->address;
        assert(ebytes[address.content_id as int] == c.contents@[address.content_id as int]@);
    }
    assert forall|k1: int, k2: int|
        #[trigger] content_entry_matches(s, c, k1, i) && #[trigger] content_entry_matches(
            s,
            c,
            k2,
            i,
        ) implies k1 == k2 by {
        if k1 < k2 {
            assert(c.entries@[k1].path@ != c.entries@[k2].path@);
        }
        if k2 < k1 {
            assert(c.entries@[k1].path@ != c.entries@[k2].path@);
        }
    }
}

/// What a redirect entry for record `i` looks like: same stripped path and
/// same stripped target.
pub open spec fn redirect_entry_matches(s: Source, c: Container, k: int, i: int) -> bool {
    &&& 0 <= k < c.entries@.len()
    &&& c.entries@[k].path@ == stripped(s.records@[i].path@)
    &&& c.entries@[k].data matches ZimEntryKind::Redirect { target } && target@ == stripped(
        s.records@[i].kind->target@,
    )
}

/// Law: every accepted redirect record has exactly one redirect entry, with
/// the same stripped path and the same stripped target.
pub proof fn lemma_redirect_preserved(s: Source, c: Container, i: int)
    requires
        source_wf(s),
        converted_ok(s, c),
        0 <= i < s.records@.len(),
        path_accepted(s.records@[i].path@, s.new_namespace_scheme),
        !is_content(s.records@[i]),
    ensures
        exists|k: int| #[trigger] redirect_entry_matches(s, c, k, i),
        forall|k1: int, k2: int|
            #[trigger] redirect_entry_matches(s, c, k1, i) && #[trigger] redirect_entry_matches(
                s,
                c,
                k2,
                i,
            ) ==> k1 == k2,
{
    let p = stripped(s.records@[i].path@);
    let ebytes = c.contents@.map_values(|v: Vec<u8>| v@);
    assert(source_has_path(s, i, p));
    let sm = source_map(s);
    let cm = container_map(c);
    assert(source_base_map(s).dom().contains(p));
    assert(sm.dom().contains(p));
    assert(cm.dom().contains(p));
    let iw = choose|iw: int| source_has_path(s, iw, p);
    assert(source_has_path(s, iw, p));
    assert(iw == i) by {
        if iw != i {
            assert(stripped(s.records@[iw].path@) != stripped(s.records@[i].path@));
        }
    }
    assert(sm[p] == record_resolved(s.records@[i]));
    let k = choose|k: int| entry_at(c.entries@, k, p);
    assert(entry_at(c.entries@, k, p));
    assert(cm[p] == entry_resolved(c.entries@[k], ebytes));
    assert(cm[p] == sm[p]);
    assert(redirect_entry_matches(s, c, k, i));
    assert forall|k1: int, k2: int|
        #[trigger] redirect_entry_matches(s, c, k1, i) && #[trigger] redirect_entry_matches(
            s,
            c,
            k2,
            i,
        ) implies k1 == k2 by {
        if k1 < k2 {
            assert(c.entries@[k1].path@ != c.entries@[k2].path@);
        }
        if k2 < k1 {
            assert(c.entries@[k1].path@ != c.entries@[k2].path@);
        }
    }
}

/// Law: converting the same source twice, with whatever concatenation
/// modes, yields containers with identical logical path maps; only physical
/// layout and pack identities may differ.
pub proof fn lemma_idempotent(s: Source, c1: Container, c2: Container)
    requires
        converted_ok(s, c1),
        converted_ok(s, c2),
    ensures
        container_map(c1) == container_map(c2),
{
}

} // verus!
