//! The extraction pipeline's scheduling core. One enumeration pass
//! classifies the accepted records: redirects go to a backlog, content
//! records are collected, partitioned into near-equal contiguous chunks, and
//! the chunk order is shuffled to de-correlate worker access patterns from
//! the on-disk layout. The emission plan lists every accepted content record
//! (in some chunk-permuted order) strictly before every backlogged redirect
//! (in discovery order): the shuffle is a load-balancing heuristic, the
//! redirect-after-content ordering is the invariant.

use rand::seq::SliceRandom;
use vstd::prelude::*;
use vstd::seq_lib::lemma_multiset_commutative;
use vstd::seq_lib::group_to_multiset_ensures;

use crate::record::{is_content, path_accepted, Record, RecordKind, Source};
use crate::record::accept_path;

verus! {

/// How many contiguous chunks the content records are partitioned into.
pub const CHUNK_COUNT: usize = 128;

/// The indices of the records the path filter accepts and whose kind is
/// content (`want_content`) or redirect (`!want_content`), in discovery
/// order.
pub open spec fn selected_indices(
    records: Seq<Record>,
    new_namespace_scheme: bool,
    want_content: bool,
) -> Seq<usize>
    decreases records.len(),
{
    if records.len() == 0 {
        Seq::empty()
    } else {
        let pre = selected_indices(records.drop_last(), new_namespace_scheme, want_content);
        let r = records.last();
        if path_accepted(r.path@, new_namespace_scheme) && is_content(r) == want_content {
            pre.push((records.len() - 1) as usize)
        } else {
            pre
        }
    }
}

/// The accepted content records, in discovery order.
pub open spec fn content_order(records: Seq<Record>, new_namespace_scheme: bool) -> Seq<usize> {
    selected_indices(records, new_namespace_scheme, true)
}

/// The accepted redirect records (the backlog), in discovery order.
pub open spec fn redirect_order(records: Seq<Record>, new_namespace_scheme: bool) -> Seq<usize> {
    selected_indices(records, new_namespace_scheme, false)
}

/// The selected indices are in range, strictly increasing, select exactly
/// the accepted records of the wanted kind, and miss none of them.
pub proof fn lemma_selected_indices_props(
    records: Seq<Record>,
    new_namespace_scheme: bool,
    want_content: bool,
)
    requires
        records.len() <= usize::MAX,
    ensures
        forall|k: int|
            0 <= k < selected_indices(records, new_namespace_scheme, want_content).len()
                ==> (#[trigger] selected_indices(records, new_namespace_scheme, want_content)[k]
                as int) < records.len()
                && path_accepted(
                records[selected_indices(records, new_namespace_scheme, want_content)[k] as int].path@,
                new_namespace_scheme,
            )
                && is_content(
                records[selected_indices(records, new_namespace_scheme, want_content)[k] as int],
            ) == want_content,
        forall|k1: int, k2: int|
            0 <= k1 < k2 < selected_indices(records, new_namespace_scheme, want_content).len()
                ==> #[trigger] selected_indices(records, new_namespace_scheme, want_content)[k1]
                < #[trigger] selected_indices(records, new_namespace_scheme, want_content)[k2],
        forall|i: usize|
            (i as int) < records.len() && path_accepted(records[i as int].path@, new_namespace_scheme)
                && is_content(records[i as int]) == want_content
                ==> #[trigger] selected_indices(records, new_namespace_scheme, want_content).contains(
                i,
            ),
    decreases records.len(),
{
    let sel = selected_indices(records, new_namespace_scheme, want_content);
    if records.len() == 0 {
    } else {
        let pre = selected_indices(records.drop_last(), new_namespace_scheme, want_content);
        lemma_selected_indices_props(records.drop_last(), new_namespace_scheme, want_content);
        assert(forall|j: int|
            0 <= j < records.len() - 1 ==> records.drop_last()[j] == records[j]);
        let cond = path_accepted(records.last().path@, new_namespace_scheme) && is_content(
            records.last(),
        ) == want_content;
        if cond {
            assert(sel == pre.push((records.len() - 1) as usize));
        } else {
            assert(sel == pre);
        }
        assert forall|k: int|
            0 <= k < sel.len() implies (#[trigger] sel[k] as int) < records.len() && path_accepted(
            records[sel[k] as int].path@,
            new_namespace_scheme,
        ) && is_content(records[sel[k] as int]) == want_content by {
            if k < pre.len() {
                assert(sel[k] == pre[k]);
                assert((pre[k] as int) < records.drop_last().len());
                assert(path_accepted(
                    records.drop_last()[pre[k] as int].path@,
                    new_namespace_scheme,
                ));
                assert(is_content(records.drop_last()[pre[k] as int]) == want_content);
            } else {
                assert(cond && k == pre.len());
                assert(sel[k] == (records.len() - 1) as usize);
                assert(records.last() == records[records.len() - 1]);
            }
        }
        assert forall|k1: int, k2: int| 0 <= k1 < k2 < sel.len() implies sel[k1] < sel[k2] by {
            if k2 < pre.len() {
                assert(pre[k1] < pre[k2]);
            } else {
                assert(cond && k2 == pre.len());
                assert(sel[k1] == pre[k1]);
                assert((pre[k1] as int) < records.drop_last().len());
                assert(sel[k2] == (records.len() - 1) as usize);
            }
        }
        assert forall|i: usize|
            (i as int) < records.len() && path_accepted(records[i as int].path@, new_namespace_scheme)
                && is_content(records[i as int]) == want_content implies #[trigger] sel.contains(
            i,
        ) by {
            if (i as int) < records.len() - 1 {
                assert(records.drop_last()[i as int] == records[i as int]);
                assert(pre.contains(i));
                let w = choose|w: int| 0 <= w < pre.len() && pre[w] == i;
                assert(sel[w] == i);
            } else {
                assert(records.last() == records[i as int]);
                assert(sel.last() == i);
            }
        }
    }
}

/// The selected indices never repeat.
pub proof fn lemma_selected_indices_no_duplicates(
    records: Seq<Record>,
    new_namespace_scheme: bool,
    want_content: bool,
)
    requires
        records.len() <= usize::MAX,
    ensures
        selected_indices(records, new_namespace_scheme, want_content).no_duplicates(),
{
    let sel = selected_indices(records, new_namespace_scheme, want_content);
    lemma_selected_indices_props(records, new_namespace_scheme, want_content);
    assert forall|i: int, j: int|
        0 <= i < sel.len() && 0 <= j < sel.len() && i != j implies sel[i] != sel[j] by {
        if i < j {
            assert(sel[i] < sel[j]);
        } else {
            assert(sel[j] < sel[i]);
        }
    }
}

/// In a strictly increasing index sequence, the k-th element is at least k.
pub proof fn lemma_increasing_ge_index(sel: Seq<usize>, k: int)
    requires
        forall|a: int, b: int| #![trigger sel[a], sel[b]] 0 <= a < b < sel.len() ==> sel[a] < sel[b],
        0 <= k < sel.len(),
    ensures
        sel[k] as int >= k,
    decreases k,
{
    if k > 0 {
        lemma_increasing_ge_index(sel, k - 1);
        assert(sel[k - 1] < sel[k]);
    }
}

/// The filter selects at most as many records as there are.
pub proof fn lemma_selected_len(records: Seq<Record>, new_namespace_scheme: bool, want_content: bool)
    requires
        records.len() <= usize::MAX,
    ensures
        selected_indices(records, new_namespace_scheme, want_content).len() <= records.len(),
{
    let sel = selected_indices(records, new_namespace_scheme, want_content);
    lemma_selected_indices_props(records, new_namespace_scheme, want_content);
    if sel.len() > 0 {
        lemma_increasing_ge_index(sel, sel.len() - 1);
        assert((sel[sel.len() - 1] as int) < records.len());
    }
}

/// One enumeration pass: the indices of the accepted content records and of
/// the backlogged redirects, each in discovery order.
pub fn classify(source: &Source) -> (r: (Vec<usize>, Vec<usize>))
    ensures
        r.0@ == content_order(source.records@, source.new_namespace_scheme),
        r.1@ == redirect_order(source.records@, source.new_namespace_scheme),
{
    let ns = source.new_namespace_scheme;
    let mut content: Vec<usize> = Vec::new();
    let mut redirect: Vec<usize> = Vec::new();
    let n = source.records.len();
    let mut i: usize = 0;
    while i < n
        invariant
            i <= n,
            n == source.records@.len(),
            ns == source.new_namespace_scheme,
            content@ == content_order(source.records@.take(i as int), ns),
            redirect@ == redirect_order(source.records@.take(i as int), ns),
        decreases n - i,
    {
        let rec = &source.records[i];
        let ok = accept_path(rec.path.as_str(), ns);
        if ok {
            match &rec.kind {
                RecordKind::Item { .. } => content.push(i),
                RecordKind::Redirect { .. } => redirect.push(i),
            }
        }
        proof {
            let t1 = source.records@.take(i + 1);
            assert(t1.drop_last() =~= source.records@.take(i as int));
            assert(t1.last() == source.records@[i as int]);
        }
        i += 1;
    }
    proof {
        assert(source.records@.take(n as int) =~= source.records@);
    }
    (content, redirect)
}

/// The content list reversed, a locality heuristic applied before chunking.
pub fn reverse_order(v: &Vec<usize>) -> (r: Vec<usize>)
    ensures
        r@ == v@.reverse(),
{
    let n = v.len();
    let mut r: Vec<usize> = Vec::new();
    let mut k: usize = 0;
    while k < n
        invariant
            k <= n,
            n == v@.len(),
            r@.len() == k,
            forall|j: int| 0 <= j < k ==> r@[j] == v@[n - 1 - j],
        decreases n - k,
    {
        r.push(v[n - 1 - k]);
        k += 1;
    }
    proof {
        assert(r@ =~= v@.reverse());
    }
    r
}

/// The views of the chunk vectors.
pub open spec fn views_of(chunks: Seq<Vec<usize>>) -> Seq<Seq<usize>> {
    chunks.map_values(|c: Vec<usize>| c@)
}

/// Partitions the indices into near-equal contiguous chunks, order kept.
pub fn chunk_indices(v: &Vec<usize>, chunk_count: usize) -> (chunks: Vec<Vec<usize>>)
    requires
        chunk_count >= 1,
    ensures
        views_of(chunks@).flatten() == v@,
{
    let n = v.len();
    let mut size = n / chunk_count;
    if size == 0 {
        size = 1;
    }
    let mut chunks: Vec<Vec<usize>> = Vec::new();
    let mut pos: usize = 0;
    proof {
        assert(views_of(chunks@).flatten() =~= v@.take(0));
    }
    while pos < n
        invariant
            pos <= n,
            n == v@.len(),
            size >= 1,
            views_of(chunks@).flatten() == v@.take(pos as int),
        decreases n - pos,
    {
        let end = if n - pos < size {
            n
        } else {
            pos + size
        };
        let mut c: Vec<usize> = Vec::new();
        let mut j = pos;
        while j < end
            invariant
                pos <= j <= end <= n,
                n == v@.len(),
                c@ == v@.subrange(pos as int, j as int),
            decreases end - j,
        {
            c.push(v[j]);
            proof {
                assert(c@ =~= v@.subrange(pos as int, j + 1));
            }
            j += 1;
        }
        proof {
            let cv = views_of(chunks@);
            assert(views_of(chunks@.push(c)) =~= cv.push(c@));
            cv.lemma_flatten_push(c@);
            assert(v@.take(pos as int) + v@.subrange(pos as int, end as int) =~= v@.take(
                end as int,
            ));
        }
        chunks.push(c);
        pos = end;
    }
    proof {
        assert(v@.take(n as int) =~= v@);
    }
    chunks
}

/// The concatenation of the chunks selected by `order`, in that order.
pub open spec fn flatten_by(chunks: Seq<Seq<usize>>, order: Seq<usize>) -> Seq<usize>
    decreases order.len(),
{
    if order.len() == 0 {
        Seq::empty()
    } else {
        flatten_by(chunks, order.drop_last()) + chunks[order.last() as int]
    }
}

/// Removing one selection removes exactly that chunk's contents from the
/// concatenation, as multisets.
proof fn lemma_flatten_by_remove(chunks: Seq<Seq<usize>>, order: Seq<usize>, j: int)
    requires
        0 <= j < order.len(),
        forall|k: int| 0 <= k < order.len() ==> (#[trigger] order[k] as int) < chunks.len(),
    ensures
        flatten_by(chunks, order).to_multiset() == flatten_by(chunks, order.remove(j)).to_multiset()
            .add(chunks[order[j] as int].to_multiset()),
    decreases order.len(),
{
    broadcast use group_to_multiset_ensures;

    let pre = order.drop_last();
    lemma_multiset_commutative(flatten_by(chunks, pre), chunks[order.last() as int]);
    if j == order.len() - 1 {
        assert(order.remove(j) =~= pre);
        assert(flatten_by(chunks, order).to_multiset() =~= flatten_by(
            chunks,
            order.remove(j),
        ).to_multiset().add(chunks[order[j] as int].to_multiset()));
    } else {
        lemma_flatten_by_remove(chunks, pre, j);
        let shorter = order.remove(j);
        assert(shorter.drop_last() =~= pre.remove(j));
        assert(shorter.last() == order.last());
        lemma_multiset_commutative(flatten_by(chunks, pre.remove(j)), chunks[order.last() as int]);
        assert(flatten_by(chunks, order).to_multiset() =~= flatten_by(chunks, shorter).to_multiset()
            .add(chunks[order[j] as int].to_multiset()));
    }
}

/// Concatenating the chunks in any permuted selection order yields the same
/// contents, as multisets.
proof fn lemma_flatten_by_permutation(chunks: Seq<Seq<usize>>, o1: Seq<usize>, o2: Seq<usize>)
    requires
        o1.to_multiset() == o2.to_multiset(),
        forall|k: int| 0 <= k < o1.len() ==> (#[trigger] o1[k] as int) < chunks.len(),
    ensures
        flatten_by(chunks, o1).to_multiset() == flatten_by(chunks, o2).to_multiset(),
    decreases o1.len(),
{
    broadcast use group_to_multiset_ensures;

    if o1.len() == 0 {
        assert(o1.to_multiset().len() == o1.len());
        assert(o2.to_multiset().len() == o2.len());
        assert(o2.len() == 0);
    } else {
        let last = o1.last();
        assert(o1.contains(last));
        assert(o2.to_multiset().count(last) > 0);
        assert(o2.contains(last));
        let j = choose|j: int| 0 <= j < o2.len() && o2[j] == last;
        assert forall|k: int| 0 <= k < o2.len() implies (#[trigger] o2[k] as int)
            < chunks.len() by {
            assert(o2.contains(o2[k]));
            assert(o2.to_multiset().count(o2[k]) > 0);
            assert(o1.contains(o2[k]));
            let w = choose|w: int| 0 <= w < o1.len() && o1[w] == o2[k];
            assert((o1[w] as int) < chunks.len());
        }
        let pre = o1.drop_last();
        assert(o1.remove(o1.len() - 1) =~= pre);
        assert(pre.to_multiset() == o1.to_multiset().remove(last));
        assert(o2.remove(j).to_multiset() == o2.to_multiset().remove(last));
        lemma_flatten_by_permutation(chunks, pre, o2.remove(j));
        lemma_flatten_by_remove(chunks, o2, j);
        lemma_multiset_commutative(flatten_by(chunks, pre), chunks[last as int]);
    }
}

/// Selecting every chunk once, in their stored order, is plain flattening.
proof fn lemma_flatten_by_identity(chunks: Seq<Seq<usize>>, order: Seq<usize>)
    requires
        order.len() == chunks.len(),
        forall|k: int| 0 <= k < order.len() ==> (#[trigger] order[k] as int) == k,
    ensures
        flatten_by(chunks, order) == chunks.flatten(),
    decreases order.len(),
{
    if order.len() == 0 {
        assert(flatten_by(chunks, order) =~= chunks.flatten());
    } else {
        let pre = chunks.drop_last();
        lemma_flatten_by_identity(pre, order.drop_last());
        assert(flatten_by(pre, order.drop_last()) =~= flatten_by(chunks, order.drop_last())) by {
            lemma_flatten_by_prefix(pre, chunks, order.drop_last());
        }
        pre.lemma_flatten_push(chunks.last());
        assert(pre.push(chunks.last()) =~= chunks);
    }
}

/// `flatten_by` reads only the selected chunks, so extending the chunk
/// sequence does not change it.
proof fn lemma_flatten_by_prefix(short: Seq<Seq<usize>>, long: Seq<Seq<usize>>, order: Seq<usize>)
    requires
        short.len() <= long.len(),
        forall|k: int| 0 <= k < short.len() ==> short[k] == long[k],
        forall|k: int| 0 <= k < order.len() ==> (#[trigger] order[k] as int) < short.len(),
    ensures
        flatten_by(short, order) == flatten_by(long, order),
    decreases order.len(),
{
    if order.len() > 0 {
        lemma_flatten_by_prefix(short, long, order.drop_last());
    }
}

/// Relies on rand's `SliceRandom::shuffle` with the thread-local generator
/// `rand::rng`: a Fisher-Yates in-place permutation, built from swaps, so
/// the slice keeps exactly its old elements with their multiplicities, in an
/// order that depends on the generator.
#[verifier::external_body]
fn shuffle_order(v: &mut Vec<usize>)
    ensures
        final(v)@.to_multiset() == old(v)@.to_multiset(),
{
    v.shuffle(&mut rand::rng());
}

/// The order `0, 1, ..., n - 1`.
fn identity_order(n: usize) -> (v: Vec<usize>)
    ensures
        v@.len() == n,
        forall|k: int| 0 <= k < n ==> (#[trigger] v@[k] as int) == k,
{
    let mut v: Vec<usize> = Vec::new();
    let mut k: usize = 0;
    while k < n
        invariant
            k <= n,
            v@.len() == k,
            forall|j: int| 0 <= j < k ==> (#[trigger] v@[j] as int) == j,
        decreases n - k,
    {
        v.push(k);
        k += 1;
    }
    v
}

/// The worker's minimal size-probing read: touches the last byte of an item
/// to warm any lazy backing store. An empty item has nothing to touch.
pub fn probe_last_byte(item: &crate::record::Item) -> (b: Option<u8>)
    requires
        crate::record::item_wf(*item),
    ensures
        item.data@.len() > 0 ==> b == Some(item.data@.last()),
        item.data@.len() == 0 ==> b is None,
{
    let n = item.data.len();
    if n > 0 {
        Some(item.data[n - 1])
    } else {
        None
    }
}

/// The worker-side warm-up for one record before it is emitted: a content
/// record gets its size-probing read, and the transient blob and item
/// handles it touched are queued on the dropper; a redirect record needs
/// none of it.
pub fn warm_up(record: &Record, record_id: usize, dropper: &mut crate::dropper::DropQueue)
    requires
        crate::record::record_wf(*record),
    ensures
        final(dropper).released@ == old(dropper).released@,
        match record.kind {
            RecordKind::Item { .. } => final(dropper).pending@ == old(dropper).pending@ + seq![
                crate::dropper::Droppable::Blob(record_id),
                crate::dropper::Droppable::Item(record_id),
            ],
            RecordKind::Redirect { .. } => final(dropper).pending@ == old(dropper).pending@,
        },
{
    match &record.kind {
        RecordKind::Item { item } => {
            let _touched = probe_last_byte(item);
            dropper.submit(crate::dropper::Droppable::Blob(record_id));
            dropper.submit(crate::dropper::Droppable::Item(record_id));
            proof {
                assert(dropper.pending@ =~= old(dropper).pending@ + seq![
                    crate::dropper::Droppable::Blob(record_id),
                    crate::dropper::Droppable::Item(record_id),
                ]);
            }
        },
        RecordKind::Redirect { .. } => {},
    }
}

/// What the pipeline guarantees of an emission plan: it lists every accepted
/// content record exactly once (in some order), then every backlogged
/// redirect, in discovery order — every content record is emitted before
/// any redirect.
pub open spec fn emission_ok(records: Seq<Record>, new_namespace_scheme: bool, plan: Seq<usize>) -> bool {
    let nc = content_order(records, new_namespace_scheme).len() as int;
    &&& plan.len() == nc + redirect_order(records, new_namespace_scheme).len()
    &&& plan.take(nc).to_multiset() == content_order(records, new_namespace_scheme).to_multiset()
    &&& plan.skip(nc) == redirect_order(records, new_namespace_scheme)
}

/// Builds the emission plan: classify, reverse, partition into shuffled
/// chunks, then the redirect backlog after all content.
pub fn plan_emission(source: &Source) -> (plan: Vec<usize>)
    ensures
        emission_ok(source.records@, source.new_namespace_scheme, plan@),
{
    broadcast use group_to_multiset_ensures;

    let ghost records = source.records@;
    let ghost ns = source.new_namespace_scheme;
    let (content, redirects) = classify(source);
    let reversed = reverse_order(&content);
    let chunks = chunk_indices(&reversed, CHUNK_COUNT);
    let mut order = identity_order(chunks.len());
    let ghost id_order = order@;
    shuffle_order(&mut order);
    let ghost cv = views_of(chunks@);
    proof {
        assert forall|k: int| 0 <= k < order@.len() implies (#[trigger] order@[k] as int)
            < cv.len() by {
            assert(order@.contains(order@[k]));
            assert(order@.to_multiset().count(order@[k]) > 0);
            assert(id_order.contains(order@[k]));
            let w = choose|w: int| 0 <= w < id_order.len() && id_order[w] == order@[k];
            assert((id_order[w] as int) == w);
        }
        assert(order@.to_multiset().len() == id_order.to_multiset().len());
        assert(order@.len() == id_order.len());
    }
    let mut plan: Vec<usize> = Vec::new();
    let nk = order.len();
    let mut k: usize = 0;
    proof {
        assert(plan@ =~= flatten_by(cv, order@.take(0)));
    }
    while k < nk
        invariant
            k <= nk,
            nk == order@.len(),
            cv == views_of(chunks@),
            chunks@.len() == cv.len(),
            forall|j: int| 0 <= j < order@.len() ==> (#[trigger] order@[j] as int) < cv.len(),
            plan@ == flatten_by(cv, order@.take(k as int)),
        decreases nk - k,
    {
        let ci = order[k];
        let nc = chunks[ci].len();
        let mut j: usize = 0;
        while j < nc
            invariant
                j <= nc,
                k < nk,
                nk == order@.len(),
                cv == views_of(chunks@),
                chunks@.len() == cv.len(),
                ci == order@[k as int],
                (ci as int) < chunks@.len(),
                nc == chunks@[ci as int]@.len(),
                forall|q: int| 0 <= q < order@.len() ==> (#[trigger] order@[q] as int) < cv.len(),
                plan@ == flatten_by(cv, order@.take(k as int)) + chunks@[ci as int]@.take(j as int),
            decreases nc - j,
        {
            plan.push(chunks[ci][j]);
            proof {
                assert(chunks@[ci as int]@.take(j as int).push(chunks@[ci as int]@[j as int]) =~= chunks@[ci as int]@.take(
                    j + 1,
                ));
                assert(plan@ =~= flatten_by(cv, order@.take(k as int)) + chunks@[ci as int]@.take(
                    j + 1,
                ));
            }
            j += 1;
        }
        proof {
            let t1 = order@.take(k + 1);
            assert(t1.drop_last() =~= order@.take(k as int));
            assert(t1.last() == order@[k as int]);
            assert(cv[ci as int] == chunks@[ci as int]@);
            assert(chunks@[ci as int]@.take(nc as int) =~= chunks@[ci as int]@);
        }
        k += 1;
    }
    proof {
        assert(order@.take(nk as int) =~= order@);
        lemma_flatten_by_permutation(cv, order@, id_order);
        lemma_flatten_by_identity(cv, id_order);
        content@.lemma_reverse_to_multiset();
        assert(plan@.to_multiset() == content_order(records, ns).to_multiset());
        assert(plan@.to_multiset().len() == plan@.len());
        assert(content_order(records, ns).to_multiset().len() == content_order(records, ns).len());
        assert(plan@.len() == content_order(records, ns).len());
    }
    let ghost content_part = plan@;
    let nr = redirects.len();
    let mut k2: usize = 0;
    while k2 < nr
        invariant
            k2 <= nr,
            nr == redirects@.len(),
            plan@ == content_part + redirects@.take(k2 as int),
        decreases nr - k2,
    {
        plan.push(redirects[k2]);
        proof {
            assert(content_part + redirects@.take(k2 as int + 1) =~= (content_part
                + redirects@.take(k2 as int)).push(redirects@[k2 as int]));
        }
        k2 += 1;
    }
    proof {
        assert(redirects@.take(nr as int) =~= redirects@);
        let nc = content_order(records, ns).len() as int;
        assert(plan@.take(nc) =~= content_part);
        assert(plan@.skip(nc) =~= redirects@);
    }
    plan
}

} // verus!
