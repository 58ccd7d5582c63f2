use vstd::prelude::*;

verus! {

/// One fixed-width sample taken by a device: a microsecond instant plus four
/// readings, each stored as the physical value times 1000, truncated.
#[derive(Clone, Copy, PartialEq, Eq, Structural, Debug)]
pub struct Measurement {
    pub timestamp: i64,
    pub humidity_percentage: u32,
    pub temperature_celsius: u32,
    pub light_level_lux: u32,
    pub voltage_millivolts: u32,
}

/// Stable identity of a device: the reference to its registration record.
#[derive(Clone, Copy, PartialEq, Eq, Structural, Debug)]
pub struct DeviceRef(pub usize);

/// Reference to one persisted measurement-collection record.
#[derive(Clone, Copy, PartialEq, Eq, Structural, Debug)]
pub struct CollectionRef(pub usize);

/// Reference to one deletion record.
#[derive(Clone, Copy, PartialEq, Eq, Structural, Debug)]
pub struct DeletionRef(pub usize);

/// A directed edge from a device identity to one of its collection records.
/// Deleting a collection severs the edge by marking it, without touching
/// the record it points at.
#[derive(Clone, Copy, PartialEq, Eq, Structural, Debug)]
pub struct CollectionLink {
    pub base: DeviceRef,
    pub target: CollectionRef,
    pub deleted: bool,
}

/// A deletion entry recorded against a collection record.  The record
/// itself survives; the deletion only marks it as superseded.
#[derive(Clone, Copy, PartialEq, Eq, Structural, Debug)]
pub struct DeletionRecord {
    pub target: CollectionRef,
    pub timestamp: u64,
}

/// The unit of persistence: one chunk of measurements, owned by one device,
/// all taken with the same external resistor configuration.
#[derive(Clone, Debug)]
pub struct MeasurementCollection {
    pub bpv_device_hash: DeviceRef,
    pub measurements: Vec<Measurement>,
    pub external_resistor_ohms: u32,
}

/// Mathematical content of a collection record; two records with equal
/// content are the same record under content addressing.
pub ghost struct CollectionContent {
    pub bpv_device_hash: DeviceRef,
    pub measurements: Seq<Measurement>,
    pub external_resistor_ohms: u32,
}

impl View for MeasurementCollection {
    type V = CollectionContent;

    open spec fn view(&self) -> CollectionContent {
        CollectionContent {
            bpv_device_hash: self.bpv_device_hash,
            measurements: self.measurements@,
            external_resistor_ohms: self.external_resistor_ohms,
        }
    }
}

/// No two committed records hold the same content: the store is keyed by
/// content, so a record's position is its identity.
pub open spec fn unique_contents(cs: Seq<CollectionContent>) -> bool {
    forall|i: int, j: int|
        0 <= i < cs.len() && 0 <= j < cs.len() && i != j ==> cs[i] != cs[j]
}

/// Some committed record already holds this content.
pub open spec fn has_content(cs: Seq<CollectionContent>, c: CollectionContent) -> bool {
    exists|i: int| 0 <= i < cs.len() && cs[i] == c
}

/// The position of the record holding this content.
pub open spec fn content_index(cs: Seq<CollectionContent>, c: CollectionContent) -> int {
    choose|i: int| 0 <= i < cs.len() && cs[i] == c
}

/// The record table after committing this content: unchanged when the
/// content is already present, extended by one record otherwise.
pub open spec fn put_content(cs: Seq<CollectionContent>, c: CollectionContent) -> Seq<
    CollectionContent,
> {
    if has_content(cs, c) {
        cs
    } else {
        cs.push(c)
    }
}

/// The reference that committing this content settles to.
pub open spec fn put_ref(cs: Seq<CollectionContent>, c: CollectionContent) -> int {
    if has_content(cs, c) {
        content_index(cs, c)
    } else {
        cs.len() as int
    }
}

/// The collection record one chunk is wrapped into.
pub open spec fn chunk_content(
    device: DeviceRef,
    resistor: u32,
    measurements: Seq<Measurement>,
) -> CollectionContent {
    CollectionContent {
        bpv_device_hash: device,
        measurements: measurements,
        external_resistor_ohms: resistor,
    }
}

/// The record table after committing every chunk in order.
pub open spec fn write_contents(
    cs: Seq<CollectionContent>,
    device: DeviceRef,
    resistor: u32,
    chunks: Seq<Seq<Measurement>>,
) -> Seq<CollectionContent>
    decreases chunks.len(),
{
    if chunks.len() == 0 {
        cs
    } else {
        write_contents(
            put_content(cs, chunk_content(device, resistor, chunks[0])),
            device,
            resistor,
            chunks.drop_first(),
        )
    }
}

/// The references the chunks settle to, in chunk order.
pub open spec fn write_refs(
    cs: Seq<CollectionContent>,
    device: DeviceRef,
    resistor: u32,
    chunks: Seq<Seq<Measurement>>,
) -> Seq<int>
    decreases chunks.len(),
{
    if chunks.len() == 0 {
        Seq::empty()
    } else {
        seq![put_ref(cs, chunk_content(device, resistor, chunks[0]))] + write_refs(
            put_content(cs, chunk_content(device, resistor, chunks[0])),
            device,
            resistor,
            chunks.drop_first(),
        )
    }
}

/// The device-to-collection links the writer appends, one per chunk.
pub open spec fn links_added(device: DeviceRef, refs: Seq<int>) -> Seq<CollectionLink> {
    Seq::new(
        refs.len(),
        |k: int| CollectionLink { base: device, target: CollectionRef(refs[k] as usize), deleted: false },
    )
}

/// The live links a device's collection index currently shows: links from
/// this device that have not been severed, in creation order.
pub open spec fn live_links_of(links: Seq<CollectionLink>, d: DeviceRef) -> Seq<CollectionLink>
    decreases links.len(),
{
    if links.len() == 0 {
        Seq::empty()
    } else if links[0].base == d && !links[0].deleted {
        seq![links[0]] + live_links_of(links.drop_first(), d)
    } else {
        live_links_of(links.drop_first(), d)
    }
}

/// All deletion records filed against one collection record, in order.
pub open spec fn deletes_for(ds: Seq<DeletionRecord>, target: CollectionRef) -> Seq<
    DeletionRecord,
>
    decreases ds.len(),
{
    if ds.len() == 0 {
        Seq::empty()
    } else if ds[0].target == target {
        seq![ds[0]] + deletes_for(ds.drop_first(), target)
    } else {
        deletes_for(ds.drop_first(), target)
    }
}

/// The earliest deletion record filed against one collection record.
pub open spec fn oldest_delete_of(ds: Seq<DeletionRecord>, target: CollectionRef) -> Option<
    DeletionRecord,
>
    decreases ds.len(),
{
    if ds.len() == 0 {
        Option::None
    } else if ds[0].target == target {
        Option::Some(ds[0])
    } else {
        oldest_delete_of(ds.drop_first(), target)
    }
}

/// One link after a deletion of `target` under `d` has been applied to it:
/// severed when it tied that device to that record, untouched otherwise.
pub open spec fn sever_one(l: CollectionLink, d: DeviceRef, target: CollectionRef) -> CollectionLink {
    if l.base == d && l.target == target {
        CollectionLink { base: l.base, target: l.target, deleted: true }
    } else {
        l
    }
}

/// The link table after a deletion of `target` under `d`: every matching
/// link is severed, every other link is untouched.
pub open spec fn severed_links(
    links: Seq<CollectionLink>,
    d: DeviceRef,
    target: CollectionRef,
) -> Seq<CollectionLink> {
    links.map_values(|l: CollectionLink| sever_one(l, d, target))
}

/// The links of a device whose target record has at least one deletion
/// filed against it, severed or not, in creation order.
pub open spec fn deleted_links_of(
    links: Seq<CollectionLink>,
    ds: Seq<DeletionRecord>,
    d: DeviceRef,
) -> Seq<CollectionLink>
    decreases links.len(),
{
    if links.len() == 0 {
        Seq::empty()
    } else if links[0].base == d && deletes_for(ds, links[0].target).len() > 0 {
        seq![links[0]] + deleted_links_of(links.drop_first(), ds, d)
    } else {
        deleted_links_of(links.drop_first(), ds, d)
    }
}

/// The link of each returned (link, deletions) pair, in order.
pub open spec fn pairs_fst(ps: Seq<(CollectionLink, Vec<DeletionRecord>)>) -> Seq<CollectionLink> {
    ps.map_values(|p: (CollectionLink, Vec<DeletionRecord>)| p.0)
}

/// Every live link points where its table's links point: into the device
/// and collection tables the link table is checked against.
pub proof fn lemma_live_links_bounds(
    ls: Seq<CollectionLink>,
    d: DeviceRef,
    n_dev: int,
    n_coll: int,
)
    requires
        forall|i: int|
            0 <= i < ls.len() ==> (#[trigger] ls[i]).base.0 < n_dev && ls[i].target.0 < n_coll,
    ensures
        forall|k: int|
            0 <= k < live_links_of(ls, d).len() ==> (#[trigger] live_links_of(ls, d)[k]).base.0
                < n_dev && live_links_of(ls, d)[k].target.0 < n_coll,
    decreases ls.len(),
{
    if ls.len() > 0 {
        let rest = ls.drop_first();
        assert forall|i: int|
            0 <= i < rest.len() implies (#[trigger] rest[i]).base.0 < n_dev && rest[i].target.0
            < n_coll by {
            assert(rest[i] == ls[i + 1]);
        }
        lemma_live_links_bounds(rest, d, n_dev, n_coll);
        if ls[0].base == d && !ls[0].deleted {
            assert forall|k: int|
                0 <= k < live_links_of(ls, d).len() implies (#[trigger] live_links_of(ls, d)[k])
                .base.0 < n_dev && live_links_of(ls, d)[k].target.0 < n_coll by {
                if k > 0 {
                    assert(live_links_of(ls, d)[k] == live_links_of(rest, d)[k - 1]);
                }
            }
        }
    }
}

/// In a unique table, the position a record sits at identifies it.
pub proof fn lemma_index_of_content(cs: Seq<CollectionContent>, c: CollectionContent, i: int)
    requires
        unique_contents(cs),
        0 <= i < cs.len(),
        cs[i] == c,
    ensures
        has_content(cs, c),
        content_index(cs, c) == i,
{
    assert(has_content(cs, c));
    let w = content_index(cs, c);
    assert(0 <= w < cs.len() && cs[w] == c);
}

/// Committing keeps the table unique, and the committed content ends up
/// exactly at the reference the commit settles to.
pub proof fn lemma_put_content_unique(cs: Seq<CollectionContent>, c: CollectionContent)
    requires
        unique_contents(cs),
    ensures
        unique_contents(put_content(cs, c)),
        has_content(put_content(cs, c), c),
        content_index(put_content(cs, c), c) == put_ref(cs, c),
        put_content(cs, c).len() == if has_content(cs, c) {
            cs.len()
        } else {
            cs.len() + 1
        },
{
    if has_content(cs, c) {
        let w = content_index(cs, c);
        assert(0 <= w < cs.len() && cs[w] == c);
        lemma_index_of_content(cs, c, w);
    } else {
        let ps = cs.push(c);
        assert forall|i: int, j: int|
            0 <= i < ps.len() && 0 <= j < ps.len() && i != j implies ps[i] != ps[j] by {
            if i == cs.len() {
                assert(ps[j] == cs[j]);
            } else if j == cs.len() {
                assert(ps[i] == cs[i]);
            } else {
                assert(ps[i] == cs[i] && ps[j] == cs[j]);
            }
        }
        lemma_index_of_content(ps, c, cs.len() as int);
    }
}

/// Committing one record leaves every record already present in place.
pub proof fn lemma_put_content_frame(
    cs: Seq<CollectionContent>,
    c: CollectionContent,
    x: CollectionContent,
)
    requires
        unique_contents(cs),
        has_content(cs, x),
    ensures
        has_content(put_content(cs, c), x),
        content_index(put_content(cs, c), x) == content_index(cs, x),
{
    lemma_put_content_unique(cs, c);
    let i = content_index(cs, x);
    assert(0 <= i < cs.len() && cs[i] == x);
    assert(put_content(cs, c)[i] == x);
    lemma_index_of_content(put_content(cs, c), x, i);
}

/// Writing a batch of chunks keeps the table unique and leaves every
/// record already present in place.
pub proof fn lemma_write_contents_frame(
    cs: Seq<CollectionContent>,
    device: DeviceRef,
    resistor: u32,
    chunks: Seq<Seq<Measurement>>,
    x: CollectionContent,
)
    requires
        unique_contents(cs),
        has_content(cs, x),
    ensures
        unique_contents(write_contents(cs, device, resistor, chunks)),
        has_content(write_contents(cs, device, resistor, chunks), x),
        content_index(write_contents(cs, device, resistor, chunks), x) == content_index(cs, x),
    decreases chunks.len(),
{
    if chunks.len() > 0 {
        let c0 = chunk_content(device, resistor, chunks[0]);
        lemma_put_content_unique(cs, c0);
        lemma_put_content_frame(cs, c0, x);
        lemma_write_contents_frame(
            put_content(cs, c0),
            device,
            resistor,
            chunks.drop_first(),
            x,
        );
    }
}

/// Writing a batch of chunks keeps the table unique.
pub proof fn lemma_write_contents_unique(
    cs: Seq<CollectionContent>,
    device: DeviceRef,
    resistor: u32,
    chunks: Seq<Seq<Measurement>>,
)
    requires
        unique_contents(cs),
    ensures
        unique_contents(write_contents(cs, device, resistor, chunks)),
    decreases chunks.len(),
{
    if chunks.len() > 0 {
        let c0 = chunk_content(device, resistor, chunks[0]);
        lemma_put_content_unique(cs, c0);
        lemma_write_contents_unique(put_content(cs, c0), device, resistor, chunks.drop_first());
    }
}

/// Every reference the writer returns resolves, in order, to a record
/// holding exactly the chunk it was created for.
pub proof fn lemma_write_refs_resolve(
    cs: Seq<CollectionContent>,
    device: DeviceRef,
    resistor: u32,
    chunks: Seq<Seq<Measurement>>,
)
    requires
        unique_contents(cs),
    ensures
        write_refs(cs, device, resistor, chunks).len() == chunks.len(),
        forall|k: int|
            0 <= k < chunks.len() ==> 0 <= #[trigger] write_refs(cs, device, resistor, chunks)[k]
                < write_contents(cs, device, resistor, chunks).len(),
        forall|k: int|
            0 <= k < chunks.len() ==> write_contents(cs, device, resistor, chunks)[#[trigger] write_refs(
                cs,
                device,
                resistor,
                chunks,
            )[k]] == chunk_content(device, resistor, chunks[k]),
    decreases chunks.len(),
{
    if chunks.len() > 0 {
        let c0 = chunk_content(device, resistor, chunks[0]);
        let cs1 = put_content(cs, c0);
        let refs = write_refs(cs, device, resistor, chunks);
        let table = write_contents(cs, device, resistor, chunks);
        lemma_put_content_unique(cs, c0);
        lemma_write_contents_frame(cs1, device, resistor, chunks.drop_first(), c0);
        assert(refs[0] == put_ref(cs, c0));
        let w = content_index(table, c0);
        assert(0 <= w < table.len() && table[w] == c0);
        assert(w == refs[0]);
        lemma_write_refs_resolve(cs1, device, resistor, chunks.drop_first());
        assert forall|k: int|
            1 <= k < chunks.len() implies 0 <= #[trigger] refs[k] < table.len() && table[refs[k]]
            == chunk_content(device, resistor, chunks[k]) by {
            assert(refs[k] == write_refs(cs1, device, resistor, chunks.drop_first())[k - 1]);
            assert(chunks.drop_first()[k - 1] == chunks[k]);
        }
    }
}

/// The writer's full round trip: writing any measurement sequence yields
/// one reference per chunk, the records those references resolve to carry
/// the right device and resistor, and concatenating their measurements in
/// reference order restores the input exactly.
pub proof fn lemma_writer_round_trip(
    cs: Seq<CollectionContent>,
    device: DeviceRef,
    resistor: u32,
    measurements: Seq<Measurement>,
    capacity: nat,
)
    requires
        unique_contents(cs),
        capacity >= 1,
    ensures
        ({
            let chunks = crate::chunk::chunks_of(measurements, capacity);
            let refs = write_refs(cs, device, resistor, chunks);
            let table = write_contents(cs, device, resistor, chunks);
            &&& refs.len() == (measurements.len() + capacity - 1) / (capacity as int)
            &&& Seq::new(refs.len(), |k: int| table[refs[k]].measurements).flatten()
                == measurements
            &&& forall|k: int|
                0 <= k < refs.len() ==> (#[trigger] table[refs[k]]).bpv_device_hash == device
                    && table[refs[k]].external_resistor_ohms == resistor
        }),
{
    let chunks = crate::chunk::chunks_of(measurements, capacity);
    let refs = write_refs(cs, device, resistor, chunks);
    let table = write_contents(cs, device, resistor, chunks);
    crate::chunk::lemma_chunks_round_trip(measurements, capacity);
    crate::chunk::lemma_chunks_shape(measurements, capacity);
    lemma_write_refs_resolve(cs, device, resistor, chunks);
    let recovered = Seq::new(refs.len(), |k: int| table[refs[k]].measurements);
    assert forall|k: int| 0 <= k < refs.len() implies recovered[k] == chunks[k] by {
        assert(table[refs[k]] == chunk_content(device, resistor, chunks[k]));
    }
    assert(recovered =~= chunks);
    assert forall|k: int|
        0 <= k < refs.len() implies (#[trigger] table[refs[k]]).bpv_device_hash == device
        && table[refs[k]].external_resistor_ohms == resistor by {
        assert(table[refs[k]] == chunk_content(device, resistor, chunks[k]));
    }
}

/// The oldest deletion filed against a record is the first entry of its
/// deletion list, and it is absent exactly when that list is empty.
pub proof fn lemma_oldest_is_first_delete(ds: Seq<DeletionRecord>, t: CollectionRef)
    ensures
        deletes_for(ds, t).len() == 0 ==> oldest_delete_of(ds, t) is None,
        deletes_for(ds, t).len() > 0 ==> oldest_delete_of(ds, t) == Some(deletes_for(ds, t)[0]),
    decreases ds.len(),
{
    if ds.len() > 0 {
        lemma_oldest_is_first_delete(ds.drop_first(), t);
        if ds[0].target == t {
            assert(deletes_for(ds, t)[0] == ds[0]);
        } else {
            if deletes_for(ds.drop_first(), t).len() > 0 {
                assert(deletes_for(ds, t)[0] == deletes_for(ds.drop_first(), t)[0]);
            }
        }
    }
}

/// After a deletion of `t` under `d`, the device's live index shows no
/// link to `t` any more.
pub proof fn lemma_sever_hides_target(ls: Seq<CollectionLink>, d: DeviceRef, t: CollectionRef)
    ensures
        forall|k: int|
            0 <= k < live_links_of(severed_links(ls, d, t), d).len() ==> (
            #[trigger] live_links_of(severed_links(ls, d, t), d)[k]).target != t,
    decreases ls.len(),
{
    if ls.len() > 0 {
        lemma_sever_hides_target(ls.drop_first(), d, t);
        let sl = severed_links(ls, d, t);
        assert(sl.drop_first() =~= severed_links(ls.drop_first(), d, t));
        assert(sl[0] == sever_one(ls[0], d, t));
        if sl[0].base == d && !sl[0].deleted {
            assert(sl[0].target != t);
            assert forall|k: int|
                0 <= k < live_links_of(sl, d).len() implies (#[trigger] live_links_of(sl, d)[k])
                .target != t by {
                if k > 0 {
                    assert(live_links_of(sl, d)[k] == live_links_of(sl.drop_first(), d)[k - 1]);
                }
            }
        } else {
            assert forall|k: int|
                0 <= k < live_links_of(sl, d).len() implies (#[trigger] live_links_of(sl, d)[k])
                .target != t by {
                assert(live_links_of(sl, d)[k] == live_links_of(sl.drop_first(), d)[k]);
            }
        }
    }
}

/// Filing a deletion record appends it to exactly the deletion list of
/// its own target, and leaves every other target's list unchanged.
pub proof fn lemma_deletes_for_push(ds: Seq<DeletionRecord>, del: DeletionRecord, t: CollectionRef)
    ensures
        del.target == t ==> deletes_for(ds.push(del), t) == deletes_for(ds, t).push(del),
        del.target != t ==> deletes_for(ds.push(del), t) == deletes_for(ds, t),
    decreases ds.len(),
{
    if ds.len() == 0 {
        reveal_with_fuel(deletes_for, 2);
        assert(ds.push(del)[0] == del);
        assert(ds.push(del).drop_first() =~= Seq::<DeletionRecord>::empty());
        if del.target == t {
            assert(deletes_for(ds.push(del), t) =~= deletes_for(ds, t).push(del));
        } else {
            assert(deletes_for(ds.push(del), t) =~= deletes_for(ds, t));
        }
    } else {
        assert(ds.push(del).drop_first() =~= ds.drop_first().push(del));
        assert(ds.push(del)[0] == ds[0]);
        lemma_deletes_for_push(ds.drop_first(), del, t);
        if del.target == t {
            assert(deletes_for(ds.push(del), t) =~= deletes_for(ds, t).push(del));
        } else {
            assert(deletes_for(ds.push(del), t) =~= deletes_for(ds, t));
        }
    }
}

/// A link tying a device to a record with a deletion on file shows up in
/// the device's deleted index, severed or not.
pub proof fn lemma_deleted_index_shows(
    ls: Seq<CollectionLink>,
    ds: Seq<DeletionRecord>,
    d: DeviceRef,
    j: int,
)
    requires
        0 <= j < ls.len(),
        ls[j].base == d,
        deletes_for(ds, ls[j].target).len() > 0,
    ensures
        exists|k: int|
            0 <= k < deleted_links_of(ls, ds, d).len() && (#[trigger] deleted_links_of(
                ls,
                ds,
                d,
            )[k]).target == ls[j].target,
    decreases ls.len(),
{
    if j == 0 {
        assert(deleted_links_of(ls, ds, d)[0] == ls[0]);
    } else {
        lemma_deleted_index_shows(ls.drop_first(), ds, d, j - 1);
        let k0 = choose|k: int|
            0 <= k < deleted_links_of(ls.drop_first(), ds, d).len() && (
            #[trigger] deleted_links_of(ls.drop_first(), ds, d)[k]).target == ls.drop_first()[j
                - 1].target;
        if ls[0].base == d && deletes_for(ds, ls[0].target).len() > 0 {
            assert(deleted_links_of(ls, ds, d)[k0 + 1] == deleted_links_of(
                ls.drop_first(),
                ds,
                d,
            )[k0]);
        } else {
            assert(deleted_links_of(ls, ds, d)[k0] == deleted_links_of(
                ls.drop_first(),
                ds,
                d,
            )[k0]);
        }
    }
}

/// Deleting a collection marks but does not erase: afterwards the record
/// can still be fetched unchanged, the owning device's live index no
/// longer shows a link to it, its deletion list has grown by exactly this
/// deletion — so by exactly one record when it had none — and every link
/// that tied the device to it now shows up in the device's deleted index.
pub proof fn lemma_delete_then_list(
    pre: crate::ledger::LedgerSnap,
    post: crate::ledger::LedgerSnap,
    target: CollectionRef,
)
    requires
        pre.wf(),
        target.0 < pre.collections.len(),
        post.collections == pre.collections,
        post.links == severed_links(
            pre.links,
            pre.collections[target.0 as int].bpv_device_hash,
            target,
        ),
        post.deletions == pre.deletions.push(
            (DeletionRecord { target: target, timestamp: pre.clock }),
        ),
    ensures
        post.collections[target.0 as int] == pre.collections[target.0 as int],
        forall|k: int|
            0 <= k < live_links_of(
                post.links,
                pre.collections[target.0 as int].bpv_device_hash,
            ).len() ==> (#[trigger] live_links_of(
                post.links,
                pre.collections[target.0 as int].bpv_device_hash,
            )[k]).target != target,
        deletes_for(post.deletions, target) == deletes_for(pre.deletions, target).push(
            (DeletionRecord { target: target, timestamp: pre.clock }),
        ),
        deletes_for(pre.deletions, target).len() == 0 ==> deletes_for(post.deletions, target).len()
            == 1,
        forall|j: int|
            0 <= j < pre.links.len() && (#[trigger] pre.links[j]).base == pre.collections[target.0
                as int].bpv_device_hash && pre.links[j].target == target ==> exists|k: int|
                0 <= k < deleted_links_of(
                    post.links,
                    post.deletions,
                    pre.collections[target.0 as int].bpv_device_hash,
                ).len() && (#[trigger] deleted_links_of(
                    post.links,
                    post.deletions,
                    pre.collections[target.0 as int].bpv_device_hash,
                )[k]).target == target,
{
    let owner = pre.collections[target.0 as int].bpv_device_hash;
    let del = DeletionRecord { target: target, timestamp: pre.clock };
    lemma_sever_hides_target(pre.links, owner, target);
    lemma_deletes_for_push(pre.deletions, del, target);
    assert forall|j: int|
        0 <= j < pre.links.len() && (#[trigger] pre.links[j]).base == owner && pre.links[j].target
            == target implies exists|k: int|
        0 <= k < deleted_links_of(post.links, post.deletions, owner).len() && (
        #[trigger] deleted_links_of(post.links, post.deletions, owner)[k]).target == target by {
        assert(post.links[j] == sever_one(pre.links[j], owner, target));
        assert(post.links[j].base == owner && post.links[j].target == target);
        assert(deletes_for(post.deletions, target).len() > 0);
        lemma_deleted_index_shows(post.links, post.deletions, owner, j);
    }
}

/// Commits never remove records: whatever was present stays present.
pub proof fn lemma_put_content_monotone(
    cs: Seq<CollectionContent>,
    c: CollectionContent,
    x: CollectionContent,
)
    requires
        has_content(cs, x),
    ensures
        has_content(put_content(cs, c), x),
{
    let i = choose|i: int| 0 <= i < cs.len() && cs[i] == x;
    assert(put_content(cs, c)[i] == x);
}

/// Writing a batch never removes records either.
pub proof fn lemma_write_contents_monotone(
    cs: Seq<CollectionContent>,
    device: DeviceRef,
    resistor: u32,
    chunks: Seq<Seq<Measurement>>,
    x: CollectionContent,
)
    requires
        has_content(cs, x),
    ensures
        has_content(write_contents(cs, device, resistor, chunks), x),
    decreases chunks.len(),
{
    if chunks.len() > 0 {
        let c0 = chunk_content(device, resistor, chunks[0]);
        lemma_put_content_monotone(cs, c0, x);
        lemma_write_contents_monotone(
            put_content(cs, c0),
            device,
            resistor,
            chunks.drop_first(),
            x,
        );
    }
}

/// After a batch is written, every chunk of it is present as a record.
pub proof fn lemma_write_makes_present(
    cs: Seq<CollectionContent>,
    device: DeviceRef,
    resistor: u32,
    chunks: Seq<Seq<Measurement>>,
)
    ensures
        forall|k: int|
            0 <= k < chunks.len() ==> has_content(
                write_contents(cs, device, resistor, chunks),
                chunk_content(device, resistor, chunks[k]),
            ),
    decreases chunks.len(),
{
    if chunks.len() > 0 {
        let c0 = chunk_content(device, resistor, chunks[0]);
        let cs1 = put_content(cs, c0);
        assert(has_content(cs1, c0)) by {
            if has_content(cs, c0) {
                lemma_put_content_monotone(cs, c0, c0);
            } else {
                assert(cs1[cs.len() as int] == c0);
            }
        }
        lemma_write_contents_monotone(cs1, device, resistor, chunks.drop_first(), c0);
        lemma_write_makes_present(cs1, device, resistor, chunks.drop_first());
        assert forall|k: int|
            0 <= k < chunks.len() implies has_content(
            write_contents(cs, device, resistor, chunks),
            chunk_content(device, resistor, chunks[k]),
        ) by {
            if k > 0 {
                assert(chunks.drop_first()[k - 1] == chunks[k]);
            }
        }
    }
}

/// Writing a batch whose every chunk is already present commits nothing.
pub proof fn lemma_write_identity(
    cs: Seq<CollectionContent>,
    device: DeviceRef,
    resistor: u32,
    chunks: Seq<Seq<Measurement>>,
)
    requires
        forall|k: int|
            0 <= k < chunks.len() ==> has_content(cs, chunk_content(device, resistor, chunks[k])),
    ensures
        write_contents(cs, device, resistor, chunks) == cs,
    decreases chunks.len(),
{
    if chunks.len() > 0 {
        let c0 = chunk_content(device, resistor, chunks[0]);
        assert(has_content(cs, c0));
        assert(put_content(cs, c0) == cs);
        assert forall|k: int|
            0 <= k < chunks.drop_first().len() implies has_content(
            cs,
            chunk_content(device, resistor, chunks.drop_first()[k]),
        ) by {
            assert(chunks.drop_first()[k] == chunks[k + 1]);
        }
        lemma_write_identity(cs, device, resistor, chunks.drop_first());
    }
}

/// Writing the same device, resistor and measurement chunks a second time
/// settles on exactly the references of the first write and commits no new
/// record: identical content always yields the same reference.
pub proof fn lemma_write_idempotent_on_records(
    cs: Seq<CollectionContent>,
    device: DeviceRef,
    resistor: u32,
    chunks: Seq<Seq<Measurement>>,
)
    requires
        unique_contents(cs),
    ensures
        write_contents(
            write_contents(cs, device, resistor, chunks),
            device,
            resistor,
            chunks,
        ) == write_contents(cs, device, resistor, chunks),
        write_refs(write_contents(cs, device, resistor, chunks), device, resistor, chunks)
            == write_refs(cs, device, resistor, chunks),
    decreases chunks.len(),
{
    if chunks.len() > 0 {
        let c0 = chunk_content(device, resistor, chunks[0]);
        let cs1 = put_content(cs, c0);
        let s = write_contents(cs, device, resistor, chunks);
        lemma_put_content_unique(cs, c0);
        lemma_write_contents_frame(cs1, device, resistor, chunks.drop_first(), c0);
        assert(s == write_contents(cs1, device, resistor, chunks.drop_first()));
        assert(has_content(s, c0));
        assert(put_content(s, c0) == s);
        assert(put_ref(s, c0) == content_index(cs1, c0));
        assert(put_ref(s, c0) == put_ref(cs, c0));
        lemma_write_idempotent_on_records(cs1, device, resistor, chunks.drop_first());
        assert(write_refs(s, device, resistor, chunks) =~= write_refs(
            cs,
            device,
            resistor,
            chunks,
        ));
    }
}

impl MeasurementCollection {
    /// Whether two collection records hold the same content.
    pub fn same_content(&self, other: &MeasurementCollection) -> (r: bool)
        ensures
            r == (self@ == other@),
    {
        if self.bpv_device_hash.0 != other.bpv_device_hash.0 {
            return false;
        }
        if self.external_resistor_ohms != other.external_resistor_ohms {
            return false;
        }
        if self.measurements.len() != other.measurements.len() {
            return false;
        }
        let n = self.measurements.len();
        let mut i: usize = 0;
        while i < n
            invariant
                n == self.measurements@.len(),
                n == other.measurements@.len(),
                i <= n,
                forall|k: int| 0 <= k < i ==> self.measurements@[k] == other.measurements@[k],
            decreases n - i,
        {
            if self.measurements[i] != other.measurements[i] {
                return false;
            }
            i = i + 1;
        }
        proof {
            assert(self.measurements@ =~= other.measurements@);
        }
        true
    }
}

impl crate::ledger::Ledger {
    /// Commits and links every chunk from `idx` on, in order, and returns
    /// the references the chunks settled to.
    fn write_chunks_from(
        &mut self,
        device: DeviceRef,
        resistor: u32,
        chunks: &Vec<Vec<Measurement>>,
        idx: usize,
    ) -> (refs: Vec<CollectionRef>)
        requires
            old(self)@.wf(),
            device.0 < old(self)@.devices.len(),
            idx <= chunks@.len(),
        ensures
            final(self)@.wf(),
            final(self)@.collections == write_contents(
                old(self)@.collections,
                device,
                resistor,
                crate::chunk::chunk_views(chunks@).skip(idx as int),
            ),
            refs@.map_values(|r: CollectionRef| r.0 as int) == write_refs(
                old(self)@.collections,
                device,
                resistor,
                crate::chunk::chunk_views(chunks@).skip(idx as int),
            ),
            final(self)@.links == old(self)@.links + links_added(
                device,
                write_refs(
                    old(self)@.collections,
                    device,
                    resistor,
                    crate::chunk::chunk_views(chunks@).skip(idx as int),
                ),
            ),
            final(self)@.devices == old(self)@.devices,
            final(self)@.infos == old(self)@.infos,
            final(self)@.deletions == old(self)@.deletions,
            final(self)@.resistors == old(self)@.resistors,
            final(self)@.clock == old(self)@.clock,
        decreases chunks@.len() - idx,
    {
        let ghost ch = crate::chunk::chunk_views(chunks@).skip(idx as int);
        let n = chunks.len();
        if idx == n {
            let refs: Vec<CollectionRef> = Vec::new();
            proof {
                assert(ch =~= Seq::<Seq<Measurement>>::empty());
                assert(refs@.map_values(|r: CollectionRef| r.0 as int) =~= Seq::<int>::empty());
                assert(self@.links + links_added(device, write_refs(self@.collections, device, resistor, ch)) =~= self@.links);
            }
            return refs;
        }
        let chunk = &chunks[idx];
        let measurements = crate::chunk::copy_range(chunk, 0, chunk.len());
        proof {
            assert(measurements@ =~= chunks@[idx as int]@);
            assert(ch[0] == chunks@[idx as int]@);
        }
        let record = MeasurementCollection {
            bpv_device_hash: device,
            measurements,
            external_resistor_ohms: resistor,
        };
        let ghost cs0 = self@.collections;
        let ghost c0 = chunk_content(device, resistor, ch[0]);
        proof {
            assert(record@ == c0);
        }
        let cref = self.put_collection(record);
        self.push_link(device, cref);
        let ghost mid = self@;
        let rest = self.write_chunks_from(device, resistor, chunks, idx + 1);
        let mut rest = rest;
        let mut refs: Vec<CollectionRef> = Vec::new();
        refs.push(cref);
        refs.append(&mut rest);
        proof {
            let chr = crate::chunk::chunk_views(chunks@).skip(idx as int + 1);
            assert(ch.drop_first() =~= chr);
            assert(mid.collections == put_content(cs0, c0));
            assert(write_contents(cs0, device, resistor, ch) == write_contents(
                put_content(cs0, c0),
                device,
                resistor,
                ch.drop_first(),
            ));
            assert(refs@.map_values(|r: CollectionRef| r.0 as int) =~= write_refs(
                cs0,
                device,
                resistor,
                ch,
            ));
            assert(self@.links =~= old(self)@.links + links_added(
                device,
                write_refs(cs0, device, resistor, ch),
            ));
        }
        refs
    }

    /// Fetches one collection record by reference.  Deletion marks a
    /// record but never erases it, so a deleted record is still returned;
    /// an unknown reference yields an absent value, never an error.
    pub fn get_measurement_collection(
        &self,
        measurement_collection_hash: CollectionRef,
    ) -> (r: Option<&MeasurementCollection>)
        ensures
            measurement_collection_hash.0 < self@.collections.len() ==> (r matches Some(c) && c@
                == self@.collections[measurement_collection_hash.0 as int]),
            measurement_collection_hash.0 >= self@.collections.len() ==> r is None,
    {
        if measurement_collection_hash.0 < self.collections.len() {
            Some(&self.collections[measurement_collection_hash.0])
        } else {
            None
        }
    }

    /// Lists the live links from a device to its collection records, in
    /// creation order.
    pub fn get_measurement_collections_for_bpv_device(&self, bpv_device_hash: DeviceRef) -> (r:
        Vec<CollectionLink>)
        ensures
            r@ == live_links_of(self@.links, bpv_device_hash),
    {
        let mut out: Vec<CollectionLink> = Vec::new();
        let n = self.collection_links.len();
        proof {
            assert(self@.links.skip(0) =~= self@.links);
        }
        let mut i: usize = 0;
        while i < n
            invariant
                n == self@.links.len(),
                i <= n,
                live_links_of(self@.links, bpv_device_hash) == out@ + live_links_of(
                    self@.links.skip(i as int),
                    bpv_device_hash,
                ),
            decreases n - i,
        {
            let l = self.collection_links[i];
            proof {
                assert(self@.links.skip(i as int).drop_first() =~= self@.links.skip(i as int + 1));
                assert(self@.links.skip(i as int)[0] == self@.links[i as int]);
            }
            let ghost out0 = out@;
            if l.base == bpv_device_hash && !l.deleted {
                out.push(l);
                proof {
                    assert(out@ + live_links_of(self@.links.skip(i as int + 1), bpv_device_hash)
                        =~= out0 + live_links_of(self@.links.skip(i as int), bpv_device_hash));
                }
            }
            i = i + 1;
        }
        proof {
            assert(out@ + live_links_of(self@.links.skip(n as int), bpv_device_hash) =~= out@);
        }
        out
    }

    /// Collects every deletion record filed against one target, in order.
    fn deletes_for_target(&self, target: CollectionRef) -> (r: Vec<DeletionRecord>)
        ensures
            r@ == deletes_for(self@.deletions, target),
    {
        let mut out: Vec<DeletionRecord> = Vec::new();
        let n = self.deletions.len();
        proof {
            assert(self@.deletions.skip(0) =~= self@.deletions);
        }
        let mut i: usize = 0;
        while i < n
            invariant
                n == self@.deletions.len(),
                i <= n,
                deletes_for(self@.deletions, target) == out@ + deletes_for(
                    self@.deletions.skip(i as int),
                    target,
                ),
            decreases n - i,
        {
            let d = self.deletions[i];
            proof {
                assert(self@.deletions.skip(i as int).drop_first() =~= self@.deletions.skip(
                    i as int + 1,
                ));
                assert(self@.deletions.skip(i as int)[0] == self@.deletions[i as int]);
            }
            let ghost out0 = out@;
            if d.target == target {
                out.push(d);
                proof {
                    assert(out@ + deletes_for(self@.deletions.skip(i as int + 1), target) =~= out0
                        + deletes_for(self@.deletions.skip(i as int), target));
                }
            }
            i = i + 1;
        }
        proof {
            assert(out@ + deletes_for(self@.deletions.skip(n as int), target) =~= out@);
        }
        out
    }

    /// Lists every deletion record filed against a collection record; an
    /// unknown reference yields an absent value.
    pub fn get_all_deletes_for_measurement_collection(
        &self,
        original_measurement_collection_hash: CollectionRef,
    ) -> (r: Option<Vec<DeletionRecord>>)
        ensures
            original_measurement_collection_hash.0 < self@.collections.len() ==> (r matches Some(v)
                && v@ == deletes_for(self@.deletions, original_measurement_collection_hash)),
            original_measurement_collection_hash.0 >= self@.collections.len() ==> r is None,
    {
        if original_measurement_collection_hash.0 < self.collections.len() {
            Some(self.deletes_for_target(original_measurement_collection_hash))
        } else {
            None
        }
    }

    /// Returns the earliest deletion record filed against a collection
    /// record: absent when the reference is unknown or nothing deleted it.
    pub fn get_oldest_delete_for_measurement_collection(
        &self,
        original_measurement_collection_hash: CollectionRef,
    ) -> (r: Option<DeletionRecord>)
        ensures
            original_measurement_collection_hash.0 < self@.collections.len() ==> r
                == oldest_delete_of(self@.deletions, original_measurement_collection_hash),
            original_measurement_collection_hash.0 >= self@.collections.len() ==> r is None,
    {
        if original_measurement_collection_hash.0 >= self.collections.len() {
            return None;
        }
        let target = original_measurement_collection_hash;
        let n = self.deletions.len();
        proof {
            assert(self@.deletions.skip(0) =~= self@.deletions);
        }
        let mut i: usize = 0;
        while i < n
            invariant
                n == self@.deletions.len(),
                i <= n,
                target == original_measurement_collection_hash,
                original_measurement_collection_hash.0 < self@.collections.len(),
                oldest_delete_of(self@.deletions, target) == oldest_delete_of(
                    self@.deletions.skip(i as int),
                    target,
                ),
            decreases n - i,
        {
            let d = self.deletions[i];
            proof {
                assert(self@.deletions.skip(i as int).drop_first() =~= self@.deletions.skip(
                    i as int + 1,
                ));
                assert(self@.deletions.skip(i as int)[0] == self@.deletions[i as int]);
            }
            if d.target == target {
                return Some(d);
            }
            i = i + 1;
        }
        None
    }

    /// Lists, for one device, every link whose target record has at least
    /// one deletion filed against it, each paired with all those deletion
    /// records.
    pub fn get_deleted_measurement_collections_for_bpv_device(
        &self,
        bpv_device_hash: DeviceRef,
    ) -> (r: Vec<(CollectionLink, Vec<DeletionRecord>)>)
        ensures
            pairs_fst(r@) == deleted_links_of(self@.links, self@.deletions, bpv_device_hash),
            forall|k: int|
                0 <= k < r@.len() ==> (#[trigger] r@[k]).1@ == deletes_for(
                    self@.deletions,
                    r@[k].0.target,
                ),
    {
        let mut out: Vec<(CollectionLink, Vec<DeletionRecord>)> = Vec::new();
        let n = self.collection_links.len();
        proof {
            assert(self@.links.skip(0) =~= self@.links);
            assert(pairs_fst(out@) =~= Seq::<CollectionLink>::empty());
        }
        let mut i: usize = 0;
        while i < n
            invariant
                n == self@.links.len(),
                i <= n,
                deleted_links_of(self@.links, self@.deletions, bpv_device_hash) == pairs_fst(out@)
                    + deleted_links_of(
                    self@.links.skip(i as int),
                    self@.deletions,
                    bpv_device_hash,
                ),
                forall|k: int|
                    0 <= k < out@.len() ==> (#[trigger] out@[k]).1@ == deletes_for(
                        self@.deletions,
                        out@[k].0.target,
                    ),
            decreases n - i,
        {
            let l = self.collection_links[i];
            proof {
                assert(self@.links.skip(i as int).drop_first() =~= self@.links.skip(i as int + 1));
                assert(self@.links.skip(i as int)[0] == self@.links[i as int]);
            }
            let ghost out0 = out@;
            if l.base == bpv_device_hash {
                let del = self.deletes_for_target(l.target);
                if del.len() > 0 {
                    out.push((l, del));
                    proof {
                        assert(pairs_fst(out@) =~= pairs_fst(out0).push(l));
                        assert(pairs_fst(out@) + deleted_links_of(
                            self@.links.skip(i as int + 1),
                            self@.deletions,
                            bpv_device_hash,
                        ) =~= pairs_fst(out0) + deleted_links_of(
                            self@.links.skip(i as int),
                            self@.deletions,
                            bpv_device_hash,
                        ));
                    }
                }
            }
            i = i + 1;
        }
        proof {
            assert(pairs_fst(out@) + deleted_links_of(
                self@.links.skip(n as int),
                self@.deletions,
                bpv_device_hash,
            ) =~= pairs_fst(out@));
        }
        out
    }

    /// Deletes a collection record: severs every link tying its device to
    /// it and files a deletion record against it.  The record itself
    /// survives and can still be fetched.  Fails when the reference is
    /// unknown.
    pub fn delete_measurement_collection(
        &mut self,
        original_measurement_collection_hash: CollectionRef,
    ) -> (r: Result<DeletionRef, crate::ledger::LedgerError>)
        requires
            old(self)@.wf(),
            old(self)@.clock < u64::MAX,
        ensures
            final(self)@.wf(),
            final(self)@.devices == old(self)@.devices,
            final(self)@.infos == old(self)@.infos,
            final(self)@.collections == old(self)@.collections,
            final(self)@.resistors == old(self)@.resistors,
            original_measurement_collection_hash.0 >= old(self)@.collections.len() ==> r == Err::<
                DeletionRef,
                crate::ledger::LedgerError,
            >(crate::ledger::LedgerError::NotFound) && final(self)@ == old(self)@,
            original_measurement_collection_hash.0 < old(self)@.collections.len() ==> {
                let owner = old(self)@.collections[original_measurement_collection_hash.0 as int]
                    .bpv_device_hash;
                &&& r matches Ok(dref)
                &&& dref.0 as int == old(self)@.deletions.len()
                &&& final(self)@.links == severed_links(
                    old(self)@.links,
                    owner,
                    original_measurement_collection_hash,
                )
                &&& final(self)@.deletions == old(self)@.deletions.push(
                    (DeletionRecord {
                        target: original_measurement_collection_hash,
                        timestamp: old(self)@.clock,
                    }),
                )
                &&& final(self)@.clock == old(self)@.clock + 1
            },
    {
        let target = original_measurement_collection_hash;
        if target.0 >= self.collections.len() {
            return Err(crate::ledger::LedgerError::NotFound);
        }
        let owner = self.collections[target.0].bpv_device_hash;
        let ghost links0 = self@.links;
        let n = self.collection_links.len();
        let mut i: usize = 0;
        while i < n
            invariant
                old(self)@.wf(),
                self@.devices == old(self)@.devices,
                self@.infos == old(self)@.infos,
                self@.collections == old(self)@.collections,
                self@.deletions == old(self)@.deletions,
                self@.resistors == old(self)@.resistors,
                self@.clock == old(self)@.clock,
                links0 == old(self)@.links,
                target.0 < old(self)@.collections.len(),
                owner == old(self)@.collections[target.0 as int].bpv_device_hash,
                n == links0.len(),
                self@.links.len() == links0.len(),
                i <= n,
                forall|j: int| 0 <= j < i ==> self@.links[j] == sever_one(links0[j], owner, target),
                forall|j: int| i <= j < n ==> self@.links[j] == links0[j],
            decreases n - i,
        {
            let l = self.collection_links[i];
            if l.base == owner && l.target == target {
                self.collection_links.set(
                    i,
                    CollectionLink { base: l.base, target: l.target, deleted: true },
                );
            }
            i = i + 1;
        }
        proof {
            assert(self@.links =~= severed_links(links0, owner, target));
        }
        let deletion_index = self.deletions.len();
        self.deletions.push(DeletionRecord { target, timestamp: self.clock });
        self.clock = self.clock + 1;
        proof {
            assert(self@.deletions =~= old(self)@.deletions.push(
                (DeletionRecord { target: target, timestamp: old(self)@.clock }),
            ));
            crate::ledger::lemma_wf_delete(old(self)@, self@, target);
        }
        Ok(DeletionRef(deletion_index))
    }

    /// Splits the measurements into chunks of at most `capacity` elements,
    /// commits each chunk as an immutable collection record, links each
    /// record under the owning device, and returns the record references
    /// in chunk order.  Rejected when the device is not registered.
    pub fn create_measurement_collections_with_capacity(
        &mut self,
        measurement_collection: MeasurementCollection,
        capacity: usize,
    ) -> (r: Result<Vec<CollectionRef>, crate::ledger::LedgerError>)
        requires
            old(self)@.wf(),
            capacity >= 1,
        ensures
            final(self)@.wf(),
            old(self)@.valid_device(measurement_collection.bpv_device_hash) ==> {
                let chunks = crate::chunk::chunks_of(
                    measurement_collection.measurements@,
                    capacity as nat,
                );
                &&& r matches Ok(refs)
                &&& refs@.map_values(|cr: CollectionRef| cr.0 as int) == write_refs(
                    old(self)@.collections,
                    measurement_collection.bpv_device_hash,
                    measurement_collection.external_resistor_ohms,
                    chunks,
                )
                &&& final(self)@.collections == write_contents(
                    old(self)@.collections,
                    measurement_collection.bpv_device_hash,
                    measurement_collection.external_resistor_ohms,
                    chunks,
                )
                &&& final(self)@.links == old(self)@.links + links_added(
                    measurement_collection.bpv_device_hash,
                    write_refs(
                        old(self)@.collections,
                        measurement_collection.bpv_device_hash,
                        measurement_collection.external_resistor_ohms,
                        chunks,
                    ),
                )
            },
            !old(self)@.valid_device(measurement_collection.bpv_device_hash) ==> r == Err::<
                Vec<CollectionRef>,
                crate::ledger::LedgerError,
            >(crate::ledger::LedgerError::InvalidDevice) && final(self)@ == old(self)@,
            final(self)@.devices == old(self)@.devices,
            final(self)@.infos == old(self)@.infos,
            final(self)@.deletions == old(self)@.deletions,
            final(self)@.resistors == old(self)@.resistors,
            final(self)@.clock == old(self)@.clock,
    {
        if measurement_collection.bpv_device_hash.0 >= self.devices.len() {
            return Err(crate::ledger::LedgerError::InvalidDevice);
        }
        let chunks = crate::chunk::chunk_measurements(&measurement_collection.measurements, capacity);
        let refs = self.write_chunks_from(
            measurement_collection.bpv_device_hash,
            measurement_collection.external_resistor_ohms,
            &chunks,
            0,
        );
        proof {
            assert(crate::chunk::chunk_views(chunks@).skip(0) =~= crate::chunk::chunk_views(
                chunks@,
            ));
        }
        Ok(refs)
    }

    /// Splits the measurements into chunks at the derived capacity and
    /// persists them; see `create_measurement_collections_with_capacity`.
    pub fn create_measurement_collections(
        &mut self,
        measurement_collection: MeasurementCollection,
    ) -> (r: Result<Vec<CollectionRef>, crate::ledger::LedgerError>)
        requires
            old(self)@.wf(),
        ensures
            final(self)@.wf(),
            old(self)@.valid_device(measurement_collection.bpv_device_hash) ==> {
                let chunks = crate::chunk::chunks_of(
                    measurement_collection.measurements@,
                    crate::chunk::MEASUREMENT_CHUNK_CAPACITY as nat,
                );
                &&& r matches Ok(refs)
                &&& refs@.map_values(|cr: CollectionRef| cr.0 as int) == write_refs(
                    old(self)@.collections,
                    measurement_collection.bpv_device_hash,
                    measurement_collection.external_resistor_ohms,
                    chunks,
                )
                &&& final(self)@.collections == write_contents(
                    old(self)@.collections,
                    measurement_collection.bpv_device_hash,
                    measurement_collection.external_resistor_ohms,
                    chunks,
                )
                &&& final(self)@.links == old(self)@.links + links_added(
                    measurement_collection.bpv_device_hash,
                    write_refs(
                        old(self)@.collections,
                        measurement_collection.bpv_device_hash,
                        measurement_collection.external_resistor_ohms,
                        chunks,
                    ),
                )
            },
            !old(self)@.valid_device(measurement_collection.bpv_device_hash) ==> r == Err::<
                Vec<CollectionRef>,
                crate::ledger::LedgerError,
            >(crate::ledger::LedgerError::InvalidDevice) && final(self)@ == old(self)@,
            final(self)@.devices == old(self)@.devices,
            final(self)@.infos == old(self)@.infos,
            final(self)@.deletions == old(self)@.deletions,
            final(self)@.resistors == old(self)@.resistors,
            final(self)@.clock == old(self)@.clock,
    {
        self.create_measurement_collections_with_capacity(
            measurement_collection,
            crate::chunk::MEASUREMENT_CHUNK_CAPACITY,
        )
    }
}

} // verus!
