use vstd::prelude::*;

use crate::bpv_device::{latest_info_of, InfoSnap};
use crate::chunk::{chunks_of, MEASUREMENT_CHUNK_CAPACITY};
use crate::ledger::{Ledger, LedgerError, LedgerSnap};
use crate::measurement_collection::{
    links_added, live_links_of, write_contents, write_refs, CollectionContent, CollectionLink,
    DeviceRef, MeasurementCollection,
};

verus! {

/// A prior instance's record, re-keyed to the identity the same serial
/// number resolves to in this instance.
pub open spec fn localized_content(c: CollectionContent, d: DeviceRef) -> CollectionContent {
    CollectionContent {
        bpv_device_hash: d,
        measurements: c.measurements,
        external_resistor_ohms: c.external_resistor_ohms,
    }
}

/// The identity a migrated serial number resolves to once it has been
/// registered here.
pub open spec fn migrated_device_ref(s: LedgerSnap, serial: Seq<char>) -> DeviceRef {
    if s.has_device(serial) {
        DeviceRef(s.device_index(serial) as usize)
    } else {
        DeviceRef(s.devices.len() as usize)
    }
}

/// The ledger after one migrated device is registered: its serial is
/// ensured, and its most recent prior metadata, if any, is re-attached.
pub open spec fn register_migrated(
    s: LedgerSnap,
    serial: Seq<char>,
    latest: Option<InfoSnap>,
) -> LedgerSnap {
    let d = migrated_device_ref(s, serial);
    let s1 = if s.has_device(serial) {
        s
    } else {
        LedgerSnap { devices: s.devices.push(serial), ..s }
    };
    match latest {
        Option::Some(inf) => LedgerSnap {
            infos: s1.infos.push(
                InfoSnap { device: d, name: inf.name, timestamp: s1.clock },
            ),
            clock: (s1.clock + 1) as u64,
            ..s1
        },
        Option::None => s1,
    }
}

/// The ledger after one prior collection record is replayed: skipped when
/// a record with the same content already exists, otherwise re-chunked at
/// the current capacity and written through the collection writer.
pub open spec fn migrate_collection(s: LedgerSnap, d: DeviceRef, c: CollectionContent) -> LedgerSnap {
    let local = localized_content(c, d);
    if crate::measurement_collection::has_content(s.collections, local) {
        s
    } else {
        let chunks = chunks_of(local.measurements, MEASUREMENT_CHUNK_CAPACITY as nat);
        LedgerSnap {
            collections: write_contents(s.collections, d, local.external_resistor_ohms, chunks),
            links: s.links + links_added(
                d,
                write_refs(s.collections, d, local.external_resistor_ohms, chunks),
            ),
            ..s
        }
    }
}

/// The ledger after every prior collection reachable through the given
/// links has been replayed, in link order.
pub open spec fn migrate_collections(
    s: LedgerSnap,
    d: DeviceRef,
    src: LedgerSnap,
    ls: Seq<CollectionLink>,
) -> LedgerSnap
    decreases ls.len(),
{
    if ls.len() == 0 {
        s
    } else {
        migrate_collections(
            migrate_collection(s, d, src.collections[ls[0].target.0 as int]),
            d,
            src,
            ls.drop_first(),
        )
    }
}

/// The ledger after one prior device and all of its live collections have
/// been migrated.
pub open spec fn migrate_device(s: LedgerSnap, src: LedgerSnap, di: int) -> LedgerSnap {
    let serial = src.devices[di];
    let d = migrated_device_ref(s, serial);
    let s1 = register_migrated(s, serial, latest_info_of(src.infos, DeviceRef(di as usize)));
    migrate_collections(s1, d, src, live_links_of(src.links, DeviceRef(di as usize)))
}

/// The ledger after the prior devices from `di` on have been migrated in
/// registration order.
pub open spec fn migrate_devices(s: LedgerSnap, src: LedgerSnap, di: int) -> LedgerSnap
    decreases src.devices.len() - di,
{
    if di < 0 || di >= src.devices.len() {
        s
    } else {
        migrate_devices(migrate_device(s, src, di), src, di + 1)
    }
}

/// The ledger after a full migration from a prior instance.
pub open spec fn migrate_model(s: LedgerSnap, src: LedgerSnap) -> LedgerSnap {
    migrate_devices(s, src, 0)
}

/// Replaying collections touches only the record and link tables: the
/// registry, metadata, deletions and the clock stay as they were.
pub proof fn lemma_migrate_collections_frame(
    s: LedgerSnap,
    d: DeviceRef,
    src: LedgerSnap,
    ls: Seq<CollectionLink>,
)
    ensures
        migrate_collections(s, d, src, ls).clock == s.clock,
        migrate_collections(s, d, src, ls).devices == s.devices,
        migrate_collections(s, d, src, ls).infos == s.infos,
        migrate_collections(s, d, src, ls).deletions == s.deletions,
        migrate_collections(s, d, src, ls).resistors == s.resistors,
    decreases ls.len(),
{
    if ls.len() > 0 {
        lemma_migrate_collections_frame(
            migrate_collection(s, d, src.collections[ls[0].target.0 as int]),
            d,
            src,
            ls.drop_first(),
        );
    }
}

/// One ledger is a later state of another: the registry has only been
/// appended to, and every committed record is still committed.
pub open spec fn grows_to(s1: LedgerSnap, s2: LedgerSnap) -> bool {
    &&& s1.devices.is_prefix_of(s2.devices)
    &&& forall|c: CollectionContent|
        crate::measurement_collection::has_content(s1.collections, c)
            ==> #[trigger] crate::measurement_collection::has_content(s2.collections, c)
}

/// A prior record is settled here when its re-keyed content is committed,
/// or every chunk it re-chunks into at the current capacity is.
pub open spec fn link_settled(t: LedgerSnap, d: DeviceRef, c: CollectionContent) -> bool {
    ||| crate::measurement_collection::has_content(t.collections, localized_content(c, d))
    ||| forall|m: int|
        0 <= m < chunks_of(c.measurements, MEASUREMENT_CHUNK_CAPACITY as nat).len()
            ==> crate::measurement_collection::has_content(
            t.collections,
            #[trigger] crate::measurement_collection::chunk_content(
                d,
                c.external_resistor_ohms,
                chunks_of(c.measurements, MEASUREMENT_CHUNK_CAPACITY as nat)[m],
            ),
        )
}

/// The live links of one prior device.
pub open spec fn src_live(src: LedgerSnap, dj: int) -> Seq<CollectionLink> {
    live_links_of(src.links, DeviceRef(dj as usize))
}

/// The record behind the `k`-th live link of prior device `dj` is settled
/// here, under the identity its serial resolves to here.
pub open spec fn settled_for(t: LedgerSnap, src: LedgerSnap, dj: int, k: int) -> bool {
    link_settled(
        t,
        DeviceRef(crate::bpv_device::serial_index(t.devices, src.devices[dj]) as usize),
        src.collections[src_live(src, dj)[k].target.0 as int],
    )
}

/// Growing is reflexive.
pub proof fn lemma_grows_refl(s: LedgerSnap)
    ensures
        grows_to(s, s),
{
    assert(s.devices.subrange(0, s.devices.len() as int) =~= s.devices);
}

/// Growing is transitive.
pub proof fn lemma_grows_trans(a: LedgerSnap, b: LedgerSnap, c: LedgerSnap)
    requires
        grows_to(a, b),
        grows_to(b, c),
    ensures
        grows_to(a, c),
{
    assert forall|i: int| 0 <= i < a.devices.len() implies a.devices[i] == c.devices[i] by {
        assert(a.devices[i] == b.devices.subrange(0, a.devices.len() as int)[i]);
        assert(b.devices[i] == c.devices.subrange(0, b.devices.len() as int)[i]);
    }
    assert(a.devices =~= c.devices.subrange(0, a.devices.len() as int));
    assert forall|x: CollectionContent|
        crate::measurement_collection::has_content(a.collections, x)
            implies #[trigger] crate::measurement_collection::has_content(c.collections, x) by {
        assert(crate::measurement_collection::has_content(b.collections, x));
    }
}

/// Being settled persists as the ledger grows.
pub proof fn lemma_settled_monotone(t1: LedgerSnap, t2: LedgerSnap, d: DeviceRef, c: CollectionContent)
    requires
        grows_to(t1, t2),
        link_settled(t1, d, c),
    ensures
        link_settled(t2, d, c),
{
    let chunks = chunks_of(c.measurements, MEASUREMENT_CHUNK_CAPACITY as nat);
    if crate::measurement_collection::has_content(t1.collections, localized_content(c, d)) {
        assert(crate::measurement_collection::has_content(
            t2.collections,
            localized_content(c, d),
        ));
    } else {
        assert forall|m: int|
            0 <= m < chunks.len() implies crate::measurement_collection::has_content(
            t2.collections,
            #[trigger] crate::measurement_collection::chunk_content(
                d,
                c.external_resistor_ohms,
                chunks[m],
            ),
        ) by {
            assert(crate::measurement_collection::has_content(
                t1.collections,
                crate::measurement_collection::chunk_content(d, c.external_resistor_ohms, chunks[m]),
            ));
        }
    }
}

/// Registering a migrated serial only appends to the registry, commits no
/// record, and leaves the serial resolvable at a stable position.
pub proof fn lemma_register_grows(s: LedgerSnap, serial: Seq<char>, latest: Option<InfoSnap>)
    requires
        crate::bpv_device::unique_serials(s.devices),
    ensures
        grows_to(s, register_migrated(s, serial, latest)),
        crate::bpv_device::unique_serials(register_migrated(s, serial, latest).devices),
        register_migrated(s, serial, latest).collections == s.collections,
        crate::bpv_device::has_serial(register_migrated(s, serial, latest).devices, serial),
        DeviceRef(
            crate::bpv_device::serial_index(
                register_migrated(s, serial, latest).devices,
                serial,
            ) as usize,
        ) == migrated_device_ref(s, serial),
{
    let post = register_migrated(s, serial, latest);
    if s.has_device(serial) {
        lemma_grows_refl(s);
        assert(post.devices == s.devices);
        crate::bpv_device::lemma_serial_at(
            s.devices,
            serial,
            crate::bpv_device::serial_index(s.devices, serial),
        );
    } else {
        let ds = s.devices.push(serial);
        assert(post.devices == ds);
        assert(s.devices =~= ds.subrange(0, s.devices.len() as int));
        assert forall|i: int, j: int|
            0 <= i < ds.len() && 0 <= j < ds.len() && i != j implies ds[i] != ds[j] by {
            if i < s.devices.len() && j < s.devices.len() {
                assert(ds[i] == s.devices[i] && ds[j] == s.devices[j]);
            } else if i < s.devices.len() {
                assert(ds[j] == serial && ds[i] == s.devices[i]);
                assert(!crate::bpv_device::has_serial(s.devices, serial));
            } else {
                assert(ds[i] == serial && ds[j] == s.devices[j]);
                assert(!crate::bpv_device::has_serial(s.devices, serial));
            }
        }
        crate::bpv_device::lemma_serial_at(ds, serial, s.devices.len() as int);
    }
}

/// Replaying one prior record never removes records, never touches the
/// registry, and leaves the record settled.
pub proof fn lemma_migrate_collection_grows(s: LedgerSnap, d: DeviceRef, c: CollectionContent)
    ensures
        grows_to(s, migrate_collection(s, d, c)),
        migrate_collection(s, d, c).devices == s.devices,
        link_settled(migrate_collection(s, d, c), d, c),
{
    let post = migrate_collection(s, d, c);
    let local = localized_content(c, d);
    let chunks = chunks_of(c.measurements, MEASUREMENT_CHUNK_CAPACITY as nat);
    lemma_grows_refl(s);
    if crate::measurement_collection::has_content(s.collections, local) {
    } else {
        assert forall|x: CollectionContent|
            crate::measurement_collection::has_content(s.collections, x)
                implies #[trigger] crate::measurement_collection::has_content(
            post.collections,
            x,
        ) by {
            crate::measurement_collection::lemma_write_contents_monotone(
                s.collections,
                d,
                c.external_resistor_ohms,
                chunks,
                x,
            );
        }
        crate::measurement_collection::lemma_write_makes_present(
            s.collections,
            d,
            c.external_resistor_ohms,
            chunks,
        );
    }
}

/// Replaying a run of prior records never removes records, never touches
/// the registry, and leaves every one of them settled.
pub proof fn lemma_migrate_collections_grows(
    s: LedgerSnap,
    d: DeviceRef,
    src: LedgerSnap,
    ls: Seq<CollectionLink>,
)
    ensures
        grows_to(s, migrate_collections(s, d, src, ls)),
        migrate_collections(s, d, src, ls).devices == s.devices,
        forall|k: int|
            0 <= k < ls.len() ==> link_settled(
                migrate_collections(s, d, src, ls),
                d,
                src.collections[(#[trigger] ls[k]).target.0 as int],
            ),
    decreases ls.len(),
{
    if ls.len() == 0 {
        lemma_grows_refl(s);
    } else {
        let c0 = src.collections[ls[0].target.0 as int];
        let s1 = migrate_collection(s, d, c0);
        let f = migrate_collections(s, d, src, ls);
        lemma_migrate_collection_grows(s, d, c0);
        lemma_migrate_collections_grows(s1, d, src, ls.drop_first());
        lemma_grows_trans(s, s1, f);
        assert forall|k: int|
            0 <= k < ls.len() implies link_settled(
            f,
            d,
            src.collections[(#[trigger] ls[k]).target.0 as int],
        ) by {
            if k == 0 {
                lemma_settled_monotone(s1, f, d, c0);
            } else {
                assert(ls.drop_first()[k - 1] == ls[k]);
            }
        }
    }
}

/// Registering an already-registered serial changes neither the registry
/// nor the records.
pub proof fn lemma_register_replay(t: LedgerSnap, serial: Seq<char>, latest: Option<InfoSnap>)
    requires
        t.has_device(serial),
    ensures
        register_migrated(t, serial, latest).devices == t.devices,
        register_migrated(t, serial, latest).collections == t.collections,
{
}

/// Replaying a settled record commits nothing.
pub proof fn lemma_migrate_collection_replay(t: LedgerSnap, d: DeviceRef, c: CollectionContent)
    requires
        link_settled(t, d, c),
    ensures
        migrate_collection(t, d, c).collections == t.collections,
        migrate_collection(t, d, c).devices == t.devices,
{
    let local = localized_content(c, d);
    if !crate::measurement_collection::has_content(t.collections, local) {
        crate::measurement_collection::lemma_write_identity(
            t.collections,
            d,
            c.external_resistor_ohms,
            chunks_of(c.measurements, MEASUREMENT_CHUNK_CAPACITY as nat),
        );
    }
}

/// Replaying a run of settled records commits nothing.
pub proof fn lemma_migrate_collections_replay(
    t: LedgerSnap,
    d: DeviceRef,
    src: LedgerSnap,
    ls: Seq<CollectionLink>,
)
    requires
        forall|k: int|
            0 <= k < ls.len() ==> link_settled(
                t,
                d,
                src.collections[(#[trigger] ls[k]).target.0 as int],
            ),
    ensures
        migrate_collections(t, d, src, ls).collections == t.collections,
        migrate_collections(t, d, src, ls).devices == t.devices,
    decreases ls.len(),
{
    if ls.len() > 0 {
        let c0 = src.collections[ls[0].target.0 as int];
        let t1 = migrate_collection(t, d, c0);
        lemma_migrate_collection_replay(t, d, c0);
        assert forall|k: int|
            0 <= k < ls.drop_first().len() implies link_settled(
            t1,
            d,
            src.collections[(#[trigger] ls.drop_first()[k]).target.0 as int],
        ) by {
            assert(ls.drop_first()[k] == ls[k + 1]);
            assert(link_settled(t, d, src.collections[ls[k + 1].target.0 as int]));
        }
        lemma_migrate_collections_replay(t1, d, src, ls.drop_first());
    }
}

/// Running the driver over devices that are all registered here, with
/// every reachable record settled, commits no record and registers no
/// device.
pub proof fn lemma_migrate_devices_replay(t: LedgerSnap, src: LedgerSnap, di: int)
    requires
        0 <= di <= src.devices.len(),
        crate::bpv_device::unique_serials(t.devices),
        forall|dj: int|
            di <= dj < src.devices.len() ==> crate::bpv_device::has_serial(
                t.devices,
                #[trigger] src.devices[dj],
            ),
        forall|dj: int, k: int|
            di <= dj < src.devices.len() && 0 <= k < src_live(src, dj).len()
                ==> #[trigger] settled_for(t, src, dj, k),
    ensures
        migrate_devices(t, src, di).collections == t.collections,
        migrate_devices(t, src, di).devices == t.devices,
    decreases src.devices.len() - di,
{
    if di < src.devices.len() {
        let serial = src.devices[di];
        let d = migrated_device_ref(t, serial);
        let t1 = register_migrated(
            t,
            serial,
            latest_info_of(src.infos, DeviceRef(di as usize)),
        );
        lemma_register_replay(t, serial, latest_info_of(src.infos, DeviceRef(di as usize)));
        assert forall|k: int|
            0 <= k < src_live(src, di).len() implies link_settled(
            t1,
            d,
            src.collections[(#[trigger] src_live(src, di)[k]).target.0 as int],
        ) by {
            assert(settled_for(t, src, di, k));
        }
        lemma_migrate_collections_replay(t1, d, src, src_live(src, di));
        let t2 = migrate_collections(t1, d, src, src_live(src, di));
        assert(t2.devices == t.devices && t2.collections == t.collections);
        assert(t2 == migrate_device(t, src, di));
        assert forall|dj: int|
            di + 1 <= dj < src.devices.len() implies crate::bpv_device::has_serial(
            t2.devices,
            #[trigger] src.devices[dj],
        ) by {
            assert(crate::bpv_device::has_serial(t.devices, src.devices[dj]));
        }
        assert forall|dj: int, k: int|
            di + 1 <= dj < src.devices.len() && 0 <= k < src_live(src, dj).len()
                implies #[trigger] settled_for(t2, src, dj, k) by {
            assert(settled_for(t, src, dj, k));
        }
        lemma_migrate_devices_replay(t2, src, di + 1);
    }
}

/// After one full run, every prior device is registered here and every
/// reachable prior record is settled.
pub proof fn lemma_first_run_establishes(s: LedgerSnap, src: LedgerSnap, di: int)
    requires
        crate::bpv_device::unique_serials(s.devices),
        0 <= di <= src.devices.len(),
    ensures
        grows_to(s, migrate_devices(s, src, di)),
        crate::bpv_device::unique_serials(migrate_devices(s, src, di).devices),
        forall|dj: int|
            di <= dj < src.devices.len() ==> crate::bpv_device::has_serial(
                migrate_devices(s, src, di).devices,
                #[trigger] src.devices[dj],
            ),
        forall|dj: int, k: int|
            di <= dj < src.devices.len() && 0 <= k < src_live(src, dj).len()
                ==> #[trigger] settled_for(migrate_devices(s, src, di), src, dj, k),
    decreases src.devices.len() - di,
{
    if di == src.devices.len() {
        lemma_grows_refl(s);
    } else {
        let serial = src.devices[di];
        let d = migrated_device_ref(s, serial);
        let latest = latest_info_of(src.infos, DeviceRef(di as usize));
        let s1 = register_migrated(s, serial, latest);
        let s2 = migrate_collections(s1, d, src, src_live(src, di));
        let f = migrate_devices(s, src, di);
        lemma_register_grows(s, serial, latest);
        lemma_migrate_collections_grows(s1, d, src, src_live(src, di));
        assert(s2 == migrate_device(s, src, di));
        lemma_first_run_establishes(s2, src, di + 1);
        assert(f == migrate_devices(s2, src, di + 1));
        lemma_grows_trans(s, s1, s2);
        lemma_grows_trans(s, s2, f);
        crate::bpv_device::lemma_serial_index_stable(s2.devices, f.devices, serial);
        assert(crate::bpv_device::serial_index(f.devices, serial)
            == crate::bpv_device::serial_index(s1.devices, serial));
        assert(DeviceRef(crate::bpv_device::serial_index(f.devices, serial) as usize) == d);
        assert forall|dj: int|
            di <= dj < src.devices.len() implies crate::bpv_device::has_serial(
            f.devices,
            #[trigger] src.devices[dj],
        ) by {
            if dj == di {
                assert(crate::bpv_device::has_serial(f.devices, serial));
            }
        }
        assert forall|dj: int, k: int|
            di <= dj < src.devices.len() && 0 <= k < src_live(src, dj).len()
                implies #[trigger] settled_for(f, src, dj, k) by {
            if dj == di {
                assert(link_settled(s2, d, src.collections[src_live(src, di)[k].target.0 as int]));
                lemma_settled_monotone(
                    s2,
                    f,
                    d,
                    src.collections[src_live(src, di)[k].target.0 as int],
                );
            }
        }
    }
}

/// Migration is idempotent on records: a second run of the driver against
/// the same prior instance commits no collection record and registers no
/// device, however it may add further metadata links.
pub proof fn lemma_migration_idempotent(s: LedgerSnap, src: LedgerSnap)
    requires
        crate::bpv_device::unique_serials(s.devices),
    ensures
        migrate_model(migrate_model(s, src), src).collections == migrate_model(s, src).collections,
        migrate_model(migrate_model(s, src), src).devices == migrate_model(s, src).devices,
{
    lemma_first_run_establishes(s, src, 0);
    lemma_migrate_devices_replay(migrate_model(s, src), src, 0);
}

impl Ledger {
    /// Replays the prior collections reachable through `links[idx..]`
    /// under an already-registered device, skipping content that is
    /// already committed here.
    fn migrate_device_collections(
        &mut self,
        device: DeviceRef,
        old_cell: &Ledger,
        links: &Vec<CollectionLink>,
        idx: usize,
    )
        requires
            old(self)@.wf(),
            device.0 < old(self)@.devices.len(),
            idx <= links@.len(),
            forall|k: int|
                0 <= k < links@.len() ==> (#[trigger] links@[k]).target.0
                    < old_cell@.collections.len(),
        ensures
            final(self)@.wf(),
            final(self)@ == migrate_collections(
                old(self)@,
                device,
                old_cell@,
                links@.skip(idx as int),
            ),
        decreases links@.len() - idx,
    {
        if idx == links.len() {
            proof {
                assert(links@.skip(idx as int) =~= Seq::<CollectionLink>::empty());
            }
            return ;
        }
        let l = links[idx];
        let src_record = &old_cell.collections[l.target.0];
        let measurements = crate::chunk::copy_range(
            &src_record.measurements,
            0,
            src_record.measurements.len(),
        );
        let local = MeasurementCollection {
            bpv_device_hash: device,
            measurements,
            external_resistor_ohms: src_record.external_resistor_ohms,
        };
        let ghost c_src = old_cell@.collections[l.target.0 as int];
        proof {
            assert(local.measurements@ =~= c_src.measurements);
            assert(local@ == localized_content(c_src, device));
        }
        let ghost s0 = self@;
        let present = self.contains_collection(&local);
        if !present {
            let _refs = self.create_measurement_collections(local);
            proof {
                assert(self@ == migrate_collection(s0, device, c_src));
            }
        } else {
            proof {
                assert(self@ == migrate_collection(s0, device, c_src));
            }
        }
        self.migrate_device_collections(device, old_cell, links, idx + 1);
        proof {
            assert(links@.skip(idx as int).drop_first() =~= links@.skip(idx as int + 1));
            assert(links@.skip(idx as int)[0] == links@[idx as int]);
        }
    }

    /// Migrates the prior devices from `di` on: registers each serial
    /// with its most recent prior metadata, then replays its live
    /// collections.
    fn migrate_devices_from(&mut self, old_cell: &Ledger, di: usize)
        requires
            old(self)@.wf(),
            old_cell@.wf(),
            di <= old_cell@.devices.len(),
            old(self)@.clock + old_cell@.devices.len() - di <= u64::MAX,
        ensures
            final(self)@.wf(),
            final(self)@ == migrate_devices(old(self)@, old_cell@, di as int),
        decreases old_cell@.devices.len() - di,
    {
        if di == old_cell.devices.len() {
            return ;
        }
        let serial = old_cell.devices[di].arduino_serial_number.clone();
        proof {
            assert(serial@ == old_cell@.devices[di as int]);
        }
        let latest = old_cell.latest_info(DeviceRef(di));
        let ghost s0 = self@;
        let device = self.ensure_device(&serial);
        let ghost s1 = self@;
        match &latest {
            Some(inf) => {
                self.push_info(device, &inf.name);
            },
            None => {},
        }
        proof {
            assert(device == migrated_device_ref(s0, serial@));
            assert(self@ == register_migrated(
                s0,
                serial@,
                latest_info_of(old_cell@.infos, DeviceRef(di as usize)),
            ));
        }
        let links = old_cell.get_measurement_collections_for_bpv_device(DeviceRef(di));
        proof {
            crate::measurement_collection::lemma_live_links_bounds(
                old_cell@.links,
                DeviceRef(di as usize),
                old_cell@.devices.len() as int,
                old_cell@.collections.len() as int,
            );
        }
        let ghost s2 = self@;
        self.migrate_device_collections(device, old_cell, &links, 0);
        proof {
            assert(links@.skip(0) =~= links@);
            assert(self@ == migrate_device(s0, old_cell@, di as int));
            lemma_migrate_collections_frame(s2, device, old_cell@, links@);
            assert(self@.clock <= s0.clock + 1);
        }
        self.migrate_devices_from(old_cell, di + 1);
    }

    /// One-shot transfer of every device and collection from a prior
    /// instance of the ledger into this one, safe to run again: content
    /// already present is skipped, and re-registration only adds another
    /// metadata link, resolved at read time by the latest timestamp.
    pub fn migrate_from_old_cell(&mut self, old_cell: &Ledger) -> (r: Result<(), LedgerError>)
        requires
            old(self)@.wf(),
            old_cell@.wf(),
            old(self)@.clock + old_cell@.devices.len() <= u64::MAX,
        ensures
            final(self)@.wf(),
            final(self)@ == migrate_model(old(self)@, old_cell@),
            r == Ok::<(), LedgerError>(()),
    {
        self.migrate_devices_from(old_cell, 0);
        Ok(())
    }
}

} // verus!
