use vstd::prelude::*;

use crate::bpv_device::{DeviceRecord, InfoLink, InfoSnap};
use crate::external_resistors::ResistorLink;
use crate::measurement_collection::{
    CollectionContent, CollectionLink, CollectionRef, DeletionRecord, DeviceRef,
    MeasurementCollection,
};

verus! {

/// How an operation against the ledger fails.  A missing reference is
/// reported apart from a policy rejection, and lookups that may
/// legitimately find nothing return an absent value instead of either.
#[derive(Clone, Copy, PartialEq, Eq, Structural, Debug)]
pub enum LedgerError {
    /// The given reference names no committed record.
    NotFound,
    /// The referenced device is not registered, so committing the record
    /// would fail validation.
    InvalidDevice,
}

/// The append-only store underneath all operations: content-addressed
/// collection records, a device registry keyed by serial number, and edge
/// tables indexing collections, metadata and resistor values per device.
pub struct Ledger {
    pub devices: Vec<DeviceRecord>,
    pub info_links: Vec<InfoLink>,
    pub collections: Vec<MeasurementCollection>,
    pub collection_links: Vec<CollectionLink>,
    pub deletions: Vec<DeletionRecord>,
    pub resistor_links: Vec<ResistorLink>,
    pub clock: u64,
}

/// Mathematical content of the whole ledger.
pub ghost struct LedgerSnap {
    pub devices: Seq<Seq<char>>,
    pub infos: Seq<InfoSnap>,
    pub collections: Seq<CollectionContent>,
    pub links: Seq<CollectionLink>,
    pub deletions: Seq<DeletionRecord>,
    pub resistors: Seq<ResistorLink>,
    pub clock: u64,
}

impl View for Ledger {
    type V = LedgerSnap;

    open spec fn view(&self) -> LedgerSnap {
        LedgerSnap {
            devices: self.devices@.map_values(|d: DeviceRecord| d@),
            infos: self.info_links@.map_values(|l: InfoLink| l@),
            collections: self.collections@.map_values(|c: MeasurementCollection| c@),
            links: self.collection_links@,
            deletions: self.deletions@,
            resistors: self.resistor_links@,
            clock: self.clock,
        }
    }
}

impl LedgerSnap {
    /// A device serial is registered.
    pub open spec fn has_device(self, serial: Seq<char>) -> bool {
        crate::bpv_device::has_serial(self.devices, serial)
    }

    /// The identity a registered serial resolves to.
    pub open spec fn device_index(self, serial: Seq<char>) -> int {
        crate::bpv_device::serial_index(self.devices, serial)
    }

    /// A device identity names a registered device.
    pub open spec fn valid_device(self, d: DeviceRef) -> bool {
        d.0 < self.devices.len()
    }

    /// Every reference stored anywhere resolves, serials are unique keys,
    /// record contents are unique (content addressing), and timestamps
    /// stay below the clock, strictly increasing along each table.
    pub open spec fn wf(self) -> bool {
        &&& forall|i: int|
            0 <= i < self.links.len() ==> (#[trigger] self.links[i]).base.0 < self.devices.len()
                && self.links[i].target.0 < self.collections.len()
        &&& forall|i: int|
            0 <= i < self.deletions.len() ==> (#[trigger] self.deletions[i]).target.0
                < self.collections.len()
        &&& forall|i: int|
            0 <= i < self.collections.len() ==> (#[trigger] self.collections[i]).bpv_device_hash.0
                < self.devices.len()
        &&& forall|i: int|
            0 <= i < self.infos.len() ==> (#[trigger] self.infos[i]).device.0 < self.devices.len()
        &&& forall|i: int|
            0 <= i < self.resistors.len() ==> (#[trigger] self.resistors[i]).device.0
                < self.devices.len()
        &&& crate::bpv_device::unique_serials(self.devices)
        &&& crate::measurement_collection::unique_contents(self.collections)
        &&& forall|i: int|
            0 <= i < self.infos.len() ==> (#[trigger] self.infos[i]).timestamp < self.clock
        &&& forall|i: int|
            0 <= i < self.deletions.len() ==> (#[trigger] self.deletions[i]).timestamp < self.clock
        &&& forall|i: int, j: int|
            0 <= i < j < self.infos.len() ==> (#[trigger] self.infos[i]).timestamp < (
            #[trigger] self.infos[j]).timestamp
        &&& forall|i: int, j: int|
            0 <= i < j < self.deletions.len() ==> (#[trigger] self.deletions[i]).timestamp < (
            #[trigger] self.deletions[j]).timestamp
    }
}

/// Appending a link whose ends resolve preserves well-formedness.
pub proof fn lemma_wf_link_push(pre: LedgerSnap, post: LedgerSnap, l: CollectionLink)
    requires
        pre.wf(),
        l.base.0 < pre.devices.len(),
        l.target.0 < pre.collections.len(),
        post.devices == pre.devices,
        post.infos == pre.infos,
        post.collections == pre.collections,
        post.links == pre.links.push(l),
        post.deletions == pre.deletions,
        post.resistors == pre.resistors,
        post.clock == pre.clock,
    ensures
        post.wf(),
{
    assert forall|i: int|
        0 <= i < post.links.len() implies (#[trigger] post.links[i]).base.0 < post.devices.len()
        && post.links[i].target.0 < post.collections.len() by {
        if i < pre.links.len() {
            assert(post.links[i] == pre.links[i]);
        } else {
            assert(post.links[i] == l);
        }
    }
}

/// Committing a fresh record whose device resolves preserves
/// well-formedness.
pub proof fn lemma_wf_record_push(pre: LedgerSnap, post: LedgerSnap, c: CollectionContent)
    requires
        pre.wf(),
        c.bpv_device_hash.0 < pre.devices.len(),
        !crate::measurement_collection::has_content(pre.collections, c),
        post.devices == pre.devices,
        post.infos == pre.infos,
        post.collections == pre.collections.push(c),
        post.links == pre.links,
        post.deletions == pre.deletions,
        post.resistors == pre.resistors,
        post.clock == pre.clock,
    ensures
        post.wf(),
{
    assert forall|i: int|
        0 <= i < post.links.len() implies (#[trigger] post.links[i]).base.0 < post.devices.len()
        && post.links[i].target.0 < post.collections.len() by {
        assert(post.links[i] == pre.links[i]);
    }
    assert forall|i: int|
        0 <= i < post.deletions.len() implies (#[trigger] post.deletions[i]).target.0
        < post.collections.len() by {
        assert(post.deletions[i] == pre.deletions[i]);
    }
    assert forall|i: int|
        0 <= i < post.collections.len() implies (#[trigger] post.collections[i]).bpv_device_hash.0
        < post.devices.len() by {
        if i < pre.collections.len() {
            assert(post.collections[i] == pre.collections[i]);
        } else {
            assert(post.collections[i] == c);
        }
    }
    crate::measurement_collection::lemma_put_content_unique(pre.collections, c);
    assert(crate::measurement_collection::put_content(pre.collections, c) == pre.collections.push(
        c,
    ));
}

/// Severing the links of a deleted record and filing the deletion record
/// preserves well-formedness.
pub proof fn lemma_wf_delete(pre: LedgerSnap, post: LedgerSnap, target: CollectionRef)
    requires
        pre.wf(),
        pre.clock < u64::MAX,
        target.0 < pre.collections.len(),
        post.devices == pre.devices,
        post.infos == pre.infos,
        post.collections == pre.collections,
        post.links == crate::measurement_collection::severed_links(
            pre.links,
            pre.collections[target.0 as int].bpv_device_hash,
            target,
        ),
        post.deletions == pre.deletions.push(
            (DeletionRecord { target: target, timestamp: pre.clock }),
        ),
        post.resistors == pre.resistors,
        post.clock == pre.clock + 1,
    ensures
        post.wf(),
{
    let owner = pre.collections[target.0 as int].bpv_device_hash;
    assert forall|i: int|
        0 <= i < post.links.len() implies (#[trigger] post.links[i]).base.0 < post.devices.len()
        && post.links[i].target.0 < post.collections.len() by {
        assert(post.links[i] == crate::measurement_collection::sever_one(
            pre.links[i],
            owner,
            target,
        ));
        assert(pre.links[i].base.0 < pre.devices.len());
    }
    assert forall|i: int|
        0 <= i < post.deletions.len() implies (#[trigger] post.deletions[i]).target.0
        < post.collections.len() by {
        if i < pre.deletions.len() {
            assert(post.deletions[i] == pre.deletions[i]);
        }
    }
    assert forall|i: int|
        0 <= i < post.deletions.len() implies (#[trigger] post.deletions[i]).timestamp
        < post.clock by {
        if i < pre.deletions.len() {
            assert(post.deletions[i] == pre.deletions[i]);
        }
    }
    assert forall|i: int, j: int|
        0 <= i < j < post.deletions.len() implies (#[trigger] post.deletions[i]).timestamp < (
    #[trigger] post.deletions[j]).timestamp by {
        assert(post.deletions[i] == pre.deletions[i]);
        if j < pre.deletions.len() {
            assert(post.deletions[j] == pre.deletions[j]);
        }
    }
    assert forall|i: int|
        0 <= i < post.infos.len() implies (#[trigger] post.infos[i]).timestamp < post.clock by {
        assert(post.infos[i] == pre.infos[i]);
    }
}

impl Ledger {
    /// A fresh, empty ledger.
    pub fn new() -> (l: Ledger)
        ensures
            l@.wf(),
            l@.devices.len() == 0,
            l@.infos.len() == 0,
            l@.collections.len() == 0,
            l@.links.len() == 0,
            l@.deletions.len() == 0,
            l@.resistors.len() == 0,
            l@.clock == 0,
    {
        Ledger {
            devices: Vec::new(),
            info_links: Vec::new(),
            collections: Vec::new(),
            collection_links: Vec::new(),
            deletions: Vec::new(),
            resistor_links: Vec::new(),
            clock: 0,
        }
    }

    /// Looks a serial number up in the device table.
    pub(crate) fn find_device(&self, serial: &String) -> (r: Option<usize>)
        requires
            self@.wf(),
        ensures
            match r {
                Some(i) => self@.has_device(serial@) && i == self@.device_index(serial@) && i
                    < self@.devices.len(),
                None => !self@.has_device(serial@),
            },
    {
        let n = self.devices.len();
        let mut i: usize = 0;
        while i < n
            invariant
                self@.wf(),
                n == self@.devices.len(),
                i <= n,
                forall|j: int| 0 <= j < i ==> self@.devices[j] != serial@,
            decreases n - i,
        {
            if self.devices[i].arduino_serial_number == *serial {
                proof {
                    assert(self@.devices[i as int] == serial@);
                    assert(self@.has_device(serial@));
                    let w = self@.device_index(serial@);
                    assert(0 <= w < self@.devices.len() && self@.devices[w] == serial@);
                    assert(w == i);
                }
                return Some(i);
            }
            i = i + 1;
        }
        None
    }

    /// Commits a collection record, or finds the record that already holds
    /// this content: identical content always settles to one reference.
    pub(crate) fn put_collection(&mut self, record: MeasurementCollection) -> (r: CollectionRef)
        requires
            old(self)@.wf(),
            record.bpv_device_hash.0 < old(self)@.devices.len(),
        ensures
            final(self)@.wf(),
            final(self)@.collections == crate::measurement_collection::put_content(
                old(self)@.collections,
                record@,
            ),
            r.0 as int == crate::measurement_collection::put_ref(old(self)@.collections, record@),
            r.0 < final(self)@.collections.len(),
            final(self)@.collections[r.0 as int] == record@,
            final(self)@.devices == old(self)@.devices,
            final(self)@.infos == old(self)@.infos,
            final(self)@.links == old(self)@.links,
            final(self)@.deletions == old(self)@.deletions,
            final(self)@.resistors == old(self)@.resistors,
            final(self)@.clock == old(self)@.clock,
    {
        let n = self.collections.len();
        let mut i: usize = 0;
        while i < n
            invariant
                self@.wf(),
                n == self@.collections.len(),
                i <= n,
                forall|j: int| 0 <= j < i ==> self@.collections[j] != record@,
            decreases n - i,
        {
            if self.collections[i].same_content(&record) {
                proof {
                    assert(self@.collections[i as int] == record@);
                    crate::measurement_collection::lemma_index_of_content(
                        self@.collections,
                        record@,
                        i as int,
                    );
                }
                return CollectionRef(i);
            }
            i = i + 1;
        }
        proof {
            assert(!crate::measurement_collection::has_content(self@.collections, record@));
        }
        self.collections.push(record);
        proof {
            assert(self@.collections =~= old(self)@.collections.push(record@));
            lemma_wf_record_push(old(self)@, self@, record@);
        }
        CollectionRef(n)
    }

    /// Whether some committed record already holds this content.
    pub fn contains_collection(&self, record: &MeasurementCollection) -> (b: bool)
        requires
            self@.wf(),
        ensures
            b == crate::measurement_collection::has_content(self@.collections, record@),
    {
        let n = self.collections.len();
        let mut i: usize = 0;
        while i < n
            invariant
                n == self@.collections.len(),
                i <= n,
                forall|j: int| 0 <= j < i ==> self@.collections[j] != record@,
            decreases n - i,
        {
            if self.collections[i].same_content(record) {
                proof {
                    assert(self@.collections[i as int] == record@);
                }
                return true;
            }
            i = i + 1;
        }
        false
    }

    /// Appends one device-to-collection link; links are append-only and
    /// never deduplicated.
    pub(crate) fn push_link(&mut self, device: DeviceRef, target: CollectionRef)
        requires
            old(self)@.wf(),
            device.0 < old(self)@.devices.len(),
            target.0 < old(self)@.collections.len(),
        ensures
            final(self)@.wf(),
            final(self)@.links == old(self)@.links.push(
                (CollectionLink { base: device, target: target, deleted: false }),
            ),
            final(self)@.devices == old(self)@.devices,
            final(self)@.infos == old(self)@.infos,
            final(self)@.collections == old(self)@.collections,
            final(self)@.deletions == old(self)@.deletions,
            final(self)@.resistors == old(self)@.resistors,
            final(self)@.clock == old(self)@.clock,
    {
        self.collection_links.push(CollectionLink { base: device, target, deleted: false });
        proof {
            lemma_wf_link_push(
                old(self)@,
                self@,
                CollectionLink { base: device, target: target, deleted: false },
            );
        }
    }
}

} // verus!
