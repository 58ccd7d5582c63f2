use vstd::prelude::*;

use crate::measurement_collection::DeviceRef;

verus! {

/// Registration record anchoring one device: its identity is its position
/// in the ledger's device table, keyed by the external serial number.
#[derive(Clone, Debug)]
pub struct DeviceRecord {
    pub arduino_serial_number: String,
}

impl View for DeviceRecord {
    type V = Seq<char>;

    open spec fn view(&self) -> Seq<char> {
        self.arduino_serial_number@
    }
}

/// Display metadata for a device, attached through an append-only link;
/// the entry with the latest timestamp wins at read time.
#[derive(Clone, Debug)]
pub struct BpvDeviceInfo {
    pub name: String,
}

/// Input of a metadata upsert: the device's serial number plus the
/// metadata to attach.
#[derive(Clone, Debug)]
pub struct SetBpvDeviceInfoInput {
    pub arduino_serial_number: String,
    pub info: BpvDeviceInfo,
}

/// One committed metadata link: device identity, display name, and the
/// ledger time at which it was attached.
#[derive(Clone, Debug)]
pub struct InfoLink {
    pub device: DeviceRef,
    pub name: String,
    pub timestamp: u64,
}

/// Mathematical content of a metadata link.
pub ghost struct InfoSnap {
    pub device: DeviceRef,
    pub name: Seq<char>,
    pub timestamp: u64,
}

impl View for InfoLink {
    type V = InfoSnap;

    open spec fn view(&self) -> InfoSnap {
        InfoSnap { device: self.device, name: self.name@, timestamp: self.timestamp }
    }
}

impl InfoLink {
    /// A copy of this metadata link.
    pub fn duplicate(&self) -> (r: InfoLink)
        ensures
            r@ == self@,
    {
        InfoLink { device: self.device, name: self.name.clone(), timestamp: self.timestamp }
    }
}

/// No two registered devices share a serial number: the registry is a
/// deterministic key-to-identity map.
pub open spec fn unique_serials(ds: Seq<Seq<char>>) -> bool {
    forall|i: int, j: int|
        0 <= i < ds.len() && 0 <= j < ds.len() && i != j ==> ds[i] != ds[j]
}

/// Some registered device carries this serial number.
pub open spec fn has_serial(ds: Seq<Seq<char>>, serial: Seq<char>) -> bool {
    exists|i: int| 0 <= i < ds.len() && ds[i] == serial
}

/// The position of the device registered under this serial number.
pub open spec fn serial_index(ds: Seq<Seq<char>>, serial: Seq<char>) -> int {
    choose|i: int| 0 <= i < ds.len() && ds[i] == serial
}

/// In a unique registry, the position a serial sits at identifies it.
pub proof fn lemma_serial_at(ds: Seq<Seq<char>>, serial: Seq<char>, i: int)
    requires
        unique_serials(ds),
        0 <= i < ds.len(),
        ds[i] == serial,
    ensures
        has_serial(ds, serial),
        serial_index(ds, serial) == i,
{
    assert(has_serial(ds, serial));
    let w = serial_index(ds, serial);
    assert(0 <= w < ds.len() && ds[w] == serial);
}

/// A registry only ever grows by appending, so a registered serial keeps
/// its position and identity.
pub proof fn lemma_serial_index_stable(ds1: Seq<Seq<char>>, ds2: Seq<Seq<char>>, serial: Seq<char>)
    requires
        unique_serials(ds1),
        unique_serials(ds2),
        ds1.is_prefix_of(ds2),
        has_serial(ds1, serial),
    ensures
        has_serial(ds2, serial),
        serial_index(ds2, serial) == serial_index(ds1, serial),
{
    let i = serial_index(ds1, serial);
    assert(0 <= i < ds1.len() && ds1[i] == serial);
    assert(ds2.subrange(0, ds1.len() as int) == ds1);
    assert(ds2[i] == ds2.subrange(0, ds1.len() as int)[i]);
    lemma_serial_at(ds2, serial, i);
}

/// The mathematical contents of a list of metadata links.
pub open spec fn info_views(ls: Seq<InfoLink>) -> Seq<InfoSnap> {
    ls.map_values(|l: InfoLink| l@)
}

/// The mathematical contents of a list of serial numbers.
pub open spec fn serial_views(ss: Seq<String>) -> Seq<Seq<char>> {
    ss.map_values(|s: String| s@)
}

/// The metadata links attached to one device, in creation order.
pub open spec fn infos_for(infos: Seq<InfoSnap>, d: DeviceRef) -> Seq<InfoSnap>
    decreases infos.len(),
{
    if infos.len() == 0 {
        Seq::empty()
    } else if infos[0].device == d {
        seq![infos[0]] + infos_for(infos.drop_first(), d)
    } else {
        infos_for(infos.drop_first(), d)
    }
}

/// The metadata link that wins at read time: the one attached to this
/// device most recently.
pub open spec fn latest_info_of(infos: Seq<InfoSnap>, d: DeviceRef) -> Option<InfoSnap>
    decreases infos.len(),
{
    if infos.len() == 0 {
        Option::None
    } else if infos.last().device == d {
        Option::Some(infos.last())
    } else {
        latest_info_of(infos.drop_last(), d)
    }
}

/// In a well-formed ledger, the position a serial sits at identifies it.
pub proof fn lemma_device_at(s: crate::ledger::LedgerSnap, serial: Seq<char>, i: int)
    requires
        s.wf(),
        0 <= i < s.devices.len(),
        s.devices[i] == serial,
    ensures
        s.has_device(serial),
        s.device_index(serial) == i,
{
    assert(s.has_device(serial));
    let w = s.device_index(serial);
    assert(0 <= w < s.devices.len() && s.devices[w] == serial);
}

/// Registering a new serial preserves well-formedness.
pub proof fn lemma_wf_device_push(
    pre: crate::ledger::LedgerSnap,
    post: crate::ledger::LedgerSnap,
    serial: Seq<char>,
)
    requires
        pre.wf(),
        !pre.has_device(serial),
        post.devices == pre.devices.push(serial),
        post.infos == pre.infos,
        post.collections == pre.collections,
        post.links == pre.links,
        post.deletions == pre.deletions,
        post.resistors == pre.resistors,
        post.clock == pre.clock,
    ensures
        post.wf(),
{
    assert forall|i: int|
        0 <= i < post.links.len() implies (#[trigger] post.links[i]).base.0 < post.devices.len()
        && post.links[i].target.0 < post.collections.len() by {
        assert(post.links[i] == pre.links[i]);
    }
    assert forall|i: int|
        0 <= i < post.deletions.len() implies (#[trigger] post.deletions[i]).target.0
        < post.collections.len() by {
        assert(post.deletions[i] == pre.deletions[i]);
    }
    assert forall|i: int|
        0 <= i < post.collections.len() implies (#[trigger] post.collections[i]).bpv_device_hash.0
        < post.devices.len() by {
        assert(post.collections[i] == pre.collections[i]);
    }
    assert forall|i: int|
        0 <= i < post.infos.len() implies (#[trigger] post.infos[i]).device.0
        < post.devices.len() by {
        assert(post.infos[i] == pre.infos[i]);
    }
    assert forall|i: int|
        0 <= i < post.resistors.len() implies (#[trigger] post.resistors[i]).device.0
        < post.devices.len() by {
        assert(post.resistors[i] == pre.resistors[i]);
    }
    assert forall|i: int, j: int|
        0 <= i < post.devices.len() && 0 <= j < post.devices.len() && i != j implies
        #[trigger] post.devices[i] != #[trigger] post.devices[j] by {
        if i < pre.devices.len() && j < pre.devices.len() {
            assert(post.devices[i] == pre.devices[i] && post.devices[j] == pre.devices[j]);
        } else if i < pre.devices.len() {
            assert(post.devices[j] == serial && post.devices[i] == pre.devices[i]);
        } else {
            assert(post.devices[i] == serial && post.devices[j] == pre.devices[j]);
        }
    }
}

/// Attaching a metadata link stamped with the current clock preserves
/// well-formedness.
pub proof fn lemma_wf_info_push(
    pre: crate::ledger::LedgerSnap,
    post: crate::ledger::LedgerSnap,
    inf: InfoSnap,
)
    requires
        pre.wf(),
        pre.clock < u64::MAX,
        inf.device.0 < pre.devices.len(),
        inf.timestamp == pre.clock,
        post.devices == pre.devices,
        post.infos == pre.infos.push(inf),
        post.collections == pre.collections,
        post.links == pre.links,
        post.deletions == pre.deletions,
        post.resistors == pre.resistors,
        post.clock == pre.clock + 1,
    ensures
        post.wf(),
{
    assert forall|i: int|
        0 <= i < post.infos.len() implies (#[trigger] post.infos[i]).device.0
        < post.devices.len() by {
        if i < pre.infos.len() {
            assert(post.infos[i] == pre.infos[i]);
        }
    }
    assert forall|i: int|
        0 <= i < post.infos.len() implies (#[trigger] post.infos[i]).timestamp < post.clock by {
        if i < pre.infos.len() {
            assert(post.infos[i] == pre.infos[i]);
        }
    }
    assert forall|i: int, j: int|
        0 <= i < j < post.infos.len() implies (#[trigger] post.infos[i]).timestamp < (
    #[trigger] post.infos[j]).timestamp by {
        assert(post.infos[i] == pre.infos[i]);
        if j < pre.infos.len() {
            assert(post.infos[j] == pre.infos[j]);
        }
    }
    assert forall|i: int|
        0 <= i < post.deletions.len() implies (#[trigger] post.deletions[i]).timestamp
        < post.clock by {
        assert(post.deletions[i] == pre.deletions[i]);
    }
}

impl crate::ledger::Ledger {
    /// Registers a serial number if it is new, and returns the identity
    /// it resolves to either way.
    pub(crate) fn ensure_device(&mut self, serial: &String) -> (d: DeviceRef)
        requires
            old(self)@.wf(),
        ensures
            final(self)@.wf(),
            final(self)@.infos == old(self)@.infos,
            final(self)@.collections == old(self)@.collections,
            final(self)@.links == old(self)@.links,
            final(self)@.deletions == old(self)@.deletions,
            final(self)@.resistors == old(self)@.resistors,
            final(self)@.clock == old(self)@.clock,
            old(self)@.has_device(serial@) ==> final(self)@.devices == old(self)@.devices && d.0
                as int == old(self)@.device_index(serial@),
            !old(self)@.has_device(serial@) ==> final(self)@.devices == old(self)@.devices.push(
                serial@,
            ) && d.0 as int == old(self)@.devices.len(),
            d.0 < final(self)@.devices.len(),
            final(self)@.devices[d.0 as int] == serial@,
            final(self)@.has_device(serial@),
            final(self)@.device_index(serial@) == d.0 as int,
    {
        match self.find_device(serial) {
            Some(i) => {
                proof {
                    lemma_device_at(self@, serial@, i as int);
                }
                DeviceRef(i)
            },
            None => {
                let idx = self.devices.len();
                self.devices.push(DeviceRecord { arduino_serial_number: serial.clone() });
                proof {
                    assert(self@.devices =~= old(self)@.devices.push(serial@));
                    lemma_wf_device_push(old(self)@, self@, serial@);
                    lemma_device_at(self@, serial@, idx as int);
                }
                DeviceRef(idx)
            },
        }
    }

    /// Attaches one metadata link to a registered device, stamped with
    /// the current ledger time.
    pub(crate) fn push_info(&mut self, device: DeviceRef, name: &String)
        requires
            old(self)@.wf(),
            device.0 < old(self)@.devices.len(),
            old(self)@.clock < u64::MAX,
        ensures
            final(self)@.wf(),
            final(self)@.devices == old(self)@.devices,
            final(self)@.infos == old(self)@.infos.push(
                (InfoSnap { device: device, name: name@, timestamp: old(self)@.clock }),
            ),
            final(self)@.collections == old(self)@.collections,
            final(self)@.links == old(self)@.links,
            final(self)@.deletions == old(self)@.deletions,
            final(self)@.resistors == old(self)@.resistors,
            final(self)@.clock == old(self)@.clock + 1,
    {
        self.info_links.push(
            InfoLink { device, name: name.clone(), timestamp: self.clock },
        );
        self.clock = self.clock + 1;
        proof {
            assert(self@.infos =~= old(self)@.infos.push(
                (InfoSnap { device: device, name: name@, timestamp: old(self)@.clock }),
            ));
            lemma_wf_info_push(
                old(self)@,
                self@,
                InfoSnap { device: device, name: name@, timestamp: old(self)@.clock },
            );
        }
    }

    /// Resolves a serial number to the device identity it is registered
    /// under; absent when the serial was never registered.  Resolution
    /// reads the registry and creates nothing.
    pub fn bpv_device_hash(&self, arduino_serial_number: String) -> (r: Option<DeviceRef>)
        requires
            self@.wf(),
        ensures
            match r {
                Some(d) => self@.has_device(arduino_serial_number@) && d.0 as int
                    == self@.device_index(arduino_serial_number@) && d.0 < self@.devices.len(),
                None => !self@.has_device(arduino_serial_number@),
            },
    {
        match self.find_device(&arduino_serial_number) {
            Some(i) => Some(DeviceRef(i)),
            None => None,
        }
    }

    /// Registers the device under its serial number if needed, then
    /// attaches its display metadata: an append-only upsert, resolved at
    /// read time by the latest timestamp.
    pub fn set_bpv_device_info(&mut self, input: SetBpvDeviceInfoInput)
        requires
            old(self)@.wf(),
            old(self)@.clock < u64::MAX,
        ensures
            final(self)@.wf(),
            final(self)@.collections == old(self)@.collections,
            final(self)@.links == old(self)@.links,
            final(self)@.deletions == old(self)@.deletions,
            final(self)@.resistors == old(self)@.resistors,
            final(self)@.clock == old(self)@.clock + 1,
            final(self)@.has_device(input.arduino_serial_number@),
            old(self)@.has_device(input.arduino_serial_number@) ==> final(self)@.devices == old(
                self,
            )@.devices && final(self)@.infos == old(self)@.infos.push(
                (InfoSnap {
                    device: DeviceRef(
                        old(self)@.device_index(input.arduino_serial_number@) as usize,
                    ),
                    name: input.info.name@,
                    timestamp: old(self)@.clock,
                }),
            ),
            !old(self)@.has_device(input.arduino_serial_number@) ==> final(self)@.devices == old(
                self,
            )@.devices.push(input.arduino_serial_number@) && final(self)@.infos == old(
                self,
            )@.infos.push(
                (InfoSnap {
                    device: DeviceRef(old(self)@.devices.len() as usize),
                    name: input.info.name@,
                    timestamp: old(self)@.clock,
                }),
            ),
    {
        let device = self.ensure_device(&input.arduino_serial_number);
        self.push_info(device, &input.info.name);
    }

    /// Lists every metadata link attached to the device registered under
    /// this serial number, in creation order; empty when the serial was
    /// never registered.
    pub fn get_bpv_device_info(&self, arduino_serial_number: String) -> (r: Vec<InfoLink>)
        requires
            self@.wf(),
        ensures
            self@.has_device(arduino_serial_number@) ==> info_views(r@) == infos_for(
                self@.infos,
                DeviceRef(self@.device_index(arduino_serial_number@) as usize),
            ),
            !self@.has_device(arduino_serial_number@) ==> r@.len() == 0,
    {
        let mut out: Vec<InfoLink> = Vec::new();
        let device = match self.find_device(&arduino_serial_number) {
            Some(i) => DeviceRef(i),
            None => {
                return out;
            },
        };
        let n = self.info_links.len();
        proof {
            assert(self@.infos.skip(0) =~= self@.infos);
            assert(info_views(out@) =~= Seq::<InfoSnap>::empty());
        }
        let mut i: usize = 0;
        while i < n
            invariant
                n == self@.infos.len(),
                i <= n,
                infos_for(self@.infos, device) == info_views(out@) + infos_for(
                    self@.infos.skip(i as int),
                    device,
                ),
            decreases n - i,
        {
            let l = &self.info_links[i];
            proof {
                assert(self@.infos.skip(i as int).drop_first() =~= self@.infos.skip(i as int + 1));
                assert(self@.infos.skip(i as int)[0] == self@.infos[i as int]);
            }
            let ghost out0 = out@;
            if l.device == device {
                out.push(l.duplicate());
                proof {
                    assert(info_views(out@) =~= info_views(out0).push(self@.infos[i as int]));
                    assert(info_views(out@) + infos_for(self@.infos.skip(i as int + 1), device)
                        =~= info_views(out0) + infos_for(self@.infos.skip(i as int), device));
                }
            }
            i = i + 1;
        }
        proof {
            assert(info_views(out@) + infos_for(self@.infos.skip(n as int), device) =~= info_views(
                out@,
            ));
        }
        out
    }

    /// The metadata link attached to this device most recently: the one
    /// whose timestamp wins at read time.
    pub fn latest_info(&self, device: DeviceRef) -> (r: Option<InfoLink>)
        ensures
            match r {
                Some(l) => latest_info_of(self@.infos, device) == Some(l@),
                None => latest_info_of(self@.infos, device) is None,
            },
    {
        let mut i: usize = self.info_links.len();
        proof {
            assert(self@.infos.take(i as int) =~= self@.infos);
        }
        while i > 0
            invariant
                i <= self@.infos.len(),
                latest_info_of(self@.infos, device) == latest_info_of(
                    self@.infos.take(i as int),
                    device,
                ),
            decreases i,
        {
            let l = &self.info_links[i - 1];
            proof {
                assert(self@.infos.take(i as int).drop_last() =~= self@.infos.take(i as int - 1));
                assert(self@.infos.take(i as int).last() == self@.infos[i as int - 1]);
            }
            if l.device == device {
                return Some(l.duplicate());
            }
            i = i - 1;
        }
        None
    }

    /// Lists the serial numbers of every registered device, in
    /// registration order.
    pub fn get_all_bpv_devices(&self) -> (r: Vec<String>)
        ensures
            serial_views(r@) == self@.devices,
    {
        let mut out: Vec<String> = Vec::new();
        let n = self.devices.len();
        proof {
            assert(serial_views(out@) =~= self@.devices.take(0));
        }
        let mut i: usize = 0;
        while i < n
            invariant
                n == self@.devices.len(),
                i <= n,
                serial_views(out@) == self@.devices.take(i as int),
            decreases n - i,
        {
            let ghost out0 = out@;
            let s = self.devices[i].arduino_serial_number.clone();
            let ghost sv = s@;
            proof {
                assert(sv == self@.devices[i as int]);
            }
            out.push(s);
            i = i + 1;
            proof {
                assert(out@ == out0.push(out@.last()));
                assert(out@.last()@ == sv);
                assert(serial_views(out0) == self@.devices.take(i - 1));
                assert(serial_views(out0).len() == i - 1);
                assert(out0.len() == i - 1);
                assert(out@.len() == i as int);
                assert(serial_views(out@).len() == i as int);
                assert forall|j: int| 0 <= j < i as int implies serial_views(out@)[j]
                    == self@.devices.take(i as int)[j] by {
                    if j < i - 1 {
                        assert(out@[j] == out0[j]);
                        assert(serial_views(out0)[j] == out0[j]@);
                    } else {
                        assert(out@[j] == out@.last());
                    }
                }
                assert(serial_views(out@) =~= self@.devices.take(i as int));
            }
        }
        proof {
            assert(self@.devices.take(n as int) =~= self@.devices);
        }
        out
    }
}

} // verus!
