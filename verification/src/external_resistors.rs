use vstd::prelude::*;

use crate::measurement_collection::DeviceRef;

verus! {

/// The resistor wired into a device's measurement circuit over a time
/// span, in whole ohms; timestamps are microsecond instants.
#[derive(Clone, Copy, PartialEq, Eq, Structural, Debug)]
pub struct ExternalResistorValue {
    pub external_resistor_value_ohms: u64,
    pub from: i64,
    pub to: i64,
}

/// Input of a resistor-value upsert: the device's serial number, the value
/// to attach, and, when replacing, the link to sever first.
#[derive(Clone, Debug)]
pub struct SetExternalResistorValueInput {
    pub arduino_serial_number: String,
    pub previous_create_link_action_hash: Option<ResistorLinkRef>,
    pub external_resistor_value: ExternalResistorValue,
}

/// Reference to one committed resistor-value link.
#[derive(Clone, Copy, PartialEq, Eq, Structural, Debug)]
pub struct ResistorLinkRef(pub usize);

/// One committed resistor-value link; severed links stay in place, marked.
#[derive(Clone, Copy, PartialEq, Eq, Structural, Debug)]
pub struct ResistorLink {
    pub device: DeviceRef,
    pub value: ExternalResistorValue,
    pub deleted: bool,
}

/// The live resistor-value links of one device, in creation order.
pub open spec fn live_resistors_of(rs: Seq<ResistorLink>, d: DeviceRef) -> Seq<ResistorLink>
    decreases rs.len(),
{
    if rs.len() == 0 {
        Seq::empty()
    } else if rs[0].device == d && !rs[0].deleted {
        seq![rs[0]] + live_resistors_of(rs.drop_first(), d)
    } else {
        live_resistors_of(rs.drop_first(), d)
    }
}

/// One resistor link, severed.
pub open spec fn severed_resistor(l: ResistorLink) -> ResistorLink {
    ResistorLink { device: l.device, value: l.value, deleted: true }
}

/// Replacing one resistor link and appending another, both tied to a
/// registered device, preserves well-formedness.
pub proof fn lemma_wf_resistor_update(
    pre: crate::ledger::LedgerSnap,
    post: crate::ledger::LedgerSnap,
)
    requires
        pre.wf(),
        post.devices == pre.devices,
        post.infos == pre.infos,
        post.collections == pre.collections,
        post.links == pre.links,
        post.deletions == pre.deletions,
        post.clock == pre.clock,
        forall|i: int|
            0 <= i < post.resistors.len() ==> (#[trigger] post.resistors[i]).device.0
                < pre.devices.len(),
    ensures
        post.wf(),
{
}

impl crate::ledger::Ledger {
    /// Records the resistor wired into a device's circuit over a time
    /// span: severs the superseded link when one is named, then appends
    /// the new value as a live link.  Fails when the serial number is
    /// unregistered or the named link does not exist.
    pub fn set_external_resistor_value(&mut self, input: SetExternalResistorValueInput) -> (r:
        Result<(), crate::ledger::LedgerError>)
        requires
            old(self)@.wf(),
        ensures
            final(self)@.wf(),
            final(self)@.devices == old(self)@.devices,
            final(self)@.infos == old(self)@.infos,
            final(self)@.collections == old(self)@.collections,
            final(self)@.links == old(self)@.links,
            final(self)@.deletions == old(self)@.deletions,
            final(self)@.clock == old(self)@.clock,
            !old(self)@.has_device(input.arduino_serial_number@) ==> r == Err::<
                (),
                crate::ledger::LedgerError,
            >(crate::ledger::LedgerError::NotFound) && final(self)@ == old(self)@,
            old(self)@.has_device(input.arduino_serial_number@) ==> {
                let d = DeviceRef(
                    old(self)@.device_index(input.arduino_serial_number@) as usize,
                );
                match input.previous_create_link_action_hash {
                    Option::Some(p) => {
                        &&& p.0 >= old(self)@.resistors.len() ==> r == Err::<
                            (),
                            crate::ledger::LedgerError,
                        >(crate::ledger::LedgerError::NotFound) && final(self)@ == old(self)@
                        &&& p.0 < old(self)@.resistors.len() ==> r == Ok::<
                            (),
                            crate::ledger::LedgerError,
                        >(()) && final(self)@.resistors == old(self)@.resistors.update(
                            p.0 as int,
                            severed_resistor(old(self)@.resistors[p.0 as int]),
                        ).push(
                            (ResistorLink {
                                device: d,
                                value: input.external_resistor_value,
                                deleted: false,
                            }),
                        )
                    },
                    Option::None => r == Ok::<(), crate::ledger::LedgerError>(())
                        && final(self)@.resistors == old(self)@.resistors.push(
                        (ResistorLink {
                            device: d,
                            value: input.external_resistor_value,
                            deleted: false,
                        }),
                    ),
                }
            },
    {
        let device = match self.find_device(&input.arduino_serial_number) {
            Some(i) => DeviceRef(i),
            None => {
                return Err(crate::ledger::LedgerError::NotFound);
            },
        };
        match input.previous_create_link_action_hash {
            Some(p) => {
                if p.0 >= self.resistor_links.len() {
                    return Err(crate::ledger::LedgerError::NotFound);
                }
                let prev = self.resistor_links[p.0];
                self.resistor_links.set(
                    p.0,
                    ResistorLink { device: prev.device, value: prev.value, deleted: true },
                );
            },
            None => {},
        }
        self.resistor_links.push(
            ResistorLink { device, value: input.external_resistor_value, deleted: false },
        );
        proof {
            assert forall|i: int|
                0 <= i < self@.resistors.len() implies (#[trigger] self@.resistors[i]).device.0
                < old(self)@.devices.len() by {
                if i + 1 < self@.resistors.len() {
                    assert(self@.resistors[i].device == old(self)@.resistors[i].device);
                }
            }
            lemma_wf_resistor_update(old(self)@, self@);
        }
        Ok(())
    }

    /// Lists the live resistor-value links of the device registered under
    /// this serial number, in creation order; empty when the serial was
    /// never registered.
    pub fn get_all_external_resistor_values(&self, arduino_serial_number: String) -> (r: Vec<
        ResistorLink,
    >)
        requires
            self@.wf(),
        ensures
            self@.has_device(arduino_serial_number@) ==> r@ == live_resistors_of(
                self@.resistors,
                DeviceRef(self@.device_index(arduino_serial_number@) as usize),
            ),
            !self@.has_device(arduino_serial_number@) ==> r@.len() == 0,
    {
        let mut out: Vec<ResistorLink> = Vec::new();
        let device = match self.find_device(&arduino_serial_number) {
            Some(i) => DeviceRef(i),
            None => {
                return out;
            },
        };
        let n = self.resistor_links.len();
        proof {
            assert(self@.resistors.skip(0) =~= self@.resistors);
        }
        let mut i: usize = 0;
        while i < n
            invariant
                n == self@.resistors.len(),
                i <= n,
                live_resistors_of(self@.resistors, device) == out@ + live_resistors_of(
                    self@.resistors.skip(i as int),
                    device,
                ),
            decreases n - i,
        {
            let l = self.resistor_links[i];
            proof {
                assert(self@.resistors.skip(i as int).drop_first() =~= self@.resistors.skip(
                    i as int + 1,
                ));
                assert(self@.resistors.skip(i as int)[0] == self@.resistors[i as int]);
            }
            let ghost out0 = out@;
            if l.device == device && !l.deleted {
                out.push(l);
                proof {
                    assert(out@ + live_resistors_of(self@.resistors.skip(i as int + 1), device)
                        =~= out0 + live_resistors_of(self@.resistors.skip(i as int), device));
                }
            }
            i = i + 1;
        }
        proof {
            assert(out@ + live_resistors_of(self@.resistors.skip(n as int), device) =~= out@);
        }
        out
    }
}

} // verus!
