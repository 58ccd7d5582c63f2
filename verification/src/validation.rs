use vstd::prelude::*;

use crate::ledger::{Ledger, LedgerSnap};
use crate::measurement_collection::{CollectionRef, DeviceRef, MeasurementCollection};

verus! {

/// The closed set of record kinds this ledger commits.
pub enum EntryTypes {
    MeasurementCollection(MeasurementCollection),
}

/// Verdict of a validation callback: the operation may commit, or it is
/// rejected with a reason.  A rejection is policy, distinguishable from a
/// missing reference or a storage fault.
pub enum ValidateCallbackResult {
    Valid,
    Invalid(String),
}

/// The closed set of operations validation rules on, one handler each:
/// entry operations, device-to-collection links, and entries of the
/// all-devices index.
pub enum LedgerOp {
    CreateEntry { entry: EntryTypes },
    UpdateEntry { original: EntryTypes, updated: EntryTypes },
    DeleteEntry { original: EntryTypes },
    CreateLink { base: DeviceRef, target: CollectionRef },
    DeleteLink { base: DeviceRef, target: CollectionRef },
    CreateDeviceIndexLink { target: DeviceRef },
    DeleteDeviceIndexLink { target: DeviceRef },
}

/// Which operations the validation policy admits: creations whose device
/// resolves, any deletion, and links whose two ends resolve.  No update of
/// a measurement collection is ever admitted.
pub open spec fn op_allowed(s: LedgerSnap, op: LedgerOp) -> bool {
    match op {
        LedgerOp::CreateEntry { entry } => match entry {
            EntryTypes::MeasurementCollection(mc) => s.valid_device(mc.bpv_device_hash),
        },
        LedgerOp::UpdateEntry { .. } => false,
        LedgerOp::DeleteEntry { .. } => true,
        LedgerOp::CreateLink { base, target } => base.0 < s.devices.len() && target.0
            < s.collections.len(),
        LedgerOp::DeleteLink { .. } => true,
        LedgerOp::CreateDeviceIndexLink { target } => s.valid_device(target),
        LedgerOp::DeleteDeviceIndexLink { .. } => true,
    }
}

/// An all-devices index entry may point only at a registered device.
pub fn validate_create_link_all_bpv_devices(ledger: &Ledger, target_address: DeviceRef) -> (r:
    ValidateCallbackResult)
    ensures
        ledger@.valid_device(target_address) ==> r is Valid,
        !ledger@.valid_device(target_address) ==> (r matches ValidateCallbackResult::Invalid(m)
            && m@ == "Linked action must reference an entry"@),
{
    if target_address.0 < ledger.devices.len() {
        ValidateCallbackResult::Valid
    } else {
        ValidateCallbackResult::Invalid("Linked action must reference an entry".to_owned())
    }
}

/// Removing an all-devices index entry is always accepted.
pub fn validate_delete_link_all_bpv_devices(target_address: DeviceRef) -> (r:
    ValidateCallbackResult)
    ensures
        r is Valid,
{
    ValidateCallbackResult::Valid
}

/// The self-check run at genesis accepts unconditionally; the data it
/// would inspect plays no part in this ledger's policy.
pub fn genesis_self_check() -> (r: ValidateCallbackResult)
    ensures
        r is Valid,
{
    ValidateCallbackResult::Valid
}

/// Any agent may join; membership carries no policy here.
pub fn validate_agent_joining() -> (r: ValidateCallbackResult)
    ensures
        r is Valid,
{
    ValidateCallbackResult::Valid
}

/// A collection record may be created only under a registered device.
pub fn validate_create_measurement_collection(
    ledger: &Ledger,
    measurement_collection: &MeasurementCollection,
) -> (r: ValidateCallbackResult)
    ensures
        ledger@.valid_device(measurement_collection.bpv_device_hash) ==> r is Valid,
        !ledger@.valid_device(measurement_collection.bpv_device_hash) ==> (r matches
            ValidateCallbackResult::Invalid(m) && m@
            == "Dependant action must be accompanied by an entry"@),
{
    if measurement_collection.bpv_device_hash.0 < ledger.devices.len() {
        ValidateCallbackResult::Valid
    } else {
        ValidateCallbackResult::Invalid(
            "Dependant action must be accompanied by an entry".to_owned(),
        )
    }
}

/// Collections are write-once: every update is rejected, never silently
/// applied.  Corrections are modelled as delete plus recreate.
pub fn validate_update_measurement_collection(
    measurement_collection: &MeasurementCollection,
    original_measurement_collection: &MeasurementCollection,
) -> (r: ValidateCallbackResult)
    ensures
        r matches ValidateCallbackResult::Invalid(m) && m@
            == "Measurement Collections cannot be updated"@,
{
    ValidateCallbackResult::Invalid("Measurement Collections cannot be updated".to_owned())
}

/// Deleting a collection record is always accepted.
pub fn validate_delete_measurement_collection(
    original_measurement_collection: &MeasurementCollection,
) -> (r: ValidateCallbackResult)
    ensures
        r is Valid,
{
    ValidateCallbackResult::Valid
}

/// A device-to-collection link may be created only between a registered
/// device and a committed collection record.
pub fn validate_create_link_bpv_device_to_measurement_collections(
    ledger: &Ledger,
    base_address: DeviceRef,
    target_address: CollectionRef,
) -> (r: ValidateCallbackResult)
    ensures
        base_address.0 < ledger@.devices.len() && target_address.0 < ledger@.collections.len()
            ==> r is Valid,
        !(base_address.0 < ledger@.devices.len() && target_address.0
            < ledger@.collections.len()) ==> (r matches ValidateCallbackResult::Invalid(m) && m@
            == "Linked action must reference an entry"@),
{
    if base_address.0 < ledger.devices.len() && target_address.0 < ledger.collections.len() {
        ValidateCallbackResult::Valid
    } else {
        ValidateCallbackResult::Invalid("Linked action must reference an entry".to_owned())
    }
}

/// Severing a device-to-collection link is always accepted.
pub fn validate_delete_link_bpv_device_to_measurement_collections(
    base_address: DeviceRef,
    target_address: CollectionRef,
) -> (r: ValidateCallbackResult)
    ensures
        r is Valid,
{
    ValidateCallbackResult::Valid
}

/// The validation dispatch: one exhaustive match over the closed set of
/// operations, handing each to its handler.  The verdict is `Valid`
/// exactly on the operations the policy admits, and an update of a
/// measurement collection is always rejected with its fixed reason.
pub fn validate(ledger: &Ledger, op: &LedgerOp) -> (r: ValidateCallbackResult)
    ensures
        r is Valid <==> op_allowed(ledger@, *op),
        (*op matches LedgerOp::UpdateEntry { .. }) ==> (r matches
            ValidateCallbackResult::Invalid(m) && m@
            == "Measurement Collections cannot be updated"@),
{
    match op {
        LedgerOp::CreateEntry { entry } => match entry {
            EntryTypes::MeasurementCollection(mc) => validate_create_measurement_collection(
                ledger,
                mc,
            ),
        },
        LedgerOp::UpdateEntry { original, updated } => match (original, updated) {
            (
                EntryTypes::MeasurementCollection(orig),
                EntryTypes::MeasurementCollection(upd),
            ) => validate_update_measurement_collection(upd, orig),
        },
        LedgerOp::DeleteEntry { original } => match original {
            EntryTypes::MeasurementCollection(orig) => validate_delete_measurement_collection(
                orig,
            ),
        },
        LedgerOp::CreateLink { base, target } => {
            validate_create_link_bpv_device_to_measurement_collections(ledger, *base, *target)
        },
        LedgerOp::DeleteLink { base, target } => {
            validate_delete_link_bpv_device_to_measurement_collections(*base, *target)
        },
        LedgerOp::CreateDeviceIndexLink { target } => {
            validate_create_link_all_bpv_devices(ledger, *target)
        },
        LedgerOp::DeleteDeviceIndexLink { target } => {
            validate_delete_link_all_bpv_devices(*target)
        },
    }
}

} // verus!
