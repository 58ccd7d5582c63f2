use living_power::app_id::app_id;
use living_power::bpv_device::{BpvDeviceInfo, SetBpvDeviceInfoInput};
use living_power::external_resistors::{
    ExternalResistorValue, ResistorLinkRef, SetExternalResistorValueInput,
};
use living_power::ledger::{Ledger, LedgerError};
use living_power::measurement_collection::{DeviceRef, Measurement, MeasurementCollection};
use living_power::validation::{
    validate, validate_create_link_all_bpv_devices, validate_create_measurement_collection,
    validate_update_measurement_collection, EntryTypes, LedgerOp, ValidateCallbackResult,
};

fn info(serial: &str, name: &str) -> SetBpvDeviceInfoInput {
    SetBpvDeviceInfoInput {
        arduino_serial_number: serial.to_string(),
        info: BpvDeviceInfo { name: name.to_string() },
    }
}

fn sample_collection(device: DeviceRef) -> MeasurementCollection {
    MeasurementCollection {
        bpv_device_hash: device,
        measurements: vec![Measurement {
            timestamp: 1_700_000_000_000_000,
            humidity_percentage: 55_000,
            temperature_celsius: 21_000,
            light_level_lux: 400_000,
            voltage_millivolts: 3_300,
        }],
        external_resistor_ohms: 470,
    }
}

#[test]
fn registration_is_an_append_only_upsert_with_latest_name_winning() {
    let mut ledger = Ledger::new();
    assert!(ledger.bpv_device_hash("ARDUINO-1".to_string()).is_none());

    ledger.set_bpv_device_info(info("ARDUINO-1", "Office window"));
    ledger.set_bpv_device_info(info("ARDUINO-2", "Greenhouse"));
    ledger.set_bpv_device_info(info("ARDUINO-1", "Office desk"));

    let serials = ledger.get_all_bpv_devices();
    assert_eq!(serials, vec!["ARDUINO-1".to_string(), "ARDUINO-2".to_string()]);

    let device = ledger.bpv_device_hash("ARDUINO-1".to_string()).unwrap();
    let infos = ledger.get_bpv_device_info("ARDUINO-1".to_string());
    assert_eq!(infos.len(), 2);
    assert_eq!(infos[0].name, "Office window");
    assert_eq!(infos[1].name, "Office desk");
    assert!(infos[0].timestamp < infos[1].timestamp);

    let latest = ledger.latest_info(device).unwrap();
    assert_eq!(latest.name, "Office desk");

    assert!(ledger.get_bpv_device_info("ARDUINO-9".to_string()).is_empty());
}

#[test]
fn resistor_values_replace_by_severing_the_superseded_link() {
    let mut ledger = Ledger::new();
    ledger.set_bpv_device_info(info("ARDUINO-1", "Office window"));

    let first = ExternalResistorValue {
        external_resistor_value_ohms: 220,
        from: 1_000,
        to: 2_000,
    };
    ledger
        .set_external_resistor_value(SetExternalResistorValueInput {
            arduino_serial_number: "ARDUINO-1".to_string(),
            previous_create_link_action_hash: None,
            external_resistor_value: first,
        })
        .unwrap();
    let live = ledger.get_all_external_resistor_values("ARDUINO-1".to_string());
    assert_eq!(live.len(), 1);
    assert_eq!(live[0].value, first);

    let second = ExternalResistorValue {
        external_resistor_value_ohms: 470,
        from: 2_000,
        to: 3_000,
    };
    ledger
        .set_external_resistor_value(SetExternalResistorValueInput {
            arduino_serial_number: "ARDUINO-1".to_string(),
            previous_create_link_action_hash: Some(ResistorLinkRef(0)),
            external_resistor_value: second,
        })
        .unwrap();
    let live = ledger.get_all_external_resistor_values("ARDUINO-1".to_string());
    assert_eq!(live.len(), 1);
    assert_eq!(live[0].value, second);

    assert_eq!(
        ledger.set_external_resistor_value(SetExternalResistorValueInput {
            arduino_serial_number: "ARDUINO-9".to_string(),
            previous_create_link_action_hash: None,
            external_resistor_value: second,
        }),
        Err(LedgerError::NotFound)
    );
    assert_eq!(
        ledger.set_external_resistor_value(SetExternalResistorValueInput {
            arduino_serial_number: "ARDUINO-1".to_string(),
            previous_create_link_action_hash: Some(ResistorLinkRef(99)),
            external_resistor_value: second,
        }),
        Err(LedgerError::NotFound)
    );
}

#[test]
fn updates_of_measurement_collections_are_always_rejected() {
    let mut ledger = Ledger::new();
    ledger.set_bpv_device_info(info("ARDUINO-1", "Office window"));
    let device = ledger.bpv_device_hash("ARDUINO-1".to_string()).unwrap();
    let original = sample_collection(device);
    let mut updated = sample_collection(device);
    updated.external_resistor_ohms = 220;

    match validate_update_measurement_collection(&updated, &original) {
        ValidateCallbackResult::Invalid(reason) => {
            assert_eq!(reason, "Measurement Collections cannot be updated");
        }
        ValidateCallbackResult::Valid => panic!("an update must never validate"),
    }

    let op = LedgerOp::UpdateEntry {
        original: EntryTypes::MeasurementCollection(original),
        updated: EntryTypes::MeasurementCollection(updated),
    };
    match validate(&ledger, &op) {
        ValidateCallbackResult::Invalid(reason) => {
            assert_eq!(reason, "Measurement Collections cannot be updated");
        }
        ValidateCallbackResult::Valid => panic!("an update must never validate"),
    }
}

#[test]
fn creation_validates_only_under_a_registered_device() {
    let mut ledger = Ledger::new();
    ledger.set_bpv_device_info(info("ARDUINO-1", "Office window"));
    let device = ledger.bpv_device_hash("ARDUINO-1".to_string()).unwrap();

    match validate_create_measurement_collection(&ledger, &sample_collection(device)) {
        ValidateCallbackResult::Valid => {}
        ValidateCallbackResult::Invalid(reason) => panic!("unexpected rejection: {reason}"),
    }
    match validate_create_measurement_collection(&ledger, &sample_collection(DeviceRef(5))) {
        ValidateCallbackResult::Invalid(reason) => {
            assert_eq!(reason, "Dependant action must be accompanied by an entry");
        }
        ValidateCallbackResult::Valid => panic!("a dangling device must not validate"),
    }

    let op = LedgerOp::CreateEntry {
        entry: EntryTypes::MeasurementCollection(sample_collection(device)),
    };
    assert!(matches!(validate(&ledger, &op), ValidateCallbackResult::Valid));
    let op = LedgerOp::DeleteEntry {
        original: EntryTypes::MeasurementCollection(sample_collection(device)),
    };
    assert!(matches!(validate(&ledger, &op), ValidateCallbackResult::Valid));
}

#[test]
fn device_index_links_validate_only_registered_devices() {
    let mut ledger = Ledger::new();
    ledger.set_bpv_device_info(info("ARDUINO-1", "Office window"));
    let device = ledger.bpv_device_hash("ARDUINO-1".to_string()).unwrap();

    assert!(matches!(
        validate_create_link_all_bpv_devices(&ledger, device),
        ValidateCallbackResult::Valid
    ));
    match validate_create_link_all_bpv_devices(&ledger, DeviceRef(9)) {
        ValidateCallbackResult::Invalid(reason) => {
            assert_eq!(reason, "Linked action must reference an entry");
        }
        ValidateCallbackResult::Valid => panic!("a dangling device must not validate"),
    }
    let op = LedgerOp::CreateDeviceIndexLink { target: device };
    assert!(matches!(validate(&ledger, &op), ValidateCallbackResult::Valid));
    let op = LedgerOp::DeleteDeviceIndexLink { target: DeviceRef(9) };
    assert!(matches!(validate(&ledger, &op), ValidateCallbackResult::Valid));
}

#[test]
fn app_id_joins_the_prefix_with_the_trimmed_hash() {
    assert_eq!(app_id("uhC0kWCsAgoKkkfwyJAglj30xX_GLLV-3BXuFy436a2w\n"),
        "living-power-uhC0kWCsAgoKkkfwyJAglj30xX_GLLV-3BXuFy436a2w");
    assert_eq!(app_id("  abc \t\r\n"), "living-power-abc");
    assert_eq!(app_id("abc"), "living-power-abc");
    assert_eq!(app_id("   \n"), "living-power-");
    assert_eq!(app_id(""), "living-power-");
    assert_eq!(app_id("a b"), "living-power-a b");
}
