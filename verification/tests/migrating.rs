use living_power::bpv_device::{BpvDeviceInfo, SetBpvDeviceInfoInput};
use living_power::ledger::Ledger;
use living_power::measurement_collection::{Measurement, MeasurementCollection};

fn sample(i: u32) -> Measurement {
    Measurement {
        timestamp: 1_700_000_000_000_000 + i as i64,
        humidity_percentage: 55_000 + i,
        temperature_celsius: 21_000 + i,
        light_level_lux: 400_000 + i,
        voltage_millivolts: 3_300 + i,
    }
}

fn prior_instance() -> Ledger {
    let mut old = Ledger::new();
    old.set_bpv_device_info(SetBpvDeviceInfoInput {
        arduino_serial_number: "ARDUINO-1".to_string(),
        info: BpvDeviceInfo { name: "Office window".to_string() },
    });
    old.set_bpv_device_info(SetBpvDeviceInfoInput {
        arduino_serial_number: "ARDUINO-2".to_string(),
        info: BpvDeviceInfo { name: "Greenhouse".to_string() },
    });
    let d1 = old.bpv_device_hash("ARDUINO-1".to_string()).unwrap();
    let d2 = old.bpv_device_hash("ARDUINO-2".to_string()).unwrap();
    old.create_measurement_collections(MeasurementCollection {
        bpv_device_hash: d1,
        measurements: (0..8).map(sample).collect(),
        external_resistor_ohms: 220,
    })
    .unwrap();
    old.create_measurement_collections(MeasurementCollection {
        bpv_device_hash: d1,
        measurements: (8..11).map(sample).collect(),
        external_resistor_ohms: 220,
    })
    .unwrap();
    old.create_measurement_collections(MeasurementCollection {
        bpv_device_hash: d2,
        measurements: (20..24).map(sample).collect(),
        external_resistor_ohms: 470,
    })
    .unwrap();
    old
}

#[test]
fn migration_carries_devices_and_collections_over() {
    let old = prior_instance();
    let mut new = Ledger::new();
    new.migrate_from_old_cell(&old).unwrap();

    assert_eq!(
        new.get_all_bpv_devices(),
        vec!["ARDUINO-1".to_string(), "ARDUINO-2".to_string()]
    );
    let d1 = new.bpv_device_hash("ARDUINO-1".to_string()).unwrap();
    let d2 = new.bpv_device_hash("ARDUINO-2".to_string()).unwrap();
    assert_eq!(new.latest_info(d1).unwrap().name, "Office window");
    assert_eq!(new.latest_info(d2).unwrap().name, "Greenhouse");

    let links = new.get_measurement_collections_for_bpv_device(d1);
    assert_eq!(links.len(), 2);
    let first = new.get_measurement_collection(links[0].target).unwrap();
    assert_eq!(first.measurements.len(), 8);
    assert_eq!(first.external_resistor_ohms, 220);
    assert_eq!(first.measurements[0], sample(0));
    let second = new.get_measurement_collection(links[1].target).unwrap();
    assert_eq!(second.measurements.len(), 3);

    let links = new.get_measurement_collections_for_bpv_device(d2);
    assert_eq!(links.len(), 1);
    assert_eq!(
        new.get_measurement_collection(links[0].target).unwrap().measurements[0],
        sample(20)
    );
    assert_eq!(new.collections.len(), 3);
}

#[test]
fn migrating_twice_commits_no_duplicate_records() {
    let old = prior_instance();
    let mut new = Ledger::new();
    new.migrate_from_old_cell(&old).unwrap();
    let records_after_first = new.collections.len();
    let links_after_first = new.collection_links.len();
    let infos_after_first = new.info_links.len();

    new.migrate_from_old_cell(&old).unwrap();
    // All collection content is skipped through the presence check: no
    // record and no device is added, and no duplicate link either.
    assert_eq!(new.collections.len(), records_after_first);
    assert_eq!(new.collection_links.len(), links_after_first);
    assert_eq!(new.get_all_bpv_devices().len(), 2);
    // Re-registration adds one harmless metadata link per device; the
    // most recent name still wins.
    assert_eq!(new.info_links.len(), infos_after_first + 2);
    let d1 = new.bpv_device_hash("ARDUINO-1".to_string()).unwrap();
    assert_eq!(new.latest_info(d1).unwrap().name, "Office window");
}

#[test]
fn migration_into_a_populated_ledger_skips_present_content() {
    let old = prior_instance();
    let mut new = Ledger::new();
    new.set_bpv_device_info(SetBpvDeviceInfoInput {
        arduino_serial_number: "ARDUINO-1".to_string(),
        info: BpvDeviceInfo { name: "Renamed since".to_string() },
    });
    let d1 = new.bpv_device_hash("ARDUINO-1".to_string()).unwrap();
    new.create_measurement_collections(MeasurementCollection {
        bpv_device_hash: d1,
        measurements: (0..8).map(sample).collect(),
        external_resistor_ohms: 220,
    })
    .unwrap();
    assert_eq!(new.collections.len(), 1);

    new.migrate_from_old_cell(&old).unwrap();
    // The first prior collection of ARDUINO-1 already exists here and is
    // skipped; the other two are new.
    assert_eq!(new.collections.len(), 3);
    assert_eq!(new.get_measurement_collections_for_bpv_device(d1).len(), 2);
    // The prior name arrives later, so it wins at read time.
    assert_eq!(new.latest_info(d1).unwrap().name, "Office window");
}
