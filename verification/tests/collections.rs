use living_power::bpv_device::{BpvDeviceInfo, SetBpvDeviceInfoInput};
use living_power::ledger::{Ledger, LedgerError};
use living_power::measurement_collection::{DeviceRef, Measurement, MeasurementCollection};

fn sample(i: u32) -> Measurement {
    Measurement {
        timestamp: 1_700_000_000_000_000 + i as i64,
        humidity_percentage: 55_000 + i,
        temperature_celsius: 21_000 + i,
        light_level_lux: 400_000 + i,
        voltage_millivolts: 3_300 + i,
    }
}

fn registered(serial: &str) -> (Ledger, DeviceRef) {
    let mut ledger = Ledger::new();
    ledger.set_bpv_device_info(SetBpvDeviceInfoInput {
        arduino_serial_number: serial.to_string(),
        info: BpvDeviceInfo { name: "Office window".to_string() },
    });
    let device = ledger.bpv_device_hash(serial.to_string()).unwrap();
    (ledger, device)
}

#[test]
fn end_to_end_chunked_ingestion_and_deletion() {
    let (mut ledger, device) = registered("ARDUINO-1");
    let measurements: Vec<Measurement> = (0..25).map(sample).collect();
    let refs = ledger
        .create_measurement_collections_with_capacity(
            MeasurementCollection {
                bpv_device_hash: device,
                measurements,
                external_resistor_ohms: 470,
            },
            10,
        )
        .unwrap();
    assert_eq!(refs.len(), 3);

    let sizes: Vec<usize> = refs
        .iter()
        .map(|r| ledger.get_measurement_collection(*r).unwrap().measurements.len())
        .collect();
    assert_eq!(sizes, vec![10, 10, 5]);
    for r in &refs {
        let record = ledger.get_measurement_collection(*r).unwrap();
        assert_eq!(record.bpv_device_hash, device);
        assert_eq!(record.external_resistor_ohms, 470);
    }
    assert_eq!(
        ledger.get_measurement_collection(refs[1]).unwrap().measurements[0],
        sample(10)
    );

    let links = ledger.get_measurement_collections_for_bpv_device(device);
    assert_eq!(links.len(), 3);
    let targets: Vec<usize> = links.iter().map(|l| l.target.0).collect();
    assert_eq!(targets, refs.iter().map(|r| r.0).collect::<Vec<usize>>());

    ledger.delete_measurement_collection(refs[1]).unwrap();
    let links = ledger.get_measurement_collections_for_bpv_device(device);
    assert_eq!(links.len(), 2);
    let deleted = ledger.get_deleted_measurement_collections_for_bpv_device(device);
    assert_eq!(deleted.len(), 1);
    assert_eq!(deleted[0].0.target, refs[1]);
    assert_eq!(deleted[0].1.len(), 1);
}

#[test]
fn writing_the_same_measurements_twice_settles_to_the_same_references() {
    let (mut ledger, device) = registered("ARDUINO-1");
    let measurements: Vec<Measurement> = (0..25).map(sample).collect();
    let input = MeasurementCollection {
        bpv_device_hash: device,
        measurements: measurements.clone(),
        external_resistor_ohms: 470,
    };
    let first = ledger
        .create_measurement_collections_with_capacity(input.clone(), 10)
        .unwrap();
    let records_after_first = ledger.collections.len();
    let second = ledger
        .create_measurement_collections_with_capacity(input, 10)
        .unwrap();
    assert_eq!(first, second);
    assert_eq!(ledger.collections.len(), records_after_first);
    // Links are not content-addressed: the retry leaves a duplicate link
    // per chunk, the known idempotence gap.
    assert_eq!(ledger.get_measurement_collections_for_bpv_device(device).len(), 6);
}

#[test]
fn delete_marks_but_does_not_erase() {
    let (mut ledger, device) = registered("ARDUINO-1");
    let refs = ledger
        .create_measurement_collections_with_capacity(
            MeasurementCollection {
                bpv_device_hash: device,
                measurements: (0..4).map(sample).collect(),
                external_resistor_ohms: 220,
            },
            10,
        )
        .unwrap();
    assert_eq!(refs.len(), 1);
    let deletion = ledger.delete_measurement_collection(refs[0]).unwrap();

    let record = ledger.get_measurement_collection(refs[0]).unwrap();
    assert_eq!(record.measurements.len(), 4);
    assert!(ledger.get_measurement_collections_for_bpv_device(device).is_empty());

    let deletes = ledger
        .get_all_deletes_for_measurement_collection(refs[0])
        .unwrap();
    assert_eq!(deletes.len(), 1);
    assert_eq!(deletes[0].target, refs[0]);
    let oldest = ledger
        .get_oldest_delete_for_measurement_collection(refs[0])
        .unwrap();
    assert_eq!(oldest, deletes[0]);

    // A second deletion of the same record files a second deletion
    // record; the oldest one still wins.
    let second_deletion = ledger.delete_measurement_collection(refs[0]).unwrap();
    assert!(second_deletion.0 > deletion.0);
    let deletes = ledger
        .get_all_deletes_for_measurement_collection(refs[0])
        .unwrap();
    assert_eq!(deletes.len(), 2);
    let oldest = ledger
        .get_oldest_delete_for_measurement_collection(refs[0])
        .unwrap();
    assert_eq!(oldest, deletes[0]);
    assert!(deletes[0].timestamp < deletes[1].timestamp);
}

#[test]
fn unknown_references_are_absent_and_deleting_them_fails() {
    let (mut ledger, device) = registered("ARDUINO-1");
    let bogus = living_power::measurement_collection::CollectionRef(7);
    assert!(ledger.get_measurement_collection(bogus).is_none());
    assert!(ledger.get_all_deletes_for_measurement_collection(bogus).is_none());
    assert!(ledger.get_oldest_delete_for_measurement_collection(bogus).is_none());
    assert_eq!(
        ledger.delete_measurement_collection(bogus),
        Err(LedgerError::NotFound)
    );
    assert!(ledger.get_measurement_collections_for_bpv_device(device).is_empty());
}

#[test]
fn writing_under_an_unregistered_device_is_rejected() {
    let mut ledger = Ledger::new();
    let result = ledger.create_measurement_collections(MeasurementCollection {
        bpv_device_hash: DeviceRef(0),
        measurements: vec![sample(1)],
        external_resistor_ohms: 100,
    });
    assert_eq!(result, Err(LedgerError::InvalidDevice));
    assert!(ledger.collections.is_empty());
    assert!(ledger.collection_links.is_empty());
}

#[test]
fn empty_input_creates_no_collection() {
    let (mut ledger, device) = registered("ARDUINO-1");
    let refs = ledger
        .create_measurement_collections(MeasurementCollection {
            bpv_device_hash: device,
            measurements: Vec::new(),
            external_resistor_ohms: 470,
        })
        .unwrap();
    assert!(refs.is_empty());
    assert!(ledger.collections.is_empty());
    assert!(ledger.get_measurement_collections_for_bpv_device(device).is_empty());
}
