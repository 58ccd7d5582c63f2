use living_power::chunk::{
    chunk_measurements, BITS_PER_MEASUREMENT, CHUNK_SAFETY_MARGIN, ENVELOPE_OVERHEAD_BITS,
    MAX_ENTRY_BYTES, MEASUREMENT_CHUNK_CAPACITY,
};
use living_power::measurement_collection::Measurement;

fn sample(i: u32) -> Measurement {
    Measurement {
        timestamp: 1_700_000_000_000_000 + i as i64,
        humidity_percentage: 55_000 + i,
        temperature_celsius: 21_000 + i,
        light_level_lux: 400_000 + i,
        voltage_millivolts: 3_300 + i,
    }
}

#[test]
fn capacity_is_derived_from_the_record_ceiling() {
    assert_eq!(BITS_PER_MEASUREMENT, 263);
    assert_eq!(MAX_ENTRY_BYTES, 4_000_000);
    assert_eq!(CHUNK_SAFETY_MARGIN, 10);
    assert_eq!(
        MEASUREMENT_CHUNK_CAPACITY,
        MAX_ENTRY_BYTES * 8 / BITS_PER_MEASUREMENT - CHUNK_SAFETY_MARGIN
    );
    assert_eq!(MEASUREMENT_CHUNK_CAPACITY, 121_663);
    assert_eq!(ENVELOPE_OVERHEAD_BITS, 2_630);
}

#[test]
fn chunking_round_trip_restores_the_sequence() {
    let measurements: Vec<Measurement> = (0..25).map(sample).collect();
    let chunks = chunk_measurements(&measurements, 10);
    let rebuilt: Vec<Measurement> = chunks.iter().flatten().copied().collect();
    assert_eq!(rebuilt, measurements);
    for chunk in &chunks {
        assert!(chunk.len() <= 10);
        assert!(!chunk.is_empty());
    }
}

#[test]
fn chunk_count_is_the_ceiling_of_n_over_capacity() {
    for n in 0..40usize {
        for capacity in 1..8usize {
            let measurements: Vec<Measurement> = (0..n as u32).map(sample).collect();
            let chunks = chunk_measurements(&measurements, capacity);
            assert_eq!(chunks.len(), (n + capacity - 1) / capacity);
        }
    }
}

#[test]
fn twenty_five_measurements_at_capacity_ten_make_three_chunks() {
    let measurements: Vec<Measurement> = (0..25).map(sample).collect();
    let chunks = chunk_measurements(&measurements, 10);
    let sizes: Vec<usize> = chunks.iter().map(|c| c.len()).collect();
    assert_eq!(sizes, vec![10, 10, 5]);
    assert_eq!(chunks[2][4], sample(24));
}

#[test]
fn empty_input_makes_no_chunks() {
    let measurements: Vec<Measurement> = Vec::new();
    let chunks = chunk_measurements(&measurements, 10);
    assert!(chunks.is_empty());
    let chunks = chunk_measurements(&measurements, MEASUREMENT_CHUNK_CAPACITY);
    assert!(chunks.is_empty());
}

#[test]
fn every_chunk_respects_the_byte_ceiling() {
    let measurements: Vec<Measurement> = (0..1000).map(sample).collect();
    let chunks = chunk_measurements(&measurements, MEASUREMENT_CHUNK_CAPACITY);
    assert_eq!(chunks.len(), 1);
    for chunk in &chunks {
        assert!(
            ENVELOPE_OVERHEAD_BITS + chunk.len() * BITS_PER_MEASUREMENT <= MAX_ENTRY_BYTES * 8
        );
    }
    let chunks = chunk_measurements(&measurements, 7);
    for chunk in &chunks {
        assert!(
            ENVELOPE_OVERHEAD_BITS + chunk.len() * BITS_PER_MEASUREMENT <= MAX_ENTRY_BYTES * 8
        );
    }
}
