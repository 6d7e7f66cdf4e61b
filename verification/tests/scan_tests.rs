use std::collections::HashMap;

use pvz_overlay::scan::{
    field_chain_offsets, is_live_zombie, ScanStep, Zombie, ZombieScan, BASE_ADDRESS,
    ZOMBIE_SLOTS, ZOMBIE_STRIDE,
};

const OFFSETS: [usize; 6] = [0xC8, 0xD0, 0xDC, 0xEC, 0x2C, 0x30];

/// A game memory whose chains all lead to a table at 0x3000; reads outside
/// the map fail and leave the buffer as it was.
fn memory() -> HashMap<usize, u32> {
    let mut m = HashMap::new();
    m.insert(BASE_ADDRESS, 0x1000);
    m.insert(0x1000 + 0x768, 0x2000);
    m.insert(0x2000 + 0x90, 0x3000);
    m
}

fn put_record(m: &mut HashMap<usize, u32>, slot: usize, words: [u32; 6]) {
    for k in 0..6 {
        m.insert(0x3000 + OFFSETS[k] + ZOMBIE_STRIDE * slot, words[k]);
    }
}

fn run(m: &HashMap<usize, u32>) -> (Vec<Zombie>, usize, ScanStep) {
    let mut scan = ZombieScan::new();
    let mut reads = 0;
    loop {
        match scan.next_step() {
            ScanStep::Read(request) => {
                let word = m.get(&request.address).copied().unwrap_or(request.prefill);
                scan.supply(word);
                reads += 1;
            }
            other => return (scan.zombies().clone(), reads, other),
        }
    }
}

fn record(hp: u32, removed: u32, x: f32, y: f32) -> [u32; 6] {
    [hp, 0, 0, removed, x.to_bits(), y.to_bits()]
}

#[test]
fn field_chains_are_the_documented_offsets() {
    assert_eq!(field_chain_offsets(0), vec![0x768, 0x90, 0xC8]);
    assert_eq!(field_chain_offsets(3), vec![0x768, 0x90, 0xEC]);
    assert_eq!(field_chain_offsets(5), vec![0x768, 0x90, 0x30]);
}

#[test]
fn liveness_bounds() {
    assert!(!is_live_zombie(0, 0, 0, 0));
    assert!(is_live_zombie(1, 0, 0, 0));
    assert!(is_live_zombie(270, 0, 0, 0));
    assert!(is_live_zombie(20000, 20000, 20000, 0));
    assert!(!is_live_zombie(20000, 20000, 20001, 0));
    assert!(!is_live_zombie(270, 0, 0, 1));
    assert!(!is_live_zombie(60001, 0, 0, 0));
}

#[test]
fn liveness_sums_modulo_two_to_the_32() {
    assert!(!is_live_zombie(u32::MAX, 1, 0, 0));
    assert!(is_live_zombie(u32::MAX, 2, 100, 0));
}

#[test]
fn empty_table_reads_everything_and_finds_nothing() {
    let (zombies, reads, end) = run(&memory());
    assert_eq!(end, ScanStep::Done);
    assert_eq!(reads, 18 + 6 * ZOMBIE_SLOTS);
    assert!(zombies.is_empty());
}

#[test]
fn scan_reads_chains_then_records() {
    let m = memory();
    let mut scan = ZombieScan::new();
    let mut addresses = Vec::new();
    for _ in 0..30 {
        match scan.next_step() {
            ScanStep::Read(request) => {
                addresses.push(request.address);
                let word = m.get(&request.address).copied().unwrap_or(request.prefill);
                scan.supply(word);
            }
            _ => panic!("scan ended early"),
        }
    }
    assert_eq!(&addresses[0..3], &[BASE_ADDRESS, 0x1768, 0x2090]);
    assert_eq!(&addresses[15..18], &[BASE_ADDRESS, 0x1768, 0x2090]);
    let first_record: Vec<usize> = OFFSETS.iter().map(|o| 0x3000 + o).collect();
    assert_eq!(&addresses[18..24], first_record.as_slice());
    let second_record: Vec<usize> = OFFSETS.iter().map(|o| 0x3000 + o + ZOMBIE_STRIDE).collect();
    assert_eq!(&addresses[24..30], second_record.as_slice());
}

#[test]
fn scan_keeps_live_records_in_order() {
    let mut m = memory();
    put_record(&mut m, 0, record(270, 0, 100.0, 200.0));
    put_record(&mut m, 1, record(0, 0, 1.0, 1.0));
    put_record(&mut m, 2, record(270, 1, 2.0, 2.0));
    put_record(&mut m, 3, record(70000, 0, 3.0, 3.0));
    put_record(&mut m, 4, record(1100, 0, 640.5, 30.0));
    put_record(&mut m, 5, [0; 6]);
    let (zombies, _, end) = run(&m);
    assert_eq!(end, ScanStep::Done);
    assert_eq!(
        zombies,
        vec![
            Zombie { x_bits: 100.0f32.to_bits(), y_bits: 200.0f32.to_bits() },
            Zombie { x_bits: 640.5f32.to_bits(), y_bits: 30.0f32.to_bits() },
        ]
    );
}

#[test]
fn failed_reads_keep_the_previous_record() {
    let mut m = memory();
    put_record(&mut m, 0, record(270, 0, 5.0, 6.0));
    put_record(&mut m, 2, [0; 6]);
    let (zombies, _, _) = run(&m);
    let z = Zombie { x_bits: 5.0f32.to_bits(), y_bits: 6.0f32.to_bits() };
    assert_eq!(zombies, vec![z, z]);
}

#[test]
fn unreadable_chain_start_keeps_the_base_in_the_buffer() {
    let mut scan = ZombieScan::new();
    match scan.next_step() {
        ScanStep::Read(request) => {
            assert_eq!(request.address, BASE_ADDRESS);
            assert_eq!(request.prefill, BASE_ADDRESS as u32);
            scan.supply(request.prefill);
        }
        _ => panic!("expected a read"),
    }
    match scan.next_step() {
        ScanStep::Read(request) => assert_eq!(request.address, BASE_ADDRESS + 0x768),
        _ => panic!("expected a read"),
    }
}

#[test]
fn overflowing_chain_stops_the_scan() {
    let mut scan = ZombieScan::new();
    scan.supply(0x10);
    scan.supply(u32::MAX);
    if usize::BITS == 32 {
        assert_eq!(scan.next_step(), ScanStep::Overflow);
    } else {
        assert!(matches!(scan.next_step(), ScanStep::Read(_)));
    }
    assert!(scan.zombies().is_empty());
}
