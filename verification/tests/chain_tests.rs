use pvz_overlay::chain::{PointerChain, ReadRequest};

fn run_chain(base: usize, offsets: Vec<usize>, words: &[u32]) -> (Vec<ReadRequest>, Option<usize>) {
    let mut chain = PointerChain::new(base, offsets);
    let mut requests = Vec::new();
    let mut i = 0;
    while let Some(request) = chain.next_read() {
        requests.push(request);
        if chain.supply(words[i]).is_err() {
            break;
        }
        i += 1;
    }
    (requests, chain.result())
}

#[test]
fn chain_without_levels_is_its_base() {
    let (requests, result) = run_chain(0x006A_9EC0, vec![], &[]);
    assert!(requests.is_empty());
    assert_eq!(result, Some(0x006A_9EC0));
}

#[test]
fn chain_dereferences_and_adds_offsets() {
    let (requests, result) = run_chain(0x006A_9EC0, vec![0x768, 0x90, 0xC8], &[0x1000, 0x2000, 0x3000]);
    assert_eq!(
        requests,
        vec![
            ReadRequest { address: 0x006A_9EC0, prefill: 0x006A_9EC0 },
            ReadRequest { address: 0x1768, prefill: 0x1768 },
            ReadRequest { address: 0x2090, prefill: 0x2090 },
        ]
    );
    assert_eq!(result, Some(0x30C8));
}

#[test]
fn read_replaces_only_the_low_word() {
    if usize::BITS == 64 {
        let base: usize = ((0x5_u64 << 32) | 0x10) as usize;
        let (requests, result) = run_chain(base, vec![0x4], &[0xABCD]);
        assert_eq!(requests, vec![ReadRequest { address: base, prefill: 0x10 }]);
        assert_eq!(result, Some(((0x5_u64 << 32) | 0xABD1) as usize));
    }
}

#[test]
fn chain_reports_overflow() {
    let mut chain = PointerChain::new(0x10, vec![usize::MAX, 0x4]);
    assert!(chain.next_read().is_some());
    assert!(chain.supply(0x20).is_err());
    assert_eq!(chain.next_read(), None);
    assert_eq!(chain.result(), None);
}

#[test]
fn unfinished_chain_has_no_result() {
    let mut chain = PointerChain::new(0x10, vec![0x4, 0x8]);
    chain.supply(0x100).unwrap();
    assert_eq!(chain.result(), None);
    assert_eq!(chain.next_read(), Some(ReadRequest { address: 0x104, prefill: 0x104 }));
    chain.supply(0x200).unwrap();
    assert_eq!(chain.result(), Some(0x208));
}
