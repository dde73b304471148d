use ethereum_snapshot::address::Address;
use ethereum_snapshot::error::BalanceError;
use ethereum_snapshot::holders::HolderSet;
use ethereum_snapshot::logs::{
    extract_transfers, log_query, transfer_of, LogEntry, LogQuery, TransferEvent, TRANSFER_TOPIC,
};
use ethereum_snapshot::ranges::{plan_batches, BlockRange};
use ethereum_snapshot::scan::{merge_scans, scan_outcome, FailedRange, ScanOutcome};

fn address(last: u8) -> Address {
    let mut bytes = [0u8; 20];
    bytes[19] = last;
    Address::from_bytes(bytes)
}

fn topic_of(a: &Address) -> String {
    format!("0x000000000000000000000000{}", &a.to_hex()[2..])
}

fn log(from: &Address, to: &Address) -> LogEntry {
    LogEntry {
        topics: vec![
            "0xddf252ad1be2c89b69c2b068fc378daa952ba7f163c4a11628f55a4df523b3ef".to_string(),
            topic_of(from),
            topic_of(to),
        ],
    }
}

/// What a node that holds `history` answers to the scan of `range`.
fn node(history: &[(u64, Address, Address)], range: BlockRange) -> Vec<LogEntry> {
    history
        .iter()
        .filter(|(block, _, _)| range.from <= *block && *block <= range.to)
        .map(|(_, from, to)| log(from, to))
        .collect()
}

fn holders_for(history: &[(u64, Address, Address)], creation: u64, target: u64, size: u64) -> Vec<Address> {
    let outcomes: Vec<ScanOutcome> = plan_batches(creation, target, size)
        .into_iter()
        .map(|range| scan_outcome(range, Ok(node(history, range))))
        .collect();
    let merged = merge_scans(&outcomes);
    assert!(merged.failed.is_empty());
    assert_eq!(merged.succeeded, outcomes.len());
    merged.holders.to_vec()
}

#[test]
fn the_transfer_topic_is_the_hash_of_the_signature() {
    let hash = ethers::utils::keccak256("Transfer(address,address,uint256)".as_bytes());
    assert_eq!(TRANSFER_TOPIC, hash);
}

#[test]
fn log_query_names_contract_topic_and_blocks() {
    let contract = Address::from_hex("0xd27b7d42d24d8f7c1cf5c46ccd3b986c396fde17").unwrap();
    assert_eq!(
        log_query(&contract, &TRANSFER_TOPIC, BlockRange { from: 100, to: 200 }),
        LogQuery {
            address: "0xd27b7d42d24d8f7c1cf5c46ccd3b986c396fde17".to_string(),
            topic: "0xddf252ad1be2c89b69c2b068fc378daa952ba7f163c4a11628f55a4df523b3ef"
                .to_string(),
            from_block: "0x64".to_string(),
            to_block: "0xc8".to_string(),
        }
    );
}

#[test]
fn a_log_names_sender_and_receiver() {
    let a = address(0xa);
    let b = address(0xb);
    assert_eq!(transfer_of(&log(&a, &b)), Some(TransferEvent { from: a, to: b }));
    let mut with_data_topic = log(&a, &b);
    with_data_topic.topics.push(topic_of(&address(0xc)));
    assert_eq!(transfer_of(&with_data_topic), Some(TransferEvent { from: a, to: b }));
}

#[test]
fn a_log_with_too_few_topics_names_nobody() {
    let a = address(0xa);
    let mut short = log(&a, &a);
    short.topics.pop();
    assert_eq!(transfer_of(&short), None);
    assert_eq!(transfer_of(&LogEntry { topics: vec![] }), None);
    assert_eq!(extract_transfers(&vec![log(&a, &a), short]), Err(BalanceError::ParsingError));
}

#[test]
fn a_log_with_a_broken_topic_fails_the_range() {
    let a = address(0xa);
    let mut broken = log(&a, &a);
    broken.topics[2] = "0x1234".to_string();
    assert_eq!(transfer_of(&broken), None);
    let range = BlockRange { from: 1, to: 2 };
    let outcome = scan_outcome(range, Ok(vec![log(&a, &a), broken]));
    assert_eq!(outcome, ScanOutcome { range, result: Err(BalanceError::ParsingError) });
}

#[test]
fn transfers_come_in_the_order_of_the_logs() {
    let (a, b, c) = (address(0xa), address(0xb), address(0xc));
    assert_eq!(
        extract_transfers(&vec![log(&a, &b), log(&c, &a)]),
        Ok(vec![TransferEvent { from: a, to: b }, TransferEvent { from: c, to: a }])
    );
    assert_eq!(extract_transfers(&vec![]), Ok(vec![]));
}

#[test]
fn a_failed_query_is_tagged_with_its_range() {
    let range = BlockRange { from: 201, to: 250 };
    let outcome = scan_outcome(range, Err(BalanceError::Transport));
    assert_eq!(outcome, ScanOutcome { range, result: Err(BalanceError::Transport) });
    let merged = merge_scans(&vec![outcome]);
    assert_eq!(merged.failed, vec![FailedRange { range, error: BalanceError::Transport }]);
    assert_eq!(merged.holders.len(), 0);
}

#[test]
fn holder_set_keeps_each_account_once() {
    let mut set = HolderSet::new();
    assert!(set.insert(address(1)));
    assert!(set.insert(address(2)));
    assert!(!set.insert(address(1)));
    assert!(set.insert(address(3)));
    assert!(!set.insert(address(3)));
    assert_eq!(set.len(), 3);
    assert!(set.contains(&address(2)));
    assert!(!set.contains(&address(4)));
    assert_eq!(set.to_vec(), vec![address(1), address(2), address(3)]);
}

#[test]
fn a_transfer_in_the_second_batch_is_found() {
    let (a, b) = (address(0xa), address(0xb));
    let history = [(230, a, b)];
    let ranges = plan_batches(100, 250, 100);
    assert_eq!(ranges, vec![BlockRange { from: 100, to: 200 }, BlockRange { from: 201, to: 250 }]);
    assert_eq!(node(&history, ranges[0]), vec![]);
    assert_eq!(holders_for(&history, 100, 250, 100), vec![a, b]);
}

#[test]
fn the_batch_size_does_not_change_the_holders() {
    let acc: Vec<Address> = (1..=9).map(address).collect();
    let history = [
        (100, acc[0], acc[1]),
        (100, acc[1], acc[2]),
        (137, acc[2], acc[0]),
        (200, acc[3], acc[4]),
        (201, acc[4], acc[5]),
        (249, acc[0], acc[6]),
        (250, acc[6], acc[7]),
        (251, acc[7], acc[8]),
        (99, acc[8], acc[8]),
    ];
    let mut expected = acc[..8].to_vec();
    expected.sort();
    for size in [0u64, 1, 2, 3, 7, 50, 99, 100, 101, 149, 150, 151, 1000, u64::MAX] {
        let mut holders = holders_for(&history, 100, 250, size);
        holders.sort();
        assert_eq!(holders, expected, "batch size {size}");
    }
}

#[test]
fn a_failed_batch_does_not_hide_the_others() {
    let (a, b, c, d) = (address(0xa), address(0xb), address(0xc), address(0xd));
    let history = [(150, a, b), (230, c, d), (240, d, a)];
    let ranges = plan_batches(100, 250, 100);
    let outcomes = vec![
        scan_outcome(ranges[0], Err(BalanceError::Transport)),
        scan_outcome(ranges[1], Ok(node(&history, ranges[1]))),
    ];
    let merged = merge_scans(&outcomes);
    assert_eq!(merged.succeeded, 1);
    assert_eq!(merged.holders.to_vec(), vec![c, d, a]);
    assert_eq!(
        merged.failed,
        vec![FailedRange { range: ranges[0], error: BalanceError::Transport }]
    );
    let outcomes = vec![
        scan_outcome(ranges[0], Ok(node(&history, ranges[0]))),
        scan_outcome(ranges[1], Err(BalanceError::ParsingError)),
    ];
    let merged = merge_scans(&outcomes);
    assert_eq!(merged.holders.to_vec(), vec![a, b]);
    assert_eq!(
        merged.failed,
        vec![FailedRange { range: ranges[1], error: BalanceError::ParsingError }]
    );
}

#[test]
fn holders_come_in_the_order_in_which_they_were_first_seen() {
    let (a, b, c) = (address(0xa), address(0xb), address(0xc));
    let history = [(1, b, a), (2, a, c), (3, c, b)];
    assert_eq!(holders_for(&history, 0, 10, 3), vec![b, a, c]);
}

#[test]
fn accounts_with_the_same_last_bytes_are_told_apart() {
    let mut first = [0u8; 20];
    let mut second = [0u8; 20];
    let mut third = [0u8; 20];
    first[0] = 1;
    second[0] = 2;
    third[11] = 3;
    for bytes in [&mut first, &mut second, &mut third] {
        bytes[12..].copy_from_slice(&[9, 8, 7, 6, 5, 4, 3, 2]);
    }
    let (a, b, c) = (Address::from_bytes(first), Address::from_bytes(second), Address::from_bytes(third));
    let mut set = HolderSet::new();
    assert!(set.insert(a));
    assert!(set.insert(b));
    assert!(!set.insert(a));
    assert!(set.contains(&a));
    assert!(set.contains(&b));
    assert!(!set.contains(&c));
    assert!(set.insert(c));
    assert!(!set.insert(b));
    assert_eq!(set.to_vec(), vec![a, b, c]);
}

#[test]
fn many_holders_are_merged_quickly() {
    let account = |n: u32| {
        let mut bytes = [0u8; 20];
        bytes[16..].copy_from_slice(&n.to_be_bytes());
        bytes[3] = (n % 7) as u8;
        Address::from_bytes(bytes)
    };
    let transfers: Vec<TransferEvent> = (0..200_000u32)
        .map(|n| TransferEvent { from: account(n % 50_000), to: account((n * 7 + 1) % 50_000) })
        .collect();
    let outcome =
        ScanOutcome { range: BlockRange { from: 0, to: 9 }, result: Ok(transfers.clone()) };
    let merged = merge_scans(&vec![outcome]);
    assert_eq!(merged.holders.len(), 50_000);
    let holders = merged.holders.to_vec();
    assert_eq!(holders[0], account(0));
    assert_eq!(holders[1], account(1));
    assert_eq!(holders[2], account(8));
    let mut sorted = holders.clone();
    sorted.sort();
    sorted.dedup();
    assert_eq!(sorted.len(), 50_000);
    assert!(transfers.iter().all(|t| merged.holders.contains(&t.from)));
}

#[test]
fn the_order_of_the_scans_does_not_change_the_holders() {
    let acc: Vec<Address> = (1..=6).map(address).collect();
    let scans = |order: [usize; 3]| {
        let parts = [
            (BlockRange { from: 0, to: 9 }, vec![TransferEvent { from: acc[0], to: acc[1] }]),
            (BlockRange { from: 10, to: 19 }, vec![TransferEvent { from: acc[2], to: acc[0] }]),
            (BlockRange { from: 20, to: 29 }, vec![TransferEvent { from: acc[3], to: acc[4] }]),
        ];
        let outcomes: Vec<ScanOutcome> = order
            .iter()
            .map(|i| ScanOutcome { range: parts[*i].0, result: Ok(parts[*i].1.clone()) })
            .collect();
        let mut holders = merge_scans(&outcomes).holders.to_vec();
        holders.sort();
        holders
    };
    let expected = scans([0, 1, 2]);
    assert_eq!(expected, acc[..5].to_vec());
    for order in [[0, 2, 1], [1, 0, 2], [1, 2, 0], [2, 0, 1], [2, 1, 0]] {
        assert_eq!(scans(order), expected);
    }
}
