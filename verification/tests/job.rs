use ethereum_snapshot::address::Address;
use ethereum_snapshot::balance::Balance;
use ethereum_snapshot::config::{snapshot_file_name, Config, ConfigError};
use ethereum_snapshot::error::BalanceError;
use ethereum_snapshot::job::{return_data_of, JobAction, JobEvent, Stage, TokenJob};
use ethereum_snapshot::logs::TRANSFER_TOPIC;
use ethereum_snapshot::query::{balance_requests, pool_token, query_contract, GET_RESERVES, TOTAL_SUPPLY};
use ethereum_snapshot::ranges::BlockRange;
use ethereum_snapshot::rpc::RpcReply;
use ethereum_snapshot::run::{after_scans, scan_tasks, token_jobs};
use ethereum_snapshot::scan::{merge_scans, FailedRange, ScanOutcome};
use ethereum_snapshot::logs::TransferEvent;
use ethereum_snapshot::snapshot::{Snapshot, SnapshotEntry};

fn address(last: u8) -> Address {
    let mut bytes = [0u8; 20];
    bytes[19] = last;
    Address::from_bytes(bytes)
}

fn reply(id: u64, result: &str) -> RpcReply {
    RpcReply { id, result: Some(result.to_string()) }
}

fn word(n: u64) -> String {
    format!("{:064x}", n)
}

fn config(tokens: Vec<Address>, names: Vec<&str>) -> Config {
    Config {
        contract_creation_block: 100,
        contract_address: address(0xcc),
        block_height: 250,
        token_addresses: tokens,
        token_names: names.into_iter().map(String::from).collect(),
        batch_size: 100,
    }
}

#[test]
fn settings_need_a_name_for_each_token() {
    assert_eq!(config(vec![address(1), address(2)], vec!["a", "b"]).validate(), Ok(()));
    assert_eq!(config(vec![], vec![]).validate(), Ok(()));
    assert_eq!(
        config(vec![address(1), address(2)], vec!["a"]).validate(),
        Err(ConfigError::TokenListsDiffer)
    );
    assert_eq!(
        config(vec![], vec!["a"]).validate(),
        Err(ConfigError::TokenListsDiffer)
    );
    assert_eq!(
        ConfigError::TokenListsDiffer.message(),
        "Token addresses and names must be the same length"
    );
}

#[test]
fn snapshot_files_are_named_after_the_token() {
    assert_eq!(snapshot_file_name("SDL"), "SDL-balances.json");
    assert_eq!(snapshot_file_name(""), "-balances.json");
}

#[test]
fn a_plain_token_takes_one_round_trip() {
    let holders = vec![address(1), address(2), address(3)];
    let job = TokenJob::new(address(9), holders.clone(), 250, &pool_token());
    assert!(!job.pool);
    assert!(!job.is_done());
    let (job, action) = job.step(JobEvent::Begin);
    assert_eq!(action, JobAction::SendBatch(balance_requests(&address(9), &holders, 250)));
    assert_eq!(job.stage, Stage::AwaitBalances);
    let answers = vec![reply(3, "0x0"), reply(1, "0x2a"), reply(2, "0x1")];
    let (job, action) = job.step(JobEvent::Batch(Ok(answers)));
    assert_eq!(
        action,
        JobAction::Write(Snapshot {
            entries: vec![
                SnapshotEntry { holder: address(1), amount: Balance::from_u64(42) },
                SnapshotEntry { holder: address(2), amount: Balance::from_u64(1) },
            ],
            unavailable: vec![],
        })
    );
    assert!(job.is_done());
    assert_eq!(job.holders, holders);
}

#[test]
fn a_pool_token_takes_three_round_trips() {
    let pool = pool_token();
    let holders = vec![address(1), address(2)];
    let job = TokenJob::new(pool, holders.clone(), 250, &pool);
    assert!(job.pool);
    let (job, action) = job.step(JobEvent::Begin);
    assert_eq!(action, JobAction::SendBatch(balance_requests(&pool, &holders, 250)));
    let (job, action) =
        job.step(JobEvent::Batch(Ok(vec![reply(1, "0x1f4"), reply(2, "0x0")])));
    assert_eq!(action, JobAction::SendCall(query_contract(&pool, 250, &GET_RESERVES)));
    assert_eq!(
        job.stage,
        Stage::AwaitReserves { balances: vec![Balance::from_u64(500), Balance::zero()] }
    );
    let reserves = format!("0x{}{}{}", word(77), word(2_000_000), word(1_700_000_000));
    let (job, action) = job.step(JobEvent::Call(Ok(reply(1, &reserves))));
    assert_eq!(action, JobAction::SendCall(query_contract(&pool, 250, &TOTAL_SUPPLY)));
    assert!(!job.is_done());
    let supply = format!("0x{}", word(1000));
    let (job, action) = job.step(JobEvent::Call(Ok(reply(1, &supply))));
    assert_eq!(
        action,
        JobAction::Write(Snapshot {
            entries: vec![SnapshotEntry {
                holder: address(1),
                amount: Balance::from_u64(1_000_000)
            }],
            unavailable: vec![],
        })
    );
    assert!(job.is_done());
}

#[test]
fn a_pool_without_supply_reports_its_holders() {
    let pool = pool_token();
    let job = TokenJob::new(pool, vec![address(1), address(2)], 250, &pool);
    let (job, _) = job.step(JobEvent::Begin);
    let (job, _) = job.step(JobEvent::Batch(Ok(vec![reply(1, "0x1f4"), reply(2, "0x0")])));
    let (job, _) =
        job.step(JobEvent::Call(Ok(reply(1, &format!("0x{}{}", word(77), word(2_000_000))))));
    let (job, action) = job.step(JobEvent::Call(Ok(reply(1, &format!("0x{}", word(0))))));
    assert_eq!(
        action,
        JobAction::Write(Snapshot { entries: vec![], unavailable: vec![address(1)] })
    );
    assert!(job.is_done());
}

#[test]
fn a_batch_that_fails_gives_the_token_up() {
    let job = TokenJob::new(address(9), vec![address(1)], 250, &pool_token());
    let (job, _) = job.step(JobEvent::Begin);
    let (job, action) = job.step(JobEvent::Batch(Err(BalanceError::Transport)));
    assert_eq!(action, JobAction::Abandon(BalanceError::Transport));
    assert!(job.is_done());

    let job = TokenJob::new(address(9), vec![address(1)], 250, &pool_token());
    let (job, _) = job.step(JobEvent::Begin);
    let (job, action) = job.step(JobEvent::Batch(Ok(vec![reply(1, "nonsense")])));
    assert_eq!(action, JobAction::Abandon(BalanceError::ParsingError));
    assert!(job.is_done());
}

#[test]
fn a_pool_call_that_fails_gives_the_token_up() {
    let pool = pool_token();
    let begun = || {
        let job = TokenJob::new(pool, vec![address(1)], 250, &pool);
        let (job, _) = job.step(JobEvent::Begin);
        job.step(JobEvent::Batch(Ok(vec![reply(1, "0x1f4")]))).0
    };
    let (job, action) = begun().step(JobEvent::Call(Err(BalanceError::Transport)));
    assert_eq!(action, JobAction::Abandon(BalanceError::Transport));
    assert!(job.is_done());
    let (_, action) = begun().step(JobEvent::Call(Ok(reply(1, &format!("0x{}", word(1))))));
    assert_eq!(action, JobAction::Abandon(BalanceError::ParsingError));
    let (_, action) = begun().step(JobEvent::Call(Ok(RpcReply { id: 1, result: None })));
    assert_eq!(action, JobAction::Abandon(BalanceError::ParsingError));
    let two_words = format!("0x{}{}", word(1), word(2));
    let (_, action) = begun().step(JobEvent::Call(Ok(reply(2, &two_words))));
    assert_eq!(action, JobAction::Abandon(BalanceError::ParsingError));
    let (job, _) = begun().step(JobEvent::Call(Ok(reply(1, &two_words))));
    let (job, action) = job.step(JobEvent::Call(Ok(reply(1, "0x"))));
    assert_eq!(action, JobAction::Abandon(BalanceError::ParsingError));
    assert!(job.is_done());
}

#[test]
fn an_event_out_of_turn_changes_nothing() {
    let job = TokenJob::new(address(9), vec![address(1)], 250, &pool_token());
    let (job, action) = job.step(JobEvent::Batch(Ok(vec![])));
    assert_eq!(action, JobAction::Ignored);
    assert_eq!(job.stage, Stage::Start);
    let (job, _) = job.step(JobEvent::Begin);
    let (job, action) = job.step(JobEvent::Begin);
    assert_eq!(action, JobAction::Ignored);
    assert_eq!(job.stage, Stage::AwaitBalances);
    let (job, action) = job.step(JobEvent::Call(Ok(reply(1, "0x1"))));
    assert_eq!(action, JobAction::Ignored);
    let (job, _) = job.step(JobEvent::Batch(Ok(vec![reply(1, "0x1")])));
    assert!(job.is_done());
    let (job, action) = job.step(JobEvent::Begin);
    assert_eq!(action, JobAction::Ignored);
    assert!(job.is_done());
}

#[test]
fn return_data_needs_the_id_one_and_a_result() {
    assert_eq!(return_data_of(Ok(reply(1, "0xab"))), Ok("0xab".to_string()));
    assert_eq!(return_data_of(Ok(reply(2, "0xab"))), Err(BalanceError::ParsingError));
    assert_eq!(
        return_data_of(Ok(RpcReply { id: 1, result: None })),
        Err(BalanceError::ParsingError)
    );
    assert_eq!(return_data_of(Err(BalanceError::Transport)), Err(BalanceError::Transport));
}

#[test]
fn scans_are_laid_out_batch_by_batch() {
    let tasks = scan_tasks(&config(vec![], vec![]), &TRANSFER_TOPIC);
    assert_eq!(tasks.len(), 2);
    assert_eq!(tasks[0].range, BlockRange { from: 100, to: 200 });
    assert_eq!(tasks[1].range, BlockRange { from: 201, to: 250 });
    assert_eq!(tasks[0].query.address, "0x00000000000000000000000000000000000000cc");
    assert_eq!(tasks[0].query.from_block, "0x64");
    assert_eq!(tasks[0].query.to_block, "0xc8");
    assert_eq!(tasks[1].query.from_block, "0xc9");
    assert_eq!(tasks[1].query.to_block, "0xfa");
    assert_eq!(
        tasks[1].query.topic,
        "0xddf252ad1be2c89b69c2b068fc378daa952ba7f163c4a11628f55a4df523b3ef"
    );
}

#[test]
fn every_token_gets_its_job_though_a_scan_failed() {
    let settings = config(vec![address(0x10), pool_token(), address(0x11)], vec!["a", "b", "c"]);
    let outcomes = vec![
        ScanOutcome {
            range: BlockRange { from: 100, to: 200 },
            result: Err(BalanceError::Transport),
        },
        ScanOutcome {
            range: BlockRange { from: 201, to: 250 },
            result: Ok(vec![TransferEvent { from: address(1), to: address(2) }]),
        },
    ];
    let (merged, jobs) = after_scans(&settings, &outcomes, &pool_token());
    assert_eq!(
        merged.failed,
        vec![FailedRange { range: BlockRange { from: 100, to: 200 }, error: BalanceError::Transport }]
    );
    assert_eq!(jobs.len(), 3);
    for (job, token) in jobs.iter().zip(settings.token_addresses.iter()) {
        assert_eq!(job.token, *token);
        assert_eq!(job.holders, vec![address(1), address(2)]);
        assert_eq!(job.block, 250);
        assert_eq!(job.stage, Stage::Start);
    }
    assert!(!jobs[0].pool);
    assert!(jobs[1].pool);
    assert!(!jobs[2].pool);
    assert_eq!(token_jobs(&settings, &merge_scans(&outcomes), &pool_token()), jobs);
}
