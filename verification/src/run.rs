//! A whole run, laid out: first the scans, one for each batch of blocks,
//! then one snapshot job for each token, all with the same holders.

use crate::address::{address_text, Address};
use crate::config::Config;
use crate::hex::{hex_text, prefix};
use crate::holders::distinct;
use crate::job::{Stage, TokenJob};
use crate::logs::{log_query, LogQuery};
use crate::ranges::{batches, plan_batches, BlockRange};
use crate::rpc::block_tag;
use crate::scan::{failures, found, merge_scans, Merged, ScanOutcome};
use vstd::prelude::*;

verus! {

/// The scan of one batch: its blocks, and the query that asks for their
/// logs.
#[derive(Debug, PartialEq, Eq)]
pub struct ScanTask {
    pub range: BlockRange,
    pub query: LogQuery,
}

/// The scans of a run: one for each batch from the contract's creation to
/// the target block, in the order of the blocks. None depends on another, so
/// they may all be sent before the first answer is in.
pub fn scan_tasks(config: &Config, topic: &[u8; 32]) -> (r: Vec<ScanTask>)
    ensures
        r@.len() == batches(
            config.contract_creation_block,
            config.block_height,
            config.batch_size,
        ).len(),
        forall|i: int|
            0 <= i < r@.len() ==> {
                let range = batches(
                    config.contract_creation_block,
                    config.block_height,
                    config.batch_size,
                )[i];
                &&& (#[trigger] r@[i]).range == range
                &&& r@[i].query.address@ == address_text(config.contract_address@)
                &&& r@[i].query.topic@ == prefix() + hex_text(topic@)
                &&& r@[i].query.from_block@ == block_tag(range.from)
                &&& r@[i].query.to_block@ == block_tag(range.to)
            },
{
    let ranges = plan_batches(
        config.contract_creation_block,
        config.block_height,
        config.batch_size,
    );
    let mut tasks: Vec<ScanTask> = Vec::new();
    let mut i: usize = 0;
    while i < ranges.len()
        invariant
            i <= ranges@.len(),
            tasks@.len() == i,
            forall|k: int|
                0 <= k < i ==> {
                    &&& (#[trigger] tasks@[k]).range == ranges@[k]
                    &&& tasks@[k].query.address@ == address_text(config.contract_address@)
                    &&& tasks@[k].query.topic@ == prefix() + hex_text(topic@)
                    &&& tasks@[k].query.from_block@ == block_tag(ranges@[k].from)
                    &&& tasks@[k].query.to_block@ == block_tag(ranges@[k].to)
                },
        decreases ranges@.len() - i,
    {
        let range = ranges[i];
        tasks.push(ScanTask { range, query: log_query(&config.contract_address, topic, range) });
        i += 1;
    }
    tasks
}

/// The snapshot jobs of a run: one for each token of the settings, in their
/// order, each for the target block and for the same holders in the same
/// order. Scans that failed take no job away: whatever `merged.failed`
/// holds, every token gets its job.
pub fn token_jobs(config: &Config, merged: &Merged, pool_token: &Address) -> (r: Vec<TokenJob>)
    ensures
        r@.len() == config.token_addresses@.len(),
        forall|i: int|
            0 <= i < r@.len() ==> {
                &&& (#[trigger] r@[i]).token == config.token_addresses@[i]
                &&& r@[i].holders@ == merged.holders@
                &&& r@[i].block == config.block_height
                &&& r@[i].pool == (config.token_addresses@[i] == *pool_token)
                &&& r@[i].stage == Stage::Start
            },
{
    let mut jobs: Vec<TokenJob> = Vec::new();
    let mut i: usize = 0;
    while i < config.token_addresses.len()
        invariant
            i <= config.token_addresses@.len(),
            jobs@.len() == i,
            forall|k: int|
                0 <= k < i ==> {
                    &&& (#[trigger] jobs@[k]).token == config.token_addresses@[k]
                    &&& jobs@[k].holders@ == merged.holders@
                    &&& jobs@[k].block == config.block_height
                    &&& jobs@[k].pool == (config.token_addresses@[k] == *pool_token)
                    &&& jobs@[k].stage == Stage::Start
                },
        decreases config.token_addresses@.len() - i,
    {
        jobs.push(
            TokenJob::new(
                config.token_addresses[i],
                merged.holders.to_vec(),
                config.block_height,
                pool_token,
            ),
        );
        i += 1;
    }
    jobs
}

/// From the scans to the jobs in one step: the holders that the scans
/// found, the ranges whose scan failed, and a job for each token.
pub fn after_scans(config: &Config, outcomes: &Vec<ScanOutcome>, pool_token: &Address) -> (r: (
    Merged,
    Vec<TokenJob>,
))
    ensures
        r.0.holders.wf(),
        r.0.holders@ == distinct(found(outcomes@)),
        r.0.failed@ == failures(outcomes@),
        r.0.succeeded + r.0.failed@.len() == outcomes@.len(),
        r.1@.len() == config.token_addresses@.len(),
        forall|i: int|
            0 <= i < r.1@.len() ==> {
                &&& (#[trigger] r.1@[i]).token == config.token_addresses@[i]
                &&& r.1@[i].holders@ == distinct(found(outcomes@))
                &&& r.1@[i].block == config.block_height
                &&& r.1@[i].pool == (config.token_addresses@[i] == *pool_token)
                &&& r.1@[i].stage == Stage::Start
            },
{
    let merged = merge_scans(outcomes);
    let jobs = token_jobs(config, &merged, pool_token);
    (merged, jobs)
}

} // verus!
