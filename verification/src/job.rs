//! Taking the snapshot of one token, step by step: this module decides what
//! to ask the node next and what to make of its answer; sending the calls
//! and storing the snapshot is left to the caller.

use crate::address::{address_word, Address};
use crate::balance::{amounts_of, has_word, word_value, Balance};
use crate::error::BalanceError;
use crate::pool::{parse_reserves, parse_total_supply, TokenPair};
use crate::query::{
    balance_requests, balances_of_replies, query_contract, BALANCE_OF, GET_RESERVES, TOTAL_SUPPLY,
};
use crate::rpc::{call_of, collected, EthCall, Expected, RpcReply};
use crate::snapshot::{
    held, held_underlying, holding, paired, pool_snapshot, token_snapshot, Snapshot,
};
use vstd::prelude::*;

verus! {

/// How far the snapshot of a token has come.
#[derive(Debug, PartialEq, Eq)]
pub enum Stage {
    /// Nothing was asked yet.
    Start,
    /// The batch of balance calls is out.
    AwaitBalances,
    /// The balances are in, and the call for the pool's reserves is out.
    AwaitReserves { balances: Vec<Balance> },
    /// The reserves are in too, and the call for the pool's supply is out.
    AwaitSupply { balances: Vec<Balance>, reserves: TokenPair },
    /// The snapshot was handed out, or given up.
    Done,
}

/// The snapshot of one token in the making.
#[derive(Debug, PartialEq, Eq)]
pub struct TokenJob {
    /// The token.
    pub token: Address,
    /// The holders whose balances are read, in the order of the calls.
    pub holders: Vec<Address>,
    /// The block at which everything is read.
    pub block: u64,
    /// Whether the token is the liquidity pool's, so that balances are
    /// turned into their worth in the pool's second reserve.
    pub pool: bool,
    /// How far the job has come.
    pub stage: Stage,
}

/// What the caller tells the job.
#[derive(Debug, PartialEq, Eq)]
pub enum JobEvent {
    /// The job may begin.
    Begin,
    /// The answers to the batch, or why there are none.
    Batch(Result<Vec<RpcReply>, BalanceError>),
    /// The answer to the single call, or why there is none.
    Call(Result<RpcReply, BalanceError>),
}

/// What the job asks of the caller.
#[derive(Debug, PartialEq, Eq)]
pub enum JobAction {
    /// Send these calls as one batch and come back with `JobEvent::Batch`.
    SendBatch(Vec<EthCall>),
    /// Send this call and come back with `JobEvent::Call`.
    SendCall(EthCall),
    /// Store the snapshot; the job is done.
    Write(Snapshot),
    /// Store nothing for this token; the job is done.
    Abandon(BalanceError),
    /// The event does not belong to the stage; nothing has changed.
    Ignored,
}

/// Whether `calls` are the balance calls for the holders, one for each in
/// their order, with the ids from 1 on.
pub open spec fn is_balance_batch(
    calls: Seq<EthCall>,
    token: Address,
    holders: Seq<Address>,
    block: u64,
) -> bool {
    &&& calls.len() == holders.len()
    &&& forall|i: int|
        0 <= i < calls.len() ==> (#[trigger] calls[i])@ == call_of(
            (i + 1) as nat,
            token@,
            BALANCE_OF@,
            address_word(holders[i]@),
            block,
        )
}

/// The return data in the answer to a single call: the answer must carry
/// the id 1 and hold a result.
pub open spec fn return_data(reply: Result<RpcReply, BalanceError>) -> Result<
    Seq<char>,
    BalanceError,
> {
    match reply {
        Err(e) => Err(e),
        Ok(answer) => match answer.result {
            Some(text) => if answer.id == 1 {
                Ok(text@)
            } else {
                Err(BalanceError::ParsingError)
            },
            None => Err(BalanceError::ParsingError),
        },
    }
}

/// Whether the job `next` and the action `action` are what follows when the
/// job `job` is told `event`.
pub open spec fn follows(job: TokenJob, event: JobEvent, next: TokenJob, action: JobAction) -> bool {
    let count = job.holders@.len();
    match (job.stage, event) {
        (Stage::Start, JobEvent::Begin) => {
            &&& next.stage == Stage::AwaitBalances
            &&& action matches JobAction::SendBatch(calls)
            &&& is_balance_batch(calls@, job.token, job.holders@, job.block)
        },
        (Stage::AwaitBalances, JobEvent::Batch(Err(e))) => {
            &&& next.stage == Stage::Done
            &&& action == JobAction::Abandon(e)
        },
        (Stage::AwaitBalances, JobEvent::Batch(Ok(replies))) => match collected(
            replies@,
            count,
            Expected::Quantity,
        ) {
            None => {
                &&& next.stage == Stage::Done
                &&& action == JobAction::Abandon(BalanceError::ParsingError)
            },
            Some(amounts) => if job.pool {
                &&& next.stage matches Stage::AwaitReserves { balances }
                &&& amounts_of(balances@) == amounts
                &&& action matches JobAction::SendCall(call)
                &&& call@ == call_of(1, job.token@, GET_RESERVES@, Seq::empty(), job.block)
            } else {
                &&& next.stage == Stage::Done
                &&& action matches JobAction::Write(snapshot)
                &&& snapshot.entries_view() == held(
                    job.holders@,
                    amounts,
                    paired(job.holders@, amounts),
                )
                &&& snapshot.unavailable@.len() == 0
            },
        },
        (Stage::AwaitReserves { balances }, JobEvent::Call(reply)) => match return_data(reply) {
            Err(e) => {
                &&& next.stage == Stage::Done
                &&& action == JobAction::Abandon(e)
            },
            Ok(text) => if has_word(text, 1) {
                &&& next.stage matches Stage::AwaitSupply { balances: kept, reserves }
                &&& amounts_of(kept@) == amounts_of(balances@)
                &&& reserves.reserve0@ == word_value(text, 0)
                &&& reserves.reserve1@ == word_value(text, 1)
                &&& action matches JobAction::SendCall(call)
                &&& call@ == call_of(1, job.token@, TOTAL_SUPPLY@, Seq::empty(), job.block)
            } else {
                &&& next.stage == Stage::Done
                &&& action == JobAction::Abandon(BalanceError::ParsingError)
            },
        },
        (Stage::AwaitSupply { balances, reserves }, JobEvent::Call(reply)) => match return_data(
            reply,
        ) {
            Err(e) => {
                &&& next.stage == Stage::Done
                &&& action == JobAction::Abandon(e)
            },
            Ok(text) => if has_word(text, 0) {
                let amounts = amounts_of(balances@);
                let supply = word_value(text, 0);
                &&& next.stage == Stage::Done
                &&& action matches JobAction::Write(snapshot)
                &&& supply > 0 ==> snapshot.entries_view() == held_underlying(
                    job.holders@,
                    amounts,
                    paired(job.holders@, amounts),
                    supply,
                    reserves.reserve1@,
                ) && snapshot.unavailable@.len() == 0
                &&& supply == 0 ==> snapshot.entries@.len() == 0 && snapshot.unavailable@
                    == holding(job.holders@, amounts, paired(job.holders@, amounts))
            } else {
                &&& next.stage == Stage::Done
                &&& action == JobAction::Abandon(BalanceError::ParsingError)
            },
        },
        _ => {
            &&& next.stage == job.stage
            &&& action == JobAction::Ignored
        },
    }
}

/// How many steps a job may still take before it is done.
pub open spec fn steps_left(stage: Stage) -> nat {
    match stage {
        Stage::Start => 4,
        Stage::AwaitBalances => 3,
        Stage::AwaitReserves { .. } => 2,
        Stage::AwaitSupply { .. } => 1,
        Stage::Done => 0,
    }
}

/// Every step that is not ignored takes the job nearer to its end, and the
/// job is done exactly when it has handed out a snapshot or given up; so a
/// job is done after four steps at most, whatever the node answers.
pub proof fn lemma_step_makes_progress(
    job: TokenJob,
    event: JobEvent,
    next: TokenJob,
    action: JobAction,
)
    requires
        follows(job, event, next, action),
    ensures
        action is Ignored ==> next.stage == job.stage,
        !(action is Ignored) ==> steps_left(next.stage) < steps_left(job.stage),
        action is Write || action is Abandon ==> next.stage == Stage::Done,
        action is SendBatch || action is SendCall ==> next.stage != Stage::Done,
        job.stage == Stage::Done ==> action is Ignored,
{
}

/// The return data in the answer to a single call.
pub fn return_data_of(reply: Result<RpcReply, BalanceError>) -> (r: Result<String, BalanceError>)
    ensures
        r is Ok <==> return_data(reply) is Ok,
        r matches Ok(text) ==> return_data(reply) == Ok::<Seq<char>, BalanceError>(text@),
        r matches Err(e) ==> return_data(reply) == Err::<Seq<char>, BalanceError>(e),
{
    match reply {
        Err(e) => Err(e),
        Ok(answer) => {
            let RpcReply { id, result } = answer;
            match result {
                Some(text) => if id == 1 {
                    Ok(text)
                } else {
                    Err(BalanceError::ParsingError)
                },
                None => Err(BalanceError::ParsingError),
            }
        },
    }
}

impl TokenJob {
    /// The job for `token`, not yet begun. The token counts as the pool's
    /// when it is `pool_token`.
    pub fn new(token: Address, holders: Vec<Address>, block: u64, pool_token: &Address) -> (r:
        TokenJob)
        ensures
            r.token == token,
            r.holders == holders,
            r.block == block,
            r.pool == (token == *pool_token),
            r.stage == Stage::Start,
    {
        let pool = token.same(pool_token);
        TokenJob { token, holders, block, pool, stage: Stage::Start }
    }

    /// Whether the job has handed out its snapshot or given up.
    pub fn is_done(&self) -> (r: bool)
        ensures
            r == (self.stage == Stage::Done),
    {
        match &self.stage {
            Stage::Done => true,
            _ => false,
        }
    }

    /// One step: what to do next, and the job as it is after the step. What
    /// the job was made with never changes.
    pub fn step(self, event: JobEvent) -> (r: (TokenJob, JobAction))
        ensures
            r.0.token == self.token,
            r.0.holders == self.holders,
            r.0.block == self.block,
            r.0.pool == self.pool,
            follows(self, event, r.0, r.1),
    {
        let TokenJob { token, holders, block, pool, stage } = self;
        match (stage, event) {
            (Stage::Start, JobEvent::Begin) => {
                let calls = balance_requests(&token, &holders, block);
                (
                    TokenJob { token, holders, block, pool, stage: Stage::AwaitBalances },
                    JobAction::SendBatch(calls),
                )
            },
            (Stage::AwaitBalances, JobEvent::Batch(Err(e))) => (
                TokenJob { token, holders, block, pool, stage: Stage::Done },
                JobAction::Abandon(e),
            ),
            (Stage::AwaitBalances, JobEvent::Batch(Ok(replies))) => {
                match balances_of_replies(holders.len(), &replies) {
                    Err(e) => (
                        TokenJob { token, holders, block, pool, stage: Stage::Done },
                        JobAction::Abandon(e),
                    ),
                    Ok(balances) => {
                        if pool {
                            let call = query_contract(&token, block, &GET_RESERVES);
                            (
                                TokenJob {
                                    token,
                                    holders,
                                    block,
                                    pool,
                                    stage: Stage::AwaitReserves { balances },
                                },
                                JobAction::SendCall(call),
                            )
                        } else {
                            let snapshot = token_snapshot(&holders, &balances);
                            (
                                TokenJob { token, holders, block, pool, stage: Stage::Done },
                                JobAction::Write(snapshot),
                            )
                        }
                    },
                }
            },
            (Stage::AwaitReserves { balances }, JobEvent::Call(reply)) => {
                match return_data_of(reply) {
                    Err(e) => (
                        TokenJob { token, holders, block, pool, stage: Stage::Done },
                        JobAction::Abandon(e),
                    ),
                    Ok(text) => match parse_reserves(text.as_str()) {
                        Err(e) => (
                            TokenJob { token, holders, block, pool, stage: Stage::Done },
                            JobAction::Abandon(e),
                        ),
                        Ok(reserves) => {
                            let call = query_contract(&token, block, &TOTAL_SUPPLY);
                            (
                                TokenJob {
                                    token,
                                    holders,
                                    block,
                                    pool,
                                    stage: Stage::AwaitSupply { balances, reserves },
                                },
                                JobAction::SendCall(call),
                            )
                        },
                    },
                }
            },
            (Stage::AwaitSupply { balances, reserves }, JobEvent::Call(reply)) => {
                match return_data_of(reply) {
                    Err(e) => (
                        TokenJob { token, holders, block, pool, stage: Stage::Done },
                        JobAction::Abandon(e),
                    ),
                    Ok(text) => match parse_total_supply(text.as_str()) {
                        Err(e) => (
                            TokenJob { token, holders, block, pool, stage: Stage::Done },
                            JobAction::Abandon(e),
                        ),
                        Ok(supply) => {
                            let snapshot = pool_snapshot(&holders, &balances, &reserves, &supply);
                            (
                                TokenJob { token, holders, block, pool, stage: Stage::Done },
                                JobAction::Write(snapshot),
                            )
                        },
                    },
                }
            },
            (stage, _) => (TokenJob { token, holders, block, pool, stage }, JobAction::Ignored),
        }
    }
}

} // verus!
