//! The figures the node publishes as monitoring metrics.
use vstd::prelude::*;
use crate::ledger::{active_from, has_type, BlockType, LedgerState};
use crate::table::keys_where;

verus! {

/// What the metrics read of one account.
#[derive(Clone, Copy, Debug)]
pub struct AccountSummary {
    pub is_validator: bool,
    pub balance: u128,
}

/// The blockchain figures published as metrics.
#[derive(Clone, Copy, Debug)]
pub struct BlockchainCounts {
    pub blocks_total: u64,
    pub accounts_total: i64,
    pub active_validators: i64,
    pub send_blocks: u64,
    pub receive_blocks: u64,
    pub mint_blocks: u64,
}

/// Number of blocks of type `t`.
pub open spec fn count_type(s: Seq<BlockType>, t: BlockType) -> nat
    decreases s.len(),
{
    if s.len() == 0 {
        0
    } else {
        count_type(s.drop_last(), t) + if s.last() == t {
            1nat
        } else {
            0nat
        }
    }
}

/// An account counts as an active validator: registered, and staking at
/// least `min_stake`.
pub open spec fn is_active_validator(a: AccountSummary, min_stake: u128) -> bool {
    a.is_validator && a.balance >= min_stake
}

/// Number of active validators.
pub open spec fn count_active(s: Seq<AccountSummary>, min_stake: u128) -> nat
    decreases s.len(),
{
    if s.len() == 0 {
        0
    } else {
        count_active(s.drop_last(), min_stake) + if is_active_validator(s.last(), min_stake) {
            1nat
        } else {
            0nat
        }
    }
}

proof fn lemma_count_type_bound(s: Seq<BlockType>, t: BlockType)
    ensures
        count_type(s, t) <= s.len(),
    decreases s.len(),
{
    if s.len() > 0 {
        lemma_count_type_bound(s.drop_last(), t);
    }
}

proof fn lemma_count_active_bound(s: Seq<AccountSummary>, min_stake: u128)
    ensures
        count_active(s, min_stake) <= s.len(),
    decreases s.len(),
{
    if s.len() > 0 {
        lemma_count_active_bound(s.drop_last(), min_stake);
    }
}

/// The blockchain figures of a ledger whose blocks have the types
/// `block_types` and whose accounts are `accounts`; validators count as
/// active from `min_validator_stake` CIL of stake.
pub fn count_blockchain_metrics(
    block_types: &Vec<BlockType>,
    accounts: &Vec<AccountSummary>,
    min_validator_stake: u128,
) -> (r: BlockchainCounts)
    ensures
        r.blocks_total == block_types@.len() as u64,
        r.accounts_total == accounts@.len() as i64,
        r.active_validators == count_active(accounts@, min_validator_stake) as i64,
        r.send_blocks == count_type(block_types@, BlockType::Send),
        r.receive_blocks == count_type(block_types@, BlockType::Receive),
        r.mint_blocks == count_type(block_types@, BlockType::Mint),
{
    let n = block_types.len();
    let mut send: u64 = 0;
    let mut receive: u64 = 0;
    let mut mint: u64 = 0;
    let mut i: usize = 0;
    while i < n
        invariant
            n == block_types@.len(),
            i <= n,
            send == count_type(block_types@.take(i as int), BlockType::Send),
            receive == count_type(block_types@.take(i as int), BlockType::Receive),
            mint == count_type(block_types@.take(i as int), BlockType::Mint),
        decreases n - i,
    {
        proof {
            let t = block_types@.take(i + 1);
            assert(t.drop_last() =~= block_types@.take(i as int));
            assert(t.last() == block_types@[i as int]);
            lemma_count_type_bound(block_types@.take(i as int), BlockType::Send);
            lemma_count_type_bound(block_types@.take(i as int), BlockType::Receive);
            lemma_count_type_bound(block_types@.take(i as int), BlockType::Mint);
        }
        match block_types[i] {
            BlockType::Send => send = send + 1,
            BlockType::Receive => receive = receive + 1,
            BlockType::Mint => mint = mint + 1,
            _ => {},
        }
        i += 1;
    }
    let m = accounts.len();
    let mut active: usize = 0;
    let mut j: usize = 0;
    while j < m
        invariant
            m == accounts@.len(),
            j <= m,
            active == count_active(accounts@.take(j as int), min_validator_stake),
        decreases m - j,
    {
        proof {
            let t = accounts@.take(j + 1);
            assert(t.drop_last() =~= accounts@.take(j as int));
            assert(t.last() == accounts@[j as int]);
            lemma_count_active_bound(accounts@.take(j as int), min_validator_stake);
        }
        let a = accounts[j];
        if a.is_validator && a.balance >= min_validator_stake {
            active = active + 1;
        }
        j += 1;
    }
    proof {
        assert(block_types@.take(n as int) =~= block_types@);
        assert(accounts@.take(m as int) =~= accounts@);
    }
    BlockchainCounts {
        blocks_total: n as u64,
        accounts_total: m as i64,
        active_validators: active as i64,
        send_blocks: send,
        receive_blocks: receive,
        mint_blocks: mint,
    }
}

proof fn lemma_type_counts_sum(s: Seq<BlockType>)
    ensures
        count_type(s, BlockType::Send) + count_type(s, BlockType::Receive) + count_type(
            s,
            BlockType::Mint,
        ) <= s.len(),
    decreases s.len(),
{
    if s.len() > 0 {
        lemma_type_counts_sum(s.drop_last());
    }
}

/// Send, receive and mint blocks together never outnumber all blocks, and
/// active validators never outnumber accounts.
pub proof fn lemma_counts_bounded(s: Seq<BlockType>, a: Seq<AccountSummary>, min_stake: u128)
    ensures
        count_type(s, BlockType::Send) + count_type(s, BlockType::Receive) + count_type(
            s,
            BlockType::Mint,
        ) <= s.len(),
        count_active(a, min_stake) <= a.len(),
{
    lemma_type_counts_sum(s);
    lemma_count_active_bound(a, min_stake);
}

/// The blockchain figures of `ledger`: its blocks and accounts, the active
/// validators (registered, staking at least `min_validator_stake` CIL) and the
/// send, receive and mint blocks.
pub fn ledger_metrics(ledger: &LedgerState, min_validator_stake: u128) -> (r: BlockchainCounts)
    requires
        ledger.wf(),
    ensures
        r.blocks_total == ledger@.blocks.dom().len() as u64,
        r.accounts_total == ledger@.accounts.dom().len() as i64,
        r.active_validators == keys_where(ledger@.accounts, active_from(min_validator_stake)).len() as i64,
        r.send_blocks == keys_where(ledger@.blocks, has_type(BlockType::Send)).len(),
        r.receive_blocks == keys_where(ledger@.blocks, has_type(BlockType::Receive)).len(),
        r.mint_blocks == keys_where(ledger@.blocks, has_type(BlockType::Mint)).len(),
{
    let types = ledger.block_types();
    let accounts = ledger.account_summaries();
    proof {
        assert(count_type(types@, BlockType::Send) == keys_where(ledger@.blocks, has_type(BlockType::Send)).len());
        assert(count_type(types@, BlockType::Receive) == keys_where(ledger@.blocks, has_type(BlockType::Receive)).len());
        assert(count_type(types@, BlockType::Mint) == keys_where(ledger@.blocks, has_type(BlockType::Mint)).len());
        assert(count_active(accounts@, min_validator_stake) == keys_where(
            ledger@.accounts,
            active_from(min_validator_stake),
        ).len());
    }
    count_blockchain_metrics(&types, &accounts, min_validator_stake)
}

} // verus!
