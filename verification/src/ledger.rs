//! Blocks and account states of the block-lattice ledger, as the node's
//! logic reads them.
use vstd::prelude::*;
use crate::endpoints::{chars_of, contains_part};
use crate::format::CIL_PER_LOS;
use crate::slashing::contains_chars;
use crate::metrics::{count_active, count_type, is_active_validator, AccountSummary};
use crate::table::{
    count_vals, has_key, key_index, keys_unique, keys_where, lemma_table_count, lemma_table_empty,
    lemma_table_index, lemma_table_len, lemma_table_push, lemma_table_remove, lemma_table_update,
    table_view,
};

verus! {

/// Kind of a ledger block.
#[derive(Clone, Copy, Debug, PartialEq, Eq, Structural)]
pub enum BlockType {
    Send,
    Receive,
    Change,
    Mint,
    Slash,
    ContractDeploy,
    ContractCall,
}

/// A block of an account chain.
#[derive(Clone, Debug)]
pub struct Block {
    pub account: String,
    pub previous: String,
    pub block_type: BlockType,
    pub amount: u128,
    pub link: String,
    pub signature: String,
    pub public_key: String,
    pub work: u64,
    pub timestamp: u64,
    pub fee: u128,
}

/// The state of one account chain.
#[derive(Clone, Debug)]
pub struct AccountState {
    /// Hash of the newest block of the chain.
    pub head: String,
    pub balance: u128,
    pub block_count: u64,
    pub is_validator: bool,
}

/// A copy of `b`, field by field.
pub fn copy_block(b: &Block) -> (r: Block)
    ensures
        r == *b,
{
    Block {
        account: b.account.clone(),
        previous: b.previous.clone(),
        block_type: b.block_type,
        amount: b.amount,
        link: b.link.clone(),
        signature: b.signature.clone(),
        public_key: b.public_key.clone(),
        work: b.work,
        timestamp: b.timestamp,
        fee: b.fee,
    }
}

/// A copy of `a`, field by field.
pub fn copy_account(a: &AccountState) -> (r: AccountState)
    ensures
        r == *a,
{
    AccountState {
        head: a.head.clone(),
        balance: a.balance,
        block_count: a.block_count,
        is_validator: a.is_validator,
    }
}

/// A ledger, as far as merging a peer's state goes: accounts by address,
/// blocks by hash, the sends already received, the supply left to
/// distribute, and the fees gathered.
pub struct LedgerState {
    accounts: Vec<(String, AccountState)>,
    blocks: Vec<(String, Block)>,
    claimed_sends: Vec<String>,
    pub remaining_supply: u128,
    pub accumulated_fees_cil: u128,
}

/// What a `LedgerState` holds.
#[verifier::ext_equal]
pub struct LedgerView {
    pub accounts: Map<Seq<char>, AccountState>,
    pub blocks: Map<Seq<char>, Block>,
    pub claimed_sends: Set<Seq<char>>,
    pub remaining_supply: u128,
    pub accumulated_fees_cil: u128,
}

pub open spec fn account_key() -> spec_fn((String, AccountState)) -> Seq<char> {
    |e: (String, AccountState)| e.0@
}

pub open spec fn account_val() -> spec_fn((String, AccountState)) -> AccountState {
    |e: (String, AccountState)| e.1
}

pub open spec fn block_key() -> spec_fn((String, Block)) -> Seq<char> {
    |e: (String, Block)| e.0@
}

pub open spec fn block_val() -> spec_fn((String, Block)) -> Block {
    |e: (String, Block)| e.1
}

/// The peer's record of account `k` replaces ours: we do not know the
/// account, or the peer's chain is longer.
pub open spec fn adopts_account(
    ours: Map<Seq<char>, AccountState>,
    theirs: Map<Seq<char>, AccountState>,
    k: Seq<char>,
) -> bool {
    theirs.contains_key(k) && (!ours.contains_key(k) || theirs[k].block_count
        > ours[k].block_count)
}

/// Accounts after merging a peer's: the more advanced record of each.
pub open spec fn merged_accounts(
    ours: Map<Seq<char>, AccountState>,
    theirs: Map<Seq<char>, AccountState>,
) -> Map<Seq<char>, AccountState> {
    Map::new(
        |k: Seq<char>| ours.contains_key(k) || theirs.contains_key(k),
        |k: Seq<char>|
            if adopts_account(ours, theirs, k) {
                theirs[k]
            } else {
                ours[k]
            },
    )
}

/// Blocks after merging a peer's: ours, plus the peer's we lack.
pub open spec fn merged_blocks(ours: Map<Seq<char>, Block>, theirs: Map<Seq<char>, Block>) -> Map<
    Seq<char>,
    Block,
> {
    Map::new(
        |k: Seq<char>| ours.contains_key(k) || theirs.contains_key(k),
        |k: Seq<char>|
            if ours.contains_key(k) {
                ours[k]
            } else {
                theirs[k]
            },
    )
}

/// The ledger after merging a peer's state.
pub open spec fn merged(ours: LedgerView, theirs: LedgerView) -> LedgerView {
    LedgerView {
        accounts: merged_accounts(ours.accounts, theirs.accounts),
        blocks: merged_blocks(ours.blocks, theirs.blocks),
        claimed_sends: ours.claimed_sends.union(theirs.claimed_sends),
        remaining_supply: if theirs.remaining_supply < ours.remaining_supply {
            theirs.remaining_supply
        } else {
            ours.remaining_supply
        },
        accumulated_fees_cil: if theirs.accumulated_fees_cil > ours.accumulated_fees_cil {
            theirs.accumulated_fees_cil
        } else {
            ours.accumulated_fees_cil
        },
    }
}

impl View for LedgerState {
    type V = LedgerView;

    closed spec fn view(&self) -> LedgerView {
        LedgerView {
            accounts: table_view(self.accounts@, account_key(), account_val()),
            blocks: table_view(self.blocks@, block_key(), block_val()),
            claimed_sends: self.claimed_sends@.map_values(|s: String| s@).to_set(),
            remaining_supply: self.remaining_supply,
            accumulated_fees_cil: self.accumulated_fees_cil,
        }
    }
}

impl LedgerState {
    /// One record per address and per block hash.
    pub closed spec fn wf(&self) -> bool {
        &&& keys_unique(self.accounts@, account_key())
        &&& keys_unique(self.blocks@, block_key())
    }

    /// An empty ledger with `remaining_supply` left to distribute.
    pub fn new(remaining_supply: u128) -> (r: Self)
        ensures
            r.wf(),
            r@ == (LedgerView {
                accounts: Map::empty(),
                blocks: Map::empty(),
                claimed_sends: Set::empty(),
                remaining_supply,
                accumulated_fees_cil: 0,
            }),
    {
        let r = LedgerState {
            accounts: Vec::new(),
            blocks: Vec::new(),
            claimed_sends: Vec::new(),
            remaining_supply,
            accumulated_fees_cil: 0,
        };
        proof {
            lemma_table_empty(r.accounts@, account_key(), account_val());
            lemma_table_empty(r.blocks@, block_key(), block_val());
            assert(r@ =~= LedgerView {
                accounts: Map::empty(),
                blocks: Map::empty(),
                claimed_sends: Set::empty(),
                remaining_supply,
                accumulated_fees_cil: 0,
            });
        }
        r
    }

    fn find_account(&self, key: &String) -> (r: Option<usize>)
        requires
            self.wf(),
        ensures
            match r {
                Some(i) => i < self.accounts@.len() && self.accounts@[i as int].0@ == key@,
                None => !self@.accounts.contains_key(key@),
            },
    {
        let n = self.accounts.len();
        let mut i: usize = 0;
        while i < n
            invariant
                n == self.accounts@.len(),
                i <= n,
                forall|j: int| 0 <= j < i ==> (#[trigger] self.accounts@[j]).0@ != key@,
            decreases n - i,
        {
            if self.accounts[i].0 == *key {
                return Some(i);
            }
            i += 1;
        }
        proof {
            if self@.accounts.contains_key(key@) {
                let j = key_index(self.accounts@, account_key(), key@);
                assert(self.accounts@[j].0@ == key@);
            }
        }
        None
    }

    fn find_block(&self, key: &String) -> (r: Option<usize>)
        requires
            self.wf(),
        ensures
            match r {
                Some(i) => i < self.blocks@.len() && self.blocks@[i as int].0@ == key@,
                None => !self@.blocks.contains_key(key@),
            },
    {
        let n = self.blocks.len();
        let mut i: usize = 0;
        while i < n
            invariant
                n == self.blocks@.len(),
                i <= n,
                forall|j: int| 0 <= j < i ==> (#[trigger] self.blocks@[j]).0@ != key@,
            decreases n - i,
        {
            if self.blocks[i].0 == *key {
                return Some(i);
            }
            i += 1;
        }
        proof {
            if self@.blocks.contains_key(key@) {
                let j = key_index(self.blocks@, block_key(), key@);
                assert(self.blocks@[j].0@ == key@);
            }
        }
        None
    }

    /// The record of account `address`.
    pub fn account(&self, address: &str) -> (r: Option<AccountState>)
        requires
            self.wf(),
        ensures
            match r {
                Some(a) => self@.accounts.contains_key(address@) && a == self@.accounts[address@],
                None => !self@.accounts.contains_key(address@),
            },
    {
        let key = address.to_owned();
        match self.find_account(&key) {
            Some(i) => {
                proof {
                    lemma_table_index(self.accounts@, account_key(), account_val(), i as int);
                }
                Some(copy_account(&self.accounts[i].1))
            },
            None => None,
        }
    }

    /// The block with hash `hash`.
    pub fn block(&self, hash: &str) -> (r: Option<Block>)
        requires
            self.wf(),
        ensures
            match r {
                Some(b) => self@.blocks.contains_key(hash@) && b == self@.blocks[hash@],
                None => !self@.blocks.contains_key(hash@),
            },
    {
        let key = hash.to_owned();
        match self.find_block(&key) {
            Some(i) => {
                proof {
                    lemma_table_index(self.blocks@, block_key(), block_val(), i as int);
                }
                Some(copy_block(&self.blocks[i].1))
            },
            None => None,
        }
    }

    /// Number of blocks.
    pub fn block_count(&self) -> (n: usize)
        requires
            self.wf(),
        ensures
            n == self@.blocks.dom().len(),
    {
        proof {
            lemma_table_len(self.blocks@, block_key(), block_val());
        }
        self.blocks.len()
    }

    /// Sets the record of account `address`.
    pub fn set_account(&mut self, address: String, state: AccountState)
        requires
            old(self).wf(),
        ensures
            final(self).wf(),
            final(self)@ == (LedgerView {
                accounts: old(self)@.accounts.insert(address@, state),
                ..old(self)@
            }),
    {
        let ghost s = self.accounts@;
        let ghost e = (address, state);
        match self.find_account(&address) {
            Some(i) => {
                proof {
                    lemma_table_update(s, account_key(), account_val(), i as int, e);
                }
                self.accounts.set(i, (address, state));
            },
            None => {
                proof {
                    if has_key(s, account_key(), address@) {
                        let j = key_index(s, account_key(), address@);
                        assert(s[j].0@ == address@);
                    }
                    lemma_table_push(s, account_key(), account_val(), e);
                }
                self.accounts.push((address, state));
            },
        }
        proof {
            assert(self@ =~= LedgerView {
                accounts: old(self)@.accounts.insert(e.0@, e.1),
                ..old(self)@
            });
        }
    }

    /// Adds the block `block` under `hash` unless a block with that hash is
    /// already stored; returns whether it was added.
    pub fn insert_block(&mut self, hash: String, block: Block) -> (added: bool)
        requires
            old(self).wf(),
        ensures
            final(self).wf(),
            added == !old(self)@.blocks.contains_key(hash@),
            final(self)@ == (LedgerView {
                blocks: if added {
                    old(self)@.blocks.insert(hash@, block)
                } else {
                    old(self)@.blocks
                },
                ..old(self)@
            }),
    {
        let ghost s = self.blocks@;
        let ghost e = (hash, block);
        match self.find_block(&hash) {
            Some(i) => {
                proof {
                    lemma_table_index(s, block_key(), block_val(), i as int);
                    assert(self@ =~= old(self)@);
                }
                false
            },
            None => {
                proof {
                    if has_key(s, block_key(), hash@) {
                        let j = key_index(s, block_key(), hash@);
                        assert(s[j].0@ == hash@);
                    }
                    lemma_table_push(s, block_key(), block_val(), e);
                }
                self.blocks.push((hash, block));
                proof {
                    assert(self@ =~= LedgerView {
                        blocks: old(self)@.blocks.insert(e.0@, e.1),
                        ..old(self)@
                    });
                }
                true
            },
        }
    }

    /// The fees gathered for redistribution.
    pub fn accumulated_fees(&self) -> (r: u128)
        ensures
            r == self@.accumulated_fees_cil,
    {
        self.accumulated_fees_cil
    }

    /// Sets the fees gathered for redistribution.
    pub fn set_accumulated_fees(&mut self, fees: u128)
        requires
            old(self).wf(),
        ensures
            final(self).wf(),
            final(self)@ == (LedgerView { accumulated_fees_cil: fees, ..old(self)@ }),
    {
        self.accumulated_fees_cil = fees;
        proof {
            assert(self@ =~= LedgerView { accumulated_fees_cil: fees, ..old(self)@ });
        }
    }

    /// Stores `block` under `hash`, replacing a block stored there.
    pub fn put_block(&mut self, hash: String, block: Block)
        requires
            old(self).wf(),
        ensures
            final(self).wf(),
            final(self)@ == (LedgerView {
                blocks: old(self)@.blocks.insert(hash@, block),
                ..old(self)@
            }),
    {
        let ghost s = self.blocks@;
        let ghost e = (hash, block);
        match self.find_block(&hash) {
            Some(i) => {
                proof {
                    lemma_table_update(s, block_key(), block_val(), i as int, e);
                }
                self.blocks.set(i, (hash, block));
            },
            None => {
                proof {
                    if has_key(s, block_key(), hash@) {
                        let j = key_index(s, block_key(), hash@);
                        assert(s[j].0@ == hash@);
                    }
                    lemma_table_push(s, block_key(), block_val(), e);
                }
                self.blocks.push((hash, block));
            },
        }
        proof {
            assert(self@ =~= LedgerView {
                blocks: old(self)@.blocks.insert(e.0@, e.1),
                ..old(self)@
            });
        }
    }

    /// Forgets the block stored under `hash`, if any.
    pub fn remove_block(&mut self, hash: &String)
        requires
            old(self).wf(),
        ensures
            final(self).wf(),
            final(self)@ == (LedgerView { blocks: old(self)@.blocks.remove(hash@), ..old(self)@ }),
    {
        let ghost s = self.blocks@;
        match self.find_block(hash) {
            Some(i) => {
                proof {
                    lemma_table_remove(s, block_key(), block_val(), i as int);
                }
                self.blocks.remove(i);
                proof {
                    assert(self@ =~= LedgerView {
                        blocks: old(self)@.blocks.remove(hash@),
                        ..old(self)@
                    });
                }
            },
            None => {
                proof {
                    assert(old(self)@.blocks.remove(hash@) =~= old(self)@.blocks);
                    assert(self@ =~= LedgerView {
                        blocks: old(self)@.blocks.remove(hash@),
                        ..old(self)@
                    });
                }
            },
        }
    }

    /// Whether the send with hash `hash` was already received.
    pub fn is_claimed(&self, hash: &str) -> (r: bool)
        ensures
            r == self@.claimed_sends.contains(hash@),
    {
        let key = hash.to_owned();
        let n = self.claimed_sends.len();
        let mut i: usize = 0;
        while i < n
            invariant
                n == self.claimed_sends@.len(),
                i <= n,
                key@ == hash@,
                forall|j: int| 0 <= j < i ==> (#[trigger] self.claimed_sends@[j])@ != hash@,
            decreases n - i,
        {
            if self.claimed_sends[i] == key {
                proof {
                    assert(self.claimed_sends@.map_values(|s: String| s@)[i as int] == hash@);
                }
                return true;
            }
            i += 1;
        }
        proof {
            let v = self.claimed_sends@.map_values(|s: String| s@);
            if v.contains(hash@) {
                let j = choose|j: int| 0 <= j < v.len() && v[j] == hash@;
                assert(self.claimed_sends@[j]@ == hash@);
            }
        }
        false
    }

    /// Records that the send with hash `hash` was received.
    pub fn claim_send(&mut self, hash: String)
        requires
            old(self).wf(),
        ensures
            final(self).wf(),
            final(self)@ == (LedgerView {
                claimed_sends: old(self)@.claimed_sends.insert(hash@),
                ..old(self)@
            }),
    {
        if !self.is_claimed(hash.as_str()) {
            let ghost before = self.claimed_sends@.map_values(|s: String| s@);
            let ghost h = hash@;
            self.claimed_sends.push(hash);
            proof {
                assert(self.claimed_sends@.map_values(|s: String| s@) =~= before.push(h));
                before.lemma_push_to_set_commute(h);
                assert(self@ =~= LedgerView {
                    claimed_sends: old(self)@.claimed_sends.insert(h),
                    ..old(self)@
                });
            }
        } else {
            proof {
                assert(old(self)@.claimed_sends.insert(hash@) =~= old(self)@.claimed_sends);
                assert(self@ =~= LedgerView {
                    claimed_sends: old(self)@.claimed_sends.insert(hash@),
                    ..old(self)@
                });
            }
        }
    }
}

proof fn lemma_merge_accounts_step(
    ours: Map<Seq<char>, AccountState>,
    t: Map<Seq<char>, AccountState>,
    k: Seq<char>,
    v: AccountState,
)
    requires
        !t.contains_key(k),
    ensures
        merged_accounts(ours, t).contains_key(k) == ours.contains_key(k),
        ours.contains_key(k) ==> merged_accounts(ours, t)[k] == ours[k],
        merged_accounts(ours, t.insert(k, v)) == if adopts_account(ours, t.insert(k, v), k) {
            merged_accounts(ours, t).insert(k, v)
        } else {
            merged_accounts(ours, t)
        },
{
    let a = merged_accounts(ours, t.insert(k, v));
    let b = if adopts_account(ours, t.insert(k, v), k) {
        merged_accounts(ours, t).insert(k, v)
    } else {
        merged_accounts(ours, t)
    };
    assert(a =~= b);
}

proof fn lemma_merge_blocks_step(
    ours: Map<Seq<char>, Block>,
    t: Map<Seq<char>, Block>,
    k: Seq<char>,
    v: Block,
)
    requires
        !t.contains_key(k),
    ensures
        merged_blocks(ours, t).contains_key(k) == ours.contains_key(k),
        merged_blocks(ours, t.insert(k, v)) == if merged_blocks(ours, t).contains_key(k) {
            merged_blocks(ours, t)
        } else {
            merged_blocks(ours, t).insert(k, v)
        },
{
    let a = merged_blocks(ours, t.insert(k, v));
    let b = if merged_blocks(ours, t).contains_key(k) {
        merged_blocks(ours, t)
    } else {
        merged_blocks(ours, t).insert(k, v)
    };
    assert(a =~= b);
}

proof fn lemma_prefix_unique<T, K>(s: Seq<T>, key: spec_fn(T) -> K, i: int)
    requires
        keys_unique(s, key),
        0 <= i < s.len(),
    ensures
        keys_unique(s.take(i), key),
        !has_key(s.take(i), key, key(s[i])),
        s.take(i + 1) == s.take(i).push(s[i]),
{
    assert(s.take(i + 1) =~= s.take(i).push(s[i]));
    if has_key(s.take(i), key, key(s[i])) {
        let j = key_index(s.take(i), key, key(s[i]));
        assert(s.take(i)[j] == s[j]);
    }
}

impl LedgerState {
    /// Merges the state of a peer that is ahead of us and returns the number
    /// of blocks added. Each account takes the peer's record when we lack the
    /// account or the peer's chain is longer; blocks we lack are added and
    /// ours are kept; received sends are united; the distribution with less
    /// supply left, and the larger fee total, are adopted.
    pub fn merge_from_peer(&mut self, incoming: &LedgerState) -> (added: usize)
        requires
            old(self).wf(),
            incoming.wf(),
        ensures
            final(self).wf(),
            final(self)@ == merged(old(self)@, incoming@),
            added == final(self)@.blocks.dom().len() - old(self)@.blocks.dom().len(),
    {
        let ghost ours0 = self@;
        let ghost inc_a = incoming.accounts@;
        let n = incoming.accounts.len();
        let mut i: usize = 0;
        proof {
            lemma_table_empty(inc_a.take(0), account_key(), account_val());
            assert(merged_accounts(ours0.accounts, Map::empty()) =~= ours0.accounts);
        }
        while i < n
            invariant
                self.wf(),
                incoming.wf(),
                n == inc_a.len(),
                inc_a == incoming.accounts@,
                i <= n,
                self@.accounts == merged_accounts(
                    ours0.accounts,
                    table_view(inc_a.take(i as int), account_key(), account_val()),
                ),
                self@.blocks == ours0.blocks,
                self@.claimed_sends == ours0.claimed_sends,
                self@.remaining_supply == ours0.remaining_supply,
                self@.accumulated_fees_cil == ours0.accumulated_fees_cil,
            decreases n - i,
        {
            let ghost t = table_view(inc_a.take(i as int), account_key(), account_val());
            let ghost k = inc_a[i as int].0@;
            let ghost v = inc_a[i as int].1;
            proof {
                lemma_prefix_unique(inc_a, account_key(), i as int);
                lemma_table_push(inc_a.take(i as int), account_key(), account_val(), inc_a[i as int]);
                lemma_merge_accounts_step(ours0.accounts, t, k, v);
            }
            let key = incoming.accounts[i].0.clone();
            match self.find_account(&key) {
                Some(j) => {
                    proof {
                        lemma_table_index(self.accounts@, account_key(), account_val(), j as int);
                    }
                    if incoming.accounts[i].1.block_count > self.accounts[j].1.block_count {
                        let st = copy_account(&incoming.accounts[i].1);
                        self.set_account(key, st);
                    }
                },
                None => {
                    let st = copy_account(&incoming.accounts[i].1);
                    self.set_account(key, st);
                },
            }
            i += 1;
        }
        proof {
            assert(inc_a.take(n as int) =~= inc_a);
        }
        let ghost inc_b = incoming.blocks@;
        let ghost len0 = self@.blocks.dom().len();
        let m = incoming.blocks.len();
        let mut added: usize = 0;
        let mut j: usize = 0;
        proof {
            lemma_table_empty(inc_b.take(0), block_key(), block_val());
            assert(merged_blocks(ours0.blocks, Map::empty()) =~= ours0.blocks);
        }
        while j < m
            invariant
                self.wf(),
                incoming.wf(),
                m == inc_b.len(),
                inc_b == incoming.blocks@,
                j <= m,
                self@.accounts == merged_accounts(ours0.accounts, incoming@.accounts),
                self@.blocks == merged_blocks(
                    ours0.blocks,
                    table_view(inc_b.take(j as int), block_key(), block_val()),
                ),
                self@.blocks.dom().len() == len0 + added,
                added <= j,
                self@.claimed_sends == ours0.claimed_sends,
                self@.remaining_supply == ours0.remaining_supply,
                self@.accumulated_fees_cil == ours0.accumulated_fees_cil,
            decreases m - j,
        {
            let ghost t = table_view(inc_b.take(j as int), block_key(), block_val());
            let ghost k = inc_b[j as int].0@;
            let ghost v = inc_b[j as int].1;
            proof {
                lemma_prefix_unique(inc_b, block_key(), j as int);
                lemma_table_push(inc_b.take(j as int), block_key(), block_val(), inc_b[j as int]);
                lemma_merge_blocks_step(ours0.blocks, t, k, v);
            }
            let key = incoming.blocks[j].0.clone();
            let b = copy_block(&incoming.blocks[j].1);
            let ghost before = self@.blocks;
            proof {
                lemma_table_len(self.blocks@, block_key(), block_val());
            }
            if self.insert_block(key, b) {
                proof {
                    assert(self@.blocks.dom() =~= before.dom().insert(k));
                }
                added = added + 1;
            }
            j += 1;
        }
        proof {
            assert(inc_b.take(m as int) =~= inc_b);
        }
        let ghost inc_c = incoming.claimed_sends@.map_values(|s: String| s@);
        let c = incoming.claimed_sends.len();
        let mut q: usize = 0;
        proof {
            assert(inc_c.take(0).to_set() =~= Set::<Seq<char>>::empty());
            assert(ours0.claimed_sends.union(Set::<Seq<char>>::empty()) =~= ours0.claimed_sends);
        }
        while q < c
            invariant
                self.wf(),
                c == inc_c.len(),
                inc_c == incoming.claimed_sends@.map_values(|s: String| s@),
                q <= c,
                self@.accounts == merged_accounts(ours0.accounts, incoming@.accounts),
                self@.blocks == merged_blocks(ours0.blocks, incoming@.blocks),
                self@.claimed_sends == ours0.claimed_sends.union(inc_c.take(q as int).to_set()),
                self@.remaining_supply == ours0.remaining_supply,
                self@.accumulated_fees_cil == ours0.accumulated_fees_cil,
            decreases c - q,
        {
            proof {
                assert(inc_c.take(q + 1) =~= inc_c.take(q as int).push(inc_c[q as int]));
                inc_c.take(q as int).lemma_push_to_set_commute(inc_c[q as int]);
                assert(ours0.claimed_sends.union(inc_c.take(q + 1).to_set()) =~= ours0.claimed_sends.union(
                    inc_c.take(q as int).to_set(),
                ).insert(inc_c[q as int]));
            }
            let h = incoming.claimed_sends[q].clone();
            self.claim_send(h);
            q += 1;
        }
        proof {
            assert(inc_c.take(c as int) =~= inc_c);
        }
        if incoming.remaining_supply < self.remaining_supply {
            self.remaining_supply = incoming.remaining_supply;
        }
        if incoming.accumulated_fees_cil > self.accumulated_fees_cil {
            self.accumulated_fees_cil = incoming.accumulated_fees_cil;
        }
        proof {
            assert(self@ =~= merged(ours0, incoming@));
        }
        added
    }
}

/// Merging the same peer state a second time changes nothing.
pub proof fn lemma_merge_idempotent(ours: LedgerView, theirs: LedgerView)
    ensures
        merged(merged(ours, theirs), theirs) == merged(ours, theirs),
{
    let m = merged(ours, theirs);
    let mm = merged(m, theirs);
    assert(mm.accounts =~= m.accounts);
    assert(mm.blocks =~= m.blocks);
    assert(mm.claimed_sends =~= m.claimed_sends);
    assert(mm =~= m);
}

/// After a merge every block of either side is present, our blocks are never
/// overwritten, no account chain gets shorter, and every account's chain is
/// at least as long as the peer's record of it.
pub proof fn lemma_merge_keeps_and_advances(ours: LedgerView, theirs: LedgerView)
    ensures
        ({
            let m = merged(ours, theirs);
            &&& forall|k: Seq<char>| #[trigger] ours.blocks.contains_key(k) ==> m.blocks.contains_key(k)
                && m.blocks[k] == ours.blocks[k]
            &&& forall|k: Seq<char>| #[trigger] theirs.blocks.contains_key(k) ==> m.blocks.contains_key(k)
            &&& forall|k: Seq<char>| #[trigger] ours.accounts.contains_key(k) ==> m.accounts[k].block_count
                >= ours.accounts[k].block_count
            &&& forall|k: Seq<char>| #[trigger] theirs.accounts.contains_key(k) ==> m.accounts[k].block_count
                >= theirs.accounts[k].block_count
            &&& m.remaining_supply <= ours.remaining_supply
            &&& m.accumulated_fees_cil >= ours.accumulated_fees_cil
        }),
{
}

/// One entry of an account's transaction history.
#[derive(Clone, Debug)]
pub struct HistoryEntry {
    pub hash: String,
    /// The sending account ("SYSTEM" for blocks no account sent).
    pub from: String,
    pub to: String,
    pub amount: u128,
    pub timestamp: u64,
    pub block_type: BlockType,
    pub fee: u128,
}

/// The hashes met walking back from `curr` along the `previous` links of
/// `blocks`, for at most `steps` blocks: the walk ends at the genesis link
/// "0" or at a hash with no stored block.
pub open spec fn chain_hashes(blocks: Map<Seq<char>, Block>, curr: Seq<char>, steps: nat) -> Seq<
    Seq<char>,
>
    decreases steps,
{
    if steps == 0 || curr == "0"@ || !blocks.contains_key(curr) {
        Seq::empty()
    } else {
        seq![curr] + chain_hashes(blocks, blocks[curr].previous@, (steps - 1) as nat)
    }
}

/// The hashes of the history of `address`, newest first: its chain walked
/// from its head, for at most as many steps as the ledger has blocks (a chain
/// that came back to one of its blocks is cut there).
pub open spec fn history_hashes(v: LedgerView, address: Seq<char>) -> Seq<Seq<char>> {
    if v.accounts.contains_key(address) {
        chain_hashes(v.blocks, v.accounts[address].head@, v.blocks.dom().len())
    } else {
        Seq::empty()
    }
}

/// The sender shown for block `b`: its account for a send, the account of
/// the matching send for a receive ("SYSTEM" when that send is unknown), and
/// "SYSTEM" otherwise.
pub open spec fn sender_of(v: LedgerView, b: Block) -> Seq<char> {
    match b.block_type {
        BlockType::Send => b.account@,
        BlockType::Receive => if v.blocks.contains_key(b.link@) {
            v.blocks[b.link@].account@
        } else {
            "SYSTEM"@
        },
        _ => "SYSTEM"@,
    }
}

/// The recipient shown for block `b`: its account for a receive, its link
/// otherwise.
pub open spec fn recipient_of(b: Block) -> Seq<char> {
    match b.block_type {
        BlockType::Receive => b.account@,
        _ => b.link@,
    }
}

/// `e` describes the block with hash `h`.
pub open spec fn entry_describes(v: LedgerView, e: HistoryEntry, h: Seq<char>) -> bool {
    let b = v.blocks[h];
    &&& e.hash@ == h
    &&& e.from@ == sender_of(v, b)
    &&& e.to@ == recipient_of(b)
    &&& e.amount == b.amount
    &&& e.timestamp == b.timestamp
    &&& e.block_type == b.block_type
    &&& e.fee == b.fee
}

impl LedgerState {
    /// The transaction history of `address`, newest first (see
    /// `history_hashes`); empty for an unknown account.
    pub fn transaction_history(&self, address: &str) -> (r: Vec<HistoryEntry>)
        requires
            self.wf(),
        ensures
            r@.len() == history_hashes(self@, address@).len(),
            forall|k: int|
                0 <= k < r@.len() ==> entry_describes(
                    self@,
                    #[trigger] r@[k],
                    history_hashes(self@, address@)[k],
                ),
    {
        let ghost v = self@;
        let mut out: Vec<HistoryEntry> = Vec::new();
        let key = address.to_owned();
        let i = match self.find_account(&key) {
            Some(i) => i,
            None => return out,
        };
        proof {
            lemma_table_index(self.accounts@, account_key(), account_val(), i as int);
            lemma_table_len(self.blocks@, block_key(), block_val());
        }
        let mut curr = self.accounts[i].1.head.clone();
        let ghost start = curr@;
        let ghost total = v.blocks.dom().len();
        let mut left = self.blocks.len();
        let zero = String::from_str("0");
        let system = String::from_str("SYSTEM");
        let ghost mut hs: Seq<Seq<char>> = Seq::empty();
        loop
            invariant
                self.wf(),
                v == self@,
                zero@ == "0"@,
                system@ == "SYSTEM"@,
                left <= total,
                history_hashes(v, address@) == chain_hashes(v.blocks, start, total),
                chain_hashes(v.blocks, start, total) == hs + chain_hashes(v.blocks, curr@, left as nat),
                out@.len() == hs.len(),
                forall|k: int| 0 <= k < out@.len() ==> entry_describes(v, #[trigger] out@[k], hs[k]),
            ensures
                chain_hashes(v.blocks, start, total) == hs,
                out@.len() == hs.len(),
                forall|k: int| 0 <= k < out@.len() ==> entry_describes(v, #[trigger] out@[k], hs[k]),
            decreases left,
        {
            if left == 0 {
                proof {
                    assert(hs + chain_hashes(v.blocks, curr@, 0) =~= hs);
                }
                break;
            }
            if curr == zero {
                proof {
                    assert(hs + chain_hashes(v.blocks, curr@, left as nat) =~= hs);
                }
                break;
            }
            let j = match self.find_block(&curr) {
                Some(j) => j,
                None => {
                    proof {
                        assert(hs + chain_hashes(v.blocks, curr@, left as nat) =~= hs);
                    }
                    break;
                },
            };
            proof {
                lemma_table_index(self.blocks@, block_key(), block_val(), j as int);
            }
            let blk = &self.blocks[j].1;
            let from = match blk.block_type {
                BlockType::Send => blk.account.clone(),
                BlockType::Receive => match self.find_block(&blk.link) {
                    Some(k) => {
                        proof {
                            lemma_table_index(self.blocks@, block_key(), block_val(), k as int);
                        }
                        self.blocks[k].1.account.clone()
                    },
                    None => system.clone(),
                },
                _ => system.clone(),
            };
            let to = match blk.block_type {
                BlockType::Receive => blk.account.clone(),
                _ => blk.link.clone(),
            };
            let entry = HistoryEntry {
                hash: curr.clone(),
                from,
                to,
                amount: blk.amount,
                timestamp: blk.timestamp,
                block_type: blk.block_type,
                fee: blk.fee,
            };
            let ghost h = curr@;
            proof {
                assert(entry_describes(v, entry, h));
                assert(chain_hashes(v.blocks, h, left as nat) == seq![h] + chain_hashes(
                    v.blocks,
                    blk.previous@,
                    (left - 1) as nat,
                ));
                assert(hs.push(h) + chain_hashes(v.blocks, blk.previous@, (left - 1) as nat) =~= hs
                    + (seq![h] + chain_hashes(v.blocks, blk.previous@, (left - 1) as nat)));
            }
            let ghost prev = out@;
            let ghost prev_hs = hs;
            out.push(entry);
            proof {
                hs = hs.push(h);
                assert forall|k: int| 0 <= k < out@.len() implies entry_describes(
                    v,
                    #[trigger] out@[k],
                    hs[k],
                ) by {
                    if k < prev.len() {
                        assert(out@[k] == prev[k]);
                        assert(hs[k] == prev_hs[k]);
                    }
                }
            }
            curr = blk.previous.clone();
            left = left - 1;
        }
        out
    }
}

/// Blocks of type `t`.
pub open spec fn has_type(t: BlockType) -> spec_fn(Block) -> bool {
    |b: Block| b.block_type == t
}

/// Accounts that are registered validators staking at least `min_stake`.
pub open spec fn active_from(min_stake: u128) -> spec_fn(AccountState) -> bool {
    |a: AccountState| a.is_validator && a.balance >= min_stake
}

impl LedgerState {
    /// The type of each stored block.
    pub fn block_types(&self) -> (r: Vec<BlockType>)
        requires
            self.wf(),
        ensures
            r@.len() == self@.blocks.dom().len(),
            forall|t: BlockType|
                #[trigger] count_type(r@, t) == keys_where(self@.blocks, has_type(t)).len(),
    {
        let ghost s = self.blocks@;
        let mut r: Vec<BlockType> = Vec::new();
        let n = self.blocks.len();
        let mut i: usize = 0;
        while i < n
            invariant
                s == self.blocks@,
                n == s.len(),
                i <= n,
                r@.len() == i,
                forall|t: BlockType|
                    #[trigger] count_type(r@, t) == count_vals(s.take(i as int), block_val(), has_type(t)),
            decreases n - i,
        {
            let ghost prev = r@;
            r.push(self.blocks[i].1.block_type);
            proof {
                assert forall|t: BlockType|
                    #[trigger] count_type(r@, t) == count_vals(s.take(i + 1), block_val(), has_type(t)) by {
                    assert(r@.drop_last() =~= prev);
                    assert(s.take(i + 1).drop_last() =~= s.take(i as int));
                    assert(s.take(i + 1).last() == s[i as int]);
                    assert(r@.last() == s[i as int].1.block_type);
                    assert(has_type(t)(block_val()(s[i as int])) == (s[i as int].1.block_type == t));
                    assert(count_type(prev, t) == count_vals(s.take(i as int), block_val(), has_type(t)));
                }
            }
            i += 1;
        }
        proof {
            assert(s.take(n as int) =~= s);
            lemma_table_len(s, block_key(), block_val());
            assert forall|t: BlockType|
                #[trigger] count_type(r@, t) == keys_where(self@.blocks, has_type(t)).len() by {
                lemma_table_count(s, block_key(), block_val(), has_type(t));
            }
        }
        r
    }

    /// What the metrics read of each account.
    pub fn account_summaries(&self) -> (r: Vec<AccountSummary>)
        requires
            self.wf(),
        ensures
            r@.len() == self@.accounts.dom().len(),
            forall|min_stake: u128|
                #[trigger] count_active(r@, min_stake) == keys_where(
                    self@.accounts,
                    active_from(min_stake),
                ).len(),
    {
        let ghost s = self.accounts@;
        let mut r: Vec<AccountSummary> = Vec::new();
        let n = self.accounts.len();
        let mut i: usize = 0;
        while i < n
            invariant
                s == self.accounts@,
                n == s.len(),
                i <= n,
                r@.len() == i,
                forall|m: u128|
                    #[trigger] count_active(r@, m) == count_vals(s.take(i as int), account_val(), active_from(m)),
            decreases n - i,
        {
            let ghost prev = r@;
            let a = &self.accounts[i].1;
            r.push(AccountSummary { is_validator: a.is_validator, balance: a.balance });
            proof {
                assert forall|m: u128|
                    #[trigger] count_active(r@, m) == count_vals(s.take(i + 1), account_val(), active_from(m)) by {
                    assert(r@.drop_last() =~= prev);
                    assert(s.take(i + 1).drop_last() =~= s.take(i as int));
                    assert(s.take(i + 1).last() == s[i as int]);
                    assert(is_active_validator(r@.last(), m) == active_from(m)(account_val()(s[i as int])));
                    assert(count_active(prev, m) == count_vals(s.take(i as int), account_val(), active_from(m)));
                }
            }
            i += 1;
        }
        proof {
            assert(s.take(n as int) =~= s);
            lemma_table_len(s, account_key(), account_val());
            assert forall|m: u128|
                #[trigger] count_active(r@, m) == keys_where(self@.accounts, active_from(m)).len() by {
                lemma_table_count(s, account_key(), account_val(), active_from(m));
            }
        }
        r
    }
}

/// The total supply, in whole LOS.
pub const TOTAL_SUPPLY_LOS: u128 = 21_936_236;

/// The total supply, in CIL.
pub const TOTAL_SUPPLY_CIL: u128 = TOTAL_SUPPLY_LOS * CIL_PER_LOS;

/// The supply in circulation when `remaining_cil` is left to distribute:
/// the total supply less the remainder, and none when the remainder exceeds
/// the total.
pub fn circulating_supply(remaining_cil: u128) -> (r: u128)
    ensures
        r == if remaining_cil <= TOTAL_SUPPLY_CIL {
            TOTAL_SUPPLY_CIL - remaining_cil
        } else {
            0
        },
{
    TOTAL_SUPPLY_CIL.saturating_sub(remaining_cil)
}

/// `a - b`, or zero when `b` exceeds `a`.
pub open spec fn sat_sub(a: u128, b: u128) -> u128 {
    if a >= b {
        (a - b) as u128
    } else {
        0
    }
}

/// `a + b`, or the largest `u128` past its range.
pub open spec fn sat_add(a: u128, b: u128) -> u128 {
    if a + b <= u128::MAX {
        (a + b) as u128
    } else {
        u128::MAX
    }
}

/// The remaining supply adopted when a peer claims `peer_remaining` while
/// ours is `our_remaining`: only a smaller, non-zero claim is considered, and
/// it is checked against our own count (the public supply cap less the
/// `total_minted` of our mint blocks) with a tolerance of one hundredth of
/// the cap. When the claim is within it, our own count is adopted (not the
/// peer's figure); otherwise nothing changes.
pub open spec fn peer_supply(
    peer_remaining: u128,
    our_remaining: u128,
    total_minted: u128,
    supply_cap: u128,
) -> Option<u128> {
    let calculated = sat_sub(supply_cap, total_minted);
    let tolerance = supply_cap / 100;
    if peer_remaining < our_remaining && peer_remaining != 0 && sat_sub(calculated, tolerance)
        <= peer_remaining && peer_remaining <= sat_add(calculated, tolerance) {
        Some(calculated)
    } else {
        None
    }
}

/// The remaining supply to adopt from a peer's claim (see `peer_supply`).
pub fn supply_from_peer(
    peer_remaining: u128,
    our_remaining: u128,
    total_minted: u128,
    supply_cap: u128,
) -> (r: Option<u128>)
    ensures
        r == peer_supply(peer_remaining, our_remaining, total_minted, supply_cap),
{
    if peer_remaining < our_remaining && peer_remaining != 0 {
        let calculated = supply_cap.saturating_sub(total_minted);
        let tolerance = supply_cap / 100;
        if peer_remaining >= calculated.saturating_sub(tolerance) && peer_remaining
            <= calculated.saturating_add(tolerance) {
            return Some(calculated);
        }
    }
    None
}

/// An adopted supply is never more than the cap, and never lower than the
/// peer's claim by more than the tolerance.
pub proof fn lemma_peer_supply_bounded(
    peer_remaining: u128,
    our_remaining: u128,
    total_minted: u128,
    supply_cap: u128,
)
    ensures
        peer_supply(peer_remaining, our_remaining, total_minted, supply_cap) matches Some(c) ==> c
            <= supply_cap && peer_remaining <= c + supply_cap / 100 && peer_remaining
            < our_remaining,
{
}

/// The stored block `tx_hash` is a send of `amount` from `sender`.
pub open spec fn send_matches(b: Block, sender: Seq<char>, amount: u128) -> bool {
    b.block_type == BlockType::Send && b.account@ == sender && b.amount == amount
}

/// The balance of `address`, zero for an unknown account.
pub open spec fn balance_of(v: LedgerView, address: Seq<char>) -> u128 {
    if v.accounts.contains_key(address) {
        v.accounts[address].balance
    } else {
        0
    }
}

/// Whether this node votes yes on a request to confirm the send `tx_hash`
/// of `amount` from `sender`: the send must be known, either as a stored
/// block or as the block carried by the request (whose hash, signature,
/// proof of work and key were checked, `embedded_checked`), and the sender
/// must hold at least the amount.
pub open spec fn confirm_vote_spec(
    v: LedgerView,
    tx_hash: Seq<char>,
    sender: Seq<char>,
    amount: u128,
    embedded: Option<Block>,
    embedded_checked: bool,
) -> bool {
    let in_ledger = v.blocks.contains_key(tx_hash) && send_matches(v.blocks[tx_hash], sender, amount);
    let in_request = match embedded {
        Some(b) => embedded_checked && send_matches(b, sender, amount),
        None => false,
    };
    (in_ledger || in_request) && balance_of(v, sender) >= amount
}

/// Some Mint block of the ledger names `txid` in its link.
pub open spec fn txid_minted(v: LedgerView, txid: Seq<char>) -> bool {
    exists|h: Seq<char>|
        #[trigger] v.blocks.contains_key(h) && v.blocks[h].block_type == BlockType::Mint
            && contains_part(v.blocks[h].link@, txid)
}

/// Evidence that `txid` is fraudulent, as this node sees it: the accused
/// account exists and no Mint block names the transaction id.
pub open spec fn slash_evidence(v: LedgerView, cheater: Seq<char>, txid: Seq<char>) -> bool {
    v.accounts.contains_key(cheater) && !txid_minted(v, txid)
}

impl LedgerState {
    /// Whether the ledger holds the evidence for slashing `cheater` over
    /// `fake_txid` (see `slash_evidence`).
    pub fn slash_evidence_valid(&self, cheater: &str, fake_txid: &str) -> (r: bool)
        requires
            self.wf(),
        ensures
            r == slash_evidence(self@, cheater@, fake_txid@),
    {
        let cheater_exists = match self.account(cheater) {
            Some(_) => true,
            None => false,
        };
        let t = chars_of(fake_txid);
        let n = self.blocks.len();
        let mut i: usize = 0;
        while i < n
            invariant
                self.wf(),
                n == self.blocks@.len(),
                i <= n,
                t@ == fake_txid@,
                forall|k: int|
                    0 <= k < i ==> !((#[trigger] self.blocks@[k]).1.block_type == BlockType::Mint
                        && contains_part(self.blocks@[k].1.link@, t@)),
            decreases n - i,
        {
            let is_mint = match self.blocks[i].1.block_type {
                BlockType::Mint => true,
                _ => false,
            };
            if is_mint {
                let link = chars_of(self.blocks[i].1.link.as_str());
                if contains_chars(&link, &t) {
                    proof {
                        lemma_table_index(self.blocks@, block_key(), block_val(), i as int);
                        let h = self.blocks@[i as int].0@;
                        assert(self@.blocks.contains_key(h));
                    }
                    return false;
                }
            }
            i += 1;
        }
        proof {
            if txid_minted(self@, t@) {
                let h = choose|h: Seq<char>|
                    #[trigger] self@.blocks.contains_key(h) && self@.blocks[h].block_type
                        == BlockType::Mint && contains_part(self@.blocks[h].link@, t@);
                let j = key_index(self.blocks@, block_key(), h);
                lemma_table_index(self.blocks@, block_key(), block_val(), j);
                assert(self.blocks@[j].0@ == h);
            }
        }
        cheater_exists
    }
}

impl LedgerState {
    /// Decides the vote on a confirmation request (see `confirm_vote_spec`).
    pub fn confirm_vote(
        &self,
        tx_hash: &str,
        sender: &str,
        amount: u128,
        embedded: &Option<Block>,
        embedded_checked: bool,
    ) -> (r: bool)
        requires
            self.wf(),
        ensures
            r == confirm_vote_spec(self@, tx_hash@, sender@, amount, *embedded, embedded_checked),
    {
        let s = sender.to_owned();
        let in_ledger = match self.block(tx_hash) {
            Some(b) => {
                let ty_ok = match b.block_type {
                    BlockType::Send => true,
                    _ => false,
                };
                ty_ok && b.account == s && b.amount == amount
            },
            None => false,
        };
        let in_request = match embedded {
            Some(b) => {
                let ty_ok = match b.block_type {
                    BlockType::Send => true,
                    _ => false,
                };
                embedded_checked && ty_ok && b.account == s && b.amount == amount
            },
            None => false,
        };
        let balance = match self.account(sender) {
            Some(a) => a.balance,
            None => 0,
        };
        (in_ledger || in_request) && balance >= amount
    }
}

/// The vote is YES exactly when the sender's balance covers the amount and
/// a Send of that account and amount is known: stored under `tx_hash`, or
/// carried by the request and checked.
pub proof fn lemma_confirm_vote_exact(
    v: LedgerView,
    tx_hash: Seq<char>,
    sender: Seq<char>,
    amount: u128,
    embedded: Option<Block>,
    embedded_checked: bool,
)
    ensures
        confirm_vote_spec(v, tx_hash, sender, amount, embedded, embedded_checked) <==> ({
            let stored = v.blocks.contains_key(tx_hash) && v.blocks[tx_hash].block_type
                == BlockType::Send && v.blocks[tx_hash].account@ == sender
                && v.blocks[tx_hash].amount == amount;
            let carried = embedded is Some && embedded_checked && embedded->0.block_type
                == BlockType::Send && embedded->0.account@ == sender && embedded->0.amount
                == amount;
            let balance = if v.accounts.contains_key(sender) {
                v.accounts[sender].balance
            } else {
                0
            };
            (stored || carried) && balance >= amount
        }),
{
}

} // verus!
