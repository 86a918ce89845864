//! Applying a send and its receive that the network confirmed
//! (`BLOCK_CONFIRMED:send:receive`): the checks on the pair, idempotence,
//! the chain and balance checks on both accounts, and the undo of the send
//! when the receive does not extend the recipient's chain.
use vstd::prelude::*;
use crate::ledger::{AccountState, Block, BlockType, LedgerState, LedgerView};

verus! {

/// The fields of an account record, its head as characters.
pub struct AccountFields {
    pub head: Seq<char>,
    pub balance: u128,
    pub block_count: u64,
    pub is_validator: bool,
}

/// The fields of `a`.
pub open spec fn fields_of(a: AccountState) -> AccountFields {
    AccountFields {
        head: a.head@,
        balance: a.balance,
        block_count: a.block_count,
        is_validator: a.is_validator,
    }
}

/// The fields of every account of `m`.
pub open spec fn fields_map(m: Map<Seq<char>, AccountState>) -> Map<Seq<char>, AccountFields> {
    m.map_values(|a: AccountState| fields_of(a))
}

/// A ledger with its accounts read field by field.
pub struct ChainState {
    pub accounts: Map<Seq<char>, AccountFields>,
    pub blocks: Map<Seq<char>, Block>,
    pub claimed_sends: Set<Seq<char>>,
    pub remaining_supply: u128,
    pub accumulated_fees_cil: u128,
}

/// The ledger `v`, its accounts read field by field.
pub open spec fn chain_of(v: LedgerView) -> ChainState {
    ChainState {
        accounts: fields_map(v.accounts),
        blocks: v.blocks,
        claimed_sends: v.claimed_sends,
        remaining_supply: v.remaining_supply,
        accumulated_fees_cil: v.accumulated_fees_cil,
    }
}

/// What became of a confirmed pair.
#[derive(Clone, Copy, Debug, PartialEq, Eq, Structural)]
pub enum ConfirmedOutcome {
    /// The pair failed its checks; nothing changed.
    Invalid,
    /// The send is already stored; nothing changed.
    AlreadyApplied,
    /// The send does not extend the sender's chain or exceeds its balance.
    SendRejected,
    /// The receive does not extend the recipient's chain; the send was undone.
    ReceiveRejected,
    /// Both blocks were applied.
    Applied,
}

/// The record a new account starts with.
pub open spec fn new_account() -> AccountFields {
    AccountFields { head: "0"@, balance: 0, block_count: 0, is_validator: false }
}

/// `m` with a new record for `k` when it has none.
pub open spec fn with_account(m: Map<Seq<char>, AccountFields>, k: Seq<char>) -> Map<
    Seq<char>,
    AccountFields,
> {
    if m.contains_key(k) {
        m
    } else {
        m.insert(k, new_account())
    }
}

/// The pair is acceptable: a send and a receive whose signatures and proofs
/// of work were checked (`send_checked`, `recv_checked`), the receive taking
/// the sent amount, naming the send's hash and belonging to the send's
/// recipient.
pub open spec fn pair_valid(
    send: Block,
    send_hash: Seq<char>,
    recv: Block,
    send_checked: bool,
    recv_checked: bool,
) -> bool {
    &&& send.block_type == BlockType::Send && send_checked
    &&& recv.block_type == BlockType::Receive && recv_checked
    &&& recv.amount == send.amount
    &&& recv.link@ == send_hash
    &&& recv.account@ == send.link@
}

/// The ledger and the outcome after a confirmed pair arrives. Missing
/// accounts are created as they are first looked at and stay, whatever
/// follows. The send is applied when it extends the sender's chain and the
/// sender holds amount plus fee (saturated): the sender is debited, its head
/// and count advance, the fee is gathered and the send stored. Then the
/// receive is applied when it extends the recipient's chain: the recipient
/// is credited (saturating), its head and count advance, the receive is
/// stored and the send marked received. Otherwise the send is undone: the
/// debit is given back (saturating), the head set back to the send's
/// predecessor, the count lowered (not below zero), the fee taken back
/// (not below zero) and the send forgotten.
pub open spec fn confirmed_step(
    c: ChainState,
    send: Block,
    send_hash: Seq<char>,
    recv: Block,
    recv_hash: Seq<char>,
    send_checked: bool,
    recv_checked: bool,
) -> (ChainState, ConfirmedOutcome) {
    if !pair_valid(send, send_hash, recv, send_checked, recv_checked) {
        (c, ConfirmedOutcome::Invalid)
    } else if c.blocks.contains_key(send_hash) {
        (c, ConfirmedOutcome::AlreadyApplied)
    } else {
        let sender = send.account@;
        let debit = send.amount.saturating_add(send.fee);
        let a1 = with_account(c.accounts, sender);
        let s = a1[sender];
        if s.head != send.previous@ || s.balance < debit {
            (ChainState { accounts: a1, ..c }, ConfirmedOutcome::SendRejected)
        } else {
            let a2 = a1.insert(
                sender,
                AccountFields {
                    head: send_hash,
                    balance: (s.balance - debit) as u128,
                    block_count: (s.block_count + 1) as u64,
                    is_validator: s.is_validator,
                },
            );
            let fees = c.accumulated_fees_cil.saturating_add(send.fee);
            let blocks = c.blocks.insert(send_hash, send);
            let recipient = recv.account@;
            let a3 = with_account(a2, recipient);
            let r = a3[recipient];
            if r.head != recv.previous@ {
                let s3 = a3[sender];
                (
                    ChainState {
                        accounts: a3.insert(
                            sender,
                            AccountFields {
                                head: send.previous@,
                                balance: s3.balance.saturating_add(debit),
                                block_count: s3.block_count.saturating_sub(1),
                                is_validator: s3.is_validator,
                            },
                        ),
                        blocks: blocks.remove(send_hash),
                        accumulated_fees_cil: fees.saturating_sub(send.fee),
                        ..c
                    },
                    ConfirmedOutcome::ReceiveRejected,
                )
            } else {
                (
                    ChainState {
                        accounts: a3.insert(
                            recipient,
                            AccountFields {
                                head: recv_hash,
                                balance: r.balance.saturating_add(recv.amount),
                                block_count: (r.block_count + 1) as u64,
                                is_validator: r.is_validator,
                            },
                        ),
                        blocks: blocks.insert(recv_hash, recv),
                        claimed_sends: c.claimed_sends.insert(send_hash),
                        accumulated_fees_cil: fees,
                        ..c
                    },
                    ConfirmedOutcome::Applied,
                )
            }
        }
    }
}

/// Every account has room for two more blocks in its count.
pub open spec fn counts_have_room(v: LedgerView) -> bool {
    forall|k: Seq<char>| #[trigger] v.accounts.contains_key(k) ==> v.accounts[k].block_count < u64::MAX - 1
}

proof fn lemma_fields_insert(m: Map<Seq<char>, AccountState>, k: Seq<char>, a: AccountState)
    ensures
        fields_map(m.insert(k, a)) == fields_map(m).insert(k, fields_of(a)),
{
    assert(fields_map(m.insert(k, a)) =~= fields_map(m).insert(k, fields_of(a)));
}

impl LedgerState {
    /// The record of `address`, created as a new account when there is none.
    fn account_or_new(&mut self, address: &String) -> (r: AccountState)
        requires
            old(self).wf(),
        ensures
            final(self).wf(),
            chain_of(final(self)@) == (ChainState {
                accounts: with_account(chain_of(old(self)@).accounts, address@),
                ..chain_of(old(self)@)
            }),
            final(self)@.accounts.contains_key(address@),
            r == final(self)@.accounts[address@],
            fields_of(r) == with_account(chain_of(old(self)@).accounts, address@)[address@],
    {
        match self.account(address.as_str()) {
            Some(a) => {
                proof {
                    assert(fields_map(self@.accounts).contains_key(address@));
                    assert(chain_of(self@) =~= ChainState {
                        accounts: with_account(chain_of(self@).accounts, address@),
                        ..chain_of(self@)
                    });
                }
                a
            },
            None => {
                let fresh = AccountState {
                    head: "0".to_owned(),
                    balance: 0,
                    block_count: 0,
                    is_validator: false,
                };
                let kept = AccountState {
                    head: fresh.head.clone(),
                    balance: 0,
                    block_count: 0,
                    is_validator: false,
                };
                self.set_account(address.clone(), fresh);
                proof {
                    lemma_fields_insert(old(self)@.accounts, address@, kept);
                    assert(fields_of(kept) == new_account());
                    assert(chain_of(self@) =~= ChainState {
                        accounts: with_account(chain_of(old(self)@).accounts, address@),
                        ..chain_of(old(self)@)
                    });
                }
                kept
            },
        }
    }

    /// Applies a confirmed send and receive (see `confirmed_step`); `send_hash`
    /// and `recv_hash` are the blocks' hashes, and `send_checked` and
    /// `recv_checked` say whether each block's signature and proof of work
    /// were checked.
    pub fn apply_confirmed(
        &mut self,
        send: Block,
        send_hash: String,
        recv: Block,
        recv_hash: String,
        send_checked: bool,
        recv_checked: bool,
    ) -> (r: ConfirmedOutcome)
        requires
            old(self).wf(),
            counts_have_room(old(self)@),
        ensures
            final(self).wf(),
            (chain_of(final(self)@), r) == confirmed_step(
                chain_of(old(self)@),
                send,
                send_hash@,
                recv,
                recv_hash@,
                send_checked,
                recv_checked,
            ),
    {
        let ghost c = chain_of(self@);
        let ghost sh = send_hash@;
        let ghost rh = recv_hash@;
        let send_ok = match send.block_type {
            BlockType::Send => true,
            _ => false,
        } && send_checked;
        let recv_ok = match recv.block_type {
            BlockType::Receive => true,
            _ => false,
        } && recv_checked && recv.amount == send.amount && recv.link == send_hash && recv.account
            == send.link;
        if !(send_ok && recv_ok) {
            return ConfirmedOutcome::Invalid;
        }
        match self.block(send_hash.as_str()) {
            Some(_) => {
                return ConfirmedOutcome::AlreadyApplied;
            },
            None => {},
        }
        let sender = send.account.clone();
        let debit = send.amount.saturating_add(send.fee);
        let s = self.account_or_new(&sender);
        let ghost a1 = with_account(c.accounts, sender@);
        if !(s.head == send.previous) || s.balance < debit {
            return ConfirmedOutcome::SendRejected;
        }
        proof {
            if old(self)@.accounts.contains_key(sender@) {
                assert(fields_map(old(self)@.accounts)[sender@] == fields_of(old(self)@.accounts[sender@]));
            }
        }
        let debited = AccountState {
            head: send_hash.clone(),
            balance: s.balance - debit,
            block_count: s.block_count + 1,
            is_validator: s.is_validator,
        };
        let ghost before_debit = self@;
        self.set_account(sender.clone(), debited);
        proof {
            lemma_fields_insert(before_debit.accounts, sender@, debited);
        }
        let fees = self.accumulated_fees().saturating_add(send.fee);
        self.set_accumulated_fees(fees);
        let previous = send.previous.clone();
        let fee = send.fee;
        let ghost send_block = send;
        self.insert_block(send_hash.clone(), send);
        let ghost a2 = a1.insert(
            sender@,
            AccountFields {
                head: send_hash@,
                balance: (a1[sender@].balance - debit) as u128,
                block_count: (a1[sender@].block_count + 1) as u64,
                is_validator: a1[sender@].is_validator,
            },
        );
        proof {
            assert(chain_of(self@).accounts == a2);
            assert(chain_of(self@).blocks == c.blocks.insert(send_hash@, send_block));
        }
        let recipient = recv.account.clone();
        let r = self.account_or_new(&recipient);
        let ghost a3 = with_account(a2, recipient@);
        if !(r.head == recv.previous) {
            let s3 = self.account_or_new(&sender);
            proof {
                assert(a3.contains_key(sender@));
                assert(with_account(a3, sender@) == a3);
            }
            let restored = AccountState {
                head: previous,
                balance: s3.balance.saturating_add(debit),
                block_count: s3.block_count.saturating_sub(1),
                is_validator: s3.is_validator,
            };
            let ghost before_restore = self@;
            self.set_account(sender, restored);
            proof {
                lemma_fields_insert(before_restore.accounts, sender@, restored);
            }
            let fees_back = self.accumulated_fees().saturating_sub(fee);
            self.set_accumulated_fees(fees_back);
            self.remove_block(&send_hash);
            proof {
                assert(chain_of(self@) =~= confirmed_step(
                    c,
                    send_block,
                    sh,
                    recv,
                    rh,
                    send_checked,
                    recv_checked,
                ).0);
            }
            return ConfirmedOutcome::ReceiveRejected;
        }
        proof {
            if a2.contains_key(recipient@) && recipient@ != sender@ {
                assert(old(self)@.accounts.contains_key(recipient@));
                assert(fields_map(old(self)@.accounts)[recipient@] == fields_of(old(self)@.accounts[recipient@]));
            }
        }
        let credited = AccountState {
            head: recv_hash.clone(),
            balance: r.balance.saturating_add(recv.amount),
            block_count: r.block_count + 1,
            is_validator: r.is_validator,
        };
        let ghost before_credit = self@;
        self.set_account(recipient, credited);
        proof {
            lemma_fields_insert(before_credit.accounts, recv.account@, credited);
        }
        let ghost recv_block = recv;
        self.put_block(recv_hash, recv);
        self.claim_send(send_hash);
        proof {
            assert(chain_of(self@) =~= confirmed_step(
                c,
                send_block,
                sh,
                recv_block,
                rh,
                send_checked,
                recv_checked,
            ).0);
        }
        ConfirmedOutcome::Applied
    }
}

/// Applying a pair is idempotent: once a pair is applied, the same pair
/// arriving again changes nothing and is reported as already applied.
pub proof fn lemma_confirmed_idempotent(
    c: ChainState,
    send: Block,
    send_hash: Seq<char>,
    recv: Block,
    recv_hash: Seq<char>,
    send_checked: bool,
    recv_checked: bool,
)
    requires
        confirmed_step(c, send, send_hash, recv, recv_hash, send_checked, recv_checked).1
            == ConfirmedOutcome::Applied,
    ensures
        ({
            let after = confirmed_step(c, send, send_hash, recv, recv_hash, send_checked, recv_checked).0;
            confirmed_step(after, send, send_hash, recv, recv_hash, send_checked, recv_checked) == (
                after,
                ConfirmedOutcome::AlreadyApplied,
            )
        }),
{
    let after = confirmed_step(c, send, send_hash, recv, recv_hash, send_checked, recv_checked).0;
    if recv_hash != send_hash {
        assert(after.blocks.contains_key(send_hash));
    }
}

/// The balance of `k` in `m`, zero for an unknown account.
pub open spec fn balance_in(m: Map<Seq<char>, AccountFields>, k: Seq<char>) -> int {
    if m.contains_key(k) {
        m[k].balance as int
    } else {
        0
    }
}

/// An applied transfer between two accounts creates no money: when neither
/// the debit nor the credit saturates, the two balances together fall by the
/// fee, and no other balance changes.
pub proof fn lemma_confirmed_conserves(
    c: ChainState,
    send: Block,
    send_hash: Seq<char>,
    recv: Block,
    recv_hash: Seq<char>,
    send_checked: bool,
    recv_checked: bool,
)
    requires
        confirmed_step(c, send, send_hash, recv, recv_hash, send_checked, recv_checked).1
            == ConfirmedOutcome::Applied,
        send.account@ != recv.account@,
        send.amount + send.fee <= u128::MAX,
        balance_in(c.accounts, recv.account@) + recv.amount <= u128::MAX,
    ensures
        ({
            let after = confirmed_step(c, send, send_hash, recv, recv_hash, send_checked, recv_checked).0;
            &&& balance_in(after.accounts, send.account@) + balance_in(after.accounts, recv.account@)
                + send.fee == balance_in(c.accounts, send.account@) + balance_in(
                c.accounts,
                recv.account@,
            )
            &&& forall|k: Seq<char>|
                k != send.account@ && k != recv.account@ ==> balance_in(after.accounts, k)
                    == #[trigger] balance_in(c.accounts, k)
        }),
{
}

/// A receive that does not fit the recipient's chain undoes the send: when
/// the sender was known and the fee did not saturate, the sender's record,
/// the stored blocks, the received sends and the gathered fees are as before.
pub proof fn lemma_rejected_receive_undoes_send(
    c: ChainState,
    send: Block,
    send_hash: Seq<char>,
    recv: Block,
    recv_hash: Seq<char>,
    send_checked: bool,
    recv_checked: bool,
)
    requires
        confirmed_step(c, send, send_hash, recv, recv_hash, send_checked, recv_checked).1
            == ConfirmedOutcome::ReceiveRejected,
        c.accounts.contains_key(send.account@),
        c.accounts[send.account@].block_count < u64::MAX,
        c.accumulated_fees_cil + send.fee <= u128::MAX,
    ensures
        ({
            let after = confirmed_step(c, send, send_hash, recv, recv_hash, send_checked, recv_checked).0;
            &&& after.accounts[send.account@] == c.accounts[send.account@]
            &&& after.blocks == c.blocks
            &&& after.claimed_sends == c.claimed_sends
            &&& after.accumulated_fees_cil == c.accumulated_fees_cil
        }),
{
    let after = confirmed_step(c, send, send_hash, recv, recv_hash, send_checked, recv_checked).0;
    assert(after.blocks =~= c.blocks);
}

} // verus!
