//! Sending: from a requested amount to a partial transaction for the
//! counterparty, and from the outcome of its delivery to the ledger that
//! records it.
//!
//! A send attempt runs in two steps around the delivery, which is the
//! caller's to perform. [`issue_send_tx`] selects the coins, reserves the
//! change output and builds the partial transaction. Once the caller has
//! tried to encode and deliver it, [`decide`] says from what became of it,
//! a [`Delivery`], whether the attempt is committed or rolled back, and
//! [`settle`] does so in the ledger: it locks the coins, or deletes the
//! change output. [`conclude`] folds the result of storing the
//! settled ledger into the result of the attempt.
//!
//! An attempt passes through these states. It starts with the request.
//! Once the coins are selected and the change output is reserved, it is a
//! [`SendAttempt`]; a request that fails before that leaves the ledger as
//! it was. From there it ends as one of the two [`Settlement`]s, committed
//! or rolled back, and in no other way.

use vstd::prelude::*;
use crate::blinding::{BlindSum, BlindingFactor};
use crate::builder::{
    blinding_of, input, input_total, lemma_shares_add_up, output, output_total, transaction,
    transaction_of, with_fee, with_lock_height, Commitment, Part, Transaction, TransactionView,
    TxInput, TxOutput,
};
use crate::change::{change_output, reserve_change, rollback};
use crate::destination::{supported, Destination};
use crate::error::{Error, SendFailure};
use crate::fee::{fee_for, tx_fee};
use crate::keys::{derive_key_id, Identifier};
use crate::ledger::{
    lemma_total_take, lockable, locked, total_of, total_value, LedgerView, Output,
    WalletLedger,
};
use crate::selection::{
    available, eligible, is_selection, lemma_minimal_selection_overshoots_little,
    lemma_selection_is_unique, spendable, within_reach, SelectionStrategy,
};

verus! {

/// What the sender hands to the counterparty: the amount, the sender's
/// share of the blinding factor, and the transaction as far as the sender
/// can build it. The counterparty adds its output and its own share.
#[derive(Clone, Debug, PartialEq, Eq)]
pub struct PartialTransaction {
    pub amount: u64,
    pub blind_sum: BlindingFactor,
    pub tx: Transaction,
}

/// Puts a partial transaction together.
pub fn build_partial_tx(amount: u64, blind_sum: BlindingFactor, tx: Transaction) -> (partial:
    PartialTransaction)
    ensures
        partial.amount == amount,
        partial.blind_sum == blind_sum,
        partial.tx == tx,
{
    PartialTransaction { amount, blind_sum, tx }
}

/// The key that spends `coin` when the wallet works under `root_key`: the
/// key at the coin's derivation index.
pub open spec fn spending_key(coin: Output, root_key: u64) -> Identifier {
    Identifier { root_key, index: coin.key_id.index }
}

/// The part that spends `coin`.
pub open spec fn input_part(coin: Output, root_key: u64) -> Part {
    Part::Input { value: coin.value, key_id: spending_key(coin, root_key) }
}

/// The parts that spend `coins`, in their order.
pub open spec fn input_parts(coins: Seq<Output>, root_key: u64) -> Seq<Part> {
    coins.map_values(|coin: Output| input_part(coin, root_key))
}

/// The inputs that spend `coins`, in their order.
pub open spec fn spent_inputs(coins: Seq<Output>, root_key: u64) -> Seq<TxInput> {
    coins.map_values(
        |coin: Output|
            TxInput { commit: Commitment { value: coin.value, key_id: spending_key(coin, root_key) } },
    )
}

/// The keys that spend `coins`, in their order.
pub open spec fn spending_keys(coins: Seq<Output>, root_key: u64) -> Seq<Identifier> {
    coins.map_values(|coin: Output| spending_key(coin, root_key))
}

/// The fee of a payment that spends `inputs` outputs: that of a
/// transaction with a payment output and a change output.
pub open spec fn send_fee(inputs: nat) -> u64 {
    fee_for(inputs as int, 2, None) as u64
}

/// The parts of the sender's side of a payment of `amount` from `coins`:
/// the inputs, then the fee, then the change output of the value that the
/// coins hold beyond the amount.
pub open spec fn send_parts(
    coins: Seq<Output>,
    root_key: u64,
    amount: u64,
    change_key: Identifier,
) -> Seq<Part> {
    input_parts(coins, root_key).push(Part::Fee(send_fee(coins.len()))).push(
        Part::Output { value: (total_value(coins) - amount) as u64, key_id: change_key },
    )
}

/// The sender's side of a payment of `amount` from `coins`.
pub open spec fn send_transaction(
    coins: Seq<Output>,
    root_key: u64,
    amount: u64,
    change_key: Identifier,
    lock_height: u64,
) -> TransactionView {
    TransactionView {
        inputs: spent_inputs(coins, root_key),
        outputs: seq![
            TxOutput {
                commit: Commitment {
                    value: (total_value(coins) - amount) as u64,
                    key_id: change_key,
                },
            },
        ],
        fee: send_fee(coins.len()),
        lock_height,
    }
}

/// The sender's share of the blinding factor of a payment: the change key
/// less the keys of the coins.
pub open spec fn send_blinding(coins: Seq<Output>, root_key: u64, change_key: Identifier) -> BlindSum {
    BlindSum { positive: seq![change_key], negative: spending_keys(coins, root_key) }
}

/// What is left of the requested amount for the recipient: the fee is paid
/// out of the amount, not on top of it.
pub open spec fn recipient_value(amount: u64, fee: u64) -> int {
    amount - fee
}

/// The parts that spend coins make a transaction of inputs only, whose
/// inputs spend what the coins hold, and count against the blinding factor.
pub proof fn lemma_input_parts(coins: Seq<Output>, root_key: u64)
    ensures
        transaction_of(input_parts(coins, root_key)) == (TransactionView {
            inputs: spent_inputs(coins, root_key),
            ..TransactionView::empty()
        }),
        blinding_of(input_parts(coins, root_key)) == (BlindSum {
            positive: Seq::empty(),
            negative: spending_keys(coins, root_key),
        }),
        input_total(spent_inputs(coins, root_key)) == total_value(coins),
    decreases coins.len(),
{
    let parts = input_parts(coins, root_key);
    if coins.len() == 0 {
        assert(spent_inputs(coins, root_key) =~= Seq::empty());
        assert(spending_keys(coins, root_key) =~= Seq::empty());
    } else {
        let rest = coins.drop_last();
        lemma_input_parts(rest, root_key);
        assert(parts.drop_last() =~= input_parts(rest, root_key));
        assert(parts.last() == input_part(coins.last(), root_key));
        assert(spent_inputs(coins, root_key) =~= spent_inputs(rest, root_key).push(
            spent_inputs(coins, root_key).last(),
        ));
        assert(spent_inputs(coins, root_key).drop_last() =~= spent_inputs(rest, root_key));
        assert(blinding_of(parts).negative =~= spending_keys(coins, root_key));
        assert(blinding_of(parts).positive =~= Seq::<Identifier>::empty());
    }
}

/// What the parts of a payment build, once the lock height is appended.
pub proof fn lemma_send_parts(
    coins: Seq<Output>,
    root_key: u64,
    amount: u64,
    change_key: Identifier,
    lock_height: u64,
)
    ensures
        transaction_of(
            send_parts(coins, root_key, amount, change_key).push(Part::LockHeight(lock_height)),
        ) == send_transaction(coins, root_key, amount, change_key, lock_height),
        blinding_of(
            send_parts(coins, root_key, amount, change_key).push(Part::LockHeight(lock_height)),
        ) == send_blinding(coins, root_key, change_key),
{
    let inputs = input_parts(coins, root_key);
    let with_fee = inputs.push(Part::Fee(send_fee(coins.len())));
    let parts = send_parts(coins, root_key, amount, change_key);
    let all = parts.push(Part::LockHeight(lock_height));
    lemma_input_parts(coins, root_key);
    assert(with_fee.drop_last() =~= inputs);
    assert(parts.drop_last() =~= with_fee);
    assert(all.drop_last() =~= parts);
    let t0 = transaction_of(inputs);
    let t1 = transaction_of(with_fee);
    let t2 = transaction_of(parts);
    assert(t1 == t0.with_part(with_fee.last()));
    assert(t2 == t1.with_part(parts.last()));
    assert(transaction_of(all) == t2.with_part(all.last()));
    assert(t2.outputs =~= send_transaction(
        coins,
        root_key,
        amount,
        change_key,
        lock_height,
    ).outputs);
    assert(blinding_of(with_fee).positive =~= Seq::<Identifier>::empty());
    assert(blinding_of(with_fee).negative =~= spending_keys(coins, root_key));
    assert(blinding_of(parts).positive =~= seq![change_key]);
    assert(blinding_of(parts).negative =~= spending_keys(coins, root_key));
    assert(blinding_of(all).positive =~= seq![change_key]);
    assert(blinding_of(all).negative =~= spending_keys(coins, root_key));
}

/// Value is conserved in a payment: what the inputs spend is what the
/// recipient can claim, plus the change, plus the fee.
pub proof fn lemma_send_conserves_value(
    coins: Seq<Output>,
    root_key: u64,
    amount: u64,
    change_key: Identifier,
    lock_height: u64,
)
    requires
        amount <= total_value(coins) <= u64::MAX + amount,
    ensures
        ({
            let tx = send_transaction(coins, root_key, amount, change_key, lock_height);
            &&& output_total(tx.outputs) == total_value(coins) - amount
            &&& input_total(tx.inputs) == recipient_value(amount, tx.fee) + output_total(tx.outputs)
                + tx.fee
        }),
{
    let tx = send_transaction(coins, root_key, amount, change_key, lock_height);
    lemma_input_parts(coins, root_key);
    assert(tx.outputs.drop_last() =~= Seq::<TxOutput>::empty());
    assert(output_total(tx.outputs.drop_last()) == 0);
}

/// Value is conserved in a completed payment: once the counterparty adds
/// the output that claims what the fee leaves of the amount, the inputs
/// spend exactly what the two outputs create plus the fee.
pub proof fn lemma_completed_send_conserves_value(
    coins: Seq<Output>,
    root_key: u64,
    amount: u64,
    change_key: Identifier,
    lock_height: u64,
    recipient_key: Identifier,
)
    requires
        amount <= total_value(coins) <= u64::MAX + amount,
        send_fee(coins.len()) <= amount,
    ensures
        transaction_of(
            send_parts(coins, root_key, amount, change_key).push(Part::LockHeight(lock_height))
                + seq![
                Part::Output {
                    value: recipient_value(amount, send_fee(coins.len())) as u64,
                    key_id: recipient_key,
                },
            ],
        ).balanced(),
{
    let sender = send_parts(coins, root_key, amount, change_key).push(
        Part::LockHeight(lock_height),
    );
    let claim = Part::Output {
        value: recipient_value(amount, send_fee(coins.len())) as u64,
        key_id: recipient_key,
    };
    let all = sender + seq![claim];
    lemma_send_parts(coins, root_key, amount, change_key, lock_height);
    lemma_send_conserves_value(coins, root_key, amount, change_key, lock_height);
    assert(all.drop_last() =~= sender);
    assert(all.last() == claim);
    let tx = transaction_of(all);
    assert(tx == transaction_of(sender).with_part(claim));
    assert(tx.outputs.drop_last() =~= transaction_of(sender).outputs);
}

/// The sender's side of a payment cannot be posted on its own: as long as
/// the recipient has something to claim, the sender's side does not
/// balance.
pub proof fn lemma_partial_transaction_is_open(
    coins: Seq<Output>,
    root_key: u64,
    amount: u64,
    change_key: Identifier,
    lock_height: u64,
)
    requires
        amount <= total_value(coins) <= u64::MAX + amount,
        recipient_value(amount, send_fee(coins.len())) != 0,
    ensures
        !send_transaction(coins, root_key, amount, change_key, lock_height).balanced(),
{
    lemma_send_conserves_value(coins, root_key, amount, change_key, lock_height);
}

/// The partial transaction carries the sender's share of the blinding
/// factor and nothing of the counterparty's: the share names the change
/// key and the keys of the coins, all under the sender's root key. When the
/// counterparty adds its parts, the blinding factor of the whole is the sum
/// of the two shares. The excess that closes that sum to the identity is
/// made by the keychains of the two parties, not here.
pub proof fn lemma_partial_transaction_completes(
    coins: Seq<Output>,
    root_key: u64,
    amount: u64,
    change_key: Identifier,
    lock_height: u64,
    counterparty: Seq<Part>,
)
    ensures
        ({
            let share = send_blinding(coins, root_key, change_key);
            let sender = send_parts(coins, root_key, amount, change_key).push(
                Part::LockHeight(lock_height),
            );
            let whole = blinding_of(sender + counterparty);
            &&& share.positive == seq![change_key]
            &&& share.negative.len() == coins.len()
            &&& forall|i: int|
                0 <= i < coins.len() ==> #[trigger] share.negative[i] == spending_key(
                    coins[i],
                    root_key,
                )
            &&& whole == share.plus(blinding_of(counterparty))
        }),
{
    let sender = send_parts(coins, root_key, amount, change_key).push(
        Part::LockHeight(lock_height),
    );
    lemma_send_parts(coins, root_key, amount, change_key, lock_height);
    lemma_shares_add_up(sender, counterparty);
}

/// Totals `coins` and lists the parts that spend them, each under the key
/// at the coin's derivation index under `root_key`.
pub fn spend_all(coins: &Vec<Output>, root_key: u64) -> (spent: (u128, Vec<Part>))
    ensures
        spent.0 == total_value(coins@),
        spent.1@ == input_parts(coins@, root_key),
{
    let mut parts: Vec<Part> = Vec::new();
    let mut i: usize = 0;
    while i < coins.len()
        invariant
            i <= coins.len(),
            parts@ == input_parts(coins@.take(i as int), root_key),
        decreases coins.len() - i,
    {
        let coin = coins[i];
        proof {
            assert(input_parts(coins@.take(i + 1), root_key) =~= input_parts(
                coins@.take(i as int),
                root_key,
            ).push(input_part(coin, root_key)));
        }
        parts.push(input(coin.value, derive_key_id(root_key, coin.key_id.index)));
        i += 1;
    }
    proof {
        assert(coins@.take(coins.len() as int) =~= coins@);
    }
    (total_of(coins), parts)
}

/// Totals the coins, reserves the change output and lists the parts of the
/// sender's side of a payment of `amount`.
///
/// The change is what the coins hold beyond `amount`; the fee comes out of
/// the amount and leaves the change as it is. The change output is recorded
/// in the ledger at once, under a derivation index that is issued for it,
/// so that the index is used up whether or not the payment goes through.
/// The identifier of the change output is returned with the parts: it is
/// the handle by which [`rollback`] deletes the output again.
///
/// The change is the value of an output, so it must fit in a `u64`.
pub fn inputs_and_change(
    coins: &Vec<Output>,
    ledger: &mut WalletLedger,
    root_key: u64,
    amount: u64,
) -> (built: Result<(Vec<Part>, Identifier), Error>)
    requires
        old(ledger).wf(),
        total_value(coins@) - amount <= u64::MAX,
    ensures
        final(ledger).wf(),
        built is Ok <==> total_value(coins@) >= amount && old(ledger)@.can_issue(),
        built matches Ok((parts, change_key)) ==> ({
            &&& change_key == (Identifier { root_key, index: old(ledger)@.next_index as u32 })
            &&& parts@ == send_parts(coins@, root_key, amount, change_key)
            &&& final(ledger)@ == old(ledger)@.issued().with_output(
                change_output(change_key, total_value(coins@) - amount),
            )
        }),
        built matches Err(e) ==> ({
            &&& final(ledger)@ == old(ledger)@
            &&& e == if total_value(coins@) < amount {
                Error::NotEnoughFunds(total_value(coins@) as u64)
            } else {
                Error::KeyDerivation
            }
        }),
{
    let (total, mut parts) = spend_all(coins, root_key);
    if total < amount as u128 {
        return Err(Error::NotEnoughFunds(total as u64));
    }
    let fee = tx_fee(coins.len(), 2, None);
    let change = (total - amount as u128) as u64;
    match reserve_change(ledger, root_key, change) {
        Err(e) => Err(e),
        Ok(change_key) => {
            parts.push(with_fee(fee));
            parts.push(output(change, change_key));
            Ok((parts, change_key))
        },
    }
}

/// Whether the change of a payment fits in a `u64`, so that the ledger can
/// record it. A minimal selection overshoots the amount by less than the
/// value of one output, so its change always fits; the change of a payment
/// that spends every eligible output is their total less the amount.
pub open spec fn change_fits(
    ledger: LedgerView,
    root_key: u64,
    amount: u64,
    current_height: u64,
    minimum_confirmations: u64,
    strategy: SelectionStrategy,
) -> bool {
    strategy == SelectionStrategy::AllEligible ==> total_value(
        spendable(ledger, root_key, current_height, minimum_confirmations),
    ) - amount <= u64::MAX
}

/// Tells whether the change of a payment fits in a `u64`.
pub fn check_change_fits(
    ledger: &WalletLedger,
    root_key: u64,
    amount: u64,
    current_height: u64,
    minimum_confirmations: u64,
    strategy: SelectionStrategy,
) -> (fits: bool)
    ensures
        fits == change_fits(
            ledger@,
            root_key,
            amount,
            current_height,
            minimum_confirmations,
            strategy,
        ),
{
    match strategy {
        SelectionStrategy::MinimalGreedy => true,
        SelectionStrategy::AllEligible => {
            let total = ledger.spendable_total(root_key, current_height, minimum_confirmations);
            total <= amount as u128 || total - amount as u128 <= u64::MAX as u128
        },
    }
}

/// Whether a send attempt fails before anything is handed out, and with
/// which error: a destination that is not supported is refused first, then
/// a selection that falls short, then a counter that has no index left for
/// the change output.
pub open spec fn send_error(
    ledger: LedgerView,
    root_key: u64,
    amount: u64,
    current_height: u64,
    minimum_confirmations: u64,
    max_outputs: usize,
    strategy: SelectionStrategy,
) -> Option<Error> {
    let reach = within_reach(
        spendable(ledger, root_key, current_height, minimum_confirmations),
        max_outputs,
        strategy,
    );
    if total_value(reach) < amount {
        Some(
            Error::NotEnoughFunds(
                available(
                    spendable(ledger, root_key, current_height, minimum_confirmations),
                    reach,
                    amount,
                ) as u64,
            ),
        )
    } else if !ledger.can_issue() {
        Some(Error::KeyDerivation)
    } else {
        None
    }
}

/// Whether `coins`, `change_key`, `tx` and `blind` are the sender's side of
/// a payment of `amount` from `ledger`, and `after` the ledger with the
/// change output reserved.
pub open spec fn is_send(
    ledger: LedgerView,
    after: LedgerView,
    root_key: u64,
    amount: u64,
    current_height: u64,
    minimum_confirmations: u64,
    lock_height: u64,
    max_outputs: usize,
    strategy: SelectionStrategy,
    tx: TransactionView,
    blind: BlindSum,
    coins: Seq<Output>,
    change_key: Identifier,
) -> bool {
    let reach = within_reach(
        spendable(ledger, root_key, current_height, minimum_confirmations),
        max_outputs,
        strategy,
    );
    &&& is_selection(coins, reach, amount, strategy)
    &&& change_key == (Identifier { root_key, index: ledger.next_index as u32 })
    &&& tx == send_transaction(coins, root_key, amount, change_key, lock_height)
    &&& blind == send_blinding(coins, root_key, change_key)
    &&& after == ledger.issued().with_output(
        change_output(change_key, total_value(coins) - amount),
    )
    &&& input_total(tx.inputs) == recipient_value(amount, tx.fee) + output_total(tx.outputs)
        + tx.fee
}

/// Selects the coins for a payment of `amount`, reserves the change output
/// and builds the sender's side of the transaction, locked until
/// `lock_height`. Returns the transaction, the sender's share of the
/// blinding factor, the coins and the identifier of the change output.
pub fn build_send_tx(
    ledger: &mut WalletLedger,
    root_key: u64,
    amount: u64,
    current_height: u64,
    minimum_confirmations: u64,
    lock_height: u64,
    max_outputs: usize,
    strategy: SelectionStrategy,
) -> (built: Result<(Transaction, BlindingFactor, Vec<Output>, Identifier), Error>)
    requires
        old(ledger).wf(),
        change_fits(
            old(ledger)@,
            root_key,
            amount,
            current_height,
            minimum_confirmations,
            strategy,
        ),
    ensures
        final(ledger).wf(),
        (match built {
            Ok((tx, blind, coins, change_key)) => {
                &&& send_error(
                    old(ledger)@,
                    root_key,
                    amount,
                    current_height,
                    minimum_confirmations,
                    max_outputs,
                    strategy,
                ) is None
                &&& is_send(
                    old(ledger)@,
                    final(ledger)@,
                    root_key,
                    amount,
                    current_height,
                    minimum_confirmations,
                    lock_height,
                    max_outputs,
                    strategy,
                    tx@,
                    blind@,
                    coins@,
                    change_key,
                )
            },
            Err(e) => {
                &&& final(ledger)@ == old(ledger)@
                &&& Some(e) == send_error(
                    old(ledger)@,
                    root_key,
                    amount,
                    current_height,
                    minimum_confirmations,
                    max_outputs,
                    strategy,
                )
            },
        }),
{
    let coins = match ledger.select_coins(
        root_key,
        amount,
        current_height,
        minimum_confirmations,
        max_outputs,
        strategy,
    ) {
        Ok(coins) => coins,
        Err(e) => {
            return Err(e);
        },
    };
    proof {
        if strategy == SelectionStrategy::MinimalGreedy {
            lemma_minimal_selection_overshoots_little(
                coins@,
                within_reach(
                    spendable(ledger@, root_key, current_height, minimum_confirmations),
                    max_outputs,
                    strategy,
                ),
                amount,
            );
        }
    }
    let (mut parts, change_key) = match inputs_and_change(&coins, ledger, root_key, amount) {
        Ok(built) => built,
        Err(e) => {
            return Err(e);
        },
    };
    parts.push(with_lock_height(lock_height));
    let (tx, blind) = transaction(parts);
    proof {
        lemma_send_parts(coins@, root_key, amount, change_key, lock_height);
        lemma_send_conserves_value(coins@, root_key, amount, change_key, lock_height);
    }
    Ok((tx, blind, coins, change_key))
}

/// A send attempt whose change output is reserved and whose partial
/// transaction waits to be delivered.
#[derive(Clone, Debug, PartialEq, Eq)]
pub struct SendAttempt {
    /// Where the partial transaction goes.
    pub destination: Destination,
    /// What goes there.
    pub partial: PartialTransaction,
    /// The coins that the transaction spends; [`commit`] locks them.
    pub coins: Vec<Output>,
    /// The change output; rolling the attempt back deletes it.
    pub change_key: Identifier,
}

/// Starts a send attempt: a payment of `amount` to `dest`, from the keys
/// under `root_key`, with the chain at height `chain_tip`.
///
/// The destination is read first, and an unsupported one is refused before
/// the ledger is touched. Then the coins are selected among the outputs
/// that are eligible at the chain tip, the change output is reserved, and
/// the sender's side of the transaction is built with the chain tip as its
/// lock height, so that it can be mined at once; that choice is a matter of
/// policy and may change. On success the ledger holds the change output
/// and the attempt waits to be delivered; on failure the ledger is as it
/// was.
///
/// The change must fit in a `u64`, as [`check_change_fits`] tells.
pub fn issue_send_tx(
    ledger: &mut WalletLedger,
    root_key: u64,
    chain_tip: u64,
    amount: u64,
    minimum_confirmations: u64,
    dest: &str,
    max_outputs: usize,
    strategy: SelectionStrategy,
) -> (issued: Result<SendAttempt, Error>)
    requires
        old(ledger).wf(),
        change_fits(old(ledger)@, root_key, amount, chain_tip, minimum_confirmations, strategy),
    ensures
        final(ledger).wf(),
        (match issued {
            Ok(attempt) => {
                &&& supported(dest@)
                &&& send_error(
                    old(ledger)@,
                    root_key,
                    amount,
                    chain_tip,
                    minimum_confirmations,
                    max_outputs,
                    strategy,
                ) is None
                &&& attempt.destination.named_by(dest@)
                &&& attempt.partial.amount == amount
                &&& is_send(
                    old(ledger)@,
                    final(ledger)@,
                    root_key,
                    amount,
                    chain_tip,
                    minimum_confirmations,
                    chain_tip,
                    max_outputs,
                    strategy,
                    attempt.partial.tx@,
                    attempt.partial.blind_sum@,
                    attempt.coins@,
                    attempt.change_key,
                )
            },
            Err(e) => {
                &&& final(ledger)@ == old(ledger)@
                &&& Some(e) == if !supported(dest@) {
                    Some(Error::Usage)
                } else {
                    send_error(
                        old(ledger)@,
                        root_key,
                        amount,
                        chain_tip,
                        minimum_confirmations,
                        max_outputs,
                        strategy,
                    )
                }
            },
        }),
{
    let destination = match Destination::parse(dest) {
        Ok(destination) => destination,
        Err(e) => {
            return Err(e);
        },
    };
    let (tx, blind_sum, coins, change_key) = match build_send_tx(
        ledger,
        root_key,
        amount,
        chain_tip,
        minimum_confirmations,
        chain_tip,
        max_outputs,
        strategy,
    ) {
        Ok(built) => built,
        Err(e) => {
            return Err(e);
        },
    };
    let partial = build_partial_tx(amount, blind_sum, tx);
    Ok(SendAttempt { destination, partial, coins, change_key })
}

/// The identifiers of `coins`.
pub open spec fn key_ids(coins: Seq<Output>) -> Set<Identifier> {
    Set::new(|id: Identifier| exists|i: int| 0 <= i < coins.len() && #[trigger] coins[i].key_id == id)
}

/// The ledger after every output named in `ids` is locked, as far as it is
/// unconfirmed or unspent.
pub open spec fn with_all_locked(ledger: LedgerView, ids: Set<Identifier>) -> LedgerView {
    LedgerView {
        outputs: ledger.outputs.map_values(
            |out: Output|
                if ids.contains(out.key_id) && lockable(out) {
                    locked(out)
                } else {
                    out
                },
        ),
        next_index: ledger.next_index,
    }
}

/// Locking one more output after a set of outputs locks the set with that
/// output added.
pub proof fn lemma_lock_one_more(ledger: LedgerView, ids: Set<Identifier>, id: Identifier)
    requires
        ledger.wf(),
    ensures
        with_all_locked(ledger, ids).wf(),
        with_all_locked(ledger, ids).with_locked(id) == with_all_locked(ledger, ids.insert(id)),
{
    let cur = with_all_locked(ledger, ids);
    let next = with_all_locked(ledger, ids.insert(id));
    assert forall|i: int| 0 <= i < cur.outputs.len() implies #[trigger] cur.outputs[i].key_id
        == ledger.outputs[i].key_id by {}
    assert(cur.wf()) by {
        assert forall|i: int, j: int| 0 <= i < j < cur.outputs.len() implies #[trigger] cur.outputs[i].key_id
            != #[trigger] cur.outputs[j].key_id by {
            assert(cur.outputs[i].key_id == ledger.outputs[i].key_id);
            assert(cur.outputs[j].key_id == ledger.outputs[j].key_id);
        }
        assert forall|i: int| 0 <= i < cur.outputs.len() implies (#[trigger] cur.outputs[i]).key_id.index
            < cur.next_index by {
            assert(cur.outputs[i].key_id == ledger.outputs[i].key_id);
        }
    }
    if cur.contains(id) {
        let p = cur.position(id);
        assert(0 <= p < cur.outputs.len() && cur.outputs[p].key_id == id);
        assert forall|i: int| 0 <= i < cur.outputs.len() && i != p implies #[trigger] cur.outputs[i].key_id
            != id by {
            if i < p {
                assert(cur.outputs[i].key_id != cur.outputs[p].key_id);
            } else {
                assert(cur.outputs[p].key_id != cur.outputs[i].key_id);
            }
        }
        assert(cur.with_locked(id).outputs =~= next.outputs);
    } else {
        assert forall|i: int| 0 <= i < cur.outputs.len() implies #[trigger] cur.outputs[i].key_id
            != id by {}
        assert(cur.with_locked(id).outputs =~= next.outputs);
    }
}

/// Commits a send attempt: locks the coins that its transaction spends, so
/// that no later attempt selects them.
pub fn commit(ledger: &mut WalletLedger, locked_outputs: &Vec<Output>)
    requires
        old(ledger).wf(),
    ensures
        final(ledger).wf(),
        final(ledger)@ == with_all_locked(old(ledger)@, key_ids(locked_outputs@)),
{
    let mut i: usize = 0;
    proof {
        assert(key_ids(locked_outputs@.take(0)) =~= Set::<Identifier>::empty());
        assert(with_all_locked(ledger@, Set::<Identifier>::empty()).outputs =~= ledger@.outputs);
    }
    while i < locked_outputs.len()
        invariant
            i <= locked_outputs.len(),
            old(ledger).wf(),
            ledger.wf(),
            ledger@ == with_all_locked(old(ledger)@, key_ids(locked_outputs@.take(i as int))),
        decreases locked_outputs.len() - i,
    {
        proof {
            let before = key_ids(locked_outputs@.take(i as int));
            let id = locked_outputs@[i as int].key_id;
            lemma_lock_one_more(old(ledger)@, before, id);
            assert(key_ids(locked_outputs@.take(i + 1)) =~= before.insert(id)) by {
                let after = locked_outputs@.take(i + 1);
                assert forall|k: Identifier| before.insert(id).contains(k) implies key_ids(
                    after,
                ).contains(k) by {
                    if k == id {
                        assert(after[i as int].key_id == k);
                    } else {
                        let j = choose|j: int|
                            0 <= j < locked_outputs@.take(i as int).len()
                                && #[trigger] locked_outputs@.take(i as int)[j].key_id == k;
                        assert(after[j].key_id == k);
                    }
                }
                assert forall|k: Identifier| key_ids(after).contains(k) implies before.insert(
                    id,
                ).contains(k) by {
                    let j = choose|j: int| 0 <= j < after.len() && #[trigger] after[j].key_id == k;
                    if j < i {
                        assert(locked_outputs@.take(i as int)[j].key_id == k);
                    }
                }
            }
        }
        ledger.lock_output(locked_outputs[i].key_id);
        i += 1;
    }
    proof {
        assert(locked_outputs@.take(locked_outputs.len() as int) =~= locked_outputs@);
    }
}

/// How a send attempt ended in the ledger.
#[derive(Clone, Debug, PartialEq, Eq)]
pub enum Settlement {
    /// The coins are locked.
    Committed,
    /// The change output is deleted; holds the failure that ended the
    /// attempt.
    RolledBack(Error),
}

/// What became of the partial transaction of an attempt.
#[derive(Clone, Debug, PartialEq, Eq)]
pub enum Delivery {
    /// It was written out, or the recipient accepted it.
    Delivered,
    /// It could not be put into the form in which it travels, so nothing
    /// left the wallet; holds the failure.
    NotEncoded(Error),
    /// It was posted and the post failed; holds what the transport said.
    NotDelivered(String),
}

/// How an attempt with this destination ends after this delivery.
///
/// A delivered attempt is committed. One that could not be encoded is
/// rolled back, wherever it was to go, and ends with the failure of the
/// encoding. One whose post failed is rolled back and ends with a node
/// communication failure. Nothing is posted on the way to standard output,
/// so an attempt that goes there and was encoded is committed in any case.
pub open spec fn outcome(destination: Destination, delivery: Delivery) -> Settlement {
    match delivery {
        Delivery::Delivered => Settlement::Committed,
        Delivery::NotEncoded(failure) => Settlement::RolledBack(failure),
        Delivery::NotDelivered(reason) => if destination is Stdout {
            Settlement::Committed
        } else {
            Settlement::RolledBack(Error::NodeCommunication(reason))
        },
    }
}

/// Decides how a send attempt ends, once its partial transaction was sent
/// off or could not be. See [`outcome`].
pub fn decide(destination: &Destination, delivery: Delivery) -> (settlement: Settlement)
    ensures
        settlement == outcome(*destination, delivery),
{
    match delivery {
        Delivery::Delivered => Settlement::Committed,
        Delivery::NotEncoded(failure) => Settlement::RolledBack(failure),
        Delivery::NotDelivered(reason) => match destination {
            Destination::Stdout => Settlement::Committed,
            Destination::HttpReceiver(_) => Settlement::RolledBack(
                Error::NodeCommunication(reason),
            ),
        },
    }
}

/// Settles a send attempt in the ledger: commits it by locking its coins,
/// or rolls it back by deleting its change output. The two never happen
/// together: a committed attempt keeps its change output, and one that is
/// rolled back leaves its coins free.
pub fn settle(ledger: &mut WalletLedger, attempt: &SendAttempt, settlement: &Settlement)
    requires
        old(ledger).wf(),
    ensures
        final(ledger).wf(),
        final(ledger)@ == (match *settlement {
            Settlement::Committed => with_all_locked(old(ledger)@, key_ids(attempt.coins@)),
            Settlement::RolledBack(_) => old(ledger)@.without(attempt.change_key),
        }),
{
    match settlement {
        Settlement::Committed => {
            commit(ledger, &attempt.coins);
        },
        Settlement::RolledBack(_) => {
            rollback(ledger, attempt.change_key);
        },
    }
}

/// The result of a send attempt, from how it was settled and from whether
/// the settled ledger could be stored.
///
/// A committed attempt succeeds if the ledger was stored, and fails with
/// the failure of the store if not. An attempt that was rolled back fails
/// with the failure of its delivery; if the ledger could not be stored
/// either, that second failure is reported beside the first.
pub fn conclude(settled: Settlement, stored: Result<(), Error>) -> (result: Result<(), SendFailure>)
    ensures
        result == (match (settled, stored) {
            (Settlement::Committed, Ok(_)) => Ok::<(), SendFailure>(()),
            (Settlement::Committed, Err(e)) => Err(SendFailure { cause: e, rollback: None }),
            (Settlement::RolledBack(cause), Ok(_)) => Err(SendFailure { cause, rollback: None }),
            (Settlement::RolledBack(cause), Err(e)) => Err(
                SendFailure { cause, rollback: Some(e) },
            ),
        }),
{
    match settled {
        Settlement::Committed => match stored {
            Ok(_) => Ok(()),
            Err(e) => Err(SendFailure { cause: e, rollback: None }),
        },
        Settlement::RolledBack(cause) => match stored {
            Ok(_) => Err(SendFailure { cause, rollback: None }),
            Err(e) => Err(SendFailure { cause, rollback: Some(e) }),
        },
    }
}

/// Coins that were committed are not selected again: once they are locked,
/// no output under one of their identifiers is eligible, at any height and
/// for any number of confirmations.
pub proof fn lemma_committed_coins_are_not_eligible(
    ledger: LedgerView,
    coins: Seq<Output>,
    root_key: u64,
    current_height: u64,
    minimum_confirmations: u64,
)
    ensures
        forall|i: int|
            0 <= i < ledger.outputs.len() && key_ids(coins).contains(ledger.outputs[i].key_id)
                ==> !eligible(
                #[trigger] with_all_locked(ledger, key_ids(coins)).outputs[i],
                root_key,
                current_height,
                minimum_confirmations,
            ),
{
}

/// The sender's side of a burn of `coins`: the coins are spent, and what
/// they hold beyond the fee goes to the key that nobody has. The fee is
/// that of a payment from the same coins.
pub open spec fn burn_transaction(coins: Seq<Output>, root_key: u64) -> TransactionView {
    TransactionView {
        inputs: spent_inputs(coins, root_key),
        outputs: seq![
            TxOutput {
                commit: Commitment {
                    value: (total_value(coins) - send_fee(coins.len())) as u64,
                    key_id: Identifier::spec_zero(),
                },
            },
        ],
        fee: send_fee(coins.len()),
        lock_height: 0,
    }
}

/// The blinding factor of a burn: the key that nobody has less the keys of
/// the coins.
pub open spec fn burn_blinding(coins: Seq<Output>, root_key: u64) -> BlindSum {
    BlindSum { positive: seq![Identifier::spec_zero()], negative: spending_keys(coins, root_key) }
}

/// What the parts of a burn build.
pub proof fn lemma_burn_parts(coins: Seq<Output>, root_key: u64)
    requires
        send_fee(coins.len()) <= total_value(coins) <= u64::MAX + send_fee(coins.len()),
    ensures
        transaction_of(
            input_parts(coins, root_key).push(Part::Fee(send_fee(coins.len()))).push(
                Part::Output {
                    value: (total_value(coins) - send_fee(coins.len())) as u64,
                    key_id: Identifier::spec_zero(),
                },
            ),
        ) == burn_transaction(coins, root_key),
        blinding_of(
            input_parts(coins, root_key).push(Part::Fee(send_fee(coins.len()))).push(
                Part::Output {
                    value: (total_value(coins) - send_fee(coins.len())) as u64,
                    key_id: Identifier::spec_zero(),
                },
            ),
        ) == burn_blinding(coins, root_key),
        burn_transaction(coins, root_key).balanced(),
{
    let inputs = input_parts(coins, root_key);
    let with_fee = inputs.push(Part::Fee(send_fee(coins.len())));
    let parts = with_fee.push(
        Part::Output {
            value: (total_value(coins) - send_fee(coins.len())) as u64,
            key_id: Identifier::spec_zero(),
        },
    );
    let tx = burn_transaction(coins, root_key);
    lemma_input_parts(coins, root_key);
    assert(with_fee.drop_last() =~= inputs);
    assert(parts.drop_last() =~= with_fee);
    let t0 = transaction_of(inputs);
    let t1 = transaction_of(with_fee);
    assert(t1 == t0.with_part(with_fee.last()));
    assert(transaction_of(parts) == t1.with_part(parts.last()));
    assert(transaction_of(parts).outputs =~= tx.outputs);
    assert(tx.outputs.drop_last() =~= Seq::<TxOutput>::empty());
    assert(output_total(tx.outputs.drop_last()) == 0);
    assert(blinding_of(with_fee).positive =~= Seq::<Identifier>::empty());
    assert(blinding_of(with_fee).negative =~= spending_keys(coins, root_key));
    assert(blinding_of(parts).positive =~= seq![Identifier::spec_zero()]);
    assert(blinding_of(parts).negative =~= spending_keys(coins, root_key));
}

/// Whether what a burn sends to the key that nobody has fits in a `u64`:
/// whether the coins selected for the burn hold no more than that beyond
/// the fee.
pub open spec fn burn_fits(
    ledger: LedgerView,
    root_key: u64,
    amount: u64,
    current_height: u64,
    minimum_confirmations: u64,
    max_outputs: usize,
) -> bool {
    forall|coins: Seq<Output>| #[trigger]
        is_selection(
            coins,
            within_reach(
                spendable(ledger, root_key, current_height, minimum_confirmations),
                max_outputs,
                SelectionStrategy::MinimalGreedy,
            ),
            amount,
            SelectionStrategy::MinimalGreedy,
        ) ==> total_value(coins) - send_fee(coins.len()) <= u64::MAX
}

/// Tells whether what a burn sends fits in a `u64`.
pub fn check_burn_fits(
    ledger: &WalletLedger,
    root_key: u64,
    amount: u64,
    current_height: u64,
    minimum_confirmations: u64,
    max_outputs: usize,
) -> (fits: bool)
    ensures
        fits == burn_fits(
            ledger@,
            root_key,
            amount,
            current_height,
            minimum_confirmations,
            max_outputs,
        ),
{
    let ghost reach = within_reach(
        spendable(ledger@, root_key, current_height, minimum_confirmations),
        max_outputs,
        SelectionStrategy::MinimalGreedy,
    );
    match ledger.select_coins(
        root_key,
        amount,
        current_height,
        minimum_confirmations,
        max_outputs,
        SelectionStrategy::MinimalGreedy,
    ) {
        Err(_) => {
            proof {
                assert forall|coins: Seq<Output>| #[trigger]
                    is_selection(
                        coins,
                        reach,
                        amount,
                        SelectionStrategy::MinimalGreedy,
                    ) implies total_value(coins) - send_fee(coins.len()) <= u64::MAX by {
                    lemma_total_take(reach, coins.len() as int);
                }
            }
            true
        },
        Ok(coins) => {
            let total = total_of(&coins);
            let fee = tx_fee(coins.len(), 2, None);
            proof {
                assert forall|other: Seq<Output>| #[trigger]
                    is_selection(
                        other,
                        reach,
                        amount,
                        SelectionStrategy::MinimalGreedy,
                    ) implies other == coins@ by {
                    lemma_selection_is_unique(
                        other,
                        coins@,
                        reach,
                        amount,
                        SelectionStrategy::MinimalGreedy,
                    );
                }
            }
            total <= fee as u128 || total - fee as u128 <= u64::MAX as u128
        },
    }
}

/// Builds a transaction that burns coins: it spends the coins selected for
/// `amount`, the fewest that reach it with the largest first, and sends all
/// they hold, less the fee, to the all-zero identifier, whose key nobody
/// has. The transaction is complete: it needs no counterparty, and it
/// balances. The ledger is not changed, and there is no change output.
///
/// Returns the transaction, its blinding factor and the coins it spends.
/// Fails with `NotEnoughFunds` if the selection fails, with what the
/// selection reports, or if the coins do not cover the fee, with their
/// total.
///
/// What is sent is the value of an output, so it must fit in a `u64`, as
/// [`check_burn_fits`] tells.
pub fn issue_burn_tx(
    ledger: &WalletLedger,
    root_key: u64,
    chain_tip: u64,
    amount: u64,
    minimum_confirmations: u64,
    max_outputs: usize,
) -> (issued: Result<(Transaction, BlindingFactor, Vec<Output>), Error>)
    requires
        burn_fits(ledger@, root_key, amount, chain_tip, minimum_confirmations, max_outputs),
    ensures
        ({
            let ranked = spendable(ledger@, root_key, chain_tip, minimum_confirmations);
            let reach = within_reach(ranked, max_outputs, SelectionStrategy::MinimalGreedy);
            match issued {
                Ok((tx, blind, coins)) => {
                    &&& is_selection(coins@, reach, amount, SelectionStrategy::MinimalGreedy)
                    &&& total_value(coins@) >= send_fee(coins@.len())
                    &&& tx@ == burn_transaction(coins@, root_key)
                    &&& blind@ == burn_blinding(coins@, root_key)
                    &&& tx@.balanced()
                },
                Err(e) => if total_value(reach) < amount {
                    e == Error::NotEnoughFunds(available(ranked, reach, amount) as u64)
                } else {
                    exists|coins: Seq<Output>|
                        {
                            &&& is_selection(
                                coins,
                                reach,
                                amount,
                                SelectionStrategy::MinimalGreedy,
                            )
                            &&& total_value(coins) < send_fee(coins.len())
                            &&& e == Error::NotEnoughFunds(total_value(coins) as u64)
                        }
                },
            }
        }),
{
    let coins = match ledger.select_coins(
        root_key,
        amount,
        chain_tip,
        minimum_confirmations,
        max_outputs,
        SelectionStrategy::MinimalGreedy,
    ) {
        Ok(coins) => coins,
        Err(e) => {
            return Err(e);
        },
    };
    let (total, mut parts) = spend_all(&coins, root_key);
    let fee = tx_fee(coins.len(), 2, None);
    if total < fee as u128 {
        return Err(Error::NotEnoughFunds(total as u64));
    }
    let burnt = (total - fee as u128) as u64;
    parts.push(with_fee(fee));
    parts.push(output(burnt, Identifier::zero()));
    let (tx, blind) = transaction(parts);
    proof {
        lemma_burn_parts(coins@, root_key);
    }
    Ok((tx, blind, coins))
}

} // verus!
