//! The change output of a payment: reserved before the payment is handed
//! out, released again if the payment fails.

use vstd::prelude::*;
use crate::error::Error;
use crate::keys::{derive_key_id, Identifier};
use crate::ledger::{
    lemma_delete_is_idempotent, lemma_index_is_not_reissued, lemma_position_unique,
    lemma_with_output_wf, LedgerOp, LedgerView, Output, OutputStatus, WalletLedger,
};

verus! {

/// The change output as the ledger records it when it is reserved.
pub open spec fn change_output(change_key: Identifier, change: int) -> Output {
    Output {
        key_id: change_key,
        value: change as u64,
        status: OutputStatus::Unconfirmed,
        height: 0,
        lock_height: 0,
        is_coinbase: false,
    }
}

/// Reserves the change output of a payment from the keys under `root_key`:
/// takes the next derivation index from the ledger and records an
/// unconfirmed output of value `change` under it. The identifier of the
/// output is returned; it is the handle by which [`rollback`] releases the
/// output again. Fails, and leaves the ledger as it was, if the ledger has
/// no index left to issue.
pub fn reserve_change(ledger: &mut WalletLedger, root_key: u64, change: u64) -> (reserved: Result<
    Identifier,
    Error,
>)
    requires
        old(ledger).wf(),
    ensures
        final(ledger).wf(),
        reserved is Ok <==> old(ledger)@.can_issue(),
        reserved matches Ok(change_key) ==> ({
            &&& change_key == (Identifier { root_key, index: old(ledger)@.next_index as u32 })
            &&& final(ledger)@ == old(ledger)@.issued().with_output(
                change_output(change_key, change as int),
            )
        }),
        reserved matches Err(e) ==> e == Error::KeyDerivation && final(ledger)@ == old(ledger)@,
{
    match ledger.next_derivation_index() {
        None => Err(Error::KeyDerivation),
        Some(index) => {
            let change_key = derive_key_id(root_key, index);
            ledger.add_output(
                Output {
                    key_id: change_key,
                    value: change,
                    status: OutputStatus::Unconfirmed,
                    height: 0,
                    lock_height: 0,
                    is_coinbase: false,
                },
            );
            Ok(change_key)
        },
    }
}

/// Rolls a send attempt back: deletes the change output that it reserved.
/// The derivation index of the change output stays used up.
pub fn rollback(ledger: &mut WalletLedger, change_key: Identifier)
    requires
        old(ledger).wf(),
    ensures
        final(ledger).wf(),
        final(ledger)@ == old(ledger)@.without(change_key),
{
    ledger.delete_output(change_key);
}

/// A failed delivery leaves no trace but a used index: after the attempt
/// is rolled back the ledger holds the outputs it held before the attempt,
/// the change output is gone, a second rollback changes nothing, and
/// whatever happens to the ledger afterwards, the index of the change
/// output is not issued again.
pub proof fn lemma_rollback_is_idempotent(
    ledger: LedgerView,
    change_key: Identifier,
    change: int,
    later: Seq<LedgerOp>,
)
    requires
        ledger.wf(),
        ledger.can_issue(),
        change_key.index == ledger.next_index,
    ensures
        ({
            let reserved = ledger.issued().with_output(change_output(change_key, change));
            let rolled_back = reserved.without(change_key);
            &&& rolled_back == ledger.issued()
            &&& !rolled_back.contains(change_key)
            &&& rolled_back.without(change_key) == rolled_back
            &&& rolled_back.after_all(later).next_index > change_key.index
        }),
{
    let out = change_output(change_key, change);
    let reserved = ledger.issued().with_output(out);
    lemma_with_output_wf(ledger.issued(), out);
    lemma_delete_is_idempotent(reserved, change_key);
    lemma_index_is_not_reissued(ledger, out, later);
    assert(!ledger.issued().contains(change_key));
    lemma_position_unique(reserved, ledger.outputs.len() as int);
    assert(reserved.without(change_key).outputs =~= ledger.outputs);
}

} // verus!
