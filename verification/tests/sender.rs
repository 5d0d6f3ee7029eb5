use wallet::builder::{input, output, transaction, with_fee, with_lock_height, Commitment, Part};
use wallet::error::{Error, SendFailure};
use wallet::keys::{derive_key_id, Identifier};
use wallet::ledger::{Output, OutputStatus, WalletLedger, INDEX_LIMIT};
use wallet::selection::SelectionStrategy;
use wallet::change::{reserve_change, rollback};
use wallet::destination::{push_url, Destination};
use wallet::sender::{
    build_partial_tx, build_send_tx, check_burn_fits, check_change_fits, commit, conclude, decide,
    inputs_and_change, issue_burn_tx, issue_send_tx, settle, spend_all, Delivery, Settlement,
};

const ROOT: u64 = 7;

fn unspent(index: u32, value: u64, height: u64) -> Output {
    Output {
        key_id: derive_key_id(ROOT, index),
        value,
        status: OutputStatus::Unspent,
        height,
        lock_height: 0,
        is_coinbase: false,
    }
}

fn ledger_with_one_output() -> WalletLedger {
    let mut ledger = WalletLedger::new();
    ledger.add_output(unspent(1, 10000, 100));
    ledger
}

#[test]
fn output_commitment_equals_input_commitment_on_spend() {
    let key_id1 = derive_key_id(ROOT, 1);

    let (tx1, _) = transaction(vec![output(105, key_id1)]);
    let (tx2, _) = transaction(vec![input(105, key_id1)]);

    assert_eq!(tx1.outputs[0].commitment(), tx2.inputs[0].commitment());
}

#[test]
fn commitments_differ_in_value_or_key() {
    let (tx1, _) = transaction(vec![output(105, derive_key_id(ROOT, 1))]);
    let (tx2, _) = transaction(vec![input(106, derive_key_id(ROOT, 1))]);
    let (tx3, _) = transaction(vec![input(105, derive_key_id(ROOT, 2))]);
    assert_ne!(tx1.outputs[0].commitment(), tx2.inputs[0].commitment());
    assert_ne!(tx1.outputs[0].commitment(), tx3.inputs[0].commitment());
}

#[test]
fn send_to_stdout_commits() {
    let mut ledger = ledger_with_one_output();
    let attempt = issue_send_tx(
        &mut ledger,
        ROOT,
        100,
        1000,
        0,
        "stdout",
        500,
        SelectionStrategy::MinimalGreedy,
    )
    .unwrap();

    assert_eq!(attempt.destination, Destination::Stdout);
    assert_eq!(attempt.partial.amount, 1000);
    let tx = &attempt.partial.tx;
    assert_eq!(tx.fee, 80);
    assert_eq!(tx.lock_height, 100);
    assert_eq!(tx.inputs.len(), 1);
    assert_eq!(
        tx.inputs[0].commitment(),
        Commitment { value: 10000, key_id: derive_key_id(ROOT, 1) }
    );
    assert_eq!(tx.outputs.len(), 1);
    assert_eq!(
        tx.outputs[0].commitment(),
        Commitment { value: 9000, key_id: derive_key_id(ROOT, 2) }
    );
    assert_eq!(attempt.change_key, derive_key_id(ROOT, 2));
    assert_eq!(attempt.coins, vec![unspent(1, 10000, 100)]);
    assert_eq!(attempt.partial.blind_sum.positive, vec![derive_key_id(ROOT, 2)]);
    assert_eq!(attempt.partial.blind_sum.negative, vec![derive_key_id(ROOT, 1)]);

    // the change output is recorded before anything is handed out
    assert_eq!(
        ledger.get(derive_key_id(ROOT, 2)).unwrap().status,
        OutputStatus::Unconfirmed
    );
    assert_eq!(ledger.get(derive_key_id(ROOT, 1)).unwrap().status, OutputStatus::Unspent);

    let settled = decide(&attempt.destination, Delivery::Delivered);
    assert_eq!(settled, Settlement::Committed);
    settle(&mut ledger, &attempt, &settled);
    assert_eq!(conclude(settled, Ok(())), Ok(()));

    assert_eq!(ledger.outputs().len(), 2);
    let spent = ledger.get(derive_key_id(ROOT, 1)).unwrap();
    assert_eq!(spent.status, OutputStatus::Locked);
    assert_eq!(spent.value, 10000);
    let change = ledger.get(derive_key_id(ROOT, 2)).unwrap();
    assert_eq!(
        change,
        Output {
            key_id: derive_key_id(ROOT, 2),
            value: 9000,
            status: OutputStatus::Unconfirmed,
            height: 0,
            lock_height: 0,
            is_coinbase: false,
        }
    );
}

#[test]
fn send_conserves_value() {
    let mut ledger = ledger_with_one_output();
    let attempt = issue_send_tx(
        &mut ledger,
        ROOT,
        100,
        1000,
        0,
        "stdout",
        500,
        SelectionStrategy::MinimalGreedy,
    )
    .unwrap();
    let tx = &attempt.partial.tx;
    let spent: u64 = tx.inputs.iter().map(|i| i.commitment().value).sum();
    let change: u64 = tx.outputs.iter().map(|o| o.commitment().value).sum();
    let recipient = attempt.partial.amount - tx.fee;
    assert_eq!(recipient, 920);
    assert_eq!(spent, recipient + change + tx.fee);
}

#[test]
fn failed_post_rolls_back() {
    let mut ledger = ledger_with_one_output();
    let attempt = issue_send_tx(
        &mut ledger,
        ROOT,
        100,
        1000,
        0,
        "http://unreachable:1",
        500,
        SelectionStrategy::MinimalGreedy,
    )
    .unwrap();
    assert_eq!(
        attempt.destination,
        Destination::HttpReceiver(String::from("http://unreachable:1"))
    );
    assert_eq!(
        attempt.destination.receive_url(),
        Some(String::from("http://unreachable:1/v1/receive/transaction"))
    );
    assert_eq!(ledger.outputs().len(), 2);

    let settled = decide(
        &attempt.destination,
        Delivery::NotDelivered(String::from("connection refused")),
    );
    assert_eq!(
        settled,
        Settlement::RolledBack(Error::NodeCommunication(String::from("connection refused")))
    );
    settle(&mut ledger, &attempt, &settled);

    assert_eq!(ledger.outputs(), &vec![unspent(1, 10000, 100)]);
    assert_eq!(ledger.get(derive_key_id(ROOT, 2)), None);
    assert_eq!(
        conclude(settled, Ok(())),
        Err(SendFailure {
            cause: Error::NodeCommunication(String::from("connection refused")),
            rollback: None,
        })
    );
}

#[test]
fn successful_post_commits() {
    let mut ledger = ledger_with_one_output();
    let attempt = issue_send_tx(
        &mut ledger,
        ROOT,
        100,
        1000,
        0,
        "http://127.0.0.1:13415",
        500,
        SelectionStrategy::MinimalGreedy,
    )
    .unwrap();
    let settled = decide(&attempt.destination, Delivery::Delivered);
    assert_eq!(settled, Settlement::Committed);
    settle(&mut ledger, &attempt, &settled);
    assert_eq!(ledger.get(derive_key_id(ROOT, 1)).unwrap().status, OutputStatus::Locked);
    assert_eq!(ledger.get(derive_key_id(ROOT, 2)).unwrap().value, 9000);
}

#[test]
fn stdout_never_rolls_back() {
    let mut ledger = ledger_with_one_output();
    let attempt = issue_send_tx(
        &mut ledger,
        ROOT,
        100,
        1000,
        0,
        "stdout",
        500,
        SelectionStrategy::MinimalGreedy,
    )
    .unwrap();
    let settled = decide(&attempt.destination, Delivery::NotDelivered(String::from("ignored")));
    assert_eq!(settled, Settlement::Committed);
    settle(&mut ledger, &attempt, &settled);
    assert_eq!(ledger.get(derive_key_id(ROOT, 1)).unwrap().status, OutputStatus::Locked);
    assert!(ledger.get(derive_key_id(ROOT, 2)).is_some());
}

#[test]
fn rolled_back_index_is_not_issued_again() {
    let mut ledger = ledger_with_one_output();
    let first = issue_send_tx(
        &mut ledger,
        ROOT,
        100,
        1000,
        0,
        "http://unreachable:1",
        500,
        SelectionStrategy::MinimalGreedy,
    )
    .unwrap();
    assert_eq!(first.change_key, derive_key_id(ROOT, 2));
    settle(
        &mut ledger,
        &first,
        &decide(&first.destination, Delivery::NotDelivered(String::from("down"))),
    );
    // a second rollback changes nothing
    rollback(&mut ledger, first.change_key);
    assert_eq!(ledger.outputs(), &vec![unspent(1, 10000, 100)]);
    assert_eq!(ledger.next_index(), 3);

    let second = issue_send_tx(
        &mut ledger,
        ROOT,
        100,
        1000,
        0,
        "stdout",
        500,
        SelectionStrategy::MinimalGreedy,
    )
    .unwrap();
    assert_eq!(second.change_key, derive_key_id(ROOT, 3));
    assert_ne!(second.change_key, first.change_key);
}

#[test]
fn committed_coins_are_not_selected_again() {
    let mut ledger = ledger_with_one_output();
    let attempt = issue_send_tx(
        &mut ledger,
        ROOT,
        100,
        1000,
        0,
        "stdout",
        500,
        SelectionStrategy::MinimalGreedy,
    )
    .unwrap();
    settle(&mut ledger, &attempt, &decide(&attempt.destination, Delivery::Delivered));
    let again = issue_send_tx(
        &mut ledger,
        ROOT,
        100,
        1000,
        0,
        "stdout",
        500,
        SelectionStrategy::MinimalGreedy,
    );
    assert_eq!(again, Err(Error::NotEnoughFunds(0)));
    assert_eq!(ledger.outputs().len(), 2);
}

#[test]
fn unsupported_destination_is_a_usage_error() {
    let mut ledger = ledger_with_one_output();
    for dest in ["ftp://example.org", "", "htt", "stdout ", "Stdout", "file"] {
        let issued = issue_send_tx(
            &mut ledger,
            ROOT,
            100,
            1000,
            0,
            dest,
            500,
            SelectionStrategy::MinimalGreedy,
        );
        assert_eq!(issued, Err(Error::Usage));
    }
    // nothing was reserved
    assert_eq!(ledger.outputs(), &vec![unspent(1, 10000, 100)]);
    assert_eq!(ledger.next_index(), 2);
}

#[test]
fn usage_error_comes_before_missing_funds() {
    let mut ledger = ledger_with_one_output();
    let issued = issue_send_tx(
        &mut ledger,
        ROOT,
        100,
        20000,
        0,
        "nowhere",
        500,
        SelectionStrategy::MinimalGreedy,
    );
    assert_eq!(issued, Err(Error::Usage));
}

#[test]
fn destinations_are_parsed() {
    assert_eq!(Destination::parse("stdout"), Ok(Destination::Stdout));
    assert_eq!(
        Destination::parse("http"),
        Ok(Destination::HttpReceiver(String::from("http")))
    );
    assert_eq!(
        Destination::parse("https://wallet.example:13415"),
        Ok(Destination::HttpReceiver(String::from("https://wallet.example:13415")))
    );
    assert_eq!(Destination::parse("htt\u{e9}p://x"), Err(Error::Usage));
    assert_eq!(Destination::parse("HTTP://x"), Err(Error::Usage));
    assert_eq!(Destination::Stdout.receive_url(), None);
}

#[test]
fn send_without_funds_leaves_the_ledger_alone() {
    let mut ledger = ledger_with_one_output();
    let issued = issue_send_tx(
        &mut ledger,
        ROOT,
        100,
        20000,
        0,
        "stdout",
        500,
        SelectionStrategy::AllEligible,
    );
    assert_eq!(issued, Err(Error::NotEnoughFunds(10000)));
    assert_eq!(ledger.outputs(), &vec![unspent(1, 10000, 100)]);
    assert_eq!(ledger.next_index(), 2);
}

#[test]
fn send_without_an_index_left_fails() {
    let mut ledger = WalletLedger::restore(vec![unspent(1, 10000, 100)], INDEX_LIMIT).unwrap();
    let issued = issue_send_tx(
        &mut ledger,
        ROOT,
        100,
        1000,
        0,
        "stdout",
        500,
        SelectionStrategy::MinimalGreedy,
    );
    assert_eq!(issued, Err(Error::KeyDerivation));
    assert_eq!(ledger.outputs(), &vec![unspent(1, 10000, 100)]);
    assert_eq!(ledger.next_index(), INDEX_LIMIT);
}

#[test]
fn last_index_can_still_be_issued() {
    let mut ledger = WalletLedger::restore(vec![unspent(1, 10000, 100)], INDEX_LIMIT - 1).unwrap();
    let attempt = issue_send_tx(
        &mut ledger,
        ROOT,
        100,
        1000,
        0,
        "stdout",
        500,
        SelectionStrategy::MinimalGreedy,
    )
    .unwrap();
    assert_eq!(attempt.change_key, derive_key_id(ROOT, u32::MAX));
    assert_eq!(ledger.next_index(), INDEX_LIMIT);
}

#[test]
fn inputs_and_change_lists_inputs_fee_and_change() {
    let mut ledger = WalletLedger::new();
    let coins = vec![unspent(4, 600, 1), unspent(9, 500, 1)];
    let (parts, change_key) = inputs_and_change(&coins, &mut ledger, ROOT, 1000).unwrap();
    assert_eq!(change_key, derive_key_id(ROOT, 1));
    assert_eq!(
        parts,
        vec![
            Part::Input { value: 600, key_id: derive_key_id(ROOT, 4) },
            Part::Input { value: 500, key_id: derive_key_id(ROOT, 9) },
            Part::Fee(70),
            Part::Output { value: 100, key_id: derive_key_id(ROOT, 1) },
        ]
    );
    assert_eq!(
        ledger.outputs(),
        &vec![Output {
            key_id: derive_key_id(ROOT, 1),
            value: 100,
            status: OutputStatus::Unconfirmed,
            height: 0,
            lock_height: 0,
            is_coinbase: false,
        }]
    );
    assert_eq!(ledger.next_index(), 2);
}

#[test]
fn inputs_and_change_with_nothing_left_over() {
    let mut ledger = WalletLedger::new();
    let coins = vec![unspent(4, 1000, 1)];
    let (parts, change_key) = inputs_and_change(&coins, &mut ledger, ROOT, 1000).unwrap();
    assert_eq!(parts[2], Part::Output { value: 0, key_id: change_key });
    assert_eq!(ledger.get(change_key).unwrap().value, 0);
}

#[test]
fn inputs_and_change_reports_what_the_coins_hold() {
    let mut ledger = WalletLedger::new();
    let coins = vec![unspent(4, 600, 1), unspent(9, 500, 1)];
    assert_eq!(
        inputs_and_change(&coins, &mut ledger, ROOT, 1101),
        Err(Error::NotEnoughFunds(1100))
    );
    assert_eq!(ledger.outputs().len(), 0);
    assert_eq!(ledger.next_index(), 1);
    assert_eq!(
        inputs_and_change(&Vec::new(), &mut ledger, ROOT, 1),
        Err(Error::NotEnoughFunds(0))
    );
}

#[test]
fn build_send_tx_locks_at_the_given_height() {
    let mut ledger = ledger_with_one_output();
    let (tx, blind, coins, change_key) = build_send_tx(
        &mut ledger,
        ROOT,
        1000,
        100,
        0,
        4242,
        500,
        SelectionStrategy::MinimalGreedy,
    )
    .unwrap();
    assert_eq!(tx.lock_height, 4242);
    assert_eq!(tx.fee, 80);
    assert_eq!(coins.len(), 1);
    assert_eq!(blind.positive, vec![change_key]);
    let partial = build_partial_tx(1000, blind.clone(), tx.clone());
    assert_eq!(partial.amount, 1000);
    assert_eq!(partial.blind_sum, blind);
    assert_eq!(partial.tx, tx);
}

#[test]
fn commit_locks_only_the_named_outputs() {
    let mut ledger = WalletLedger::new();
    ledger.add_output(unspent(1, 10, 1));
    ledger.add_output(unspent(2, 20, 1));
    ledger.add_output(Output { status: OutputStatus::Spent, ..unspent(3, 30, 1) });
    ledger.add_output(Output { status: OutputStatus::Unconfirmed, ..unspent(4, 40, 0) });
    commit(
        &mut ledger,
        &vec![unspent(2, 20, 1), unspent(3, 30, 1), unspent(4, 40, 0), unspent(5, 50, 1)],
    );
    assert_eq!(ledger.get(derive_key_id(ROOT, 1)).unwrap().status, OutputStatus::Unspent);
    assert_eq!(ledger.get(derive_key_id(ROOT, 2)).unwrap().status, OutputStatus::Locked);
    assert_eq!(ledger.get(derive_key_id(ROOT, 3)).unwrap().status, OutputStatus::Spent);
    assert_eq!(ledger.get(derive_key_id(ROOT, 4)).unwrap().status, OutputStatus::Locked);
    assert_eq!(ledger.get(derive_key_id(ROOT, 5)), None);
    assert_eq!(ledger.outputs().len(), 4);
}

#[test]
fn conclude_reports_both_failures() {
    let cause = Error::NodeCommunication(String::from("timeout"));
    assert_eq!(conclude(Settlement::Committed, Ok(())), Ok(()));
    assert_eq!(
        conclude(Settlement::Committed, Err(Error::LedgerIO)),
        Err(SendFailure { cause: Error::LedgerIO, rollback: None })
    );
    assert_eq!(
        conclude(Settlement::RolledBack(cause.clone()), Ok(())),
        Err(SendFailure { cause: cause.clone(), rollback: None })
    );
    assert_eq!(
        conclude(Settlement::RolledBack(cause.clone()), Err(Error::LedgerIO)),
        Err(SendFailure { cause, rollback: Some(Error::LedgerIO) })
    );
}

#[test]
fn burn_sends_everything_but_the_fee_to_the_zero_key() {
    let ledger = ledger_with_one_output();
    let (tx, blind, coins) = issue_burn_tx(&ledger, ROOT, 100, 1000, 0, 500).unwrap();
    assert_eq!(blind.positive, vec![Identifier::zero()]);
    assert_eq!(blind.negative, vec![derive_key_id(ROOT, 1)]);
    assert_eq!(coins, vec![unspent(1, 10000, 100)]);
    assert_eq!(tx.fee, 80);
    assert_eq!(tx.lock_height, 0);
    assert_eq!(tx.inputs.len(), 1);
    assert_eq!(
        tx.inputs[0].commitment(),
        Commitment { value: 10000, key_id: derive_key_id(ROOT, 1) }
    );
    assert_eq!(tx.outputs.len(), 1);
    assert_eq!(
        tx.outputs[0].commitment(),
        Commitment { value: 9920, key_id: Identifier::zero() }
    );
    assert_eq!(Identifier::zero(), Identifier { root_key: 0, index: 0 });
    // the ledger is read only
    assert_eq!(ledger.outputs(), &vec![unspent(1, 10000, 100)]);
    assert_eq!(ledger.next_index(), 2);
}

#[test]
fn burn_fails_without_funds() {
    let ledger = ledger_with_one_output();
    assert_eq!(
        issue_burn_tx(&ledger, ROOT, 100, 20000, 0, 500),
        Err(Error::NotEnoughFunds(10000))
    );
    let mut poor = WalletLedger::new();
    poor.add_output(unspent(1, 50, 100));
    assert_eq!(issue_burn_tx(&poor, ROOT, 100, 10, 0, 500), Err(Error::NotEnoughFunds(50)));
}

#[test]
fn transaction_takes_the_last_fee_and_lock_height() {
    let key = derive_key_id(ROOT, 3);
    let (tx, blind) = transaction(vec![
        with_fee(5),
        input(10, key),
        with_lock_height(7),
        output(4, derive_key_id(ROOT, 4)),
        with_fee(6),
        input(11, derive_key_id(ROOT, 5)),
        with_lock_height(8),
    ]);
    assert_eq!(tx.fee, 6);
    assert_eq!(tx.lock_height, 8);
    assert_eq!(tx.inputs.len(), 2);
    assert_eq!(tx.inputs[1].commitment().value, 11);
    assert_eq!(tx.outputs.len(), 1);
    assert_eq!(blind.negative, vec![key, derive_key_id(ROOT, 5)]);
    assert_eq!(blind.positive, vec![derive_key_id(ROOT, 4)]);
    let (empty, none) = transaction(Vec::new());
    assert_eq!((empty.fee, empty.lock_height, empty.inputs.len(), empty.outputs.len()), (0, 0, 0, 0));
    assert_eq!(none.positive.len() + none.negative.len(), 0);
}

#[test]
fn validate_tells_whether_a_transaction_balances() {
    let ledger = ledger_with_one_output();
    let (burn, _, _) = issue_burn_tx(&ledger, ROOT, 100, 1000, 0, 500).unwrap();
    assert!(burn.validate());

    let key = derive_key_id(ROOT, 1);
    let (balanced, _) = transaction(vec![input(100, key), output(60, key), output(30, key), with_fee(10)]);
    assert!(balanced.validate());
    let (short, _) = transaction(vec![input(100, key), output(60, key), with_fee(10)]);
    assert!(!short.validate());
    let (empty, _) = transaction(Vec::new());
    assert!(empty.validate());
    let (large, _) = transaction(vec![
        input(u64::MAX, key),
        input(u64::MAX, key),
        output(u64::MAX, key),
        output(u64::MAX - 1, key),
        with_fee(1),
    ]);
    assert!(large.validate());
}

#[test]
fn completed_send_balances() {
    let mut ledger = ledger_with_one_output();
    let attempt = issue_send_tx(
        &mut ledger,
        ROOT,
        100,
        1000,
        0,
        "stdout",
        500,
        SelectionStrategy::MinimalGreedy,
    )
    .unwrap();
    let mut tx = attempt.partial.tx.clone();
    // the sender's side alone leaves the recipient's claim open
    assert!(!tx.validate());
    let claim = attempt.partial.amount - tx.fee;
    let (theirs, their_share) = transaction(vec![output(claim, derive_key_id(99, 1))]);
    tx.outputs.extend(theirs.outputs);
    assert!(tx.validate());
    // the whole blinding factor is the sum of the two shares
    let whole = attempt.partial.blind_sum.plus(&their_share);
    assert_eq!(whole.positive, vec![derive_key_id(ROOT, 2), derive_key_id(99, 1)]);
    assert_eq!(whole.negative, vec![derive_key_id(ROOT, 1)]);
}

#[test]
fn send_with_all_eligible_spends_every_output() {
    let mut ledger = WalletLedger::new();
    ledger.add_output(unspent(1, 300, 10));
    ledger.add_output(unspent(2, 500, 10));
    ledger.add_output(unspent(3, 200, 10));
    let attempt = issue_send_tx(
        &mut ledger,
        ROOT,
        100,
        400,
        0,
        "stdout",
        1,
        SelectionStrategy::AllEligible,
    )
    .unwrap();
    let tx = &attempt.partial.tx;
    let spent: Vec<u64> = tx.inputs.iter().map(|i| i.commitment().value).collect();
    assert_eq!(spent, vec![500, 300, 200]);
    assert_eq!(tx.fee, 60);
    assert_eq!(tx.outputs[0].commitment().value, 600);
    assert_eq!(attempt.change_key, derive_key_id(ROOT, 4));
    settle(&mut ledger, &attempt, &decide(&attempt.destination, Delivery::Delivered));
    assert_eq!(ledger.spendable_total(ROOT, 100, 0), 0);
}

#[test]
fn change_is_reserved_under_the_next_index() {
    let mut ledger = ledger_with_one_output();
    assert_eq!(reserve_change(&mut ledger, ROOT, 9000), Ok(derive_key_id(ROOT, 2)));
    assert_eq!(reserve_change(&mut ledger, 8, 0), Ok(derive_key_id(8, 3)));
    assert_eq!(ledger.outputs().len(), 3);
    assert_eq!(ledger.get(derive_key_id(8, 3)).unwrap().status, OutputStatus::Unconfirmed);
    assert_eq!(ledger.get(derive_key_id(ROOT, 2)).unwrap().value, 9000);
    rollback(&mut ledger, derive_key_id(ROOT, 2));
    assert_eq!(ledger.get(derive_key_id(ROOT, 2)), None);
    assert_eq!(reserve_change(&mut ledger, ROOT, 1), Ok(derive_key_id(ROOT, 4)));

    let mut full = WalletLedger::restore(Vec::new(), INDEX_LIMIT).unwrap();
    assert_eq!(reserve_change(&mut full, ROOT, 1), Err(Error::KeyDerivation));
    assert_eq!(full.outputs().len(), 0);
}

#[test]
fn failed_encoding_rolls_back_wherever_it_was_to_go() {
    for dest in ["stdout", "http://127.0.0.1:13415"] {
        let mut ledger = ledger_with_one_output();
        let attempt = issue_send_tx(
            &mut ledger,
            ROOT,
            100,
            1000,
            0,
            dest,
            500,
            SelectionStrategy::MinimalGreedy,
        )
        .unwrap();
        let settled = decide(&attempt.destination, Delivery::NotEncoded(Error::KeyDerivation));
        assert_eq!(settled, Settlement::RolledBack(Error::KeyDerivation));
        settle(&mut ledger, &attempt, &settled);
        assert_eq!(ledger.outputs(), &vec![unspent(1, 10000, 100)]);
        assert_eq!(
            conclude(settled, Err(Error::LedgerIO)),
            Err(SendFailure { cause: Error::KeyDerivation, rollback: Some(Error::LedgerIO) })
        );
    }
}

#[test]
fn send_reports_everything_eligible_when_it_falls_short() {
    let mut ledger = WalletLedger::new();
    ledger.add_output(unspent(1, 10000, 100));
    ledger.add_output(unspent(2, 5000, 100));
    let issued = issue_send_tx(
        &mut ledger,
        ROOT,
        100,
        20000,
        0,
        "stdout",
        1,
        SelectionStrategy::MinimalGreedy,
    );
    assert_eq!(issued, Err(Error::NotEnoughFunds(15000)));
    let built = build_send_tx(&mut ledger, ROOT, 20000, 100, 0, 100, 1, SelectionStrategy::MinimalGreedy);
    assert_eq!(built, Err(Error::NotEnoughFunds(15000)));
    let bounded = build_send_tx(&mut ledger, ROOT, 12000, 100, 0, 100, 1, SelectionStrategy::MinimalGreedy);
    assert_eq!(bounded, Err(Error::NotEnoughFunds(10000)));
    assert_eq!(
        issue_burn_tx(&ledger, ROOT, 100, 20000, 0, 1),
        Err(Error::NotEnoughFunds(15000))
    );
    assert_eq!(
        issue_burn_tx(&ledger, ROOT, 100, 12000, 0, 1),
        Err(Error::NotEnoughFunds(10000))
    );
    assert_eq!(ledger.outputs().len(), 2);
    assert_eq!(ledger.next_index(), 3);
}

#[test]
fn other_root_keys_do_not_stand_in_the_way() {
    let mut ledger = WalletLedger::new();
    ledger.add_output(unspent(1, 10000, 100));
    ledger.add_output(Output { key_id: derive_key_id(8, 2), ..unspent(2, u64::MAX, 100) });
    ledger.add_output(Output { key_id: derive_key_id(9, 3), ..unspent(3, u64::MAX, 100) });
    assert!(check_change_fits(&ledger, ROOT, 1000, 100, 0, SelectionStrategy::AllEligible));
    assert!(check_burn_fits(&ledger, ROOT, 1000, 100, 0, 500));
    let attempt = issue_send_tx(
        &mut ledger,
        ROOT,
        100,
        1000,
        0,
        "stdout",
        500,
        SelectionStrategy::AllEligible,
    )
    .unwrap();
    assert_eq!(attempt.partial.tx.outputs[0].commitment().value, 9000);
}

#[test]
fn change_and_burn_must_fit_in_64_bits() {
    let mut ledger = WalletLedger::new();
    ledger.add_output(unspent(1, u64::MAX, 100));
    ledger.add_output(unspent(2, u64::MAX - 1, 100));
    // every output: the change would be the total less the amount
    assert!(!check_change_fits(&ledger, ROOT, 1000, 100, 0, SelectionStrategy::AllEligible));
    assert!(check_change_fits(&ledger, ROOT, u64::MAX - 1, 100, 0, SelectionStrategy::AllEligible));
    assert!(!check_change_fits(&ledger, ROOT, u64::MAX - 2, 100, 0, SelectionStrategy::AllEligible));
    // as few as reach the amount: the change is less than one output
    assert!(check_change_fits(&ledger, ROOT, 1000, 100, 0, SelectionStrategy::MinimalGreedy));
    assert!(check_change_fits(&ledger, ROOT, u64::MAX, 100, 0, SelectionStrategy::MinimalGreedy));
    // a burn sends all the coins hold but the fee
    assert!(check_burn_fits(&ledger, ROOT, u64::MAX, 100, 0, 500));
    let mut more = WalletLedger::new();
    more.add_output(unspent(1, u64::MAX - 1, 100));
    more.add_output(unspent(2, u64::MAX - 1, 100));
    assert!(!check_burn_fits(&more, ROOT, u64::MAX, 100, 0, 500));
    assert!(check_burn_fits(&more, ROOT, u64::MAX - 1, 100, 0, 500));
    assert!(check_burn_fits(&more, ROOT, u64::MAX, 100, 0, 1));

    let attempt = issue_send_tx(
        &mut ledger,
        ROOT,
        100,
        u64::MAX,
        0,
        "stdout",
        500,
        SelectionStrategy::MinimalGreedy,
    )
    .unwrap();
    assert_eq!(attempt.coins.len(), 1);
    assert_eq!(attempt.partial.tx.outputs[0].commitment().value, 0);
    let (burn, _, coins) = issue_burn_tx(&more, ROOT, 100, u64::MAX - 1, 0, 500).unwrap();
    assert_eq!(coins.len(), 1);
    assert_eq!(burn.outputs[0].commitment().value, u64::MAX - 1 - 80);
}

#[test]
fn spend_all_totals_and_lists_inputs() {
    let coins = vec![unspent(4, u64::MAX, 1), unspent(9, 500, 1)];
    let (total, parts) = spend_all(&coins, 3);
    assert_eq!(total, u64::MAX as u128 + 500);
    assert_eq!(
        parts,
        vec![
            Part::Input { value: u64::MAX, key_id: derive_key_id(3, 4) },
            Part::Input { value: 500, key_id: derive_key_id(3, 9) },
        ]
    );
    assert_eq!(spend_all(&Vec::new(), 3), (0, Vec::new()));
}

#[test]
fn push_url_is_under_the_node_base() {
    assert_eq!(push_url("http://127.0.0.1:13413"), "http://127.0.0.1:13413/v1/pool/push");
    assert_eq!(push_url(""), "/v1/pool/push");
}

#[test]
fn failed_attempts_leave_the_outputs_as_they_were() {
    let mut ledger = WalletLedger::new();
    ledger.add_output(unspent(1, 10000, 100));
    ledger.add_output(unspent(2, 300, 100));
    let before = ledger.outputs().clone();
    for round in 0..4u32 {
        let attempt = issue_send_tx(
            &mut ledger,
            ROOT,
            100,
            1000,
            0,
            "http://unreachable:1",
            500,
            SelectionStrategy::MinimalGreedy,
        )
        .unwrap();
        assert_eq!(attempt.change_key, derive_key_id(ROOT, 3 + round));
        let settled = decide(&attempt.destination, Delivery::NotDelivered(String::from("refused")));
        settle(&mut ledger, &attempt, &settled);
        assert_eq!(
            conclude(settled, Ok(())),
            Err(SendFailure {
                cause: Error::NodeCommunication(String::from("refused")),
                rollback: None,
            })
        );
        assert_eq!(ledger.outputs(), &before);
        assert_eq!(ledger.next_index(), 4 + round as u64);
    }
}
