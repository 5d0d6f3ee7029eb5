//! Coin selection: which of the wallet's outputs pay for a given amount.

use vstd::prelude::*;
use vstd::multiset::Multiset;
use crate::error::Error;
use crate::ledger::{
    lemma_total_concat, lemma_total_push, lemma_total_remove, lemma_total_take, total_value,
    total_of, LedgerView, Output, OutputStatus, WalletLedger,
};

verus! {

/// How outputs are chosen for a payment.
#[derive(Clone, Copy, Debug, PartialEq, Eq, Structural)]
pub enum SelectionStrategy {
    /// Spend every eligible output: consolidates small outputs, at the
    /// price of a larger transaction.
    AllEligible,
    /// Spend the largest outputs first and stop as soon as the amount is
    /// reached, with at most `max_outputs` outputs.
    MinimalGreedy,
}

/// Whether `out` may be spent at `current_height`: it belongs to
/// `root_key`, is unspent, has the asked number of confirmations, and, if
/// it is a coinbase output, has matured.
pub open spec fn eligible(
    out: Output,
    root_key: u64,
    current_height: u64,
    minimum_confirmations: u64,
) -> bool {
    &&& out.key_id.root_key == root_key
    &&& out.status == OutputStatus::Unspent
    &&& out.height + minimum_confirmations <= current_height
    &&& out.is_coinbase ==> out.lock_height <= current_height
}

/// [`eligible`] as a predicate on outputs.
pub open spec fn eligible_pred(
    root_key: u64,
    current_height: u64,
    minimum_confirmations: u64,
) -> spec_fn(Output) -> bool {
    |out: Output| eligible(out, root_key, current_height, minimum_confirmations)
}

/// Whether `m` is the position of the first output of greatest value.
pub open spec fn is_first_largest(s: Seq<Output>, m: int) -> bool {
    &&& 0 <= m < s.len()
    &&& forall|i: int| 0 <= i < s.len() ==> (#[trigger] s[i]).value <= s[m].value
    &&& forall|i: int| 0 <= i < m ==> (#[trigger] s[i]).value < s[m].value
}

/// Position of the first output of greatest value in a sequence that is
/// not empty.
pub open spec fn first_largest(s: Seq<Output>) -> int {
    choose|m: int| is_first_largest(s, m)
}

/// The outputs of `s` by falling value; outputs of equal value keep the
/// order they have in `s`.
pub open spec fn largest_first(s: Seq<Output>) -> Seq<Output>
    decreases s.len(),
    via largest_first_decreases
{
    if s.len() == 0 {
        Seq::empty()
    } else {
        seq![s[first_largest(s)]] + largest_first(s.remove(first_largest(s)))
    }
}

#[via_fn]
proof fn largest_first_decreases(s: Seq<Output>) {
    if s.len() != 0 {
        lemma_first_largest(s);
    }
}

/// Every sequence that is not empty has exactly one first largest output.
pub proof fn lemma_first_largest(s: Seq<Output>)
    requires
        s.len() > 0,
    ensures
        is_first_largest(s, first_largest(s)),
        forall|m: int| is_first_largest(s, m) ==> m == first_largest(s),
    decreases s.len(),
{
    if s.len() == 1 {
        assert(is_first_largest(s, 0));
    } else {
        let t = s.drop_last();
        lemma_first_largest(t);
        let p = first_largest(t);
        let m = if s.last().value > t[p].value {
            s.len() - 1
        } else {
            p
        };
        assert forall|i: int| 0 <= i < s.len() implies (#[trigger] s[i]).value <= s[m].value by {
            if i < t.len() {
                assert(t[i].value <= t[p].value);
            }
        }
        assert forall|i: int| 0 <= i < m implies (#[trigger] s[i]).value < s[m].value by {
            assert(s[i] == t[i]);
            if m == p {
                assert(t[i].value < t[p].value);
            } else {
                assert(t[i].value <= t[p].value);
            }
        }
        assert(is_first_largest(s, m));
    }
    let f = first_largest(s);
    assert forall|m: int| is_first_largest(s, m) implies m == f by {
        if m < f {
            assert(s[m].value < s[f].value);
            assert(s[f].value <= s[m].value);
        } else if f < m {
            assert(s[f].value < s[m].value);
            assert(s[m].value <= s[f].value);
        }
    }
}

/// The outputs that a payment from `root_key` may spend at
/// `current_height`, largest first.
pub open spec fn spendable(
    ledger: LedgerView,
    root_key: u64,
    current_height: u64,
    minimum_confirmations: u64,
) -> Seq<Output> {
    largest_first(
        ledger.outputs.filter(eligible_pred(root_key, current_height, minimum_confirmations)),
    )
}

/// The outputs that the strategy can draw on: all of `ranked`, or its
/// first `max_outputs`.
pub open spec fn within_reach(
    ranked: Seq<Output>,
    max_outputs: usize,
    strategy: SelectionStrategy,
) -> Seq<Output> {
    match strategy {
        SelectionStrategy::AllEligible => ranked,
        SelectionStrategy::MinimalGreedy => if max_outputs < ranked.len() {
            ranked.take(max_outputs as int)
        } else {
            ranked
        },
    }
}

/// What a failed selection reports as available. If all the eligible
/// outputs together fall short of the amount, it is their total. If they
/// would reach the amount and only the bound on the number of outputs is in
/// the way, it is the total of the outputs within reach.
pub open spec fn available(ranked: Seq<Output>, reach: Seq<Output>, amount: u64) -> int {
    if total_value(ranked) < amount {
        total_value(ranked)
    } else {
        total_value(reach)
    }
}

/// Whether `j` is the position of an output of least value in `s`.
pub open spec fn is_lowest(s: Seq<Output>, j: int) -> bool {
    &&& 0 <= j < s.len()
    &&& forall|i: int| 0 <= i < s.len() ==> s[j].value <= (#[trigger] s[i]).value
}

/// Whether `coins` is what the strategy selects from `ranked` to pay
/// `amount`. Under `AllEligible` it is all of `ranked`. Under
/// `MinimalGreedy` it is the shortest leading part of `ranked` that reaches
/// the amount: without its last output it falls short.
pub open spec fn is_selection(
    coins: Seq<Output>,
    ranked: Seq<Output>,
    amount: u64,
    strategy: SelectionStrategy,
) -> bool {
    &&& total_value(coins) >= amount
    &&& match strategy {
        SelectionStrategy::AllEligible => coins == ranked,
        SelectionStrategy::MinimalGreedy => {
            &&& coins.len() <= ranked.len()
            &&& coins == ranked.take(coins.len() as int)
            &&& coins.len() > 0 ==> total_value(coins.drop_last()) < amount
        },
    }
}

/// Ordering the outputs by value changes neither their number nor their
/// total, and gives a sequence of falling values.
pub proof fn lemma_largest_first(s: Seq<Output>)
    ensures
        largest_first(s).len() == s.len(),
        total_value(largest_first(s)) == total_value(s),
        largest_first(s).to_multiset() == s.to_multiset(),
        forall|i: int, j: int|
            0 <= i <= j < s.len() ==> (#[trigger] largest_first(s)[i]).value >= (
            #[trigger] largest_first(s)[j]).value,
    decreases s.len(),
{
    broadcast use vstd::seq_lib::group_to_multiset_ensures;

    let r = largest_first(s);
    if s.len() == 0 {
        assert(r =~= s);
    } else {
        lemma_first_largest(s);
        let m = first_largest(s);
        let rest = s.remove(m);
        lemma_largest_first(rest);
        let tail = largest_first(rest);
        assert(r == seq![s[m]] + tail);
        lemma_total_concat(seq![s[m]], tail);
        lemma_total_push(Seq::empty(), s[m]);
        assert(seq![s[m]] =~= Seq::<Output>::empty().push(s[m]));
        lemma_total_remove(s, m);
        // the multiset of the outputs
        vstd::seq_lib::to_multiset_remove(s, m);
        vstd::seq_lib::lemma_multiset_commutative(seq![s[m]], tail);
        assert(seq![s[m]].to_multiset() =~= Multiset::<Output>::empty().insert(s[m])) by {
            assert(seq![s[m]] =~= Seq::<Output>::empty().push(s[m]));
            vstd::seq_lib::to_multiset_build(Seq::<Output>::empty(), s[m]);
        }
        assert(r.to_multiset() =~= s.to_multiset());
        // falling values: every output of the tail is one of `rest`
        assert forall|i: int, j: int| 0 <= i <= j < s.len() implies (#[trigger] r[i]).value >= (
        #[trigger] r[j]).value by {
            if i == 0 {
                if j > 0 {
                    let x = tail[j - 1];
                    assert(r[j] == x);
                    assert(tail.to_multiset().count(x) > 0);
                    assert(rest.to_multiset().count(x) > 0);
                    assert(rest.contains(x));
                    let k = choose|k: int| 0 <= k < rest.len() && rest[k] == x;
                    let k0 = if k < m { k } else { k + 1 };
                    assert(rest[k] == s[k0]);
                    assert(s[k0].value <= s[m].value);
                }
            } else {
                assert(r[i] == tail[i - 1]);
                assert(r[j] == tail[j - 1]);
            }
        }
    }
}

/// Position of the first output of greatest value.
fn first_largest_of(outputs: &Vec<Output>) -> (m: usize)
    requires
        outputs.len() > 0,
    ensures
        m == first_largest(outputs@),
        m < outputs.len(),
{
    let mut m: usize = 0;
    let mut i: usize = 1;
    while i < outputs.len()
        invariant
            1 <= i <= outputs.len(),
            is_first_largest(outputs@.take(i as int), m as int),
        decreases outputs.len() - i,
    {
        let ghost before = outputs@.take(i as int);
        let ghost after = outputs@.take(i + 1);
        let ghost prev = m as int;
        if outputs[i].value > outputs[m].value {
            m = i;
        }
        i += 1;
        proof {
            assert(before[prev] == after[prev]);
            assert forall|a: int| 0 <= a < after.len() implies (#[trigger] after[a]).value
                <= after[m as int].value by {
                if a < before.len() {
                    assert(after[a] == before[a]);
                    assert(before[a].value <= before[prev].value);
                }
            }
            assert forall|a: int| 0 <= a < m implies (#[trigger] after[a]).value
                < after[m as int].value by {
                assert(after[a] == before[a]);
                assert(before[a].value <= before[prev].value);
            }
        }
    }
    proof {
        assert(outputs@.take(outputs.len() as int) =~= outputs@);
        lemma_first_largest(outputs@);
    }
    m
}

/// The outputs among `outputs` that are eligible, in their order.
fn eligible_among(
    outputs: &Vec<Output>,
    root_key: u64,
    current_height: u64,
    minimum_confirmations: u64,
) -> (found: Vec<Output>)
    ensures
        found@ == outputs@.filter(eligible_pred(root_key, current_height, minimum_confirmations)),
{
    let ghost pred = eligible_pred(root_key, current_height, minimum_confirmations);
    let mut found: Vec<Output> = Vec::new();
    let mut i: usize = 0;
    while i < outputs.len()
        invariant
            i <= outputs.len(),
            pred == eligible_pred(root_key, current_height, minimum_confirmations),
            found@ == outputs@.take(i as int).filter(pred),
        decreases outputs.len() - i,
    {
        let out = outputs[i];
        let confirmed = match out.height.checked_add(minimum_confirmations) {
            Some(h) => h <= current_height,
            None => false,
        };
        let mature = !out.is_coinbase || out.lock_height <= current_height;
        let spendable_now = out.key_id.root_key == root_key && matches!(
            out.status,
            OutputStatus::Unspent
        ) && confirmed && mature;
        proof {
            reveal(Seq::filter);
            assert(outputs@.take(i + 1).drop_last() =~= outputs@.take(i as int));
            assert(spendable_now == pred(out));
        }
        if spendable_now {
            found.push(out);
        }
        i += 1;
    }
    proof {
        assert(outputs@.take(outputs.len() as int) =~= outputs@);
    }
    found
}

impl WalletLedger {
    /// The total of the outputs that a payment from `root_key` may spend
    /// at `current_height`.
    pub fn spendable_total(
        &self,
        root_key: u64,
        current_height: u64,
        minimum_confirmations: u64,
    ) -> (total: u128)
        ensures
            total == total_value(
                spendable(self@, root_key, current_height, minimum_confirmations),
            ),
    {
        let found = eligible_among(
            self.outputs(),
            root_key,
            current_height,
            minimum_confirmations,
        );
        proof {
            lemma_largest_first(found@);
        }
        total_of(&found)
    }

    /// Selects the outputs that pay `amount` from the keys under `root_key`.
    ///
    /// Only eligible outputs are taken (see [`eligible`]), the largest
    /// first. `AllEligible` takes them all; `MinimalGreedy` stops as soon
    /// as the amount is reached and takes `max_outputs` at most.
    ///
    /// If all the eligible outputs together do not add up to `amount`, the
    /// selection fails with their total, under either strategy. Under
    /// `MinimalGreedy` it also fails if the eligible outputs would reach
    /// the amount but the `max_outputs` largest of them do not: the error
    /// then holds the total of those, which is what one transaction can
    /// spend.
    pub fn select_coins(
        &self,
        root_key: u64,
        amount: u64,
        current_height: u64,
        minimum_confirmations: u64,
        max_outputs: usize,
        strategy: SelectionStrategy,
    ) -> (selected: Result<Vec<Output>, Error>)
        ensures
            ({
                let ranked = spendable(self@, root_key, current_height, minimum_confirmations);
                let reach = within_reach(ranked, max_outputs, strategy);
                match selected {
                    Ok(coins) => {
                        &&& total_value(reach) >= amount
                        &&& is_selection(coins@, reach, amount, strategy)
                        &&& forall|i: int|
                            0 <= i < coins.len() ==> eligible(
                                #[trigger] coins@[i],
                                root_key,
                                current_height,
                                minimum_confirmations,
                            ) && self@.outputs.contains(coins@[i])
                        &&& strategy == SelectionStrategy::MinimalGreedy ==> forall|j: int| #[trigger]
                            is_lowest(coins@, j) ==> total_value(coins@.remove(j)) < amount
                    },
                    Err(e) => {
                        &&& total_value(reach) < amount
                        &&& e == Error::NotEnoughFunds(available(ranked, reach, amount) as u64)
                    },
                }
            }),
    {
        let ghost pred = eligible_pred(root_key, current_height, minimum_confirmations);
        let outputs = self.outputs();
        let mut remaining = eligible_among(
            outputs,
            root_key,
            current_height,
            minimum_confirmations,
        );
        let everything = total_of(&remaining);
        proof {
            lemma_largest_first(remaining@);
            if max_outputs < remaining.len() {
                lemma_total_take(largest_first(remaining@), max_outputs as int);
            }
        }
        if everything < amount as u128 {
            return Err(Error::NotEnoughFunds(everything as u64));
        }
        let ghost ranked = largest_first(remaining@);
        let ghost reach = within_reach(ranked, max_outputs, strategy);
        let take_all = matches!(strategy, SelectionStrategy::AllEligible);
        let mut coins: Vec<Output> = Vec::new();
        // the value of `coins` while it is below `amount`
        let mut below: u64 = 0;
        let mut reached: bool = amount == 0;
        proof {
            lemma_largest_first(remaining@);
            assert(total_value(ranked) >= amount);
            assert(coins@ + largest_first(remaining@) =~= ranked);
        }
        while remaining.len() > 0 && (take_all || (!reached && coins.len() < max_outputs))
            invariant
                take_all == (strategy == SelectionStrategy::AllEligible),
                coins@ + largest_first(remaining@) == ranked,
                largest_first(remaining@).len() == remaining.len(),
                reached <==> total_value(coins@) >= amount,
                !reached ==> below == total_value(coins@),
                !take_all ==> coins.len() <= max_outputs,
                !take_all && coins.len() > 0 ==> total_value(coins@.drop_last()) < amount,
            decreases remaining.len(),
        {
            let m = first_largest_of(&remaining);
            let ghost before = remaining@;
            let ghost chosen = coins@;
            let out = remaining.remove(m);
            coins.push(out);
            proof {
                lemma_total_push(chosen, out);
                lemma_largest_first(remaining@);
                assert(coins@.drop_last() =~= chosen);
                assert(largest_first(before) == seq![out] + largest_first(remaining@));
                assert(coins@ + largest_first(remaining@) =~= chosen + largest_first(before));
            }
            if !reached {
                if out.value >= amount - below {
                    reached = true;
                } else {
                    below = below + out.value;
                }
            }
        }
        proof {
            assert(coins@ =~= ranked.take(coins.len() as int));
            lemma_total_take(ranked, coins.len() as int);
            lemma_spendable_are_eligible(
                self@,
                root_key,
                current_height,
                minimum_confirmations,
            );
            assert forall|i: int| 0 <= i < coins.len() implies #[trigger] coins@[i] == ranked[i] by {}
            if take_all || remaining.len() == 0 {
                assert(largest_first(remaining@) =~= Seq::<Output>::empty());
                assert(coins@ =~= ranked);
            }
            if !take_all && !reached {
                assert(coins@ == reach);
            }
            if !take_all && reached {
                lemma_reach_covers(ranked, coins.len() as int, max_outputs, amount);
            }
        }
        if reached {
            proof {
                if !take_all {
                    assert(coins@ =~= reach.take(coins.len() as int));
                    lemma_largest_first(outputs@.filter(pred));
                    assert forall|j: int| #[trigger] is_lowest(coins@, j) implies total_value(
                        coins@.remove(j),
                    ) < amount by {
                        let last = coins.len() - 1;
                        assert(coins@[j] == ranked[j]);
                        assert(coins@[last] == ranked[last]);
                        assert(ranked[j].value >= ranked[last].value);
                        assert(coins@[j].value <= coins@[last].value);
                        lemma_total_remove(coins@, j);
                        lemma_total_remove(coins@, last);
                        assert(coins@.remove(last) =~= coins@.drop_last());
                    }
                }
            }
            Ok(coins)
        } else {
            Err(Error::NotEnoughFunds(below))
        }
    }
}

/// A leading part of `ranked` of at most `max_outputs` outputs that reaches
/// `amount` lies within the first `max_outputs`, which then reach it too.
pub proof fn lemma_reach_covers(ranked: Seq<Output>, k: int, max_outputs: usize, amount: u64)
    requires
        0 <= k <= ranked.len(),
        k <= max_outputs,
        total_value(ranked.take(k)) >= amount,
    ensures
        total_value(within_reach(ranked, max_outputs, SelectionStrategy::MinimalGreedy)) >= amount,
        ranked.take(k) == within_reach(ranked, max_outputs, SelectionStrategy::MinimalGreedy).take(
            k,
        ),
{
    let reach = within_reach(ranked, max_outputs, SelectionStrategy::MinimalGreedy);
    assert(reach.take(k) =~= ranked.take(k));
    lemma_total_take(reach, k);
}


/// Every spendable output is an eligible output of the ledger.
pub proof fn lemma_spendable_are_eligible(
    ledger: LedgerView,
    root_key: u64,
    current_height: u64,
    minimum_confirmations: u64,
)
    ensures
        forall|i: int|
            0 <= i < spendable(ledger, root_key, current_height, minimum_confirmations).len() ==> ({
                let out = #[trigger] spendable(
                    ledger,
                    root_key,
                    current_height,
                    minimum_confirmations,
                )[i];
                &&& eligible(out, root_key, current_height, minimum_confirmations)
                &&& ledger.outputs.contains(out)
            }),
{
    broadcast use vstd::seq_lib::group_to_multiset_ensures;

    let pred = eligible_pred(root_key, current_height, minimum_confirmations);
    let found = ledger.outputs.filter(pred);
    let ranked = spendable(ledger, root_key, current_height, minimum_confirmations);
    lemma_largest_first(found);
    assert forall|i: int| 0 <= i < ranked.len() implies {
        let out = #[trigger] ranked[i];
        &&& eligible(out, root_key, current_height, minimum_confirmations)
        &&& ledger.outputs.contains(out)
    } by {
        let out = ranked[i];
        assert(ranked.contains(out));
        assert(ranked.to_multiset().count(out) > 0);
        assert(found.contains(out));
        let j = choose|j: int| 0 <= j < found.len() && found[j] == out;
        ledger.outputs.lemma_filter_pred(pred, j);
        ledger.outputs.lemma_filter_contains_rev(pred, out);
    }
}

/// Filtering does not multiply outputs: an output occurs among the
/// filtered outputs at most as often as among all.
pub proof fn lemma_filter_keeps_counts(s: Seq<Output>, pred: spec_fn(Output) -> bool, out: Output)
    ensures
        s.filter(pred).to_multiset().count(out) <= s.to_multiset().count(out),
    decreases s.len(),
{
    broadcast use vstd::seq_lib::group_to_multiset_ensures;
    broadcast use vstd::multiset::group_multiset_axioms;

    reveal(Seq::filter);
    if s.len() > 0 {
        lemma_filter_keeps_counts(s.drop_last(), pred, out);
        assert(s =~= s.drop_last().push(s.last()));
        vstd::seq_lib::to_multiset_build(s.drop_last(), s.last());
        if pred(s.last()) {
            vstd::seq_lib::to_multiset_build(s.drop_last().filter(pred), s.last());
        }
    }
}

/// The spendable outputs of a well-formed ledger are a set: no two of them
/// share an identifier.
pub proof fn lemma_spendable_are_distinct(
    ledger: LedgerView,
    root_key: u64,
    current_height: u64,
    minimum_confirmations: u64,
)
    requires
        ledger.wf(),
    ensures
        forall|i: int, j: int|
            0 <= i < j < spendable(ledger, root_key, current_height, minimum_confirmations).len()
                ==> (#[trigger] spendable(
                ledger,
                root_key,
                current_height,
                minimum_confirmations,
            )[i]).key_id != (#[trigger] spendable(
                ledger,
                root_key,
                current_height,
                minimum_confirmations,
            )[j]).key_id,
{
    broadcast use vstd::seq_lib::group_to_multiset_ensures;

    let pred = eligible_pred(root_key, current_height, minimum_confirmations);
    let found = ledger.outputs.filter(pred);
    let ranked = spendable(ledger, root_key, current_height, minimum_confirmations);
    lemma_largest_first(found);
    lemma_spendable_are_eligible(ledger, root_key, current_height, minimum_confirmations);
    assert(ledger.outputs.no_duplicates()) by {
        assert forall|a: int, b: int|
            0 <= a < ledger.outputs.len() && 0 <= b < ledger.outputs.len() && a != b implies ledger.outputs[a]
            != ledger.outputs[b] by {
            if a < b {
                assert(ledger.outputs[a].key_id != ledger.outputs[b].key_id);
            } else {
                assert(ledger.outputs[b].key_id != ledger.outputs[a].key_id);
            }
        }
    }
    ledger.outputs.lemma_multiset_has_no_duplicates();
    assert forall|x: Output| ranked.to_multiset().contains(x) implies ranked.to_multiset().count(x)
        == 1 by {
        lemma_filter_keeps_counts(ledger.outputs, pred, x);
        assert(ledger.outputs.to_multiset().contains(x));
    }
    ranked.lemma_multiset_has_no_duplicates_conv();
    assert forall|i: int, j: int| 0 <= i < j < ranked.len() implies (#[trigger] ranked[i]).key_id != (
    #[trigger] ranked[j]).key_id by {
        assert(ledger.outputs.contains(ranked[i]));
        assert(ledger.outputs.contains(ranked[j]));
        let p = choose|p: int| 0 <= p < ledger.outputs.len() && ledger.outputs[p] == ranked[i];
        let q = choose|q: int| 0 <= q < ledger.outputs.len() && ledger.outputs[q] == ranked[j];
        assert(ranked[i] != ranked[j]);
        if p < q {
            assert(ledger.outputs[p].key_id != ledger.outputs[q].key_id);
        } else if q < p {
            assert(ledger.outputs[q].key_id != ledger.outputs[p].key_id);
        }
    }
}

/// What a minimal selection holds beyond the amount is less than the
/// value of its last output.
pub proof fn lemma_minimal_selection_overshoots_little(
    coins: Seq<Output>,
    ranked: Seq<Output>,
    amount: u64,
)
    requires
        is_selection(coins, ranked, amount, SelectionStrategy::MinimalGreedy),
    ensures
        total_value(coins) - amount <= u64::MAX,
{
}

/// The contract of a selection leaves no choice: two selections from the
/// same outputs for the same amount are the same.
pub proof fn lemma_selection_is_unique(
    a: Seq<Output>,
    b: Seq<Output>,
    ranked: Seq<Output>,
    amount: u64,
    strategy: SelectionStrategy,
)
    requires
        is_selection(a, ranked, amount, strategy),
        is_selection(b, ranked, amount, strategy),
    ensures
        a == b,
{
    if strategy == SelectionStrategy::MinimalGreedy {
        if a.len() < b.len() {
            assert(b.drop_last().take(a.len() as int) =~= a);
            lemma_total_take(b.drop_last(), a.len() as int);
        } else if b.len() < a.len() {
            assert(a.drop_last().take(b.len() as int) =~= b);
            lemma_total_take(a.drop_last(), b.len() as int);
        }
    }
}

/// Whether the values never rise along `s`.
pub open spec fn falling(s: Seq<Output>) -> bool {
    forall|i: int, j: int| 0 <= i <= j < s.len() ==> (#[trigger] s[i]).value >= (#[trigger] s[j]).value
}

/// Among outputs in the order of falling value, no choice of outputs is
/// worth more than the same number of leading outputs.
pub proof fn lemma_leading_outputs_are_worth_most(ranked: Seq<Output>, chosen: Seq<Output>)
    requires
        falling(ranked),
        chosen.to_multiset().subset_of(ranked.to_multiset()),
    ensures
        chosen.len() <= ranked.len(),
        total_value(chosen) <= total_value(ranked.take(chosen.len() as int)),
    decreases ranked.len(),
{
    broadcast use vstd::seq_lib::group_to_multiset_ensures;
    broadcast use vstd::multiset::group_multiset_axioms;

    let n = chosen.len() as int;
    if n == 0 {
        assert(ranked.take(0) =~= Seq::<Output>::empty());
    } else {
        let x = chosen.last();
        assert(chosen.contains(x));
        assert(chosen.to_multiset().count(x) > 0);
        assert(ranked.to_multiset().count(x) > 0);
        assert(ranked.contains(x));
        let head = ranked[0];
        let rest = ranked.remove(0);
        assert(falling(rest)) by {
            assert forall|i: int, j: int| 0 <= i <= j < rest.len() implies (#[trigger] rest[i]).value
                >= (#[trigger] rest[j]).value by {
                assert(rest[i] == ranked[i + 1]);
                assert(rest[j] == ranked[j + 1]);
            }
        }
        vstd::seq_lib::to_multiset_remove(ranked, 0);
        let fewer = if chosen.contains(head) {
            let j = choose|j: int| 0 <= j < chosen.len() && chosen[j] == head;
            vstd::seq_lib::to_multiset_remove(chosen, j);
            lemma_total_remove(chosen, j);
            chosen.remove(j)
        } else {
            let k = choose|k: int| 0 <= k < ranked.len() && ranked[k] == x;
            assert(ranked[0].value >= ranked[k].value);
            assert(chosen.to_multiset().count(head) == 0);
            vstd::seq_lib::to_multiset_remove(chosen, n - 1);
            lemma_total_remove(chosen, n - 1);
            chosen.remove(n - 1)
        };
        assert(fewer.to_multiset().subset_of(rest.to_multiset())) by {
            assert forall|v: Output| fewer.to_multiset().count(v) <= rest.to_multiset().count(
                v,
            ) by {
                assert(chosen.to_multiset().count(v) <= ranked.to_multiset().count(v));
            }
        }
        lemma_leading_outputs_are_worth_most(rest, fewer);
        assert(ranked.take(n).remove(0) =~= rest.take(n - 1));
        lemma_total_remove(ranked.take(n), 0);
    }
}

/// The minimal selection takes as few outputs as any choice can: whoever
/// picks among the eligible outputs of the ledger, each at most once, and
/// reaches the amount, picks at least as many outputs. A choice of equally
/// many outputs is worth no more than the selection.
pub proof fn lemma_minimal_selection_is_smallest(
    ledger: LedgerView,
    root_key: u64,
    amount: u64,
    current_height: u64,
    minimum_confirmations: u64,
    max_outputs: usize,
    coins: Seq<Output>,
    other: Seq<Output>,
)
    requires
        is_selection(
            coins,
            within_reach(
                spendable(ledger, root_key, current_height, minimum_confirmations),
                max_outputs,
                SelectionStrategy::MinimalGreedy,
            ),
            amount,
            SelectionStrategy::MinimalGreedy,
        ),
        other.to_multiset().subset_of(
            ledger.outputs.filter(
                eligible_pred(root_key, current_height, minimum_confirmations),
            ).to_multiset(),
        ),
    ensures
        total_value(other) >= amount ==> other.len() >= coins.len(),
        other.len() == coins.len() ==> total_value(other) <= total_value(coins),
{
    let pred = eligible_pred(root_key, current_height, minimum_confirmations);
    let ranked = spendable(ledger, root_key, current_height, minimum_confirmations);
    let reach = within_reach(ranked, max_outputs, SelectionStrategy::MinimalGreedy);
    lemma_largest_first(ledger.outputs.filter(pred));
    lemma_leading_outputs_are_worth_most(ranked, other);
    let n = other.len() as int;
    assert(coins =~= ranked.take(coins.len() as int));
    if n < coins.len() {
        assert(coins.drop_last().take(n) =~= ranked.take(n));
        lemma_total_take(coins.drop_last(), n);
    }
}

} // verus!
