//! Transactions, and how one is built from its parts.

use vstd::prelude::*;
use crate::blinding::{lemma_scalar_is_additive, BlindSum, BlindingFactor};
use crate::keys::Identifier;

verus! {

/// A commitment to `value` under the key `key_id`. Two commitments are the
/// same exactly if they commit the same value under the same key.
#[derive(Clone, Copy, Debug, PartialEq, Eq, Structural)]
pub struct Commitment {
    pub value: u64,
    pub key_id: Identifier,
}

/// An input of a transaction: the output it spends, by its commitment.
#[derive(Clone, Copy, Debug, PartialEq, Eq, Structural)]
pub struct TxInput {
    pub commit: Commitment,
}

/// An output of a transaction, by its commitment.
#[derive(Clone, Copy, Debug, PartialEq, Eq, Structural)]
pub struct TxOutput {
    pub commit: Commitment,
}

impl TxInput {
    /// The commitment of the output that is spent.
    pub fn commitment(&self) -> (commit: Commitment)
        ensures
            commit == self.commit,
    {
        self.commit
    }
}

impl TxOutput {
    /// The commitment of the output.
    pub fn commitment(&self) -> (commit: Commitment)
        ensures
            commit == self.commit,
    {
        self.commit
    }
}

/// One part of a transaction that is being put together.
#[derive(Clone, Copy, Debug, PartialEq, Eq, Structural)]
pub enum Part {
    /// Spend the output of this value under this key.
    Input { value: u64, key_id: Identifier },
    /// Create an output of this value under this key.
    Output { value: u64, key_id: Identifier },
    /// Pay this fee.
    Fee(u64),
    /// Keep the transaction out of blocks below this height.
    LockHeight(u64),
}

/// The mathematical content of a transaction.
pub struct TransactionView {
    pub inputs: Seq<TxInput>,
    pub outputs: Seq<TxOutput>,
    pub fee: u64,
    pub lock_height: u64,
}

/// Sum of the values that the inputs spend.
pub open spec fn input_total(inputs: Seq<TxInput>) -> int
    decreases inputs.len(),
{
    if inputs.len() == 0 {
        0
    } else {
        input_total(inputs.drop_last()) + inputs.last().commit.value
    }
}

/// Sum of the values that the outputs create.
pub open spec fn output_total(outputs: Seq<TxOutput>) -> int
    decreases outputs.len(),
{
    if outputs.len() == 0 {
        0
    } else {
        output_total(outputs.drop_last()) + outputs.last().commit.value
    }
}

impl TransactionView {
    /// The transaction without inputs, outputs, fee or lock height.
    pub open spec fn empty() -> TransactionView {
        TransactionView { inputs: Seq::empty(), outputs: Seq::empty(), fee: 0, lock_height: 0 }
    }

    /// The transaction with one more part. An input or an output goes to
    /// the end of its list; a fee or a lock height replaces the one set
    /// before.
    pub open spec fn with_part(self, part: Part) -> TransactionView {
        match part {
            Part::Input { value, key_id } => TransactionView {
                inputs: self.inputs.push(TxInput { commit: Commitment { value, key_id } }),
                ..self
            },
            Part::Output { value, key_id } => TransactionView {
                outputs: self.outputs.push(TxOutput { commit: Commitment { value, key_id } }),
                ..self
            },
            Part::Fee(fee) => TransactionView { fee, ..self },
            Part::LockHeight(lock_height) => TransactionView { lock_height, ..self },
        }
    }

    /// Whether no value is made or lost: what the inputs spend is what the
    /// outputs create plus the fee.
    pub open spec fn balanced(self) -> bool {
        input_total(self.inputs) == output_total(self.outputs) + self.fee
    }
}

/// The transaction that the parts make, applied in their order.
pub open spec fn transaction_of(parts: Seq<Part>) -> TransactionView
    decreases parts.len(),
{
    if parts.len() == 0 {
        TransactionView::empty()
    } else {
        transaction_of(parts.drop_last()).with_part(parts.last())
    }
}

/// What one part adds to the blinding factor: the key of an output counts
/// in, the key of an input counts against, a fee or a lock height adds
/// nothing.
pub open spec fn blinding_of_part(part: Part) -> BlindSum {
    match part {
        Part::Input { value, key_id } => BlindSum { positive: Seq::empty(), negative: seq![key_id] },
        Part::Output { value, key_id } => BlindSum { positive: seq![key_id], negative: Seq::empty() },
        Part::Fee(_) => BlindSum::zero(),
        Part::LockHeight(_) => BlindSum::zero(),
    }
}

/// The blinding factor of the party that contributes the parts: the sum of
/// what each part adds.
pub open spec fn blinding_of(parts: Seq<Part>) -> BlindSum
    decreases parts.len(),
{
    if parts.len() == 0 {
        BlindSum::zero()
    } else {
        blinding_of(parts.drop_last()).plus(blinding_of_part(parts.last()))
    }
}

/// A transaction: the outputs it spends, the outputs it creates, its fee
/// and the height from which it may be mined.
#[derive(Clone, Debug, PartialEq, Eq)]
pub struct Transaction {
    pub inputs: Vec<TxInput>,
    pub outputs: Vec<TxOutput>,
    pub fee: u64,
    pub lock_height: u64,
}

impl View for Transaction {
    type V = TransactionView;

    open spec fn view(&self) -> TransactionView {
        TransactionView {
            inputs: self.inputs@,
            outputs: self.outputs@,
            fee: self.fee,
            lock_height: self.lock_height,
        }
    }
}

/// Sum of the values that `inputs` spend.
fn spent_by(inputs: &Vec<TxInput>) -> (sum: u128)
    ensures
        sum == input_total(inputs@),
        sum <= inputs.len() * u64::MAX,
{
    let mut sum: u128 = 0;
    let mut i: usize = 0;
    while i < inputs.len()
        invariant
            i <= inputs.len(),
            sum == input_total(inputs@.take(i as int)),
            sum <= i * u64::MAX,
        decreases inputs.len() - i,
    {
        proof {
            assert(inputs@.take(i + 1).drop_last() =~= inputs@.take(i as int));
            assert(i * u64::MAX + u64::MAX == (i + 1) * u64::MAX) by (nonlinear_arith);
            assert((i + 1) * u64::MAX <= u64::MAX * u64::MAX) by (nonlinear_arith)
                requires
                    i + 1 <= u64::MAX,
            ;
        }
        sum = sum + inputs[i].commit.value as u128;
        i += 1;
    }
    proof {
        assert(inputs@.take(inputs.len() as int) =~= inputs@);
    }
    sum
}

/// Sum of the values that `outputs` create.
fn created_by(outputs: &Vec<TxOutput>) -> (sum: u128)
    ensures
        sum == output_total(outputs@),
        sum <= outputs.len() * u64::MAX,
{
    let mut sum: u128 = 0;
    let mut i: usize = 0;
    while i < outputs.len()
        invariant
            i <= outputs.len(),
            sum == output_total(outputs@.take(i as int)),
            sum <= i * u64::MAX,
        decreases outputs.len() - i,
    {
        proof {
            assert(outputs@.take(i + 1).drop_last() =~= outputs@.take(i as int));
            assert(i * u64::MAX + u64::MAX == (i + 1) * u64::MAX) by (nonlinear_arith);
            assert((i + 1) * u64::MAX <= u64::MAX * u64::MAX) by (nonlinear_arith)
                requires
                    i + 1 <= u64::MAX,
            ;
        }
        sum = sum + outputs[i].commit.value as u128;
        i += 1;
    }
    proof {
        assert(outputs@.take(outputs.len() as int) =~= outputs@);
    }
    sum
}

impl Transaction {
    /// Whether the transaction balances: whether its inputs spend what its
    /// outputs create plus the fee.
    pub fn validate(&self) -> (balanced: bool)
        ensures
            balanced == self@.balanced(),
    {
        let spent = spent_by(&self.inputs);
        let created = created_by(&self.outputs);
        proof {
            assert(self.outputs.len() * u64::MAX <= u64::MAX * u64::MAX) by (nonlinear_arith)
                requires
                    self.outputs.len() <= u64::MAX,
            ;
        }
        spent == created + self.fee as u128
    }
}

/// The part that spends the output of `value` under `key_id`.
pub fn input(value: u64, key_id: Identifier) -> (part: Part)
    ensures
        part == (Part::Input { value, key_id }),
{
    Part::Input { value, key_id }
}

/// The part that creates an output of `value` under `key_id`.
pub fn output(value: u64, key_id: Identifier) -> (part: Part)
    ensures
        part == (Part::Output { value, key_id }),
{
    Part::Output { value, key_id }
}

/// The part that sets the fee.
pub fn with_fee(fee: u64) -> (part: Part)
    ensures
        part == Part::Fee(fee),
{
    Part::Fee(fee)
}

/// The part that sets the lock height.
pub fn with_lock_height(lock_height: u64) -> (part: Part)
    ensures
        part == Part::LockHeight(lock_height),
{
    Part::LockHeight(lock_height)
}

/// Builds the transaction that `parts` make, and the blinding factor of the
/// party that contributes them.
pub fn transaction(parts: Vec<Part>) -> (built: (Transaction, BlindingFactor))
    ensures
        built.0@ == transaction_of(parts@),
        built.1@ == blinding_of(parts@),
{
    let mut tx = Transaction {
        inputs: Vec::new(),
        outputs: Vec::new(),
        fee: 0,
        lock_height: 0,
    };
    let mut blind = BlindingFactor { positive: Vec::new(), negative: Vec::new() };
    let mut i: usize = 0;
    while i < parts.len()
        invariant
            i <= parts.len(),
            tx@ == transaction_of(parts@.take(i as int)),
            blind@ == blinding_of(parts@.take(i as int)),
        decreases parts.len() - i,
    {
        let ghost before = blind@;
        proof {
            assert(parts@.take(i + 1).drop_last() =~= parts@.take(i as int));
        }
        match parts[i] {
            Part::Input { value, key_id } => {
                tx.inputs.push(TxInput { commit: Commitment { value, key_id } });
                blind.negative.push(key_id);
            },
            Part::Output { value, key_id } => {
                tx.outputs.push(TxOutput { commit: Commitment { value, key_id } });
                blind.positive.push(key_id);
            },
            Part::Fee(fee) => {
                tx.fee = fee;
            },
            Part::LockHeight(lock_height) => {
                tx.lock_height = lock_height;
            },
        }
        proof {
            let step = blinding_of_part(parts@[i as int]);
            assert(blind@.positive =~= before.positive + step.positive);
            assert(blind@.negative =~= before.negative + step.negative);
        }
        i += 1;
    }
    proof {
        assert(parts@.take(parts.len() as int) =~= parts@);
    }
    (tx, blind)
}

/// Building is additive: the transaction of two lists of parts joined holds
/// the inputs and outputs of both, and its blinding factor is the sum of
/// the two blinding factors.
pub proof fn lemma_parts_concat(a: Seq<Part>, b: Seq<Part>)
    ensures
        transaction_of(a + b).inputs == transaction_of(a).inputs + transaction_of(b).inputs,
        transaction_of(a + b).outputs == transaction_of(a).outputs + transaction_of(b).outputs,
        blinding_of(a + b) == blinding_of(a).plus(blinding_of(b)),
    decreases b.len(),
{
    if b.len() == 0 {
        assert(a + b =~= a);
        assert(transaction_of(a).inputs + transaction_of(b).inputs =~= transaction_of(a).inputs);
        assert(transaction_of(a).outputs + transaction_of(b).outputs =~= transaction_of(a).outputs);
        assert(blinding_of(a).plus(blinding_of(b)).positive =~= blinding_of(a).positive);
        assert(blinding_of(a).plus(blinding_of(b)).negative =~= blinding_of(a).negative);
    } else {
        assert((a + b).drop_last() =~= a + b.drop_last());
        lemma_parts_concat(a, b.drop_last());
        let ta = transaction_of(a);
        let tb = transaction_of(b.drop_last());
        let step = blinding_of_part(b.last());
        assert(transaction_of(a + b).inputs =~= ta.inputs + transaction_of(b).inputs);
        assert(transaction_of(a + b).outputs =~= ta.outputs + transaction_of(b).outputs);
        assert(blinding_of(a + b).positive =~= blinding_of(a).plus(blinding_of(b)).positive);
        assert(blinding_of(a + b).negative =~= blinding_of(a).plus(blinding_of(b)).negative);
    }
}

/// The blinding factor of a completed transaction is the sum of the shares
/// of its parties: when the counterparty adds its parts to the sender's,
/// the keys of both count, each with its own sign, and under any secret
/// keys the scalar of the whole is the sum of the scalars of the shares.
pub proof fn lemma_shares_add_up(sender: Seq<Part>, counterparty: Seq<Part>)
    ensures
        blinding_of(sender + counterparty) == blinding_of(sender).plus(blinding_of(counterparty)),
        forall|secret: spec_fn(Identifier) -> int| #[trigger]
            blinding_of(sender + counterparty).scalar(secret) == blinding_of(sender).scalar(secret)
                + blinding_of(counterparty).scalar(secret),
{
    lemma_parts_concat(sender, counterparty);
    assert forall|secret: spec_fn(Identifier) -> int| #[trigger]
        blinding_of(sender + counterparty).scalar(secret) == blinding_of(sender).scalar(secret)
            + blinding_of(counterparty).scalar(secret) by {
        lemma_scalar_is_additive(blinding_of(sender), blinding_of(counterparty), secret);
    }
}

} // verus!
