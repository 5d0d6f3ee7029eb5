//! The wallet ledger: the outputs the wallet owns and the counter that
//! issues derivation indices.

use vstd::prelude::*;
use crate::keys::Identifier;

verus! {

/// Where an output stands in its life.
#[derive(Clone, Copy, Debug, PartialEq, Eq, Structural)]
pub enum OutputStatus {
    /// Recorded, but not yet seen on the chain.
    Unconfirmed,
    /// Confirmed and free to spend.
    Unspent,
    /// Taken by a transaction that has been handed out.
    Locked,
    /// Spent on the chain.
    Spent,
}

/// One output that the wallet owns.
#[derive(Clone, Copy, Debug, PartialEq, Eq, Structural)]
pub struct Output {
    /// The key that the output is committed to.
    pub key_id: Identifier,
    pub value: u64,
    pub status: OutputStatus,
    /// Height of the block that holds the output; zero while unconfirmed.
    pub height: u64,
    /// Height from which a coinbase output may be spent.
    pub lock_height: u64,
    pub is_coinbase: bool,
}

/// Largest value the index counter takes: one past the last index.
pub const INDEX_LIMIT: u64 = 0x1_0000_0000;

/// The mathematical content of a ledger: its outputs in the order they were
/// recorded, and the next derivation index it will issue.
pub struct LedgerView {
    pub outputs: Seq<Output>,
    pub next_index: nat,
}

impl LedgerView {
    /// Whether an output with this identifier is recorded.
    pub open spec fn contains(self, id: Identifier) -> bool {
        exists|i: int| 0 <= i < self.outputs.len() && #[trigger] self.outputs[i].key_id == id
    }

    /// Position of the output with this identifier, if it is recorded.
    pub open spec fn position(self, id: Identifier) -> int {
        choose|i: int| 0 <= i < self.outputs.len() && #[trigger] self.outputs[i].key_id == id
    }

    /// The output recorded under this identifier.
    pub open spec fn get(self, id: Identifier) -> Option<Output> {
        if self.contains(id) {
            Some(self.outputs[self.position(id)])
        } else {
            None
        }
    }

    /// The invariant of a ledger: no identifier is recorded twice, and every
    /// recorded derivation index lies below the counter, which starts at one
    /// and stops at [`INDEX_LIMIT`].
    pub open spec fn wf(self) -> bool {
        &&& 1 <= self.next_index <= INDEX_LIMIT
        &&& forall|i: int, j: int|
            0 <= i < j < self.outputs.len() ==> #[trigger] self.outputs[i].key_id
                != #[trigger] self.outputs[j].key_id
        &&& forall|i: int|
            0 <= i < self.outputs.len() ==> (#[trigger] self.outputs[i]).key_id.index
                < self.next_index
    }

    /// The ledger after `out` is recorded. An output already recorded under
    /// the same identifier is replaced where it stands; a new one goes to
    /// the end. The counter moves past the output's index.
    pub open spec fn with_output(self, out: Output) -> LedgerView {
        LedgerView {
            outputs: if self.contains(out.key_id) {
                self.outputs.update(self.position(out.key_id), out)
            } else {
                self.outputs.push(out)
            },
            next_index: if out.key_id.index < self.next_index {
                self.next_index
            } else {
                (out.key_id.index + 1) as nat
            },
        }
    }

    /// The ledger after the output under `id` is deleted. The counter stays.
    pub open spec fn without(self, id: Identifier) -> LedgerView {
        LedgerView {
            outputs: if self.contains(id) {
                self.outputs.remove(self.position(id))
            } else {
                self.outputs
            },
            next_index: self.next_index,
        }
    }

    /// The ledger after the output under `id` is locked. Only an output that
    /// is unconfirmed or unspent changes: a spent output stays spent.
    pub open spec fn with_locked(self, id: Identifier) -> LedgerView {
        LedgerView {
            outputs: if self.contains(id) && lockable(self.outputs[self.position(id)]) {
                self.outputs.update(self.position(id), locked(self.outputs[self.position(id)]))
            } else {
                self.outputs
            },
            next_index: self.next_index,
        }
    }

    /// Whether the counter can still issue an index.
    pub open spec fn can_issue(self) -> bool {
        self.next_index < INDEX_LIMIT
    }

    /// The ledger after one index was issued.
    pub open spec fn issued(self) -> LedgerView {
        LedgerView { outputs: self.outputs, next_index: self.next_index + 1 }
    }
}

/// Sum of the values of `s`.
pub open spec fn total_value(s: Seq<Output>) -> int
    decreases s.len(),
{
    if s.len() == 0 {
        0
    } else {
        total_value(s.drop_last()) + s.last().value
    }
}

/// Whether locking changes the output.
pub open spec fn lockable(out: Output) -> bool {
    out.status == OutputStatus::Unconfirmed || out.status == OutputStatus::Unspent
}

/// The output with its status set to locked.
pub open spec fn locked(out: Output) -> Output {
    Output { status: OutputStatus::Locked, ..out }
}

/// In a well-formed ledger an identifier stands at one position only.
pub proof fn lemma_position_unique(l: LedgerView, i: int)
    requires
        l.wf(),
        0 <= i < l.outputs.len(),
    ensures
        l.contains(l.outputs[i].key_id),
        l.position(l.outputs[i].key_id) == i,
{
    let id = l.outputs[i].key_id;
    let p = l.position(id);
    assert(0 <= p < l.outputs.len() && l.outputs[p].key_id == id);
}

/// The value of a sequence grows by the value of an output pushed to it.
pub proof fn lemma_total_push(s: Seq<Output>, out: Output)
    ensures
        total_value(s.push(out)) == total_value(s) + out.value,
{
    assert(s.push(out).drop_last() =~= s);
}

/// No value is negative, so no total is.
pub proof fn lemma_total_nonnegative(s: Seq<Output>)
    ensures
        total_value(s) >= 0,
    decreases s.len(),
{
    if s.len() > 0 {
        lemma_total_nonnegative(s.drop_last());
    }
}

/// The value of two sequences joined is the sum of their values.
pub proof fn lemma_total_concat(a: Seq<Output>, b: Seq<Output>)
    ensures
        total_value(a + b) == total_value(a) + total_value(b),
    decreases b.len(),
{
    if b.len() == 0 {
        assert(a + b =~= a);
    } else {
        assert((a + b).drop_last() =~= a + b.drop_last());
        lemma_total_concat(a, b.drop_last());
    }
}

/// Taking an output out of a sequence takes its value off the total.
pub proof fn lemma_total_remove(s: Seq<Output>, i: int)
    requires
        0 <= i < s.len(),
    ensures
        total_value(s.remove(i)) == total_value(s) - s[i].value,
{
    let before = s.subrange(0, i);
    let after = s.subrange(i + 1, s.len() as int);
    assert(s.remove(i) =~= before + after);
    assert(s =~= before.push(s[i]) + after);
    lemma_total_concat(before, after);
    lemma_total_concat(before.push(s[i]), after);
    lemma_total_push(before, s[i]);
}

/// A leading part of a sequence is worth no more than the whole.
pub proof fn lemma_total_take(s: Seq<Output>, k: int)
    requires
        0 <= k <= s.len(),
    ensures
        total_value(s.take(k)) <= total_value(s),
{
    assert(s =~= s.take(k) + s.skip(k));
    lemma_total_concat(s.take(k), s.skip(k));
    lemma_total_nonnegative(s.skip(k));
}

/// The sum of the values of `outputs`. It is computed in 128 bits, which
/// hold the sum of as many values as a vector has room for.
pub fn total_of(outputs: &Vec<Output>) -> (total: u128)
    ensures
        total == total_value(outputs@),
{
    let mut total: u128 = 0;
    let mut i: usize = 0;
    while i < outputs.len()
        invariant
            i <= outputs.len(),
            total == total_value(outputs@.take(i as int)),
            total <= i * u64::MAX,
        decreases outputs.len() - i,
    {
        proof {
            assert(outputs@.take(i + 1).drop_last() =~= outputs@.take(i as int));
            assert(i * u64::MAX + u64::MAX == (i + 1) * u64::MAX) by (nonlinear_arith);
            assert((i + 1) * u64::MAX <= u64::MAX * u64::MAX) by (nonlinear_arith)
                requires
                    i + 1 <= u64::MAX,
            ;
        }
        total = total + outputs[i].value as u128;
        i += 1;
    }
    proof {
        assert(outputs@.take(outputs.len() as int) =~= outputs@);
    }
    total
}

/// The outputs a wallet owns, each under its identifier, and the counter
/// that issues derivation indices for new ones.
pub struct WalletLedger {
    outputs: Vec<Output>,
    next_index: u64,
}

impl View for WalletLedger {
    type V = LedgerView;

    closed spec fn view(&self) -> LedgerView {
        LedgerView { outputs: self.outputs@, next_index: self.next_index as nat }
    }
}

impl WalletLedger {
    /// See [`LedgerView::wf`].
    pub open spec fn wf(&self) -> bool {
        self@.wf()
    }

    /// An empty ledger whose first index will be one.
    pub fn new() -> (ledger: WalletLedger)
        ensures
            ledger.wf(),
            ledger@.outputs == Seq::<Output>::empty(),
            ledger@.next_index == 1,
    {
        WalletLedger { outputs: Vec::new(), next_index: 1 }
    }

    /// A ledger with the given outputs and counter, as read from a store.
    /// `None` if they break the invariant.
    pub fn restore(outputs: Vec<Output>, next_index: u64) -> (ledger: Option<WalletLedger>)
        ensures
            ledger is Some <==> (LedgerView { outputs: outputs@, next_index: next_index as nat }).wf(),
            ledger matches Some(l) ==> l@ == (LedgerView {
                outputs: outputs@,
                next_index: next_index as nat,
            }),
    {
        if next_index < 1 || next_index > INDEX_LIMIT {
            return None;
        }
        let ghost view = LedgerView { outputs: outputs@, next_index: next_index as nat };
        let mut j: usize = 0;
        while j < outputs.len()
            invariant
                j <= outputs.len(),
                view == (LedgerView { outputs: outputs@, next_index: next_index as nat }),
                forall|a: int, b: int|
                    0 <= a < b < j ==> #[trigger] outputs@[a].key_id != #[trigger] outputs@[b].key_id,
                forall|a: int| 0 <= a < j ==> (#[trigger] outputs@[a]).key_id.index < next_index,
            decreases outputs.len() - j,
        {
            if outputs[j].key_id.index as u64 >= next_index {
                assert(!view.wf());
                return None;
            }
            let mut i: usize = 0;
            while i < j
                invariant
                    i <= j < outputs.len(),
                    view == (LedgerView { outputs: outputs@, next_index: next_index as nat }),
                    forall|a: int| 0 <= a < i ==> #[trigger] outputs@[a].key_id != outputs@[j as int].key_id,
                decreases j - i,
            {
                if outputs[i].key_id == outputs[j].key_id {
                    assert(!view.wf());
                    return None;
                }
                i += 1;
            }
            j += 1;
        }
        Some(WalletLedger { outputs, next_index })
    }

    /// The recorded outputs, in the order they were recorded.
    pub fn outputs(&self) -> (outputs: &Vec<Output>)
        ensures
            outputs@ == self@.outputs,
    {
        &self.outputs
    }

    /// The index that the ledger will issue next.
    pub fn next_index(&self) -> (next: u64)
        ensures
            next == self@.next_index,
    {
        self.next_index
    }

    /// Position of the output under `id`.
    fn find(&self, id: Identifier) -> (found: Option<usize>)
        requires
            self.wf(),
        ensures
            found is Some <==> self@.contains(id),
            found matches Some(i) ==> i == self@.position(id) && i < self@.outputs.len(),
    {
        let mut i: usize = 0;
        while i < self.outputs.len()
            invariant
                i <= self.outputs.len(),
                self.wf(),
                forall|a: int| 0 <= a < i ==> #[trigger] self.outputs@[a].key_id != id,
            decreases self.outputs.len() - i,
        {
            if self.outputs[i].key_id == id {
                proof {
                    lemma_position_unique(self@, i as int);
                }
                return Some(i);
            }
            i += 1;
        }
        None
    }

    /// The output recorded under `id`, if there is one.
    pub fn get(&self, id: Identifier) -> (out: Option<Output>)
        requires
            self.wf(),
        ensures
            out == self@.get(id),
    {
        match self.find(id) {
            Some(i) => Some(self.outputs[i]),
            None => None,
        }
    }

    /// Records `out`, in place of an output already recorded under the same
    /// identifier if there is one. The counter moves past the output's
    /// index, so that the index is not issued again.
    pub fn add_output(&mut self, out: Output)
        requires
            old(self).wf(),
        ensures
            final(self).wf(),
            final(self)@ == old(self)@.with_output(out),
    {
        match self.find(out.key_id) {
            Some(i) => {
                self.outputs.set(i, out);
            },
            None => {
                self.outputs.push(out);
            },
        }
        if out.key_id.index as u64 >= self.next_index {
            self.next_index = out.key_id.index as u64 + 1;
        }
        proof {
            lemma_with_output_wf(old(self)@, out);
        }
    }

    /// Deletes the output recorded under `id`, if there is one. The counter
    /// keeps its value: the index of a deleted output is not issued again.
    pub fn delete_output(&mut self, id: Identifier)
        requires
            old(self).wf(),
        ensures
            final(self).wf(),
            final(self)@ == old(self)@.without(id),
    {
        match self.find(id) {
            Some(i) => {
                self.outputs.remove(i);
            },
            None => {},
        }
        proof {
            lemma_without_wf(old(self)@, id);
        }
    }

    /// Locks the output recorded under `id`, if there is one and it is
    /// unconfirmed or unspent.
    pub fn lock_output(&mut self, id: Identifier)
        requires
            old(self).wf(),
        ensures
            final(self).wf(),
            final(self)@ == old(self)@.with_locked(id),
    {
        match self.find(id) {
            Some(i) => {
                let out = self.outputs[i];
                match out.status {
                    OutputStatus::Unconfirmed | OutputStatus::Unspent => {
                        self.outputs.set(i, Output { status: OutputStatus::Locked, ..out });
                    },
                    _ => {},
                }
            },
            None => {},
        }
        proof {
            lemma_with_locked_wf(old(self)@, id);
        }
    }

    /// Issues the next derivation index, or `None` once all are used up.
    /// An issued index is never issued again.
    pub fn next_derivation_index(&mut self) -> (index: Option<u32>)
        requires
            old(self).wf(),
        ensures
            final(self).wf(),
            index is Some <==> old(self)@.can_issue(),
            index matches Some(n) ==> n == old(self)@.next_index && final(self)@ == old(
                self,
            )@.issued(),
            index is None ==> final(self)@ == old(self)@,
    {
        if self.next_index < INDEX_LIMIT {
            let n: u32 = self.next_index as u32;
            self.next_index = self.next_index + 1;
            Some(n)
        } else {
            None
        }
    }
}

/// Recording an output keeps the ledger well formed.
pub proof fn lemma_with_output_wf(l: LedgerView, out: Output)
    requires
        l.wf(),
    ensures
        l.with_output(out).wf(),
        l.with_output(out).contains(out.key_id),
        l.with_output(out).get(out.key_id) == Some(out),
{
    let r = l.with_output(out);
    if l.contains(out.key_id) {
        let p = l.position(out.key_id);
        assert(r.outputs[p].key_id == out.key_id);
        assert forall|i: int, j: int| 0 <= i < j < r.outputs.len() implies #[trigger] r.outputs[i].key_id
            != #[trigger] r.outputs[j].key_id by {
            assert(r.outputs[i].key_id == l.outputs[i].key_id);
            assert(r.outputs[j].key_id == l.outputs[j].key_id);
        }
        assert(r.wf());
        lemma_position_unique(r, p);
    } else {
        let p = l.outputs.len() as int;
        assert(r.outputs[p].key_id == out.key_id);
        assert forall|i: int, j: int| 0 <= i < j < r.outputs.len() implies #[trigger] r.outputs[i].key_id
            != #[trigger] r.outputs[j].key_id by {
            if j < p {
                assert(r.outputs[i].key_id == l.outputs[i].key_id);
                assert(r.outputs[j].key_id == l.outputs[j].key_id);
            } else {
                assert(l.outputs[i].key_id != out.key_id);
            }
        }
        assert(r.wf());
        lemma_position_unique(r, p);
    }
}

/// Deleting an output keeps the ledger well formed, and the output is gone.
pub proof fn lemma_without_wf(l: LedgerView, id: Identifier)
    requires
        l.wf(),
    ensures
        l.without(id).wf(),
        !l.without(id).contains(id),
{
    let r = l.without(id);
    if l.contains(id) {
        let p = l.position(id);
        assert forall|i: int| 0 <= i < r.outputs.len() implies #[trigger] r.outputs[i].key_id != id by {
            let k = if i < p { i } else { i + 1 };
            assert(r.outputs[i] == l.outputs[k]);
            assert(l.outputs[k].key_id != l.outputs[p].key_id);
        }
        assert forall|i: int, j: int| 0 <= i < j < r.outputs.len() implies #[trigger] r.outputs[i].key_id
            != #[trigger] r.outputs[j].key_id by {
            let a = if i < p { i } else { i + 1 };
            let b = if j < p { j } else { j + 1 };
            assert(r.outputs[i] == l.outputs[a]);
            assert(r.outputs[j] == l.outputs[b]);
            assert(l.outputs[a].key_id != l.outputs[b].key_id);
        }
        assert forall|i: int| 0 <= i < r.outputs.len() implies (#[trigger] r.outputs[i]).key_id.index
            < r.next_index by {
            let k = if i < p { i } else { i + 1 };
            assert(r.outputs[i] == l.outputs[k]);
        }
    }
}

/// Locking an output keeps the ledger well formed.
pub proof fn lemma_with_locked_wf(l: LedgerView, id: Identifier)
    requires
        l.wf(),
    ensures
        l.with_locked(id).wf(),
{
    let r = l.with_locked(id);
    if l.contains(id) && lockable(l.outputs[l.position(id)]) {
        assert forall|i: int| 0 <= i < r.outputs.len() implies #[trigger] r.outputs[i].key_id
            == l.outputs[i].key_id by {}
        assert forall|i: int, j: int| 0 <= i < j < r.outputs.len() implies #[trigger] r.outputs[i].key_id
            != #[trigger] r.outputs[j].key_id by {
            assert(r.outputs[i].key_id == l.outputs[i].key_id);
            assert(r.outputs[j].key_id == l.outputs[j].key_id);
        }
        assert forall|i: int| 0 <= i < r.outputs.len() implies (#[trigger] r.outputs[i]).key_id.index
            < r.next_index by {
            assert(r.outputs[i].key_id == l.outputs[i].key_id);
        }
    }
}

/// One change that a ledger can undergo.
pub enum LedgerOp {
    /// An output is recorded.
    Add(Output),
    /// The output under an identifier is deleted.
    Delete(Identifier),
    /// The output under an identifier is locked.
    Lock(Identifier),
    /// A derivation index is issued, if one is left.
    Issue,
}

impl LedgerView {
    /// The ledger after `op`.
    pub open spec fn after(self, op: LedgerOp) -> LedgerView {
        match op {
            LedgerOp::Add(out) => self.with_output(out),
            LedgerOp::Delete(id) => self.without(id),
            LedgerOp::Lock(id) => self.with_locked(id),
            LedgerOp::Issue => if self.can_issue() {
                self.issued()
            } else {
                self
            },
        }
    }

    /// The ledger after `ops`, applied in their order.
    pub open spec fn after_all(self, ops: Seq<LedgerOp>) -> LedgerView
        decreases ops.len(),
    {
        if ops.len() == 0 {
            self
        } else {
            self.after_all(ops.drop_last()).after(ops.last())
        }
    }
}

/// How far an output has come in its life.
pub open spec fn status_rank(status: OutputStatus) -> int {
    match status {
        OutputStatus::Unconfirmed => 0,
        OutputStatus::Unspent => 1,
        OutputStatus::Locked => 2,
        OutputStatus::Spent => 3,
    }
}

/// Locking moves no output back in its life: every output keeps its
/// place, its identifier and its value, and its status stays or advances
/// to locked.
pub proof fn lemma_lock_is_monotonic(l: LedgerView, id: Identifier)
    requires
        l.wf(),
    ensures
        l.with_locked(id).outputs.len() == l.outputs.len(),
        forall|i: int|
            0 <= i < l.outputs.len() ==> ({
                let before = l.outputs[i];
                let after = #[trigger] l.with_locked(id).outputs[i];
                &&& after.key_id == before.key_id
                &&& after.value == before.value
                &&& status_rank(after.status) >= status_rank(before.status)
                &&& after.status != OutputStatus::Unspent || before.status == OutputStatus::Unspent
            }),
{
}

/// Whatever happens to a well-formed ledger, it stays well formed and its
/// counter never falls.
pub proof fn lemma_counter_never_falls(l: LedgerView, ops: Seq<LedgerOp>)
    requires
        l.wf(),
    ensures
        l.after_all(ops).wf(),
        l.after_all(ops).next_index >= l.next_index,
    decreases ops.len(),
{
    if ops.len() > 0 {
        lemma_counter_never_falls(l, ops.drop_last());
        let before = l.after_all(ops.drop_last());
        match ops.last() {
            LedgerOp::Add(out) => {
                lemma_with_output_wf(before, out);
            },
            LedgerOp::Delete(id) => {
                lemma_without_wf(before, id);
            },
            LedgerOp::Lock(id) => {
                lemma_with_locked_wf(before, id);
            },
            LedgerOp::Issue => {},
        }
    }
}

/// Deleting an output twice is deleting it once.
pub proof fn lemma_delete_is_idempotent(l: LedgerView, id: Identifier)
    requires
        l.wf(),
    ensures
        !l.without(id).contains(id),
        l.without(id).without(id) == l.without(id),
        l.without(id).next_index == l.next_index,
{
    lemma_without_wf(l, id);
}

/// An index that was issued is never issued again, even if the output it
/// was issued for is deleted: after the index is issued, an output is
/// recorded under it and deleted again, and the ledger goes through any
/// further changes, the next index that the ledger issues lies above it.
pub proof fn lemma_index_is_not_reissued(
    l: LedgerView,
    out: Output,
    ops: Seq<LedgerOp>,
)
    requires
        l.wf(),
        l.can_issue(),
        out.key_id.index == l.next_index,
    ensures
        ({
            let rolled_back = l.issued().with_output(out).without(out.key_id);
            &&& !rolled_back.contains(out.key_id)
            &&& rolled_back.after_all(ops).wf()
            &&& rolled_back.after_all(ops).next_index > out.key_id.index
        }),
{
    let reserved = l.issued().with_output(out);
    lemma_with_output_wf(l.issued(), out);
    lemma_without_wf(reserved, out.key_id);
    lemma_counter_never_falls(reserved.without(out.key_id), ops);
}

} // verus!
