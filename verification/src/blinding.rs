//! Blinding factors, kept as signed combinations of derived keys.

use vstd::prelude::*;
use crate::keys::Identifier;

verus! {

/// A blinding factor as a signed combination of keys: the sum of the keys
/// named in `positive` less the sum of the keys named in `negative`.
pub struct BlindSum {
    pub positive: Seq<Identifier>,
    pub negative: Seq<Identifier>,
}

/// Sum of the secret scalars of `keys`, where `secret` gives the scalar of
/// each key.
pub open spec fn key_sum(keys: Seq<Identifier>, secret: spec_fn(Identifier) -> int) -> int
    decreases keys.len(),
{
    if keys.len() == 0 {
        0
    } else {
        key_sum(keys.drop_last(), secret) + secret(keys.last())
    }
}

impl BlindSum {
    /// The additive identity: no key on either side.
    pub open spec fn zero() -> BlindSum {
        BlindSum { positive: Seq::empty(), negative: Seq::empty() }
    }

    /// The sum of two blinding factors.
    pub open spec fn plus(self, other: BlindSum) -> BlindSum {
        BlindSum {
            positive: self.positive + other.positive,
            negative: self.negative + other.negative,
        }
    }

    /// The blinding factor that cancels this one.
    pub open spec fn negated(self) -> BlindSum {
        BlindSum { positive: self.negative, negative: self.positive }
    }

    /// The scalar that the combination stands for under the given secret
    /// keys, before it is reduced by the order of the group.
    pub open spec fn scalar(self, secret: spec_fn(Identifier) -> int) -> int {
        key_sum(self.positive, secret) - key_sum(self.negative, secret)
    }

    /// Whether the combination is the identity whatever the secret keys
    /// are.
    pub open spec fn is_identity(self) -> bool {
        forall|secret: spec_fn(Identifier) -> int| #[trigger] self.scalar(secret) == 0
    }
}

/// The scalars of two sequences of keys joined add up.
pub proof fn lemma_key_sum_concat(
    a: Seq<Identifier>,
    b: Seq<Identifier>,
    secret: spec_fn(Identifier) -> int,
)
    ensures
        key_sum(a + b, secret) == key_sum(a, secret) + key_sum(b, secret),
    decreases b.len(),
{
    if b.len() == 0 {
        assert(a + b =~= a);
    } else {
        assert((a + b).drop_last() =~= a + b.drop_last());
        lemma_key_sum_concat(a, b.drop_last(), secret);
    }
}

/// Blinding factors compose by addition: the scalar of a sum is the sum of
/// the scalars, and the scalar of a negation is the negated scalar.
pub proof fn lemma_scalar_is_additive(a: BlindSum, b: BlindSum, secret: spec_fn(Identifier) -> int)
    ensures
        a.plus(b).scalar(secret) == a.scalar(secret) + b.scalar(secret),
        a.negated().scalar(secret) == -a.scalar(secret),
        BlindSum::zero().scalar(secret) == 0,
{
    lemma_key_sum_concat(a.positive, b.positive, secret);
    lemma_key_sum_concat(a.negative, b.negative, secret);
}

/// A blinding factor and its negation sum to the identity.
pub proof fn lemma_negation_cancels(a: BlindSum)
    ensures
        a.plus(a.negated()).is_identity(),
{
    assert forall|secret: spec_fn(Identifier) -> int| #[trigger]
        a.plus(a.negated()).scalar(secret) == 0 by {
        lemma_scalar_is_additive(a, a.negated(), secret);
    }
}

/// The aggregate blinding factor of one party to a transaction. It names
/// the keys it is made of; the keychain that holds the secret keys turns
/// it into a scalar.
#[derive(Clone, Debug, PartialEq, Eq)]
pub struct BlindingFactor {
    /// Keys of the outputs that the party adds.
    pub positive: Vec<Identifier>,
    /// Keys of the inputs that the party spends.
    pub negative: Vec<Identifier>,
}

impl View for BlindingFactor {
    type V = BlindSum;

    open spec fn view(&self) -> BlindSum {
        BlindSum { positive: self.positive@, negative: self.negative@ }
    }
}

/// A copy of `keys` with `more` appended.
fn joined(keys: &Vec<Identifier>, more: &Vec<Identifier>) -> (all: Vec<Identifier>)
    ensures
        all@ == keys@ + more@,
{
    let mut all: Vec<Identifier> = Vec::new();
    let mut i: usize = 0;
    while i < keys.len()
        invariant
            i <= keys.len(),
            all@ == keys@.take(i as int),
        decreases keys.len() - i,
    {
        all.push(keys[i]);
        i += 1;
        proof {
            assert(keys@.take(i as int) =~= keys@.take(i - 1).push(keys@[i - 1]));
        }
    }
    let mut j: usize = 0;
    proof {
        assert(keys@.take(keys.len() as int) =~= keys@);
        assert(all@ =~= keys@ + more@.take(0));
    }
    while j < more.len()
        invariant
            j <= more.len(),
            all@ == keys@ + more@.take(j as int),
        decreases more.len() - j,
    {
        all.push(more[j]);
        j += 1;
        proof {
            assert(keys@ + more@.take(j as int) =~= (keys@ + more@.take(j - 1)).push(more@[j - 1]));
        }
    }
    proof {
        assert(more@.take(more.len() as int) =~= more@);
    }
    all
}

impl BlindingFactor {
    /// The identity.
    pub fn zero() -> (zero: BlindingFactor)
        ensures
            zero@ == BlindSum::zero(),
    {
        BlindingFactor { positive: Vec::new(), negative: Vec::new() }
    }

    /// The sum of this blinding factor and `other`.
    pub fn plus(&self, other: &BlindingFactor) -> (sum: BlindingFactor)
        ensures
            sum@ == self@.plus(other@),
    {
        BlindingFactor {
            positive: joined(&self.positive, &other.positive),
            negative: joined(&self.negative, &other.negative),
        }
    }

    /// The blinding factor that cancels this one.
    pub fn negated(&self) -> (negation: BlindingFactor)
        ensures
            negation@ == self@.negated(),
    {
        let none: Vec<Identifier> = Vec::new();
        let positive = joined(&self.negative, &none);
        let negative = joined(&self.positive, &none);
        proof {
            assert(self.negative@ + none@ =~= self.negative@);
            assert(self.positive@ + none@ =~= self.positive@);
        }
        BlindingFactor { positive, negative }
    }
}

} // verus!
