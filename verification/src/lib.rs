//! Sender side of a confidential-transaction wallet.
//!
//! Given an amount to pay, the wallet selects outputs it owns, derives the
//! change, and builds its side of a transaction for the recipient to
//! complete. It records the change before anything is handed out, locks the
//! spent outputs once the payment is delivered, and takes the change back
//! if the delivery fails.
//!
//! - [`fee`]: the fee of a transaction, from its numbers of inputs and
//!   outputs.
//! - [`keys`]: identifiers of the keys that outputs are committed to.
//! - [`ledger`]: the outputs the wallet owns, and the counter that issues
//!   derivation indices.
//! - [`selection`]: which outputs pay for an amount.
//! - [`change`]: reserving and releasing the change output.
//! - [`blinding`]: blinding factors, as signed combinations of keys.
//! - [`builder`]: transactions, built from their parts.
//! - [`destination`]: where a partial transaction goes.
//! - [`hex`]: bytes as hexadecimal text, as they travel.
//! - [`sender`]: a send or a burn from end to end.
//!
//! The library keeps no secret and does no input or output. Keys appear by
//! their identifiers only; the keychain that holds the secrets turns
//! commitments and blinding factors into group elements and scalars.
//! Reading and writing the ledger, asking the node for the height of the
//! chain, and delivering a transaction are the caller's part.

pub mod blinding;
pub mod builder;
pub mod change;
pub mod destination;
pub mod error;
pub mod fee;
pub mod hex;
pub mod keys;
pub mod ledger;
pub mod selection;
pub mod sender;
