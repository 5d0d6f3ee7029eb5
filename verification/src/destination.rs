//! Where a partial transaction is sent.

use vstd::prelude::*;
use vstd::string::*;
use crate::error::Error;

verus! {

/// Where a partial transaction goes.
#[derive(Clone, Debug, PartialEq, Eq)]
pub enum Destination {
    /// It is written to standard output.
    Stdout,
    /// It is posted to the wallet that listens at this base URL.
    HttpReceiver(String),
}

/// Whether `dest` is the word that asks for standard output.
pub open spec fn names_stdout(dest: Seq<char>) -> bool {
    dest == "stdout"@
}

/// Whether `dest` starts with the four characters of an HTTP scheme.
pub open spec fn names_http(dest: Seq<char>) -> bool {
    dest.len() >= 4 && dest.take(4) == "http"@
}

/// Whether `dest` names a destination that is supported.
pub open spec fn supported(dest: Seq<char>) -> bool {
    names_stdout(dest) || names_http(dest)
}

impl Destination {
    /// Whether this is the destination that `dest` names.
    pub open spec fn named_by(&self, dest: Seq<char>) -> bool {
        match self {
            Destination::Stdout => names_stdout(dest),
            Destination::HttpReceiver(base) => !names_stdout(dest) && names_http(dest) && base@
                == dest,
        }
    }

    /// Reads a destination: the word `stdout`, or a base URL that starts
    /// with `http`. Anything else is a usage error.
    pub fn parse(dest: &str) -> (parsed: Result<Destination, Error>)
        ensures
            parsed is Ok <==> supported(dest@),
            parsed matches Ok(d) ==> d.named_by(dest@),
            parsed matches Err(e) ==> e == Error::Usage,
    {
        proof {
            reveal_strlit("stdout");
            reveal_strlit("http");
        }
        let n = dest.unicode_len();
        if n == 6 && dest.get_char(0) == 's' && dest.get_char(1) == 't' && dest.get_char(2) == 'd'
            && dest.get_char(3) == 'o' && dest.get_char(4) == 'u' && dest.get_char(5) == 't' {
            assert(dest@ =~= "stdout"@);
            Ok(Destination::Stdout)
        } else if n >= 4 && dest.get_char(0) == 'h' && dest.get_char(1) == 't' && dest.get_char(2)
            == 't' && dest.get_char(3) == 'p' {
            assert(dest@.take(4) =~= "http"@);
            Ok(Destination::HttpReceiver(dest.to_owned()))
        } else {
            proof {
                if names_http(dest@) {
                    assert(dest@.take(4)[0] == 'h');
                    assert(dest@.take(4)[1] == 't');
                    assert(dest@.take(4)[2] == 't');
                    assert(dest@.take(4)[3] == 'p');
                }
            }
            Err(Error::Usage)
        }
    }

    /// The URL that receives a partial transaction: the base URL followed
    /// by `/v1/receive/transaction`. `None` for standard output.
    pub fn receive_url(&self) -> (url: Option<String>)
        ensures
            (match self {
                Destination::Stdout => url is None,
                Destination::HttpReceiver(base) => url matches Some(u) && u@ == base@
                    + "/v1/receive/transaction"@,
            }),
    {
        match self {
            Destination::Stdout => None,
            Destination::HttpReceiver(base) => Some(base.clone().concat("/v1/receive/transaction")),
        }
    }
}

/// The URL that takes a transaction into the pool of the node at
/// `node_base`: the base URL followed by `/v1/pool/push`.
pub fn push_url(node_base: &str) -> (url: String)
    ensures
        url@ == node_base@ + "/v1/pool/push"@,
{
    node_base.to_owned().concat("/v1/pool/push")
}

} // verus!
