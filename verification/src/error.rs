use vstd::prelude::*;
use vstd::string::StringExecFns;

use crate::numeral::dec_nat;
use crate::numeral::u64_to_dec;

verus! {

/// Why a gateway operation failed.
#[derive(Debug, PartialEq, Eq)]
pub enum GatewayError {
    /// The request never completed: DNS failure, refused connection, timeout.
    Transport { message: String },
    /// The service answered with a non-2xx status; `reason` is the standard
    /// phrase assigned to that status, where one exists.
    Remote { status: u16, reason: Option<String> },
    /// A 2xx list response whose body is not a JSON array of items.
    Decode { message: String },
}

/// The single human-readable line that an error crosses the GUI boundary as.
pub open spec fn error_message_spec(e: GatewayError) -> Seq<char> {
    match e {
        GatewayError::Transport { message } => message@,
        GatewayError::Decode { message } => message@,
        GatewayError::Remote { status, reason } => "HTTP "@ + dec_nat(status as nat) + ": "@
            + (match reason {
            Some(p) => p@,
            None => "Unknown error"@,
        }),
    }
}

impl GatewayError {
    /// Flatten the error to the one string handed to the GUI layer.
    pub fn message(&self) -> (r: String)
        ensures
            r@ == error_message_spec(*self),
    {
        match self {
            GatewayError::Transport { message } => message.clone(),
            GatewayError::Decode { message } => message.clone(),
            GatewayError::Remote { status, reason } => {
                let mut s = String::from_str("HTTP ");
                let digits = u64_to_dec(*status as u64);
                s.append(digits.as_str());
                s.append(": ");
                match reason {
                    Some(p) => s.append(p.as_str()),
                    None => s.append("Unknown error"),
                }
                proof {
                    assert(s@ =~= error_message_spec(*self));
                }
                s
            },
        }
    }
}

/// `needle` occurs in `hay` as one contiguous run.
pub open spec fn contains_seq(hay: Seq<char>, needle: Seq<char>) -> bool {
    exists|k: int|
        0 <= k && k + needle.len() <= hay.len() && #[trigger] hay.subrange(k, k + needle.len())
            == needle
}

/// Every remote-status error shows the numeric code: its rendered message
/// contains the status's decimal digits, whatever the reason phrase. Together
/// with the response interpreters' contracts — any status outside the 2xx
/// range yields exactly such an error — every status of 300 or more produces
/// an error message containing that status's digits.
pub proof fn lemma_remote_message_contains_status(status: u16, reason: Option<String>)
    ensures
        contains_seq(
            error_message_spec(GatewayError::Remote { status, reason }),
            dec_nat(status as nat),
        ),
{
    reveal_strlit("HTTP ");
    let msg = error_message_spec(GatewayError::Remote { status, reason });
    let d = dec_nat(status as nat);
    assert(msg.subrange(5, 5 + d.len() as int) =~= d);
    assert(0 <= 5 && 5 + d.len() <= msg.len() && msg.subrange(5, 5 + d.len() as int) == d);
}

} // verus!
