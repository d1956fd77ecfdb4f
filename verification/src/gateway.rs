use vstd::prelude::*;
use vstd::string::StringExecFns;

use crate::error::GatewayError;
use crate::item::WaygateItem;
use crate::item::items_view;
use crate::json::decode_items;
use crate::json::decode_spec;
use crate::status::canonical_reason_of;
use crate::status::is_success_spec;
use crate::status::is_success_status;
use crate::status::reason_phrase;

verus! {

/// The fixed text of a list-decode failure.
pub open spec fn decode_failure_text() -> Seq<char> {
    "response body is not a JSON array of items"@
}

/// The view of an optional reason string.
pub open spec fn opt_reason_view(o: Option<String>) -> Option<Seq<char>> {
    match o {
        Some(p) => Some(p@),
        None => None,
    }
}

/// Interpret the status and body of a response to GET `{base_url}/items`.
///
/// A status outside the 2xx range becomes a remote error carrying that status
/// and its standard reason phrase. A 2xx response yields exactly the decoded
/// items, in order and with their field values, or a decode error when the
/// body does not conform — never a partial result.
pub fn interpret_list_response(status: u16, body: &str) -> (r: Result<
    Vec<WaygateItem>,
    GatewayError,
>)
    ensures
        !is_success_spec(status) ==> (r matches Err(e) && e matches GatewayError::Remote {
            status: st,
            reason,
        } && st == status && opt_reason_view(reason) == reason_phrase(status)),
        is_success_spec(status) ==> (match decode_spec(body@) {
            Some(views) => r matches Ok(v) && items_view(v@) == views,
            None => r matches Err(e) && e matches GatewayError::Decode { message } && message@
                == decode_failure_text(),
        }),
{
    if !is_success_status(status) {
        let reason = canonical_reason_of(status);
        return Err(GatewayError::Remote { status, reason });
    }
    match decode_items(body) {
        Some(v) => Ok(v),
        None => Err(
            GatewayError::Decode {
                message: String::from_str("response body is not a JSON array of items"),
            },
        ),
    }
}

/// Interpret the status of a response to DELETE `{base_url}/items/{id}`.
///
/// A 2xx status is success, with no payload; any other status is a remote
/// error carrying that status and its standard reason phrase.
pub fn interpret_delete_response(status: u16) -> (r: Result<(), GatewayError>)
    ensures
        is_success_spec(status) <==> r is Ok,
        !is_success_spec(status) ==> (r matches Err(e) && e matches GatewayError::Remote {
            status: st,
            reason,
        } && st == status && opt_reason_view(reason) == reason_phrase(status)),
{
    if !is_success_status(status) {
        let reason = canonical_reason_of(status);
        return Err(GatewayError::Remote { status, reason });
    }
    Ok(())
}

} // verus!
