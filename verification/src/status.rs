use vstd::prelude::*;

verus! {

/// A status code counts as success exactly when it lies in the 2xx range.
pub open spec fn is_success_spec(status: u16) -> bool {
    200 <= status < 300
}

/// Classify a response status code, as the remote service's clients must:
/// only a 2xx status carries a usable response.
pub fn is_success_status(status: u16) -> (r: bool)
    ensures
        r == is_success_spec(status),
{
    200 <= status && status < 300
}

/// The standard reason phrase assigned to a status code, as the HTTP client
/// library's fixed table gives it; codes without an assigned phrase have none.
pub uninterp spec fn reason_phrase(status: u16) -> Option<Seq<char>>;

/// Relies on reqwest::StatusCode::from_u16 and reqwest::StatusCode::canonical_reason:
/// the canonical reason phrase is a fixed table keyed by the numeric code alone,
/// and codes outside 100..=999 form no status value and so have no phrase.
#[verifier::external_body]
pub(crate) fn canonical_reason_of(status: u16) -> (r: Option<String>)
    ensures
        match r {
            Some(p) => reason_phrase(status) == Some(p@),
            None => reason_phrase(status) is None,
        },
{
    match reqwest::StatusCode::from_u16(status) {
        Ok(code) => code.canonical_reason().map(|p| p.to_string()),
        Err(_) => None,
    }
}

} // verus!
