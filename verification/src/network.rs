//! What the library takes from the network crate: node ids and relay addresses. Nothing here is
//! proved: each function hands its arguments to that crate, and its contract says what is believed
//! of it.
use vstd::prelude::*;

verus! {

/// `iroh::KeyParsingError`, why bytes are no node id.
#[verifier::external_type_specification]
#[verifier::external_body]
pub struct ExKeyParsingError(iroh::KeyParsingError);

/// `iroh::RelayUrlParseError`, why a text is no relay address.
#[verifier::external_type_specification]
#[verifier::external_body]
pub struct ExRelayUrlParseError(iroh::RelayUrlParseError);

/// The bytes can be the id of a node.
pub uninterp spec fn iroh_is_endpoint_id(id: Seq<u8>) -> bool;

/// The relay address that a text stands for, in its normal form; nothing when it stands for none.
pub uninterp spec fn iroh_relay_url(text: Seq<char>) -> Option<Seq<char>>;

/// `iroh::EndpointId::from_bytes`: whether 32 bytes can be the id of a node.
#[verifier::external_body]
pub(crate) fn check_endpoint_id(id: &[u8; 32]) -> (r: Result<(), iroh::KeyParsingError>)
    ensures
        r is Ok <==> iroh_is_endpoint_id(id@),
{
    iroh::EndpointId::from_bytes(id).map(|_| ())
}

/// The `Display` text of an `iroh::KeyParsingError`. Nothing is said of its words.
#[verifier::external_body]
pub(crate) fn endpoint_id_error_text(e: &iroh::KeyParsingError) -> (r: String) {
    e.to_string()
}

/// The `FromStr` of `iroh::RelayUrl`: the relay address that a text stands for, in its normal
/// form.
#[verifier::external_body]
pub(crate) fn parse_relay_url(text: &str) -> (r: Result<String, iroh::RelayUrlParseError>)
    ensures
        match r {
            Ok(url) => iroh_relay_url(text@) == Some(url@),
            Err(_) => iroh_relay_url(text@) is None,
        },
{
    text.parse::<iroh::RelayUrl>().map(|url| url.as_str().to_owned())
}

/// The `Display` text of an `iroh::RelayUrlParseError`. Nothing is said of its words.
#[verifier::external_body]
pub(crate) fn relay_url_error_text(e: &iroh::RelayUrlParseError) -> (r: String) {
    e.to_string()
}

} // verus!
