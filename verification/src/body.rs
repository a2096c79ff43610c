//! Shipments as the text bodies of the relay requests: base64 of their wire form, standard
//! alphabet, written without padding and read with or without it.
use crate::shipment::{
    lemma_shipment_parse_wf, lemma_shipment_roundtrip, parse_shipment, shipment_wf, shipment_wire,
    Shipment, ShipmentView,
};
use crate::wire::WireError;
use base64::Engine;
use vstd::prelude::*;

verus! {

/// Why a request or response body could not be read as a shipment.
#[derive(Debug, Clone, Copy, PartialEq, Eq, Structural)]
pub enum BodyError {
    /// The body is not base64.
    InvalidBase64,
    /// The decoded bytes are not a shipment.
    InvalidShipment(WireError),
}

/// The base64 text of `bytes` as the relay writes it.
pub uninterp spec fn b64_encoded(bytes: Seq<u8>) -> Seq<char>;

/// The bytes of base64 text as the relay reads it, if it is base64.
pub uninterp spec fn b64_decoded(text: Seq<char>) -> Option<Seq<u8>>;

/// `Engine::encode` of the relay's base64 engine (standard alphabet, no padding written). The
/// text is named, not stated; decoding it gives the bytes back.
#[verifier::external_body]
fn b64_encode(bytes: &[u8]) -> (r: String)
    ensures
        r@ == b64_encoded(bytes@),
        b64_decoded(r@) == Some(bytes@),
{
    let engine = base64::engine::GeneralPurpose::new(
        &base64::alphabet::STANDARD,
        base64::engine::GeneralPurposeConfig::new().with_encode_padding(false).with_decode_padding_mode(
            base64::engine::DecodePaddingMode::Indifferent,
        ),
    );
    engine.encode(bytes)
}

/// `Engine::decode` of the relay's base64 engine (standard alphabet, padding optional): the
/// bytes, `None` when the text is not base64. What it accepts is named, not stated.
#[verifier::external_body]
fn b64_decode(text: &str) -> (r: Option<Vec<u8>>)
    ensures
        match b64_decoded(text@) {
            Some(b) => r matches Some(v) && v@ == b,
            None => r is None,
        },
{
    let engine = base64::engine::GeneralPurpose::new(
        &base64::alphabet::STANDARD,
        base64::engine::GeneralPurposeConfig::new().with_encode_padding(false).with_decode_padding_mode(
            base64::engine::DecodePaddingMode::Indifferent,
        ),
    );
    match engine.decode(text) {
        Ok(v) => Some(v),
        Err(_) => None,
    }
}

/// What reading a body as a shipment gives.
pub open spec fn spec_decode_body(text: Seq<char>) -> Result<ShipmentView, BodyError> {
    match b64_decoded(text) {
        None => Err(BodyError::InvalidBase64),
        Some(b) => match parse_shipment(b) {
            Ok((v, _)) => Ok(v),
            Err(e) => Err(BodyError::InvalidShipment(e)),
        },
    }
}

/// The body that carries a shipment.
pub fn encode_shipment(s: &Shipment) -> (r: String)
    ensures
        r@ == b64_encoded(shipment_wire(s@)),
        b64_decoded(r@) == Some(shipment_wire(s@)),
{
    let bytes = s.to_bytes();
    b64_encode(bytes.as_slice())
}

/// The body that carries the given wire bytes.
pub fn encode_bytes(bytes: &[u8]) -> (r: String)
    ensures
        r@ == b64_encoded(bytes@),
        b64_decoded(r@) == Some(bytes@),
{
    b64_encode(bytes)
}

/// Reads a body as a shipment.
pub fn decode_shipment(text: &str) -> (r: Result<Shipment, BodyError>)
    ensures
        match spec_decode_body(text@) {
            Ok(v) => r matches Ok(s) && s@ == v,
            Err(e) => r == Err::<Shipment, BodyError>(e),
        },
{
    let bytes = match b64_decode(text) {
        None => return Err(BodyError::InvalidBase64),
        Some(b) => b,
    };
    match Shipment::read(bytes.as_slice()) {
        Ok(s) => Ok(s),
        Err(e) => Err(BodyError::InvalidShipment(e)),
    }
}

/// What goes through the tunnel comes out unchanged: a body whose base64 content is the wire
/// form of a shipment reads back as that shipment.
pub proof fn lemma_tunnel_roundtrip(s: ShipmentView, text: Seq<char>)
    requires
        shipment_wf(s),
        b64_decoded(text) == Some(shipment_wire(s)),
    ensures
        spec_decode_body(text) == Ok::<ShipmentView, BodyError>(s),
{
    lemma_shipment_roundtrip(s, Seq::empty());
    assert(shipment_wire(s) + Seq::<u8>::empty() =~= shipment_wire(s));
}

/// Whatever reads as a shipment can be sent again unchanged: it is well-formed.
pub proof fn lemma_decoded_wf(text: Seq<char>)
    ensures
        spec_decode_body(text) matches Ok(v) ==> shipment_wf(v),
{
    if let Some(b) = b64_decoded(text) {
        lemma_shipment_parse_wf(b);
    }
}

} // verus!
