//! A request on its way through a server, with the response that is being prepared.
use crate::address::Endpoint;
use crate::packet::add_option;
use crate::packet::add_u16_option;
use crate::packet::clear_option;
use crate::packet::packet_contents;
use crate::packet::set_code;
use crate::packet::set_payload;
use crate::packet::spells;
use crate::packet::to_bytes;
use crate::packet::wire_encoding;
use crate::packet::Message;
use crate::packet::MessageKind;
use crate::packet::CONTENT_FORMAT;
use crate::packet::ETAG;
use crate::packet::SIZE2;
use crate::table::copy_bytes;
use crate::uint::encode_coap_uint;
use crate::uint::uint_bytes;
use coap_lite::CoapResponse;
use coap_lite::Packet;
use vstd::prelude::*;

verus! {

/// Response code 2.05, Content.
pub const CONTENT: u8 = 0x45;

/// Content-Format number of `text/plain`.
pub const TEXT_PLAIN: u16 = 0;

/// A request, the response to it, and where it came from.
#[derive(Debug)]
pub struct Request {
    pub message: Packet,
    pub response: Option<Packet>,
    pub source: Option<Endpoint>,
}

/// What a [`Request`] holds.
#[verifier::ext_equal]
pub struct RequestState {
    pub message: Message,
    pub response: Option<Message>,
    pub source: Option<Endpoint>,
}

impl View for Request {
    type V = RequestState;

    open spec fn view(&self) -> RequestState {
        RequestState {
            message: packet_contents(self.message),
            response: match self.response {
                Some(packet) => Some(packet_contents(packet)),
                None => None,
            },
            source: self.source,
        }
    }
}

impl Message {
    /// The response that answers the message: an acknowledgement to a confirmable one, and a
    /// non-confirmable message to a non-confirmable one, with the message's ID and token. An
    /// acknowledgement or a reset is not answered.
    pub open spec fn answer(self) -> Option<Message> {
        let kind = (self.first / 16) % 4;
        let base = Message { id: self.id, ..Message::fresh() }.with_code(CONTENT);
        if kind == 0 {
            Some(base.with_kind(MessageKind::Acknowledgement).with_token(self.token))
        } else if kind == 1 {
            Some(base.with_kind(MessageKind::NonConfirmable).with_token(self.token))
        } else {
            None
        }
    }

    /// The message with the current state of a resource, and with no other entity tag or length.
    pub open spec fn with_resource(self, payload: Seq<u8>, etag: Seq<u8>) -> Message {
        self.with_payload(payload).without_values(ETAG).with_option(ETAG, etag).without_values(
            SIZE2,
        ).with_option(SIZE2, uint_bytes(payload.len()))
    }
}

/// Why block-wise handling failed: the response code that tells the peer, if it is to be told,
/// and the text that goes with it.
#[derive(Debug)]
pub struct BlockFailure {
    pub code: Option<u8>,
    pub text: Vec<u8>,
}

impl RequestState {
    /// A request that just came in.
    pub open spec fn arrived(message: Message, source: Endpoint) -> RequestState {
        RequestState { message, response: message.answer(), source: Some(source) }
    }

    /// With the response turned into a report of a failure, where the peer is to be told of it.
    pub open spec fn failed(self, code: Option<u8>, text: Seq<u8>) -> RequestState {
        match (self.response, code) {
            (Some(response), Some(code)) => RequestState {
                response: Some(
                    response.with_code(code).with_option(
                        CONTENT_FORMAT,
                        uint_bytes(TEXT_PLAIN as nat),
                    ).with_payload(text),
                ),
                ..self
            },
            _ => self,
        }
    }
}

/// `CoapResponse::new`: the response that answers a packet, if it is answered at all.
#[verifier::external_body]
pub(crate) fn new_response(request: &Packet) -> (response: Option<Packet>)
    ensures
        response is Some == packet_contents(*request).answer() is Some,
        response matches Some(packet) ==> packet_contents(*request).answer() == Some(
            packet_contents(packet),
        ),
{
    CoapResponse::new(request).map(|response| response.message)
}

impl Request {
    /// A request that came in from `source`.
    pub fn from_packet(message: Packet, source: Endpoint) -> (request: Request)
        ensures
            request@ == RequestState::arrived(packet_contents(message), source),
    {
        let response = new_response(&message);
        Request { message, response, source: Some(source) }
    }

    /// Puts the state of a resource into the response.
    pub fn set_resource(&mut self, payload: &[u8], etag: Vec<u8>)
        ensures
            final(self)@ == (RequestState {
                response: match old(self)@.response {
                    Some(response) => Some(response.with_resource(payload@, etag@)),
                    None => None,
                },
                ..old(self)@
            }),
    {
        if let Some(response) = self.response.take() {
            let mut response = response;
            set_payload(&mut response, copy_bytes(payload));
            clear_option(&mut response, ETAG);
            add_option(&mut response, ETAG, etag);
            clear_option(&mut response, SIZE2);
            add_option(&mut response, SIZE2, encode_coap_uint(payload.len()));
            self.response = Some(response);
        }
    }

    /// Turns the response into a report of a failure. Says whether there is something to report.
    pub fn apply_failure(&mut self, failure: BlockFailure) -> (reported: bool)
        ensures
            final(self)@ == old(self)@.failed(failure.code, failure.text@),
            reported == (old(self)@.response is Some && failure.code is Some),
    {
        match failure.code {
            None => false,
            Some(code) => match self.response.take() {
                None => false,
                Some(response) => {
                    let mut response = response;
                    set_code(&mut response, code);
                    add_u16_option(&mut response, CONTENT_FORMAT, TEXT_PLAIN);
                    set_payload(&mut response, failure.text);
                    self.response = Some(response);
                    true
                },
            },
        }
    }

    /// The bytes of the response, if there is one that can be encoded.
    pub fn response_bytes(&self) -> (bytes: Option<Vec<u8>>)
        ensures
            match self@.response {
                Some(response) => match wire_encoding(response) {
                    Some(stated) => {
                        &&& bytes matches Some(b) && b@ == stated
                        &&& spells(stated, response)
                    },
                    None => bytes is None,
                },
                None => bytes is None,
            },
    {
        match &self.response {
            Some(response) => match to_bytes(response) {
                Ok(bytes) => Some(bytes),
                Err(_) => None,
            },
            None => None,
        }
    }
}

} // verus!
