//! What one client connection does: the plan made from the request the
//! client sent, and the relay of the upstream reply back to the client.
//! The I/O itself is performed by the caller, which hands each outcome
//! to `Relay::step` and carries out the action it returns.
use vstd::prelude::*;
use vstd::slice::slice_to_vec;
use vstd::utf8::{valid_utf8, decode_utf8, encode_utf8, encode_utf8_decode_utf8};
use crate::request::{destination_of, is_image_request, parse_domain, asks_for_image};
use crate::substitute::{substituted, happy_silly_sub};

verus! {

/// Why a connection ends without a complete relay.
#[derive(Debug, Clone, Copy, PartialEq, Eq, Structural)]
pub enum ConnectionError {
    /// The client sent nothing, or a request that does not start with `GET`.
    EmptyOrNotGet,
    /// The request bytes are not UTF-8 text.
    NotText,
    /// No destination host could be found in the request line.
    NoDestination,
    /// The client accepted no bytes of a response chunk.
    ClientClosed,
}

/// Where to connect, what to send there, and whether to rewrite the reply.
#[derive(Debug, Clone)]
pub struct Plan {
    /// The host to connect to on port 80.
    pub host: String,
    /// The bytes to send upstream.
    pub request: Vec<u8>,
    /// Whether reply chunks get the word substitution.
    pub transform: bool,
}

/// The port every upstream connection is made to.
pub const UPSTREAM_PORT: u16 = 80;

/// Whether the bytes start with `GET`.
pub open spec fn starts_with_get(b: Seq<u8>) -> bool {
    b.len() >= 3 && b[0] == 71 && b[1] == 69 && b[2] == 84
}

/// The host that image requests are sent to instead.
pub open spec fn alternate_host() -> Seq<char> {
    "pages.cpsc.ucalgary.ca"@
}

/// The request sent in place of an image request; the coin picks one of the
/// two pictures.
pub open spec fn alternate_request(coin: bool) -> Seq<char> {
    if coin {
        "GET http://pages.cpsc.ucalgary.ca/~carey/CPSC441/ass1/clown2.png HTTP/1.0\r\n\r\n"@
    } else {
        "GET http://pages.cpsc.ucalgary.ca/~carey/CPSC441/ass1/clown1.png HTTP/1.0\r\n\r\n"@
    }
}

/// The plan for the bytes a client sent, as host, upstream bytes and whether
/// to transform, or the error that ends the connection.
pub open spec fn planned(b: Seq<u8>, coin: bool) -> Result<
    (Seq<char>, Seq<u8>, bool),
    ConnectionError,
> {
    if !starts_with_get(b) {
        Err(ConnectionError::EmptyOrNotGet)
    } else if !valid_utf8(b) {
        Err(ConnectionError::NotText)
    } else {
        let text = decode_utf8(b);
        match destination_of(text) {
            None => Err(ConnectionError::NoDestination),
            Some(host) => if is_image_request(text) {
                Ok((alternate_host(), encode_utf8(alternate_request(coin)), false))
            } else {
                Ok((host, b, true))
            },
        }
    }
}

/// A plan result seen as plain values.
pub open spec fn plan_view(r: Result<Plan, ConnectionError>) -> Result<
    (Seq<char>, Seq<u8>, bool),
    ConnectionError,
> {
    match r {
        Ok(p) => Ok((p.host@, p.request@, p.transform)),
        Err(e) => Err(e),
    }
}

/// Relies on `std::str::from_utf8`: it succeeds exactly on valid UTF-8, and
/// the text it gives encodes to the same bytes.
#[verifier::external_body]
fn decode_text(b: &[u8]) -> (r: Option<&str>)
    ensures
        r is Some <==> valid_utf8(b@),
        r matches Some(t) ==> encode_utf8(t@) == b@,
{
    std::str::from_utf8(b).ok()
}

/// Relies on `fastrand::bool`: an unbiased random choice; nothing is known
/// of the value.
pub assume_specification[ fastrand::bool ]() -> bool;

/// Decides, for the bytes a client sent and a coin, where to connect and
/// what to send. A request that does not start with `GET`, is not text, or
/// names no destination host ends the connection. A request for a `.jpg`
/// resource is replaced by a request for one of two fixed pictures (picked
/// by the coin) on a fixed host, and its reply is not transformed. Any other
/// request is sent on unchanged to its own host, and its reply transformed.
pub fn plan_request(received: &[u8], coin: bool) -> (r: Result<Plan, ConnectionError>)
    ensures
        plan_view(r) == planned(received@, coin),
        r is Ok <==> (starts_with_get(received@) && valid_utf8(received@) && destination_of(
            decode_utf8(received@),
        ) is Some),
{
    if received.len() < 3 || received[0] != 71 || received[1] != 69 || received[2] != 84 {
        return Err(ConnectionError::EmptyOrNotGet);
    }
    let text = match decode_text(received) {
        None => {
            return Err(ConnectionError::NotText);
        },
        Some(t) => t,
    };
    proof {
        encode_utf8_decode_utf8(text@);
    }
    let host = match parse_domain(text) {
        None => {
            return Err(ConnectionError::NoDestination);
        },
        Some(h) => h,
    };
    if asks_for_image(text) {
        let line = if coin {
            "GET http://pages.cpsc.ucalgary.ca/~carey/CPSC441/ass1/clown2.png HTTP/1.0\r\n\r\n"
        } else {
            "GET http://pages.cpsc.ucalgary.ca/~carey/CPSC441/ass1/clown1.png HTTP/1.0\r\n\r\n"
        };
        let alt = "pages.cpsc.ucalgary.ca";
        Ok(Plan { host: alt.to_owned(), request: slice_to_vec(line.as_bytes()), transform: false })
    } else {
        Ok(Plan { host: host.to_owned(), request: slice_to_vec(received), transform: true })
    }
}

/// Makes the plan for the bytes a client sent, flipping the coin that picks
/// the replacement picture. The result is the plan for one of the two coin
/// values.
pub fn plan_connection(received: &[u8]) -> (r: Result<Plan, ConnectionError>)
    ensures
        plan_view(r) == planned(received@, true) || plan_view(r) == planned(received@, false),
        r is Ok <==> (starts_with_get(received@) && valid_utf8(received@) && destination_of(
            decode_utf8(received@),
        ) is Some),
{
    let coin = fastrand::bool();
    plan_request(received, coin)
}

/// What happened since the relay's last action.
#[derive(Debug, Clone)]
pub enum RelayEvent {
    /// A read from upstream gave these bytes; none at all means it closed.
    Received(Vec<u8>),
    /// A read from upstream failed.
    ReadFailed,
    /// A write to the client accepted this many bytes.
    Delivered(usize),
}

/// What the caller is to do next.
#[derive(Debug, Clone)]
pub enum RelayAction {
    /// Write these bytes to the client.
    Send(Vec<u8>),
    /// Read the next chunk from upstream.
    ReadMore,
    /// The relay is over; close both connections.
    Finish,
    /// The relay failed; close both connections and report the error.
    Fail(ConnectionError),
}

/// The relay of one upstream reply to one client.
#[derive(Debug, Clone, Copy)]
pub struct Relay {
    /// Whether chunks get the word substitution.
    pub transform: bool,
    /// Whether the relay is over.
    pub done: bool,
}

impl Relay {
    /// A relay that has not started; its first action is to read upstream.
    pub fn new(transform: bool) -> (r: Relay)
        ensures
            r.transform == transform,
            !r.done,
    {
        Relay { transform, done: false }
    }

    /// Takes the next event and returns the action to carry out. Upstream
    /// bytes are sent on, transformed when the relay transforms; an empty
    /// read or a failed read ends the relay normally; a write that the client
    /// accepted nothing of ends it with `ClientClosed`; any other write asks
    /// for the next read. Once over, the relay stays over.
    pub fn step(&mut self, event: RelayEvent) -> (a: RelayAction)
        ensures
            final(self).transform == old(self).transform,
            old(self).done ==> a is Finish && final(self).done,
            !old(self).done ==> match event {
                RelayEvent::Received(c) => if c@.len() == 0 {
                    a is Finish && final(self).done
                } else {
                    &&& !final(self).done
                    &&& a matches RelayAction::Send(out)
                    &&& out@ == if old(self).transform {
                        substituted(c@)
                    } else {
                        c@
                    }
                },
                RelayEvent::ReadFailed => a is Finish && final(self).done,
                RelayEvent::Delivered(n) => if n == 0 {
                    a == RelayAction::Fail(ConnectionError::ClientClosed) && final(self).done
                } else {
                    a is ReadMore && !final(self).done
                },
            },
    {
        if self.done {
            return RelayAction::Finish;
        }
        match event {
            RelayEvent::Received(mut chunk) => {
                if chunk.len() == 0 {
                    self.done = true;
                    RelayAction::Finish
                } else {
                    if self.transform {
                        happy_silly_sub(chunk.as_mut_slice());
                    }
                    RelayAction::Send(chunk)
                }
            },
            RelayEvent::ReadFailed => {
                self.done = true;
                RelayAction::Finish
            },
            RelayEvent::Delivered(n) => {
                if n == 0 {
                    self.done = true;
                    RelayAction::Fail(ConnectionError::ClientClosed)
                } else {
                    RelayAction::ReadMore
                }
            },
        }
    }
}

} // verus!
