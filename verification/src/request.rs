//! Requests and responses, bound together by a correlation identifier that
//! travels as a reserved member of the flat wire object.

use crate::ident::digit;
use crate::ident::digit_index;
use crate::ident::hex_char;
use crate::ident::id_text;
use crate::ident::is_random;
use crate::ident::settled;
use crate::ident::uuid_parse;
use crate::ident::RequestId;
use crate::wire::blank;
use crate::wire::flat;
use crate::wire::is_flat;
use crate::wire::is_object;
use crate::wire::lemma_split_tagged;
use crate::wire::plain;
use crate::wire::split;
use crate::wire::split_text;
use crate::wire::tag;
use crate::wire::tagged;
use crate::wire::trimmed;
use crate::wire::WireError;
use std::time::Duration;
use vstd::prelude::*;
use vstd::string::StringExecFns;

verus! {

/// The duration that `std::time::Duration::from_secs` makes of a number of
/// seconds.
pub uninterp spec fn secs_duration(secs: u64) -> Duration;

/// A duration of whole seconds.
///
/// Calls `std::time::Duration::from_secs`, which depends on the number alone.
#[verifier::external_body]
fn seconds(secs: u64) -> (duration: Duration)
    ensures
        duration == secs_duration(secs),
{
    Duration::from_secs(secs)
}

/// Whether `serde_json::from_str` reads a text as a JSON document.
pub uninterp spec fn json_valid(text: Seq<char>) -> bool;

/// Whether a text is a JSON document.
///
/// Calls `serde_json::from_str` for a `serde_json::Value`, which depends on
/// the text alone; only whether it succeeded is kept.
#[verifier::external_body]
fn is_json(text: &str) -> (valid: bool)
    ensures
        valid == json_valid(text@),
{
    match serde_json::from_str::<serde_json::Value>(text) {
        Ok(_) => true,
        Err(_) => false,
    }
}

/// The timeout of a request that names none: three seconds.
pub open spec fn default_timeout() -> Duration {
    secs_duration(3)
}

/// The text of an identifier holds digits, letters and hyphens only.
pub proof fn lemma_id_text_plain(bits: u128)
    ensures
        plain(id_text(bits)),
        id_text(bits).len() == 36,
{
    assert forall|i: int| 0 <= i < id_text(bits).len() implies #[trigger] id_text(bits)[i] != '"'
        && id_text(bits)[i] != '\\' by {
        let c = id_text(bits)[i];
        if i == 8 || i == 13 || i == 18 || i == 23 {
            assert(c == '-');
        } else {
            let d = digit(bits, digit_index(i));
            assert(0 <= d < 16);
            assert(c == hex_char(d));
        }
    }
}

/// Why a payload cannot travel.
#[derive(Clone, Copy, Debug, PartialEq, Eq, Structural)]
pub enum RequestError {
    /// The payload could not be written as JSON text, or the text given for
    /// it is not a JSON document.
    Unwritable,
    /// The payload is JSON but neither an object nor `null`, so no members
    /// of it can stand beside the reserved one.
    NotFlat,
}

/// A payload tagged with a correlation identifier and a timeout. The payload
/// is held as the text of a JSON object; the timeout is advice to the
/// transport and never travels.
#[derive(Debug, PartialEq, Eq)]
pub struct Request {
    pub id: RequestId,
    pub timeout: Duration,
    pub data: String,
}

impl Clone for Request {
    fn clone(&self) -> (out: Request)
        ensures
            out == *self,
    {
        Request { id: self.id, timeout: self.timeout, data: self.data.clone() }
    }
}

/// A reply: the identifier of the request it answers, and its payload as the
/// text of a JSON object.
#[derive(Debug, PartialEq, Eq)]
pub struct Response {
    pub id: RequestId,
    pub data: String,
}

/// What a tagged object reads as: an identifier and a payload. The text
/// must be a JSON document; the reserved member is the first one whose key
/// is spelled `"@extra"`, and its value is taken as it is written between
/// its quotes, so escapes in either are not resolved.
pub open spec fn read(text: Seq<char>) -> Result<(u128, Seq<char>), WireError> {
    if !json_valid(text) {
        Err(WireError::NotJson)
    } else {
        match split(text) {
            Ok(parts) => match uuid_parse(parts.id) {
                Some(bits) => Ok((bits, parts.rest)),
                None => Err(WireError::MalformedId),
            },
            Err(e) => Err(e),
        }
    }
}

/// Why a request does not travel, if it does not: first for a payload that
/// is not flat, then for a wire text that is not a JSON document.
pub open spec fn wire_refusal(bits: u128, data: Seq<char>) -> Option<RequestError> {
    if !flat(data) {
        Some(RequestError::NotFlat)
    } else if !json_valid(tagged(id_text(bits), data)) {
        Some(RequestError::Unwritable)
    } else {
        None
    }
}

/// Why a payload text is refused, if it is: first for not being JSON, then
/// for not being flat.
pub open spec fn refusal(data: Seq<char>) -> Option<RequestError> {
    if !json_valid(data) {
        Some(RequestError::Unwritable)
    } else if !flat(data) {
        Some(RequestError::NotFlat)
    } else {
        None
    }
}

impl Request {
    /// Tags a payload, given as JSON text, with the given identifier. A
    /// payload that cannot take the wire shape is refused here, before
    /// anything is sent: text that is not JSON as `Unwritable`, and JSON
    /// that is neither an object nor `null`, such as a number, a string or
    /// an array, as `NotFlat`.
    pub fn with_id(id: RequestId, data: &str, timeout: Duration) -> (out: Result<
        Request,
        RequestError,
    >)
        ensures
            match refusal(data@) {
                None => out is Ok && out->Ok_0.id == id && out->Ok_0.timeout == timeout
                    && out->Ok_0.data@ == data@,
                Some(e) => out == Err::<Request, RequestError>(e),
            },
    {
        if !is_json(data) {
            Err(RequestError::Unwritable)
        } else if !is_flat(data) {
            Err(RequestError::NotFlat)
        } else {
            Ok(Request { id, timeout, data: String::from_str(data) })
        }
    }

    /// Tags a payload, given as JSON text, with a fresh identifier and the
    /// default timeout.
    pub fn new(data: &str) -> (out: Result<Request, RequestError>)
        ensures
            match refusal(data@) {
                None => out is Ok && is_random(out->Ok_0.id.0) && out->Ok_0.timeout
                    == default_timeout() && out->Ok_0.data@ == data@,
                Some(e) => out == Err::<Request, RequestError>(e),
            },
    {
        Request::with_timeout(data, seconds(3))
    }

    /// Tags a payload, given as JSON text, with a fresh identifier.
    pub fn with_timeout(data: &str, timeout: Duration) -> (out: Result<Request, RequestError>)
        ensures
            match refusal(data@) {
                None => out is Ok && is_random(out->Ok_0.id.0) && out->Ok_0.timeout == timeout
                    && out->Ok_0.data@ == data@,
                Some(e) => out == Err::<Request, RequestError>(e),
            },
    {
        Request::with_id(RequestId::new_v4(), data, timeout)
    }

    /// The same payload and timeout under the identifier that follows from
    /// drawn bits: the drawn bits, or those bits with the lowest one flipped
    /// where they are this request's own.
    pub fn with_drawn_id(&self, drawn: u128) -> (out: Request)
        ensures
            out.id.0 == settled(self.id.0, drawn),
            out.id != self.id,
            is_random(drawn) ==> is_random(out.id.0),
            out.timeout == self.timeout,
            out.data == self.data,
    {
        Request { id: self.id.apart(drawn), timeout: self.timeout, data: self.data.clone() }
    }

    /// The same payload and timeout under a fresh identifier that differs
    /// from this one, for sending again as a new call.
    pub fn with_new_id(&self) -> (out: Request)
        ensures
            out.id != self.id,
            is_random(out.id.0),
            out.timeout == self.timeout,
            out.data == self.data,
    {
        self.with_drawn_id(RequestId::new_v4().0)
    }

    /// The text that travels: one flat object with the identifier in the
    /// reserved member, followed by the payload's own members. The timeout
    /// is left out. The text is a JSON document, and for an object payload
    /// it reads back as this request's identifier and its payload without
    /// the white space around it.
    pub fn to_wire(&self) -> (out: Result<String, RequestError>)
        ensures
            match wire_refusal(self.id.0, self.data@) {
                None => out is Ok && out->Ok_0@ == tagged(id_text(self.id.0), self.data@)
                    && json_valid(out->Ok_0@),
                Some(e) => out == Err::<String, RequestError>(e),
            },
            out is Ok && is_object(trimmed(self.data@)) && (blank(
                trimmed(self.data@).subrange(1, trimmed(self.data@).len() - 1),
            ) ==> trimmed(self.data@).len() == 2) ==> read(out->Ok_0@) == Ok::<
                (u128, Seq<char>),
                WireError,
            >((self.id.0, trimmed(self.data@))),
    {
        let id = self.id.to_text();
        proof {
            lemma_id_text_plain(self.id.0);
            if is_object(trimmed(self.data@)) && (blank(
                trimmed(self.data@).subrange(1, trimmed(self.data@).len() - 1),
            ) ==> trimmed(self.data@).len() == 2) {
                lemma_split_tagged(id@, self.data@);
            }
        }
        match tag(id.as_str(), self.data.as_str()) {
            Some(text) => {
                if is_json(text.as_str()) {
                    Ok(text)
                } else {
                    Err(RequestError::Unwritable)
                }
            },
            None => Err(RequestError::NotFlat),
        }
    }
}

impl Response {
    /// Reads a reply, which must be a JSON document: the first member with
    /// the reserved key gives the identifier, and the object without that
    /// member is the payload.
    pub fn from_wire(text: &str) -> (out: Result<Response, WireError>)
        ensures
            match out {
                Ok(response) => read(text@) == Ok::<(u128, Seq<char>), WireError>(
                    (response.id.0, response.data@),
                ),
                Err(e) => read(text@) == Err::<(u128, Seq<char>), WireError>(e),
            },
    {
        if !is_json(text) {
            return Err(WireError::NotJson);
        }
        match split_text(text) {
            Ok(parts) => match RequestId::parse_str(parts.id.as_str()) {
                Some(id) => Ok(Response { id, data: parts.rest }),
                None => Err(WireError::MalformedId),
            },
            Err(e) => Err(e),
        }
    }

    /// Whether this reply answers the given request.
    pub fn answers(&self, request: &Request) -> (same: bool)
        ensures
            same == (self.id == request.id),
    {
        self.id.0 == request.id.0
    }
}

/// What tagging a payload gives, as far as the payload was written: a
/// request with that payload and timeout under a random identifier, or the
/// reason why there is none.
pub open spec fn tagged_outcome(
    payload: Option<String>,
    timeout: Duration,
    out: Result<Request, RequestError>,
) -> bool {
    match payload {
        Some(data) => match refusal(data@) {
            None => out is Ok && is_random(out->Ok_0.id.0) && out->Ok_0.timeout == timeout
                && out->Ok_0.data@ == data@,
            Some(e) => out == Err::<Request, RequestError>(e),
        },
        None => out == Err::<Request, RequestError>(RequestError::Unwritable),
    }
}

/// A payload that can be sent as a request.
pub trait Requestable: Sized {
    /// The payload as the text of a JSON object, or nothing where it cannot
    /// be written.
    fn payload(&self) -> (payload: Option<String>);

    /// How long the reply to this payload is worth waiting for: three
    /// seconds, unless the payload type names its own timeout.
    fn timeout(&self) -> (timeout: Duration)
        default_ensures
            timeout == default_timeout(),
    {
        seconds(3)
    }

    /// Tags this payload with a fresh identifier: the request holds what
    /// `payload` gives for it and the timeout that `timeout` gives for it.
    fn into_request(self) -> (out: Result<Request, RequestError>)
        ensures
            exists|payload: Option<String>, timeout: Duration|
                call_ensures(Self::payload, (&self,), payload) && call_ensures(
                    Self::timeout,
                    (&self,),
                    timeout,
                ) && #[trigger] tagged_outcome(payload, timeout, out),
    {
        let timeout = self.timeout();
        let payload = self.payload();
        let out = tagged_payload(payload, timeout);
        assert(tagged_outcome(payload, timeout, out));
        out
    }
}

/// Tags a payload, as far as it was written, with a fresh identifier.
pub fn tagged_payload(payload: Option<String>, timeout: Duration) -> (out: Result<
    Request,
    RequestError,
>)
    ensures
        tagged_outcome(payload, timeout, out),
{
    match payload {
        Some(data) => Request::with_timeout(data.as_str(), timeout),
        None => Err(RequestError::Unwritable),
    }
}

/// Why a round trip failed, by the stage it failed at.
#[derive(Debug, PartialEq, Eq)]
pub enum CallError<E> {
    /// The payload could not be made into a request.
    Request(RequestError),
    /// The capability failed, asked for readiness or called.
    Transport(E),
    /// The reply does not have the expected shape.
    Shape,
    /// An answer came that the stage does not wait for.
    OutOfTurn,
}

/// Where a round trip stands.
#[derive(Debug)]
pub enum Stage {
    /// The capability is being asked for readiness; the request waits.
    AwaitingReady(Request),
    /// The request was submitted.
    AwaitingReply,
    /// The reply is being given its shape.
    AwaitingShape,
    /// The round trip is over.
    Done,
}

/// What came back from outside.
pub enum Signal<T, E> {
    /// The capability is ready, or failed.
    Ready(Result<(), E>),
    /// The capability replied with a payload, or failed.
    Replied(Result<String, E>),
    /// The reply was given its shape, or does not have it.
    Shaped(Option<T>),
}

/// What to do next in a round trip.
#[derive(Debug, PartialEq, Eq)]
pub enum Step<T, E> {
    /// Ask the capability for readiness.
    AwaitReady,
    /// Submit the request and wait for the reply.
    Submit(Request),
    /// Give the reply its shape.
    Shape(String),
    /// Hand the outcome to the caller.
    Finish(Result<T, CallError<E>>),
}

/// How a round trip starts. The request is made first: where none could be
/// made, the round trip is over at once with that failure, and the
/// capability is neither asked for readiness nor given anything.
pub open spec fn first_step<T, E>(request: Result<Request, RequestError>) -> (Stage, Step<T, E>) {
    match request {
        Ok(request) => (Stage::AwaitingReady(request), Step::AwaitReady),
        Err(e) => (Stage::Done, Step::Finish(Err(CallError::Request(e)))),
    }
}

/// The transition function of a round trip. Every failure ends the round
/// trip and names its stage.
pub open spec fn next_step<T, E>(stage: Stage, signal: Signal<T, E>) -> (Stage, Step<T, E>) {
    match (stage, signal) {
        (Stage::AwaitingReady(request), Signal::Ready(ready)) => match ready {
            Ok(_) => (Stage::AwaitingReply, Step::Submit(request)),
            Err(e) => (Stage::Done, Step::Finish(Err(CallError::Transport(e)))),
        },
        (Stage::AwaitingReply, Signal::Replied(reply)) => match reply {
            Ok(payload) => (Stage::AwaitingShape, Step::Shape(payload)),
            Err(e) => (Stage::Done, Step::Finish(Err(CallError::Transport(e)))),
        },
        (Stage::AwaitingShape, Signal::Shaped(shaped)) => match shaped {
            Some(value) => (Stage::Done, Step::Finish(Ok(value))),
            None => (Stage::Done, Step::Finish(Err(CallError::Shape))),
        },
        _ => (Stage::Done, Step::Finish(Err(CallError::OutOfTurn))),
    }
}

/// A request is submitted only after one was made and the capability was
/// ready for it; a round trip that is over submits nothing and stays over.
pub proof fn lemma_submits_in_turn<T, E>(stage: Stage, signal: Signal<T, E>)
    ensures
        next_step(stage, signal).1 is Submit ==> stage is AwaitingReady && signal is Ready
            && signal->Ready_0 is Ok && next_step(stage, signal).1->Submit_0
            == stage->AwaitingReady_0,
        next_step(stage, signal).1 is Finish <==> next_step(stage, signal).0 is Done,
        stage is Done ==> next_step(stage, signal) == (
            Stage::Done,
            Step::<T, E>::Finish(Err(CallError::OutOfTurn)),
        ),
{
}

/// One request and its reply, from the payload to the shaped answer.
pub struct RoundTrip {
    stage: Stage,
}

impl View for RoundTrip {
    type V = Stage;

    closed spec fn view(&self) -> Stage {
        self.stage
    }
}

impl RoundTrip {
    /// Starts a round trip for a request, as far as one could be made, and
    /// says what to do first.
    pub fn begin<T, E>(request: Result<Request, RequestError>) -> (out: (RoundTrip, Step<T, E>))
        ensures
            (out.0@, out.1) == first_step::<T, E>(request),
    {
        match request {
            Ok(request) => (RoundTrip { stage: Stage::AwaitingReady(request) }, Step::AwaitReady),
            Err(e) => (RoundTrip { stage: Stage::Done }, Step::Finish(Err(CallError::Request(e)))),
        }
    }

    /// Takes what came back from outside and says what to do next.
    pub fn step<T, E>(&mut self, signal: Signal<T, E>) -> (step: Step<T, E>)
        ensures
            (final(self)@, step) == next_step(old(self)@, signal),
    {
        let mut stage = Stage::Done;
        std::mem::swap(&mut self.stage, &mut stage);
        match (stage, signal) {
            (Stage::AwaitingReady(request), Signal::Ready(ready)) => match ready {
                Ok(_) => {
                    self.stage = Stage::AwaitingReply;
                    Step::Submit(request)
                },
                Err(e) => Step::Finish(Err(CallError::Transport(e))),
            },
            (Stage::AwaitingReply, Signal::Replied(reply)) => match reply {
                Ok(payload) => {
                    self.stage = Stage::AwaitingShape;
                    Step::Shape(payload)
                },
                Err(e) => Step::Finish(Err(CallError::Transport(e))),
            },
            (Stage::AwaitingShape, Signal::Shaped(shaped)) => match shaped {
                Some(value) => Step::Finish(Ok(value)),
                None => Step::Finish(Err(CallError::Shape)),
            },
            _ => Step::Finish(Err(CallError::OutOfTurn)),
        }
    }
}

} // verus!
