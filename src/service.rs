use vstd::prelude::*;
use vstd::slice::slice_to_vec;
use vstd::string::StringSliceAdditionalSpecFns;

use crate::broadcast::{
    Broadcast, Delivery, QUEUE_CAPACITY, Publish, first_n, lemma_delivery_reaches_each_in_order, lemma_no_replay,
};
use crate::codec::{
    DecodeError, INTERNAL_ERROR, has_terminator, Request, Response, decode_error_text, decode_request,
    decodes_to, encode_response_bytes, error_prefix, failure_response, headers_view, response_bytes,
};

verus! {

/// Why a body could not be decoded, as text.
pub struct FromBodyError(pub Vec<u8>);

impl FromBodyError {
    /// The cause as it is shown: `ERROR: ` followed by the text.
    pub fn to_text(&self) -> (r: Vec<u8>)
        ensures
            r@ == error_prefix() + self.0@,
    {
        let mut r = slice_to_vec("ERROR: ".as_bytes());
        let mut i: usize = 0;
        while i < self.0.len()
            invariant
                i <= self.0@.len(),
                r@ == error_prefix() + self.0@.subrange(0, i as int),
            decreases self.0@.len() - i,
        {
            r.push(self.0[i]);
            proof {
                assert(self.0@.subrange(0, i + 1) =~= self.0@.subrange(0, i as int).push(self.0@[i as int]));
            }
            i = i + 1;
        }
        proof {
            assert(self.0@.subrange(0, self.0@.len() as int) =~= self.0@);
        }
        r
    }
}

/// A value that can be read from the body bytes of a request.
pub trait FromBody: Sized {
    /// `r` is a result that reading `body` may give.
    spec fn body_decodes(body: Seq<u8>, r: Result<Self, FromBodyError>) -> bool;

    fn from_body(body: &[u8]) -> (r: Result<Self, FromBodyError>)
        ensures
            Self::body_decodes(body@, r),
    ;
}

/// Any body reads as the unit value.
impl FromBody for () {
    open spec fn body_decodes(body: Seq<u8>, r: Result<(), FromBodyError>) -> bool {
        r is Ok
    }

    fn from_body(body: &[u8]) -> (r: Result<(), FromBodyError>) {
        Ok(())
    }
}

/// The body bytes, as they came.
impl FromBody for Vec<u8> {
    open spec fn body_decodes(body: Seq<u8>, r: Result<Vec<u8>, FromBodyError>) -> bool {
        r matches Ok(v) && v@ == body
    }

    fn from_body(body: &[u8]) -> (r: Result<Vec<u8>, FromBodyError>) {
        Ok(slice_to_vec(body))
    }
}

/// The text that the bytes encode, where they are valid UTF-8.
pub uninterp spec fn utf8_decoded(b: Seq<u8>) -> Option<Seq<char>>;

/// Relies on `String::from_utf8`: the text the bytes encode, or `None` where they
/// are not valid UTF-8.
#[verifier::external_body]
fn text_of(b: &[u8]) -> (r: Option<String>)
    ensures
        r matches Some(s) ==> utf8_decoded(b@) == Some(s@),
        r is None ==> utf8_decoded(b@) is None,
{
    String::from_utf8(b.to_vec()).ok()
}

/// What an invalid UTF-8 body is reported as.
pub open spec fn invalid_utf8_text() -> Seq<u8> {
    "invalid UTF-8".spec_bytes()
}

/// A body read as UTF-8 text.
impl FromBody for String {
    open spec fn body_decodes(body: Seq<u8>, r: Result<String, FromBodyError>) -> bool {
        match r {
            Ok(s) => utf8_decoded(body) == Some(s@),
            Err(FromBodyError(m)) => utf8_decoded(body) is None && m@ == invalid_utf8_text(),
        }
    }

    fn from_body(body: &[u8]) -> (r: Result<String, FromBodyError>) {
        match text_of(body) {
            Some(s) => Ok(s),
            None => Err(FromBodyError(slice_to_vec("invalid UTF-8".as_bytes()))),
        }
    }
}

/// A value that can be read from the bytes of one whole request.
pub trait FromRequest: Sized {
    /// `r` is what reading `request` gives.
    spec fn request_decodes(request: Seq<u8>, r: Result<Self, DecodeError>) -> bool;

    fn from_request(request: &[u8]) -> (r: Result<Self, DecodeError>)
        ensures
            Self::request_decodes(request@, r),
    ;
}

/// The raw bytes, taken as they came.
impl FromRequest for Vec<u8> {
    open spec fn request_decodes(request: Seq<u8>, r: Result<Vec<u8>, DecodeError>) -> bool {
        r matches Ok(v) && v@ == request
    }

    fn from_request(request: &[u8]) -> (r: Result<Vec<u8>, DecodeError>) {
        Ok(slice_to_vec(request))
    }
}

/// The whole request read as UTF-8 text.
impl FromRequest for String {
    open spec fn request_decodes(request: Seq<u8>, r: Result<String, DecodeError>) -> bool {
        match r {
            Ok(s) => utf8_decoded(request) == Some(s@),
            Err(DecodeError::Body(m)) => utf8_decoded(request) is None && m@ == invalid_utf8_text(),
            Err(_) => false,
        }
    }

    fn from_request(request: &[u8]) -> (r: Result<String, DecodeError>) {
        match String::from_body(request) {
            Ok(s) => Ok(s),
            Err(FromBodyError(m)) => Err(DecodeError::Body(m)),
        }
    }
}

impl<T: FromBody> FromRequest for Request<T> {
    open spec fn request_decodes(request: Seq<u8>, r: Result<Request<T>, DecodeError>) -> bool {
        typed_decodes(request, r)
    }

    fn from_request(request: &[u8]) -> (r: Result<Request<T>, DecodeError>) {
        decode_typed(request)
    }
}

/// What decoding a request with a typed body gives: a structural error exactly
/// when the bytes are no encoded head followed by a body; otherwise the head's
/// fields, with the body that `T::from_body` made of the bytes after the empty
/// line, or `DecodeError::Body` with the message `T::from_body` gave.
pub open spec fn typed_decodes<T: FromBody>(b: Seq<u8>, r: Result<Request<T>, DecodeError>) -> bool {
    &&& (r matches Err(DecodeError::Incomplete)) ==> !has_terminator(b)
    &&& (r is Ok || r matches Err(DecodeError::Body(_))) <==> exists|raw: Request<Vec<u8>>|
        decodes_to(b, raw)
    &&& match r {
        Ok(req) => exists|raw: Request<Vec<u8>>|
            decodes_to(b, raw) && raw.method@ == req.method@ && raw.path@ == req.path@
                && raw.headers@ == req.headers@ && T::body_decodes(raw.body@, Ok(req.body)),
        Err(DecodeError::Body(m)) => exists|raw: Request<Vec<u8>>|
            decodes_to(b, raw) && T::body_decodes(raw.body@, Err(FromBodyError(m))),
        Err(_) => true,
    }
}

/// Decodes the head with `decode_request`, then hands the bytes after the empty
/// line to `T::from_body`; a body that cannot be read gives `DecodeError::Body`
/// with the body's own message.
pub fn decode_typed<T: FromBody>(request: &[u8]) -> (r: Result<Request<T>, DecodeError>)
    ensures
        typed_decodes(request@, r),
{
    match decode_request(request) {
        Err(e) => Err(e),
        Ok(raw) => {
            let res = T::from_body(raw.body.as_slice());
            match res {
                Err(FromBodyError(m)) => {
                    proof {
                        assert(decodes_to(request@, raw));
                    }
                    Err(DecodeError::Body(m))
                },
                Ok(body) => {
                    let ghost g = raw;
                    let Request { method, path, headers, body: _ } = raw;
                    let req = Request { method, path, headers, body };
                    proof {
                        assert(decodes_to(request@, g));
                    }
                    Ok(req)
                },
            }
        },
    }
}

/// A value that can be written as body bytes.
pub trait IntoBody: Sized {
    spec fn body_view(&self) -> Seq<u8>;

    fn into_body(self) -> (r: Vec<u8>)
        ensures
            r@ == self.body_view(),
    ;
}

impl IntoBody for () {
    open spec fn body_view(&self) -> Seq<u8> {
        Seq::empty()
    }

    fn into_body(self) -> (r: Vec<u8>) {
        Vec::new()
    }
}

impl IntoBody for Vec<u8> {
    open spec fn body_view(&self) -> Seq<u8> {
        self@
    }

    fn into_body(self) -> (r: Vec<u8>) {
        self
    }
}

/// A value that can be written as the bytes of one whole response.
pub trait IntoResponse: Sized {
    spec fn response_view(&self) -> Seq<u8>;

    fn into_response(self) -> (r: Vec<u8>)
        ensures
            r@ == self.response_view(),
    ;
}

/// The raw bytes, sent as they are.
impl IntoResponse for Vec<u8> {
    open spec fn response_view(&self) -> Seq<u8> {
        self@
    }

    fn into_response(self) -> (r: Vec<u8>) {
        self
    }
}

impl<T: IntoBody> IntoResponse for Response<T> {
    open spec fn response_view(&self) -> Seq<u8> {
        response_bytes(self.status, headers_view(self.headers@), self.body.body_view())
    }

    fn into_response(self) -> (r: Vec<u8>) {
        let Response { status, headers, body } = self;
        let b = body.into_body();
        encode_response_bytes(status, &headers, b.as_slice())
    }
}

/// The work done for each request: from a decoded input to an output, or to an
/// error given as text.
pub trait Handler<I, O> {
    fn call(&self, input: I) -> Result<O, Vec<u8>>;
}

/// The bytes of the response to a failure with the given cause.
pub open spec fn failure_bytes(cause: Seq<u8>) -> Seq<u8> {
    response_bytes(INTERNAL_ERROR, Seq::empty(), error_prefix() + cause)
}

/// What a request task sends back, and whether the same bytes go to the subscribers.
pub struct Reply {
    pub bytes: Vec<u8>,
    pub publish: bool,
}

/// The reply to a handler's outcome: on success the encoded output, also published;
/// on failure a failure response that carries the error text, not published.
pub fn reply<O: IntoResponse>(outcome: Result<O, Vec<u8>>) -> (r: Reply)
    ensures
        outcome matches Ok(o) ==> r.publish && r.bytes@ == o.response_view(),
        outcome matches Err(m) ==> !r.publish && r.bytes@ == failure_bytes(m@),
{
    match outcome {
        Ok(o) => Reply { bytes: o.into_response(), publish: true },
        Err(m) => {
            let f = failure_response(m.as_slice());
            let bytes = encode_response_bytes(f.status, &f.headers, f.body.as_slice());
            proof {
                assert(headers_view(f.headers@) =~= Seq::<(Seq<u8>, Seq<u8>)>::empty());
            }
            Reply { bytes, publish: false }
        },
    }
}

/// The reply to a request that could not be decoded: a failure response that
/// carries the decode error's text, never published.
pub fn reply_to_decode_error(e: &DecodeError) -> (r: Reply)
    ensures
        !r.publish,
        r.bytes@ == failure_bytes(decode_error_text(*e)),
{
    let m = e.message();
    reply::<Vec<u8>>(Err(m))
}

/// What a service loop observes.
pub enum Event {
    /// A request connection was accepted.
    RequestAccepted,
    /// A read on the upstream connection gave this many bytes.
    UpstreamRead(usize),
    /// A read on the upstream connection failed.
    UpstreamFailed,
    /// A subscriber connection was accepted.
    SubscriberAccepted,
    /// A request task produced an encoded frame for the subscribers.
    FrameReady(Vec<u8>),
    /// The loop is free to deliver the oldest waiting frame.
    DeliveryDue,
    /// The termination signal arrived.
    Shutdown,
}

/// Why a service loop ended.
#[derive(PartialEq, Eq, Structural, Clone, Copy)]
pub enum Termination {
    /// The termination signal arrived.
    Signal,
    /// The upstream connection was closed.
    UpstreamClosed,
    /// A read on the upstream connection failed.
    UpstreamFailed,
}

/// What a service loop does next.
pub enum Action {
    /// Start a task that decodes the request, calls the handler and replies.
    Handle,
    /// Keep the new subscriber under this position.
    Register(usize),
    /// Drop the new subscriber connection: no position is left for it.
    Reject,
    /// Write the frame to these subscribers, in this order.
    Deliver(Delivery),
    /// The queue is full: keep this frame and offer it again after a delivery.
    Hold(Vec<u8>),
    /// Nothing to do.
    Ignore,
    /// Leave the loop with this error.
    Stop(Termination),
}

impl Termination {
    /// The error text the loop ends with.
    pub fn message(&self) -> (r: Vec<u8>)
        ensures
            r@ == termination_text(*self),
    {
        match self {
            Termination::Signal => slice_to_vec("Received SIGTERM".as_bytes()),
            Termination::UpstreamClosed => slice_to_vec("Input connection dropped".as_bytes()),
            Termination::UpstreamFailed => slice_to_vec("Input connection failed".as_bytes()),
        }
    }
}

pub open spec fn termination_text(t: Termination) -> Seq<u8> {
    match t {
        Termination::Signal => "Received SIGTERM".spec_bytes(),
        Termination::UpstreamClosed => "Input connection dropped".spec_bytes(),
        Termination::UpstreamFailed => "Input connection failed".spec_bytes(),
    }
}

/// A frame joins the back of the queue, or is held back unchanged when
/// `QUEUE_CAPACITY` frames already wait.
pub open spec fn publish_step(old: Broadcast, new: Broadcast, f: Seq<u8>, a: Action) -> bool {
    &&& new.wf()
    &&& new.subscriber_count() == old.subscriber_count()
    &&& if old.pending().len() < QUEUE_CAPACITY {
        a is Ignore && new.pending() == old.pending().push(f)
    } else {
        new.pending() == old.pending() && match a {
            Action::Hold(g) => g@ == f,
            _ => false,
        }
    }
}

/// The oldest frame leaves the queue for every subscriber registered so far, in
/// registration order; with no frame waiting nothing happens.
pub open spec fn delivery_step(old: Broadcast, new: Broadcast, a: Action) -> bool {
    &&& new.wf()
    &&& new.subscriber_count() == old.subscriber_count()
    &&& if old.pending().len() == 0 {
        a is Ignore && new.pending() == old.pending()
    } else {
        new.pending() == old.pending().drop_first() && match a {
            Action::Deliver(d) => d.frame@ == old.pending()[0] && d.targets@ == first_n(
                old.subscriber_count(),
            ),
            _ => false,
        }
    }
}

/// A subscriber is kept at the next position, or rejected when none is left.
pub open spec fn subscriber_step(old: Broadcast, new: Broadcast, a: Action) -> bool {
    &&& new.wf()
    &&& new.pending() == old.pending()
    &&& if old.subscriber_count() < usize::MAX {
        a == Action::Register(old.subscriber_count() as usize) && new.subscriber_count()
            == old.subscriber_count() + 1
    } else {
        a is Reject && new.subscriber_count() == old.subscriber_count()
    }
}

/// Registers a newly accepted subscriber.
pub fn on_subscriber(fanout: &mut Broadcast) -> (a: Action)
    requires
        old(fanout).wf(),
    ensures
        subscriber_step(*old(fanout), *final(fanout), a),
{
    if fanout.subscribers() < usize::MAX {
        Action::Register(fanout.register())
    } else {
        Action::Reject
    }
}

/// Queues a frame that a request task produced.
pub fn on_frame(fanout: &mut Broadcast, frame: Vec<u8>) -> (a: Action)
    requires
        old(fanout).wf(),
    ensures
        publish_step(*old(fanout), *final(fanout), frame@, a),
{
    match fanout.publish(frame) {
        Publish::Queued => Action::Ignore,
        Publish::Full(back) => Action::Hold(back),
    }
}

/// Delivers the oldest waiting frame.
pub fn on_delivery(fanout: &mut Broadcast) -> (a: Action)
    requires
        old(fanout).wf(),
    ensures
        delivery_step(*old(fanout), *final(fanout), a),
{
    match fanout.drain() {
        Some(d) => Action::Deliver(d),
        None => Action::Ignore,
    }
}

/// A frame published to a loop whose queue is empty is what the next delivery
/// writes, byte for byte, to every subscriber registered before it, each once and
/// in registration order; the queue is then empty again.
pub proof fn lemma_frame_reaches_every_subscriber(
    b0: Broadcast,
    b1: Broadcast,
    b2: Broadcast,
    frame: Seq<u8>,
    published: Action,
    delivered: Action,
)
    requires
        b0.wf(),
        b0.subscriber_count() <= usize::MAX,
        b0.pending().len() == 0,
        publish_step(b0, b1, frame, published),
        delivery_step(b1, b2, delivered),
    ensures
        b2.pending().len() == 0,
        delivered matches Action::Deliver(d) && d.frame@ == frame && d.targets@.len()
            == b0.subscriber_count() && d.targets@.no_duplicates() && forall|i: int|
            0 <= i < d.targets@.len() ==> d.targets@[i] == i,
{
    lemma_delivery_reaches_each_in_order(b0.subscriber_count());
    assert(b0.pending().push(frame)[0] == frame);
}

/// Frames leave the queue in the order they were published: after two frames are
/// published to an empty queue, two deliveries write the first, then the second.
pub proof fn lemma_frames_in_order(
    b0: Broadcast,
    b1: Broadcast,
    b2: Broadcast,
    b3: Broadcast,
    b4: Broadcast,
    f1: Seq<u8>,
    f2: Seq<u8>,
    a1: Action,
    a2: Action,
    a3: Action,
    a4: Action,
)
    requires
        b0.wf(),
        b0.pending().len() == 0,
        publish_step(b0, b1, f1, a1),
        publish_step(b1, b2, f2, a2),
        delivery_step(b2, b3, a3),
        delivery_step(b3, b4, a4),
    ensures
        a3 matches Action::Deliver(d) && d.frame@ == f1,
        a4 matches Action::Deliver(d) && d.frame@ == f2,
        b4.pending().len() == 0,
{
    assert(b2.pending() == seq![f1, f2]);
    assert(b3.pending() =~= seq![f2]);
}

/// No replay: a subscriber that the loop registers after it has delivered a frame
/// is not among the targets of that frame.
pub proof fn lemma_no_replay_after_delivery(
    b0: Broadcast,
    b1: Broadcast,
    b2: Broadcast,
    delivered: Action,
    registered: Action,
)
    requires
        delivery_step(b0, b1, delivered),
        subscriber_step(b1, b2, registered),
    ensures
        match (delivered, registered) {
            (Action::Deliver(d), Action::Register(s)) => !d.targets@.contains(s),
            _ => true,
        },
{
    if let (Action::Deliver(d), Action::Register(s)) = (delivered, registered) {
        lemma_no_replay(b0.subscriber_count(), s);
    }
}

} // verus!
