//! The dispatcher: the per-invocation state machine, and the two host steps
//! around a guest call. `handle_request` routes a request and prepares the
//! buffers; the embedder then runs the guest entry point, and `finish` turns
//! the guest's outcome and output buffer into the response.
use vstd::prelude::*;
use crate::buffers::{empty_buffer, payload_of, BufferView, ExchangeBuffer, INVALID_HANDLE};
use crate::bytes::to_vec;
use crate::entries::{pairs_view, Pair};
use crate::error::HostError;
use crate::routes::{answers, is_best, param_bindings, split_path, Handler};
use crate::runtime::Runtime;
use crate::text::decimal;

verus! {

pub const STATUS_OK: u32 = 200;

pub const STATUS_BAD_REQUEST: u32 = 400;

pub const STATUS_NOT_FOUND: u32 = 404;

pub const STATUS_INTERNAL_ERROR: u32 = 500;

/// The phases of one invocation.
#[derive(Debug, Clone, Copy, PartialEq, Eq, Structural)]
pub enum Phase {
    Received,
    Routed,
    BuffersPrepared,
    Executing,
    Completed,
    Rejected,
}

/// What moves an invocation on.
#[derive(Debug, Clone, Copy, PartialEq, Eq, Structural)]
pub enum Event {
    RouteFound,
    RouteMissing,
    BuffersReady,
    GuestStarted,
    GuestReturned,
}

/// The transition relation; an event that does not apply leaves the phase as it is.
pub open spec fn next_phase(p: Phase, e: Event) -> Phase {
    match (p, e) {
        (Phase::Received, Event::RouteFound) => Phase::Routed,
        (Phase::Received, Event::RouteMissing) => Phase::Rejected,
        (Phase::Routed, Event::BuffersReady) => Phase::BuffersPrepared,
        (Phase::BuffersPrepared, Event::GuestStarted) => Phase::Executing,
        (Phase::Executing, Event::GuestReturned) => Phase::Completed,
        _ => p,
    }
}

/// The phase after `e` in phase `p`.
pub fn advance(p: Phase, e: Event) -> (r: Phase)
    ensures
        r == next_phase(p, e),
{
    match (p, e) {
        (Phase::Received, Event::RouteFound) => Phase::Routed,
        (Phase::Received, Event::RouteMissing) => Phase::Rejected,
        (Phase::Routed, Event::BuffersReady) => Phase::BuffersPrepared,
        (Phase::BuffersPrepared, Event::GuestStarted) => Phase::Executing,
        (Phase::Executing, Event::GuestReturned) => Phase::Completed,
        _ => p,
    }
}

/// The external status for an error kind.
pub open spec fn error_status(e: HostError) -> u32 {
    match e {
        HostError::NotFound => STATUS_NOT_FOUND,
        HostError::DecodeError => STATUS_BAD_REQUEST,
        HostError::UnknownBuffer => STATUS_INTERNAL_ERROR,
        HostError::InternalError => STATUS_INTERNAL_ERROR,
    }
}

pub fn status_for_error(e: HostError) -> (r: u32)
    ensures
        r == error_status(e),
{
    match e {
        HostError::NotFound => STATUS_NOT_FOUND,
        HostError::DecodeError => STATUS_BAD_REQUEST,
        HostError::UnknownBuffer => STATUS_INTERNAL_ERROR,
        HostError::InternalError => STATUS_INTERNAL_ERROR,
    }
}

/// The status, headers and body that go back to the external caller.
pub struct Response {
    pub status: u32,
    pub headers: Vec<(Vec<u8>, Vec<u8>)>,
    pub body: Vec<u8>,
}

/// What the host does with a request.
pub enum Dispatch {
    /// Answer at once.
    Respond(Response),
    /// Run `entry_point` of `module` with these buffers, then call `finish`.
    Invoke { module: String, entry_point: String, input: u32, output: u32 },
}

/// An empty response with `status`.
pub fn bare_response(status: u32) -> (r: Response)
    ensures
        r.status == status,
        r.headers@.len() == 0,
        r.body@.len() == 0,
{
    Response { status, headers: Vec::new(), body: Vec::new() }
}

/// The bytes of `content-type`.
pub open spec fn content_type_name() -> Seq<u8> {
    seq![99u8, 111, 110, 116, 101, 110, 116, 45, 116, 121, 112, 101]
}

fn content_type_bytes() -> (r: Vec<u8>)
    ensures
        r@ == content_type_name(),
{
    let r = to_vec("content-type".as_bytes());
    proof {
        reveal_strlit("content-type");
        vstd::string::is_ascii_spec_bytes("content-type");
        assert(r@ =~= content_type_name());
    }
    r
}

fn concat_pairs(a: &Vec<(Vec<u8>, Vec<u8>)>, b: &Vec<(Vec<u8>, Vec<u8>)>) -> (r: Vec<(Vec<u8>, Vec<u8>)>)
    ensures
        pairs_view(r@) == pairs_view(a@) + pairs_view(b@),
{
    let mut out: Vec<(Vec<u8>, Vec<u8>)> = Vec::new();
    let mut i: usize = 0;
    assert(pairs_view(out@) =~= pairs_view(a@).subrange(0, 0));
    while i < a.len()
        invariant
            i <= a@.len(),
            pairs_view(out@) == pairs_view(a@).subrange(0, i as int),
        decreases a@.len() - i,
    {
        let ghost before = pairs_view(out@);
        assert(pairs_view(a@)[i as int] == (a@[i as int].0@, a@[i as int].1@));
        out.push((to_vec(a[i].0.as_slice()), to_vec(a[i].1.as_slice())));
        assert(pairs_view(out@) =~= before.push(pairs_view(a@)[i as int]));
        assert(pairs_view(out@) =~= pairs_view(a@).subrange(0, i + 1));
        i = i + 1;
    }
    let mut j: usize = 0;
    assert(pairs_view(out@) =~= pairs_view(a@) + pairs_view(b@).subrange(0, 0));
    while j < b.len()
        invariant
            j <= b@.len(),
            pairs_view(out@) == pairs_view(a@) + pairs_view(b@).subrange(0, j as int),
        decreases b@.len() - j,
    {
        let ghost before = pairs_view(out@);
        assert(pairs_view(b@)[j as int] == (b@[j as int].0@, b@[j as int].1@));
        out.push((to_vec(b[j].0.as_slice()), to_vec(b[j].1.as_slice())));
        assert(pairs_view(out@) =~= before.push(pairs_view(b@)[j as int]));
        assert(pairs_view(out@) =~= pairs_view(a@) + pairs_view(b@).subrange(0, j + 1));
        j = j + 1;
    }
    assert(pairs_view(b@).subrange(0, b@.len() as int) =~= pairs_view(b@));
    out
}

impl Runtime {
    /// Routes a request and prepares its invocation.
    ///
    /// No route answering: 404, and the invocation is rejected. A static
    /// route: 200 with the blob's bytes and content type (404 where the blob
    /// is gone). A function route: a fresh input buffer holding the body and
    /// the request headers followed by the bound path parameters, a fresh
    /// empty output buffer, both made current; 500 where no two handles are
    /// left or the body does not fit a buffer.
    pub fn handle_request(
        &mut self,
        method: &[u8],
        path: &[u8],
        body: &[u8],
        headers: &Vec<(Vec<u8>, Vec<u8>)>,
    ) -> (r: Dispatch)
        requires
            old(self).wf(),
        ensures
            final(self).wf(),
            final(self).routes == old(self).routes,
            final(self).persistence == old(self).persistence,
            final(self).blobs == old(self).blobs,
            (forall|j: int| !answers(old(self).routes@, j, method@, split_path(path@))) ==> {
                &&& r matches Dispatch::Respond(resp)
                &&& resp.status == STATUS_NOT_FOUND && resp.headers@.len() == 0 && resp.body@.len() == 0
                &&& final(self).phase == Phase::Rejected
            },
            r is Respond ==> final(self).buffers == old(self).buffers,
            r matches Dispatch::Invoke { module, entry_point, input, output } ==> {
                &&& exists|i: int| #[trigger] is_best(old(self).routes@, i, method@, split_path(path@))
                    && old(self).routes@[i].handler == (Handler::Function { module, entry_point })
                    && final(self).buffers@ == old(self).buffers@.insert(
                        input,
                        BufferView {
                            payload: body@,
                            headers: pairs_view(headers@) + param_bindings(
                                old(self).routes@[i].segments,
                                split_path(path@),
                            ),
                        },
                    ).insert(output, empty_buffer())
                &&& !old(self).buffers@.contains_key(input)
                &&& !old(self).buffers@.contains_key(output)
                &&& input != output
                &&& input != INVALID_HANDLE && output != INVALID_HANDLE
                &&& final(self).buffers.next_handle() == old(self).buffers.next_handle() + 2
                &&& final(self).input == input && final(self).output == output
                &&& final(self).phase == Phase::Executing
            },
            forall|i: int| #[trigger] is_best(old(self).routes@, i, method@, split_path(path@)) ==> {
                &&& (old(self).routes@[i].handler is Function && body@.len() <= u32::MAX
                    && old(self).buffers.next_handle() + 2 <= INVALID_HANDLE) ==> r is Invoke
                &&& (old(self).routes@[i].handler is Function && !(body@.len() <= u32::MAX
                    && old(self).buffers.next_handle() + 2 <= INVALID_HANDLE)) ==> (r matches Dispatch::Respond(
                    resp,
                ) && resp.status == STATUS_INTERNAL_ERROR)
                &&& old(self).routes@[i].handler matches Handler::StaticBlob { tech_id } ==> {
                    &&& r matches Dispatch::Respond(resp)
                    &&& (exists|k: int| 0 <= k < old(self).blobs@.len() && #[trigger] decimal(k as nat) == tech_id@)
                        ==> resp.status == STATUS_OK && (exists|k: int| 0 <= k < old(self).blobs@.len()
                        && #[trigger] decimal(k as nat) == tech_id@ && resp.body@ == old(self).blobs@[k].bytes
                        && pairs_view(resp.headers@) == seq![(content_type_name(), old(self).blobs@[k].content_type)])
                    &&& (forall|k: int| 0 <= k < old(self).blobs@.len() ==> #[trigger] decimal(k as nat) != tech_id@)
                        ==> resp.status == STATUS_NOT_FOUND
                }
            },
    {
        self.phase = Phase::Received;
        let found = self.routes.lookup(method, path);
        let rm = match found {
            None => {
                self.phase = advance(self.phase, Event::RouteMissing);
                return Dispatch::Respond(bare_response(STATUS_NOT_FOUND));
            },
            Some(rm) => rm,
        };
        self.phase = advance(self.phase, Event::RouteFound);
        let ghost q = split_path(path@);
        let ghost t = self.routes@;
        proof {
            assert forall|i: int| #[trigger] is_best(t, i, method@, q) implies i == rm.index by {
                if i < rm.index {
                    assert(answers(t, i, method@, q));
                } else if i > rm.index {
                    assert(answers(t, i, method@, q));
                }
            }
        }
        match rm.handler {
            Handler::StaticBlob { tech_id } => {
                match self.blobs.index_of(&tech_id) {
                    None => {
                        self.phase = Phase::Rejected;
                        Dispatch::Respond(bare_response(STATUS_NOT_FOUND))
                    },
                    Some(k) => {
                        let ghost kk: int = k as int;
                        assert(decimal(kk as nat) == tech_id@);
                        let blob = self.blobs.blob(k);
                        let mut hs: Vec<(Vec<u8>, Vec<u8>)> = Vec::new();
                        hs.push((content_type_bytes(), to_vec(blob.content_type.as_slice())));
                        assert(pairs_view(hs@) =~= seq![(content_type_name(), self.blobs@[k as int].content_type)]);
                        self.phase = Phase::Completed;
                        let resp = Response { status: STATUS_OK, headers: hs, body: to_vec(blob.bytes.as_slice()) };
                        assert(resp.body@ == self.blobs@[kk].bytes);
                        Dispatch::Respond(resp)
                    },
                }
            },
            Handler::Function { module, entry_point } => {
                if body.len() > 0xFFFF_FFFF || self.buffers.peek_next_handle() >= 0xFFFF_FFFE {
                    self.phase = Phase::Completed;
                    return Dispatch::Respond(bare_response(STATUS_INTERNAL_ERROR));
                }
                let all = concat_pairs(headers, &rm.params);
                let input = self.buffers.create_with(ExchangeBuffer { payload: to_vec(body), headers: all });
                let output = self.buffers.create();
                self.phase = advance(self.phase, Event::BuffersReady);
                self.input = input;
                self.output = output;
                self.phase = advance(self.phase, Event::GuestStarted);
                assert(is_best(t, rm.index as int, method@, q));
                Dispatch::Invoke { module, entry_point, input, output }
            },
        }
    }

    /// Ends the current invocation: the status is the guest's, or 500 where
    /// the guest failed (`None`); the body and headers are the output
    /// buffer's; both invocation buffers are freed whatever the guest did.
    pub fn finish(&mut self, outcome: Option<u32>) -> (r: Response)
        requires
            old(self).wf(),
        ensures
            final(self).wf(),
            final(self).routes == old(self).routes,
            final(self).persistence == old(self).persistence,
            final(self).blobs == old(self).blobs,
            r.status == match outcome {
                Some(s) => s,
                None => STATUS_INTERNAL_ERROR,
            },
            r.body@ == payload_of(old(self).buffers@, old(self).output),
            pairs_view(r.headers@) == if old(self).buffers@.contains_key(old(self).output) {
                old(self).buffers@[old(self).output].headers
            } else {
                Seq::<Pair>::empty()
            },
            final(self).buffers@ == old(self).buffers@.remove(old(self).output).remove(old(self).input),
            final(self).buffers.next_handle() == old(self).buffers.next_handle(),
            final(self).input == INVALID_HANDLE,
            final(self).output == INVALID_HANDLE,
            final(self).phase == next_phase(old(self).phase, Event::GuestReturned),
    {
        let status = match outcome {
            Some(s) => s,
            None => STATUS_INTERNAL_ERROR,
        };
        let input = self.input;
        let output = self.output;
        let taken = self.buffers.take(output);
        self.buffers.free(input);
        let resp = match taken {
            Some(buf) => Response { status, headers: buf.headers, body: buf.payload },
            None => {
                let r = bare_response(status);
                assert(pairs_view(r.headers@) =~= Seq::<Pair>::empty());
                assert(r.body@ =~= Seq::<u8>::empty());
                r
            },
        };
        self.input = INVALID_HANDLE;
        self.output = INVALID_HANDLE;
        self.phase = advance(self.phase, Event::GuestReturned);
        resp
    }
}

/// The outer invocation's current buffers and phase, kept while a nested
/// call runs.
pub struct CallFrame {
    pub input: u32,
    pub output: u32,
    pub phase: Phase,
}

impl Runtime {
    /// Starts a nested synchronous call made from inside a running guest:
    /// the callee's current buffers become `input` and `output`, and it runs
    /// as an invocation of its own. Returns what `end_nested_call` restores.
    pub fn begin_nested_call(&mut self, input: u32, output: u32) -> (r: CallFrame)
        requires
            old(self).wf(),
        ensures
            final(self).wf(),
            r.input == old(self).input && r.output == old(self).output && r.phase == old(self).phase,
            final(self).input == input,
            final(self).output == output,
            final(self).phase == Phase::Executing,
            final(self).buffers == old(self).buffers,
            final(self).routes == old(self).routes,
            final(self).persistence == old(self).persistence,
            final(self).blobs == old(self).blobs,
    {
        let frame = CallFrame { input: self.input, output: self.output, phase: self.phase };
        self.input = input;
        self.output = output;
        self.phase = Phase::Executing;
        frame
    }

    /// Ends a nested call: the outer invocation's buffers and phase come
    /// back, and the call's status is the callee's, or 500 where it failed.
    /// The callee's buffers belong to the caller and stay live.
    pub fn end_nested_call(&mut self, frame: CallFrame, outcome: Option<u32>) -> (r: u32)
        requires
            old(self).wf(),
        ensures
            final(self).wf(),
            r == match outcome {
                Some(s) => s,
                None => STATUS_INTERNAL_ERROR,
            },
            final(self).input == frame.input,
            final(self).output == frame.output,
            final(self).phase == frame.phase,
            final(self).buffers == old(self).buffers,
            final(self).routes == old(self).routes,
            final(self).persistence == old(self).persistence,
            final(self).blobs == old(self).blobs,
    {
        self.input = frame.input;
        self.output = frame.output;
        self.phase = frame.phase;
        match outcome {
            Some(s) => s,
            None => STATUS_INTERNAL_ERROR,
        }
    }
}

} // verus!
