//! The plugin-side runtime core: a single-slot tracker for the one request
//! that may be in flight. A new request preempts the previous one — it is
//! replaced, never queued — and a result is only answered when it belongs
//! to the request still in the slot, so a preempted request is never
//! answered at all.

use vstd::prelude::*;

use crate::protocol::{Message, MessageV, Metadata, Method, MethodResult, MethodResultV, MethodV};

verus! {

/// The runtime's state: the id of the request in flight, if any, and
/// whether a quit notification has been taken.
pub struct Runtime {
    pub in_flight: Option<usize>,
    pub stopped: bool,
}

/// Spec-level image of [`Runtime`].
pub struct RuntimeV {
    pub in_flight: Option<usize>,
    pub stopped: bool,
}

impl View for Runtime {
    type V = RuntimeV;

    open spec fn view(&self) -> RuntimeV {
        RuntimeV { in_flight: self.in_flight, stopped: self.stopped }
    }
}

/// What the runtime asks its surroundings to do.
pub enum RuntimeEffect {
    /// Signal the in-flight handler's cancellation token and abort its
    /// task.
    CancelCurrent,
    /// Start the handler for this request.
    StartHandler { id: usize, method: Method },
    /// Write one message to the daemon.
    Emit { message: Message },
    /// Stop reading input and shut the plugin down.
    Exit,
}

/// Spec-level image of [`RuntimeEffect`].
pub enum RuntimeEffectV {
    CancelCurrent,
    StartHandler { id: usize, method: MethodV },
    Emit { message: MessageV },
    Exit,
}

impl View for RuntimeEffect {
    type V = RuntimeEffectV;

    open spec fn view(&self) -> RuntimeEffectV {
        match self {
            RuntimeEffect::CancelCurrent => RuntimeEffectV::CancelCurrent,
            RuntimeEffect::StartHandler { id, method } => RuntimeEffectV::StartHandler {
                id: *id,
                method: method@,
            },
            RuntimeEffect::Emit { message } => RuntimeEffectV::Emit { message: message@ },
            RuntimeEffect::Exit => RuntimeEffectV::Exit,
        }
    }
}

impl DeepView for RuntimeEffect {
    type V = RuntimeEffectV;

    open spec fn deep_view(&self) -> RuntimeEffectV {
        self.view()
    }
}

/// The slot after a request arrives: the new id replaces whatever was
/// there.
pub open spec fn request_next(s: RuntimeV, id: usize) -> RuntimeV {
    RuntimeV { in_flight: Option::Some(id), stopped: s.stopped }
}

/// The effects of a request: cancel the previous one, if any, then start
/// the handler.
pub open spec fn request_effects(s: RuntimeV, id: usize, m: MethodV) -> Seq<RuntimeEffectV> {
    (if s.in_flight is Some {
        seq![RuntimeEffectV::CancelCurrent]
    } else {
        Seq::<RuntimeEffectV>::empty()
    }) + seq![RuntimeEffectV::StartHandler { id, method: m }]
}

/// The reply for a finished handler, when its request is still current: a
/// success wraps the result, a failure becomes an error response.
pub open spec fn done_message(id: usize, r: Result<MethodResultV, Seq<char>>) -> MessageV {
    match r {
        Result::Ok(res) => MessageV::Response {
            id,
            error: Option::None,
            result: Option::Some(res),
            plugin_id: Option::None,
        },
        Result::Err(e) => MessageV::Response {
            id,
            error: Option::Some(e),
            result: Option::None,
            plugin_id: Option::None,
        },
    }
}

/// The effects of a finished handler: its reply goes out only when its id
/// is the one still in the slot; a preempted request produces nothing.
pub open spec fn done_effects(s: RuntimeV, id: usize, r: Result<MethodResultV, Seq<char>>) -> Seq<
    RuntimeEffectV,
> {
    if s.in_flight == Option::Some(id) {
        seq![RuntimeEffectV::Emit { message: done_message(id, r) }]
    } else {
        Seq::empty()
    }
}

/// The slot after a finished handler: cleared when it was this handler's
/// request, untouched otherwise.
pub open spec fn done_next(s: RuntimeV, id: usize) -> RuntimeV {
    if s.in_flight == Option::Some(id) {
        RuntimeV { in_flight: Option::None, stopped: s.stopped }
    } else {
        s
    }
}

impl Runtime {
    /// A fresh runtime: nothing in flight.
    pub fn new() -> (r: Runtime)
        ensures
            r@.in_flight is None,
            !r@.stopped,
    {
        Runtime { in_flight: None, stopped: false }
    }

    /// The handshake written on startup: the plugin declares its identity
    /// under the reserved id zero.
    pub fn authenticate_message(md: Metadata) -> (r: Message)
        ensures
            r@ == (MessageV::Response {
                id: 0,
                error: Option::None,
                result: Option::Some(MethodResultV::Authenticate(md@)),
                plugin_id: Option::None,
            }),
    {
        Message::Response {
            id: 0,
            error: None,
            result: Some(MethodResult::Authenticate(md)),
            plugin_id: None,
        }
    }

    /// A new request arrives: whatever is in flight is cancelled first,
    /// then the new handler starts. At most one request runs at a time.
    pub fn on_request(&mut self, id: usize, method: Method) -> (effects: Vec<RuntimeEffect>)
        requires
            !old(self)@.stopped,
        ensures
            final(self)@ == request_next(old(self)@, id),
            effects.deep_view() == request_effects(old(self)@, id, method@),
    {
        let mut effects: Vec<RuntimeEffect> = Vec::new();
        proof {
            assert(effects.deep_view() =~= Seq::<RuntimeEffectV>::empty());
        }
        let ghost s0 = self@;
        if self.in_flight.is_some() {
            effects.push(RuntimeEffect::CancelCurrent);
        }
        self.in_flight = Some(id);
        effects.push(RuntimeEffect::StartHandler { id, method });
        proof {
            assert(effects.deep_view() =~= request_effects(s0, id, method@));
        }
        effects
    }

    /// A cancel notification: the in-flight request, if any, is cancelled
    /// and the slot cleared; no response is sent for it.
    pub fn on_cancel(&mut self) -> (effects: Vec<RuntimeEffect>)
        ensures
            final(self)@.in_flight is None,
            final(self)@.stopped == old(self)@.stopped,
            effects.deep_view() == (if old(self)@.in_flight is Some {
                seq![RuntimeEffectV::CancelCurrent]
            } else {
                Seq::<RuntimeEffectV>::empty()
            }),
    {
        let mut effects: Vec<RuntimeEffect> = Vec::new();
        proof {
            assert(effects.deep_view() =~= Seq::<RuntimeEffectV>::empty());
        }
        if self.in_flight.is_some() {
            effects.push(RuntimeEffect::CancelCurrent);
            proof {
                assert(effects.deep_view() =~= seq![RuntimeEffectV::CancelCurrent]);
            }
        }
        self.in_flight = None;
        effects
    }

    /// A quit notification: stop reading input and exit.
    pub fn on_quit(&mut self) -> (effects: Vec<RuntimeEffect>)
        ensures
            final(self)@.stopped,
            final(self)@.in_flight == old(self)@.in_flight,
            effects.deep_view() == seq![RuntimeEffectV::Exit],
    {
        self.stopped = true;
        let mut effects: Vec<RuntimeEffect> = Vec::new();
        effects.push(RuntimeEffect::Exit);
        proof {
            assert(effects.deep_view() =~= seq![RuntimeEffectV::Exit]);
        }
        effects
    }

    /// A handler finished, well or badly. Its reply is emitted only when
    /// its request is the one still in the slot; a handler whose request
    /// was preempted or cancelled is silent. A handler fault becomes an
    /// error response, it never brings the runtime down.
    pub fn on_handler_done(&mut self, id: usize, outcome: Result<MethodResult, String>) -> (effects:
        Vec<RuntimeEffect>)
        ensures
            final(self)@ == done_next(old(self)@, id),
            effects.deep_view() == done_effects(
                old(self)@,
                id,
                match outcome {
                    Result::Ok(r) => Result::Ok(r@),
                    Result::Err(e) => Result::Err(e@),
                },
            ),
    {
        let mut effects: Vec<RuntimeEffect> = Vec::new();
        proof {
            assert(effects.deep_view() =~= Seq::<RuntimeEffectV>::empty());
        }
        let ghost s0 = self@;
        let current = match &self.in_flight {
            Some(cur) => *cur == id,
            None => false,
        };
        if !current {
            return effects;
        }
        self.in_flight = None;
        let message = match outcome {
            Ok(res) => Message::Response {
                id,
                error: None,
                result: Some(res),
                plugin_id: None,
            },
            Err(e) => Message::Response {
                id,
                error: Some(e),
                result: None,
                plugin_id: None,
            },
        };
        effects.push(RuntimeEffect::Emit { message });
        proof {
            assert(effects.deep_view() =~= done_effects(
                s0,
                id,
                match outcome {
                    Result::Ok(r) => Result::Ok(r@),
                    Result::Err(e) => Result::Err(e@),
                },
            ));
        }
        effects
    }
}

/// Two requests to one runtime without an intervening response: the
/// second begins by cancelling the first, the preempted handler's eventual
/// result is never answered, and only the second request completes.
pub proof fn lemma_single_in_flight(
    s0: RuntimeV,
    id1: usize,
    m1: MethodV,
    id2: usize,
    m2: MethodV,
    r1: Result<MethodResultV, Seq<char>>,
    r2: Result<MethodResultV, Seq<char>>,
)
    requires
        id1 != id2,
    ensures
        ({
            let s1 = request_next(s0, id1);
            let s2 = request_next(s1, id2);
            // the second request replaces the first: cancel, then start
            &&& request_effects(s1, id2, m2) == seq![
                RuntimeEffectV::CancelCurrent,
                RuntimeEffectV::StartHandler { id: id2, method: m2 },
            ]
            // the preempted handler's result is dropped: no response for id1
            &&& done_effects(s2, id1, r1) == Seq::<RuntimeEffectV>::empty()
            // the current handler's result is answered
            &&& done_effects(s2, id2, r2) == seq![
                RuntimeEffectV::Emit { message: done_message(id2, r2) },
            ]
        }),
{
    let s1 = request_next(s0, id1);
    assert(seq![RuntimeEffectV::CancelCurrent] + seq![
        RuntimeEffectV::StartHandler { id: id2, method: m2 },
    ] =~= seq![
        RuntimeEffectV::CancelCurrent,
        RuntimeEffectV::StartHandler { id: id2, method: m2 },
    ]);
}

} // verus!
