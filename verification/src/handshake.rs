//! The life of a session: from `initialize` over `shutdown` to `exit`.

use crate::jsonrpc::{
    INVALID_REQUEST, Json, Notification, Request, Response, ResponseView, error_response,
    success_response,
};
use crate::text::same_text;
use vstd::prelude::*;
use vstd::string::*;

verus! {

pub const METHOD_NOT_FOUND: i64 = -32601;

pub const SERVER_NOT_INITIALIZED: i64 = -32002;

#[derive(Debug, Clone, Copy, PartialEq, Eq, Structural)]
pub enum State {
    Uninitialized,
    Initialized,
    ShuttingDown,
}

#[derive(Debug, Clone, Copy, PartialEq, Eq, Structural)]
pub enum ExitAction {
    Continue,
    Exit(i32),
}

pub struct Handshake {
    state: State,
}

/// What the server can do, as the answer to `initialize`: documents are kept in
/// step incrementally, and there are definitions, hovers and completions, the
/// last asked for after a dot too.
pub open spec fn capabilities() -> Seq<char> {
    "{\"capabilities\":{\"completionProvider\":{\"triggerCharacters\":[\".\"]},\"definitionProvider\":true,\"hoverProvider\":true,\"textDocumentSync\":{\"change\":2,\"openClose\":true}}}"@
}

/// The state behind a request, and the response to it.
pub open spec fn handled(state: State, id: Seq<char>, method: Seq<char>) -> (State, ResponseView) {
    match state {
        State::Uninitialized => if method == "initialize"@ {
            (State::Initialized, success_response(id, capabilities()))
        } else {
            (state, error_response(id, SERVER_NOT_INITIALIZED, "server not initialized"@))
        },
        State::Initialized => if method == "shutdown"@ {
            (State::ShuttingDown, success_response(id, "null"@))
        } else if method == "initialize"@ {
            (state, error_response(id, INVALID_REQUEST, "server already initialized"@))
        } else {
            (state, error_response(id, METHOD_NOT_FOUND, "method not found: "@ + method))
        },
        State::ShuttingDown => (
            state,
            error_response(id, INVALID_REQUEST, "server is shutting down"@),
        ),
    }
}

/// What a notification asks the process to do: `exit` ends it, with success
/// only behind a `shutdown`.
pub open spec fn exit_action(state: State, method: Seq<char>) -> ExitAction {
    if method == "exit"@ {
        if state == State::ShuttingDown {
            ExitAction::Exit(0)
        } else {
            ExitAction::Exit(1)
        }
    } else {
        ExitAction::Continue
    }
}

impl View for Handshake {
    type V = State;

    closed spec fn view(&self) -> State {
        self.state
    }
}

impl Handshake {
    pub fn new() -> (r: Self)
        ensures
            r@ == State::Uninitialized,
    {
        Self { state: State::Uninitialized }
    }

    pub fn handle_request(&mut self, request: &Request) -> (r: Response)
        ensures
            (final(self)@, r@) == handled(old(self)@, request.id@, request.method@),
    {
        let id = request.id.clone();
        let method = request.method.as_str();
        match self.state {
            State::Uninitialized => {
                if same_text(method, "initialize") {
                    self.state = State::Initialized;
                    Response::success(
                        id,
                        Json::new(
                            "{\"capabilities\":{\"completionProvider\":{\"triggerCharacters\":[\".\"]},\"definitionProvider\":true,\"hoverProvider\":true,\"textDocumentSync\":{\"change\":2,\"openClose\":true}}}",
                        ),
                    )
                } else {
                    Response::error(id, SERVER_NOT_INITIALIZED, "server not initialized")
                }
            },
            State::Initialized => {
                if same_text(method, "shutdown") {
                    self.state = State::ShuttingDown;
                    Response::success(id, Json::null())
                } else if same_text(method, "initialize") {
                    Response::error(id, INVALID_REQUEST, "server already initialized")
                } else {
                    let mut message = "method not found: ".to_owned();
                    message.append(method);
                    Response::error(id, METHOD_NOT_FOUND, message.as_str())
                }
            },
            State::ShuttingDown => {
                Response::error(id, INVALID_REQUEST, "server is shutting down")
            },
        }
    }

    pub fn is_initialized(&self) -> (r: bool)
        ensures
            r == (self@ == State::Initialized),
    {
        self.state == State::Initialized
    }

    pub fn handle_notification(&self, notification: &Notification) -> (r: ExitAction)
        ensures
            r == exit_action(self@, notification.method@),
    {
        if same_text(notification.method.as_str(), "exit") {
            if self.state == State::ShuttingDown {
                ExitAction::Exit(0)
            } else {
                ExitAction::Exit(1)
            }
        } else {
            ExitAction::Continue
        }
    }
}

impl Default for Handshake {
    fn default() -> (r: Self)
        ensures
            r@ == State::Uninitialized,
    {
        Self::new()
    }
}

// ---------------------------------------------------------------------------
// Laws
// ---------------------------------------------------------------------------

/// The states behind a list of requests, by their methods.
pub open spec fn state_after(state: State, methods: Seq<Seq<char>>) -> State
    decreases methods.len(),
{
    if methods.len() == 0 {
        state
    } else {
        handled(state_after(state, methods.drop_last()), Seq::empty(), methods.last()).0
    }
}

/// A request that is refused leaves the session as it was, and only a refused
/// request does.
pub proof fn law_a_refused_request_changes_nothing(state: State, id: Seq<char>, method: Seq<char>)
    ensures
        handled(state, id, method).1.outcome is Err <==> handled(state, id, method).0 == state,
{
}

/// Every response carries the id of its request.
pub proof fn law_responses_carry_the_request_id(state: State, id: Seq<char>, method: Seq<char>)
    ensures
        handled(state, id, method).1.id == id,
{
}

/// The process exits with success exactly where an `initialize` was followed,
/// at once or later, by a `shutdown`.
pub proof fn law_exit_is_clean_only_after_shutdown(methods: Seq<Seq<char>>)
    ensures
        exit_action(state_after(State::Uninitialized, methods), "exit"@) == ExitAction::Exit(0)
            <==> exists|i: int, j: int|
            0 <= i < j < methods.len() && #[trigger] methods[i] == "initialize"@
                && #[trigger] methods[j] == "shutdown"@,
        state_after(State::Uninitialized, methods) != State::Uninitialized <==> methods.contains(
            "initialize"@,
        ),
    decreases methods.len(),
{
    reveal_strlit("initialize");
    reveal_strlit("shutdown");
    assert("initialize"@.len() != "shutdown"@.len());
    if methods.len() > 0 {
        let before = methods.drop_last();
        law_exit_is_clean_only_after_shutdown(before);
        let last = methods.last();
        assert(methods[methods.len() - 1] == last);
        assert(forall|k: int| 0 <= k < before.len() ==> before[k] == methods[k]);
        assert(methods.contains("initialize"@) <==> before.contains("initialize"@) || last
            == "initialize"@) by {
            if before.contains("initialize"@) {
                let k = choose|k: int| 0 <= k < before.len() && before[k] == "initialize"@;
                assert(methods[k] == "initialize"@);
            }
            if methods.contains("initialize"@) {
                let k = choose|k: int| 0 <= k < methods.len() && methods[k] == "initialize"@;
                if k < before.len() {
                    assert(before[k] == "initialize"@);
                }
            }
        }
        let s = state_after(State::Uninitialized, before);
        if s == State::Initialized && last == "shutdown"@ {
            let k = choose|k: int| 0 <= k < before.len() && before[k] == "initialize"@;
            assert(methods[k] == "initialize"@);
        }
        if s == State::ShuttingDown {
            let (i, j) = choose|i: int, j: int|
                0 <= i < j < before.len() && #[trigger] before[i] == "initialize"@
                    && #[trigger] before[j] == "shutdown"@;
            assert(methods[i] == "initialize"@ && methods[j] == "shutdown"@);
        }
        if state_after(State::Uninitialized, methods) != State::ShuttingDown {
            assert forall|i: int, j: int|
                0 <= i < j < methods.len() && #[trigger] methods[i] == "initialize"@
                    && #[trigger] methods[j] == "shutdown"@ implies false by {
                if j < before.len() {
                    assert(before[i] == "initialize"@ && before[j] == "shutdown"@);
                } else {
                    assert(before[i] == "initialize"@);
                    assert(before.contains("initialize"@));
                }
            }
        }
    }
}

/// Before `initialize` every other request is refused as too early; behind it a
/// second one is refused, a method that is not known is named, and `shutdown` is
/// answered with null; behind that every request is refused.
pub proof fn law_requests_are_answered_by_the_state(id: Seq<char>, method: Seq<char>)
    ensures
        ({
            let (state, response) = handled(State::Uninitialized, id, method);
            if method == "initialize"@ {
                state == State::Initialized && response.outcome is Ok
            } else {
                state == State::Uninitialized && response.outcome is Err
                    && (response.outcome->Err_0).0 == -32002
            }
        }),
        ({
            let (state, response) = handled(State::Initialized, id, method);
            if method == "shutdown"@ {
                state == State::ShuttingDown && response.outcome == Ok::<
                    Seq<char>,
                    (i64, Seq<char>),
                >("null"@)
            } else {
                state == State::Initialized && response.outcome is Err
                    && (response.outcome->Err_0).0 == if method == "initialize"@ {
                    -32600i64
                } else {
                    -32601i64
                } && (method != "initialize"@ ==> method.is_suffix_of((response.outcome->Err_0).1))
            }
        }),
        ({
            let (state, response) = handled(State::ShuttingDown, id, method);
            state == State::ShuttingDown && response.outcome is Err && (response.outcome->Err_0).0
                == -32600
        }),
{
    reveal_strlit("initialize");
    reveal_strlit("shutdown");
    assert("initialize"@.len() != "shutdown"@.len());
    let message = "method not found: "@ + method;
    assert(message.skip(message.len() - method.len()) =~= method);
}

} // verus!
