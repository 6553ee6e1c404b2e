//! The conversation with a client: a message comes in, and what is to be
//! written, done in the background and asked of the process goes out.

use crate::handshake::ExitAction;
use crate::jsonrpc::{
    Incoming, IncomingView, OutgoingView, Response, ResponseView, json_shape, notification_text,
    outgoing_views, parse_incoming, received, response_text,
};
use crate::params::fits;
use crate::server::{
    Server, ServerView, Task, TaskView, generations_counted, law_a_request_is_answered_under_its_id,
    law_generations_stay_counted, notified, requested, task_views,
};
use crate::transport::{
    MAX_MESSAGE_LEN, TransportError, framed, framed_all, law_messages_are_read_in_the_order_written,
    law_read_gives_back_what_was_written, message_at, write_message,
};
use crate::workspace_index::{IndexView, WorkspaceIndex};
use vstd::prelude::*;
use vstd::string::*;
use vstd::utf8::encode_utf8;

verus! {

/// What came of a message: the bytes to write, the tasks to carry out, and what
/// is asked of the process.
pub struct Turn {
    pub action: ExitAction,
    pub output: Vec<u8>,
    pub tasks: Vec<Task>,
}

/// A response as it is written.
pub open spec fn response_bytes(response: ResponseView) -> Seq<u8> {
    framed(encode_utf8(response_text(response)))
}

/// The bodies of notifications.
pub open spec fn notification_bodies(sent: Seq<OutgoingView>) -> Seq<Seq<u8>> {
    sent.map_values(|n: OutgoingView| encode_utf8(notification_text(n)))
}

/// Notifications as they are written, one after the other.
pub open spec fn notification_bytes(sent: Seq<OutgoingView>) -> Seq<u8> {
    framed_all(notification_bodies(sent))
}

/// A message that was received, or the response to what is none.
pub open spec fn message_view(message: Result<Incoming, Response>) -> Result<
    IncomingView,
    ResponseView,
> {
    match message {
        Ok(m) => Ok(m@),
        Err(r) => Err(r@),
    }
}

/// Whether no URI in a message's parameters can be too long to be read.
pub open spec fn message_fits(message: Result<IncomingView, ResponseView>) -> bool {
    match message {
        Ok(IncomingView::Request { id: _, method: _, params }) => fits(params),
        Ok(IncomingView::Notification { method: _, params }) => fits(params),
        Err(_) => true,
    }
}

/// Whether a server and what it writes follow from a request: one response.
pub open spec fn request_answered(
    before: ServerView,
    after: ServerView,
    index: IndexView,
    id: Seq<char>,
    method: Seq<char>,
    params: Seq<char>,
    output: Seq<u8>,
) -> bool {
    exists|response: ResponseView|
        {
            &&& #[trigger] requested(before, after, index, id, method, params, response)
            &&& output == response_bytes(response)
        }
}

/// Whether a server, what it writes, its tasks and what it asks of the process
/// follow from a notification: any number of notifications, and no response.
pub open spec fn notification_taken(
    before: ServerView,
    after: ServerView,
    method: Seq<char>,
    params: Seq<char>,
    action: ExitAction,
    output: Seq<u8>,
    tasks: Seq<TaskView>,
) -> bool {
    exists|sent: Seq<OutgoingView>|
        {
            &&& #[trigger] notified(before, after, method, params, action, sent, tasks)
            &&& output == notification_bytes(sent)
        }
}

/// Whether a server, what it writes, its tasks and what it asks of the process
/// follow from a message. A request is answered with one response, and so is
/// what is no message, which changes nothing; a notification is not answered.
pub open spec fn turned(
    before: ServerView,
    after: ServerView,
    index: IndexView,
    message: Result<IncomingView, ResponseView>,
    action: ExitAction,
    output: Seq<u8>,
    tasks: Seq<TaskView>,
) -> bool {
    match message {
        Err(response) => {
            &&& after == before
            &&& action == ExitAction::Continue
            &&& output == response_bytes(response)
            &&& tasks.len() == 0
        },
        Ok(IncomingView::Request { id, method, params }) => {
            &&& action == ExitAction::Continue
            &&& tasks.len() == 0
            &&& request_answered(before, after, index, id, method, params, output)
        },
        Ok(IncomingView::Notification { method, params }) => notification_taken(
            before,
            after,
            method,
            params,
            action,
            output,
            tasks,
        ),
    }
}

fn fits_params(params: &str) -> (r: bool)
    ensures
        r == fits(params@),
{
    params.as_bytes().len() <= 0x7FFF_FFFF
}

/// Takes in a message that was received, or what was no message. `None`, with
/// nothing changed, where the parameters are longer than a URI may be.
pub fn take_in(
    server: &mut Server,
    index: &WorkspaceIndex,
    message: Result<Incoming, Response>,
) -> (r: Option<Turn>)
    requires
        old(server).wf(),
        index.wf(),
    ensures
        final(server).wf(),
        r is Some <==> message_fits(message_view(message)),
        match r {
            Some(turn) => turned(
                old(server)@,
                final(server)@,
                index@,
                message_view(message),
                turn.action,
                turn.output@,
                task_views(turn.tasks@),
            ),
            None => final(server)@ == old(server)@,
        },
{
    let ghost before = server@;
    let mut output: Vec<u8> = Vec::new();
    let tasks: Vec<Task> = Vec::new();
    assert(task_views(tasks@).len() == 0);
    match message {
        Err(response) => {
            write_message(&mut output, response.to_json().as_str().as_bytes());
            assert(output@ =~= response_bytes(response@));
            Some(Turn { action: ExitAction::Continue, output, tasks })
        },
        Ok(Incoming::Request(request)) => {
            if !fits_params(request.params.text.as_str()) {
                return None;
            }
            let response = server.handle_request(&request, index);
            write_message(&mut output, response.to_json().as_str().as_bytes());
            assert(output@ =~= response_bytes(response@));
            assert(request_answered(
                before,
                server@,
                index@,
                request.id@,
                request.method@,
                request.params@,
                output@,
            ));
            Some(Turn { action: ExitAction::Continue, output, tasks })
        },
        Ok(Incoming::Notification(notification)) => {
            if !fits_params(notification.params.text.as_str()) {
                return None;
            }
            let outcome = server.handle_notification(&notification);
            let ghost sent = outgoing_views(outcome.sent@);
            let mut i: usize = 0;
            assert(notification_bodies(sent.take(0)) =~= Seq::empty());
            while i < outcome.sent.len()
                invariant
                    i <= outcome.sent.len(),
                    sent == outgoing_views(outcome.sent@),
                    output@ == notification_bytes(sent.take(i as int)),
                decreases outcome.sent.len() - i,
            {
                write_message(&mut output, outcome.sent[i].to_json().as_str().as_bytes());
                proof {
                    let now = notification_bodies(sent.take(i + 1));
                    assert(now.drop_last() =~= notification_bodies(sent.take(i as int)));
                    assert(now.last() == encode_utf8(notification_text(sent[i as int])));
                }
                i += 1;
            }
            assert(sent.take(i as int) =~= sent);
            assert(notification_taken(
                before,
                server@,
                notification.method@,
                notification.params@,
                outcome.action,
                output@,
                task_views(outcome.tasks@),
            ));
            Some(Turn { action: outcome.action, output, tasks: outcome.tasks })
        },
    }
}

/// Takes in the body of a message. `None`, with nothing changed, where the
/// parameters in it are longer than a URI may be.
pub fn handle_message(server: &mut Server, index: &WorkspaceIndex, body: &[u8]) -> (r: Option<Turn>)
    requires
        old(server).wf(),
        index.wf(),
    ensures
        final(server).wf(),
        r is Some <==> message_fits(received(json_shape(body@))),
        match r {
            Some(turn) => turned(
                old(server)@,
                final(server)@,
                index@,
                received(json_shape(body@)),
                turn.action,
                turn.output@,
                task_views(turn.tasks@),
            ),
            None => final(server)@ == old(server)@,
        },
{
    take_in(server, index, parse_incoming(body))
}

// ---------------------------------------------------------------------------
// Laws
// ---------------------------------------------------------------------------

/// What is written for a request reads as one message, whatever is written
/// before and behind it: the response, under the request's id.
pub proof fn law_a_request_gets_one_response(
    before: ServerView,
    after: ServerView,
    index: IndexView,
    id: Seq<char>,
    method: Seq<char>,
    params: Seq<char>,
    action: ExitAction,
    output: Seq<u8>,
    tasks: Seq<TaskView>,
    earlier: Seq<u8>,
    rest: Seq<u8>,
)
    requires
        turned(
            before,
            after,
            index,
            Ok(IncomingView::Request { id, method, params }),
            action,
            output,
            tasks,
        ),
        output.len() <= MAX_MESSAGE_LEN,
    ensures
        exists|response: ResponseView|
            {
                &&& #[trigger] requested(before, after, index, id, method, params, response)
                &&& response.id == id
                &&& message_at(earlier + output + rest, earlier.len() as int) == Ok::<
                    Option<(Seq<u8>, int)>,
                    TransportError,
                >(
                    Some(
                        (
                            encode_utf8(response_text(response)),
                            (earlier.len() + output.len()) as int,
                        ),
                    ),
                )
            },
{
    let response = choose|response: ResponseView|
        {
            &&& #[trigger] requested(before, after, index, id, method, params, response)
            &&& output == response_bytes(response)
        };
    law_a_request_is_answered_under_its_id(before, after, index, id, method, params, response);
    law_read_gives_back_what_was_written(
        earlier,
        encode_utf8(response_text(response)),
        rest,
    );
}

/// What is written for a notification reads as the notifications that are sent,
/// in their order and nothing else.
pub proof fn law_notifications_are_read_in_the_order_sent(sent: Seq<OutgoingView>, i: int)
    requires
        0 <= i <= sent.len(),
        i < sent.len() ==> encode_utf8(notification_text(sent[i])).len() <= MAX_MESSAGE_LEN,
    ensures
        message_at(notification_bytes(sent), notification_bytes(sent.take(i)).len() as int) == Ok::<
            Option<(Seq<u8>, int)>,
            TransportError,
        >(
            if i < sent.len() {
                Some(
                    (
                        encode_utf8(notification_text(sent[i])),
                        notification_bytes(sent.take(i + 1)).len() as int,
                    ),
                )
            } else {
                None
            },
        ),
{
    let bodies = notification_bodies(sent);
    law_messages_are_read_in_the_order_written(bodies, i);
    assert(bodies.take(i) =~= notification_bodies(sent.take(i)));
    if i < sent.len() {
        assert(bodies.take(i + 1) =~= notification_bodies(sent.take(i + 1)));
    }
}

/// Only the `exit` notification ends the conversation.
pub proof fn law_only_exit_ends_the_conversation(
    before: ServerView,
    after: ServerView,
    index: IndexView,
    message: Result<IncomingView, ResponseView>,
    action: ExitAction,
    output: Seq<u8>,
    tasks: Seq<TaskView>,
)
    requires
        turned(before, after, index, message, action, output, tasks),
    ensures
        action != ExitAction::Continue ==> match message {
            Ok(IncomingView::Notification { method, params: _ }) => method == "exit"@,
            _ => false,
        },
{
}

/// Whatever message comes in, no document's session has a generation that the
/// server has not counted to.
pub proof fn law_every_message_keeps_the_generations_counted(
    before: ServerView,
    after: ServerView,
    index: IndexView,
    message: Result<IncomingView, ResponseView>,
    action: ExitAction,
    output: Seq<u8>,
    tasks: Seq<TaskView>,
)
    requires
        generations_counted(before),
        turned(before, after, index, message, action, output, tasks),
    ensures
        generations_counted(after),
        after.generation >= before.generation,
{
    if let Ok(IncomingView::Notification { method, params }) = message {
        let sent = choose|sent: Seq<OutgoingView>|
            {
                &&& #[trigger] notified(before, after, method, params, action, sent, tasks)
                &&& output == notification_bytes(sent)
            };
        law_generations_stay_counted(before, after, method, params, action, sent, tasks);
    }
}

} // verus!
