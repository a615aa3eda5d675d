//! The values of the library are seen as what they hold.
use vstd::prelude::*;

use crate::cgi::{CgiCommand, CgiStep, StepView};
use crate::listen::Binding;
use crate::multipart::Upload;
use crate::pages::{GetReply, GetView, PostReply, PostView};
use crate::request::HttpRequest;
use crate::response::HttpResponse;
use crate::server::{ClientAction, ClientView, Handled, HandledView};
use crate::session::{Session, SessionManager};

verus! {

/// Requests, responses and sessions are seen as their fields.
pub proof fn law_messages_are_seen(
    request: HttpRequest,
    response: HttpResponse,
    session: Session,
    manager: SessionManager,
)
    ensures
        request@.method == request.method,
        request@.path == request.path@,
        request@.headers == request.headers@,
        request@.body == request.body@,
        response@.status == response.status,
        response@.content_type == response.content_type@,
        response@.body == response.body@,
        response@.headers == response.headers.listing(),
        session@.id == session.id@,
        session@.data == session.data@,
        session@.last_accessed == session.last_accessed,
        manager@ == manager.sessions@,
{
}

/// Uploads, wishes for an address and commands are seen as their fields.
pub proof fn law_records_are_seen(
    upload: Upload,
    binding: Binding,
    command: CgiCommand,
    i: int,
)
    ensures
        upload@.name == upload.name@,
        upload@.data == upload.data@,
        binding@.address == binding.address@,
        binding@.server_idx == binding.server_idx,
        command@.program == command.program@,
        command@.args.len() == command.args@.len(),
        0 <= i < command.args@.len() ==> command@.args[i] == command.args@[i]@,
        command@.script == command.script@,
        command@.directory is Some <==> command.directory is Some,
        command.directory is Some ==> command@.directory->0 == command.directory->0@,
        command@.path_info == command.path_info@,
        command@.input == command.input@,
{
}

/// What is done next is seen as its kind with what it holds.
pub proof fn law_steps_are_seen(
    step: CgiStep,
    got: GetReply,
    posted: PostReply,
    action: ClientAction,
    answer: Handled,
    i: int,
)
    ensures
        match step {
            CgiStep::Probe { route, script } => step@ is Probe && step@->Probe_route == route
                && step@->script == script@,
            CgiStep::Run { route, mapping, command } => step@ is Run && step@->Run_route == route
                && step@->mapping == mapping && step@->command == command@,
            CgiStep::Answer(response) => step@ == StepView::Answer(response@),
            CgiStep::Nothing => step@ is Nothing,
        },
        match got {
            GetReply::Page(response) => got@ == GetView::Page(response@),
            GetReply::File(path) => got@ == GetView::File(path@),
        },
        match posted {
            PostReply::Page(response) => posted@ == PostView::Page(response@),
            PostReply::Save(files) => posted@ is Save && posted@->Save_0.len() == files@.len() && (0
                <= i < files@.len() ==> posted@->Save_0[i] == files@[i]@),
        },
        match action {
            ClientAction::Close => action@ is Close,
            ClientAction::Wait => action@ is Wait,
            ClientAction::Handle(request, idx) => action@ == ClientView::Handle(
                request@,
                idx as int,
            ),
            ClientAction::Reply(response) => action@ == ClientView::Reply(response@),
        },
        match answer {
            Handled::Respond(response) => answer@ == HandledView::Respond(response@),
            Handled::Read { session_id, path } => answer@ is Read && answer@->Read_session_id
                == session_id@ && answer@->path == path@,
            Handled::Save { session_id, files } => answer@ is Save && answer@->Save_session_id
                == session_id@ && answer@->files.len() == files@.len() && (0 <= i < files@.len()
                ==> answer@->files[i] == files@[i]@),
        },
{
}

} // verus!
