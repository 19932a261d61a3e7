//! Live session first, file second: how a tool picks the board it works on.
//!
//! The safety rule: a tool that writes may edit the board file only when there
//! is no transport to a live session at all. If a session is reachable but the
//! call failed, editing the file would happen behind the session's back, and one
//! of the two states would overwrite the other; such a tool refuses.
use crate::answer::{error_answer, Answer, CallToolResult};
use vstd::prelude::*;
use vstd::string::*;

verus! {

/// Outcome of attempting an operation over the KiCAD IPC API.
#[derive(Debug)]
pub enum IpcAttempt<T> {
    /// The IPC call succeeded.
    Success(T),
    /// No IPC transport exists (no socket configured / nothing listening).
    /// File fallback is safe: there is no live session to diverge from.
    Unavailable(String),
    /// A transport exists (live KiCAD answered or is at least present) but
    /// the call failed. Write tools must NOT fall back to file edits.
    Failed(String),
}

/// Why a call over the IPC API gave nothing.
#[derive(Debug)]
pub enum IpcError {
    /// There is no transport.
    Unavailable(String),
    /// There is a transport, and the call failed.
    Failed(String),
}

impl IpcError {
    /// The message for a person.
    pub open spec fn text(self) -> Seq<char> {
        match self {
            IpcError::Unavailable(m) => m@,
            IpcError::Failed(m) => m@,
        }
    }

    /// The message for a person.
    pub fn message(&self) -> (r: &str)
        ensures
            r@ == self.text(),
    {
        match self {
            IpcError::Unavailable(m) => m.as_str(),
            IpcError::Failed(m) => m.as_str(),
        }
    }
}

/// There is no transport: an edit of the file diverges from no live session.
pub fn is_unavailable(e: &IpcError) -> (r: bool)
    ensures
        r == (e is Unavailable),
{
    match e {
        IpcError::Unavailable(_) => true,
        IpcError::Failed(_) => false,
    }
}

/// What an exchange with the endpoint came to.
#[derive(Debug)]
pub enum IpcReply<T> {
    /// No socket path is configured, and there is no session at the default one
    /// either.
    Unconfigured,
    /// The endpoint could not be dialled.
    NoTransport(String),
    /// The endpoint was reached, and sending or receiving failed.
    Broken(String),
    /// The session answered with an error status.
    Refused(String),
    /// The session answered.
    Answered(T),
}

/// What a call gives for a reply: what the session answered, or whether there
/// is no transport, and the message.
pub open spec fn call_result<T>(reply: IpcReply<T>) -> Result<T, (bool, Seq<char>)> {
    match reply {
        IpcReply::Unconfigured => Err((true, unconfigured())),
        IpcReply::NoTransport(m) => Err((true, m@)),
        IpcReply::Broken(m) => Err((false, m@)),
        IpcReply::Refused(m) => Err((false, m@)),
        IpcReply::Answered(v) => Ok(v),
    }
}

/// The message for a missing socket path.
pub open spec fn unconfigured() -> Seq<char> {
    "KiCAD IPC socket path not configured. See TROUBLESHOOTING.md."@
}

/// The result as plain text: whether there is no transport, and the message.
pub open spec fn plain_result<T>(r: Result<T, IpcError>) -> Result<T, (bool, Seq<char>)> {
    match r {
        Ok(v) => Ok(v),
        Err(e) => Err((e is Unavailable, e.text())),
    }
}

/// A client of the IPC API of a KiCad session. The client decides what a call
/// gives for each outcome of the exchange; the exchange itself is not done here.
#[derive(Debug)]
pub struct KiCadIpcClient {
    pub address: String,
}

impl KiCadIpcClient {
    /// A client of the endpoint at `address`.
    pub fn new(address: &str) -> (r: KiCadIpcClient)
        ensures
            r.address@ == address@,
    {
        KiCadIpcClient { address: address.to_owned() }
    }

    /// What a call gives for a reply.
    pub fn call<T>(&self, reply: IpcReply<T>) -> (r: Result<T, IpcError>)
        ensures
            plain_result(r) == call_result(reply),
    {
        match reply {
            IpcReply::Unconfigured => Err(
                IpcError::Unavailable(
                    "KiCAD IPC socket path not configured. See TROUBLESHOOTING.md.".to_owned(),
                ),
            ),
            IpcReply::NoTransport(m) => Err(IpcError::Unavailable(m)),
            IpcReply::Broken(m) => Err(IpcError::Failed(m)),
            IpcReply::Refused(m) => Err(IpcError::Failed(m)),
            IpcReply::Answered(v) => Ok(v),
        }
    }

    /// The documents that the session has open.
    pub fn get_open_documents(&self, reply: IpcReply<Vec<String>>) -> (r: Result<
        Vec<String>,
        IpcError,
    >)
        ensures
            plain_result(r) == call_result(reply),
    {
        self.call(reply)
    }

    /// The session answers. An error of any kind means that it does not.
    pub fn ping(&self, reply: IpcReply<()>) -> (r: bool)
        ensures
            r == call_result(reply) is Ok,
    {
        match self.call(reply) {
            Ok(_) => true,
            Err(_) => false,
        }
    }
}

/// How the result of a call is classified.
pub open spec fn classified<T>(r: Result<T, IpcError>) -> IpcAttempt<T> {
    match r {
        Ok(v) => IpcAttempt::Success(v),
        Err(IpcError::Unavailable(m)) => IpcAttempt::Unavailable(m),
        Err(IpcError::Failed(m)) => IpcAttempt::Failed(m),
    }
}

/// Classify the result of a call.
pub fn classify<T>(r: Result<T, IpcError>) -> (a: IpcAttempt<T>)
    ensures
        a == classified(r),
{
    match r {
        Ok(v) => IpcAttempt::Success(v),
        Err(IpcError::Unavailable(m)) => IpcAttempt::Unavailable(m),
        Err(IpcError::Failed(m)) => IpcAttempt::Failed(m),
    }
}

// Refusing
/// What a tool that writes says when it refuses.
pub open spec fn refusal_text(tool: Seq<char>, msg: Seq<char>) -> Seq<char> {
    tool + ": a KiCAD IPC session is reachable but the IPC call failed ("@ + msg
        + "). Refusing to fall back to editing the .kicad_pcb file while a live KiCAD session exists — the session's unsaved state and the file would diverge and one would clobber the other. Fix the IPC-side problem (usually: open the board in KiCAD's PCB editor), or close KiCAD entirely to work file-based, then retry."@
}

/// The consistency-guard refusal for write tools: a live IPC session exists
/// but the call failed for a non-transport reason. Editing the file now would
/// happen behind the live GUI's back, so refuse with an actionable error.
pub fn ipc_write_refused(tool: &str, msg: &str) -> (r: CallToolResult)
    ensures
        r@ == error_answer(refusal_text(tool@, msg@)),
{
    CallToolResult::error(
        tool.to_owned().concat(": a KiCAD IPC session is reachable but the IPC call failed (").concat(
            msg,
        ).concat(
            "). Refusing to fall back to editing the .kicad_pcb file while a live KiCAD session exists — the session's unsaved state and the file would diverge and one would clobber the other. Fix the IPC-side problem (usually: open the board in KiCAD's PCB editor), or close KiCAD entirely to work file-based, then retry.",
        ),
    )
}

// Deciding
/// What a tool that writes does next.
#[derive(Debug)]
pub enum WriteStep<T> {
    /// The live session did it.
    Done(T),
    /// Answer that the tool refuses.
    Refuse(CallToolResult),
    /// Edit the board file.
    EditFile,
}

/// A tool that writes may edit the board file.
pub open spec fn may_edit_file<T>(attempt: IpcAttempt<T>) -> bool {
    attempt is Unavailable
}

/// What a tool that writes does after an attempt.
pub open spec fn write_decision<T>(tool: Seq<char>, attempt: IpcAttempt<T>, step: WriteStep<T>) -> bool {
    match attempt {
        IpcAttempt::Success(v) => step == WriteStep::Done(v),
        IpcAttempt::Failed(m) => step matches WriteStep::Refuse(a) && a@ == error_answer(
            refusal_text(tool, m@),
        ),
        IpcAttempt::Unavailable(_) => step is EditFile,
    }
}

/// What a tool that writes does after an attempt: take the live result, refuse
/// when a live session failed, edit the file when there is no session.
pub fn write_step<T>(tool: &str, attempt: IpcAttempt<T>) -> (r: WriteStep<T>)
    ensures
        write_decision(tool@, attempt, r),
{
    match attempt {
        IpcAttempt::Success(v) => WriteStep::Done(v),
        IpcAttempt::Failed(m) => WriteStep::Refuse(ipc_write_refused(tool, m.as_str())),
        IpcAttempt::Unavailable(_) => WriteStep::EditFile,
    }
}

/// What a tool that reads does next.
#[derive(Debug)]
pub enum ReadStep<T> {
    /// The live session answered.
    Live(T),
    /// Read the board file.
    ReadFile,
}

/// What a tool that reads does after an attempt: any failure leads to the file.
pub open spec fn read_decision<T>(attempt: IpcAttempt<T>) -> ReadStep<T> {
    match attempt {
        IpcAttempt::Success(v) => ReadStep::Live(v),
        _ => ReadStep::ReadFile,
    }
}

/// What a tool that reads does after an attempt.
pub fn read_step<T>(attempt: IpcAttempt<T>) -> (r: ReadStep<T>)
    ensures
        r == read_decision(attempt),
{
    match attempt {
        IpcAttempt::Success(v) => ReadStep::Live(v),
        IpcAttempt::Failed(_) => ReadStep::ReadFile,
        IpcAttempt::Unavailable(_) => ReadStep::ReadFile,
    }
}

/// What a tool that reads does when the session may also find nothing: only
/// something that was found is taken from it.
pub fn read_found_step<T>(attempt: IpcAttempt<Option<T>>) -> (r: ReadStep<T>)
    ensures
        r == (match attempt {
            IpcAttempt::Success(Some(v)) => ReadStep::Live(v),
            _ => ReadStep::ReadFile,
        }),
{
    match attempt {
        IpcAttempt::Success(Some(v)) => ReadStep::Live(v),
        IpcAttempt::Success(None) => ReadStep::ReadFile,
        IpcAttempt::Failed(_) => ReadStep::ReadFile,
        IpcAttempt::Unavailable(_) => ReadStep::ReadFile,
    }
}

/// What a tool does that writes only where it was given something to write. A
/// pure query may fall back to the file on any failure.
pub fn edit_step<T>(tool: &str, attempt: IpcAttempt<T>, writes: bool) -> (r: WriteStep<T>)
    ensures
        writes ==> write_decision(tool@, attempt, r),
        !writes ==> match read_decision(attempt) {
            ReadStep::Live(v) => r == WriteStep::Done(v),
            ReadStep::ReadFile => r is EditFile,
        },
{
    if writes {
        write_step(tool, attempt)
    } else {
        match read_step(attempt) {
            ReadStep::Live(v) => WriteStep::Done(v),
            ReadStep::ReadFile => WriteStep::EditFile,
        }
    }
}

/// What one of several placements over a live session gives: once the session
/// was chosen there is no way back to the file, so any failure ends the tool.
pub fn placed_item<T>(reference: &str, attempt: IpcAttempt<T>) -> (r: Result<T, CallToolResult>)
    ensures
        match attempt {
            IpcAttempt::Success(v) => r == Ok::<T, CallToolResult>(v),
            IpcAttempt::Failed(e) => r matches Err(a) && a@ == error_answer(
                "IPC error placing "@ + reference@ + ": "@ + e@,
            ),
            IpcAttempt::Unavailable(e) => r matches Err(a) && a@ == error_answer(
                "IPC error placing "@ + reference@ + ": "@ + e@,
            ),
        },
{
    match attempt {
        IpcAttempt::Success(v) => Ok(v),
        IpcAttempt::Failed(e) => Err(
            CallToolResult::error(
                "IPC error placing ".to_owned().concat(reference).concat(": ").concat(e.as_str()),
            ),
        ),
        IpcAttempt::Unavailable(e) => Err(
            CallToolResult::error(
                "IPC error placing ".to_owned().concat(reference).concat(": ").concat(e.as_str()),
            ),
        ),
    }
}

/// What one of several moves over a live session gives.
pub fn moved_item<T>(attempt: IpcAttempt<T>) -> (r: Result<T, CallToolResult>)
    ensures
        match attempt {
            IpcAttempt::Success(v) => r == Ok::<T, CallToolResult>(v),
            IpcAttempt::Failed(e) => r matches Err(a) && a@ == error_answer("IPC error: "@ + e@),
            IpcAttempt::Unavailable(e) => r matches Err(a) && a@ == error_answer(
                "IPC error: "@ + e@,
            ),
        },
{
    match attempt {
        IpcAttempt::Success(v) => Ok(v),
        IpcAttempt::Failed(e) => Err(
            CallToolResult::error("IPC error: ".to_owned().concat(e.as_str())),
        ),
        IpcAttempt::Unavailable(e) => Err(
            CallToolResult::error("IPC error: ".to_owned().concat(e.as_str())),
        ),
    }
}

// Laws
/// The safety rule: whatever a tool that writes was told to do, it edits the
/// file exactly when there is no transport, and it refuses exactly when a
/// session was reached and the call failed.
pub proof fn law_file_edits_need_no_session<T>(
    tool: Seq<char>,
    attempt: IpcAttempt<T>,
    step: WriteStep<T>,
)
    requires
        write_decision(tool, attempt, step),
    ensures
        step is EditFile <==> may_edit_file(attempt),
        step is Refuse <==> attempt is Failed,
        step is Done <==> attempt is Success,
{
}

/// From the exchange to the file: a tool that writes edits the file only if no
/// session was found for want of a socket path, or the endpoint could not be
/// dialled. A session that answered, be it with an error, or that broke off,
/// never leads there.
pub proof fn law_reached_session_keeps_the_file<T>(reply: IpcReply<T>, r: Result<T, IpcError>)
    requires
        plain_result(r) == call_result(reply),
    ensures
        may_edit_file(classified(r)) <==> (reply is NoTransport || reply is Unconfigured),
{
}

/// A tool that reads never refuses: it always has an answer to give.
pub proof fn law_reads_fall_back<T>(attempt: IpcAttempt<T>)
    ensures
        read_decision(attempt) is Live <==> attempt is Success,
        read_decision(attempt) is ReadFile <==> !(attempt is Success),
{
}

} // verus!
