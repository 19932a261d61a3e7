//! How a live session and the file come together.
use crate::answer::error_answer;
use crate::ipc::{
    call_result, classified, read_decision, write_decision, IpcAttempt, IpcError, IpcReply,
    ReadStep, WriteStep,
};
use vstd::prelude::*;
use vstd::string::*;

verus! {

/// What came back is an answer, or there is no session at all, or there is one
/// and the call failed.
pub proof fn law_replies_are_told_apart<T>(v: T, m: String)
    ensures
        call_result(IpcReply::Answered(v)) == Ok::<T, (bool, Seq<char>)>(v),
        call_result(IpcReply::<T>::NoTransport(m)) == Err::<T, (bool, Seq<char>)>((true, m@)),
        call_result(IpcReply::<T>::Broken(m)) == Err::<T, (bool, Seq<char>)>((false, m@)),
        call_result(IpcReply::<T>::Refused(m)) == Err::<T, (bool, Seq<char>)>((false, m@)),
        call_result(IpcReply::<T>::Unconfigured) == Err::<T, (bool, Seq<char>)>(
            (true, "KiCAD IPC socket path not configured. See TROUBLESHOOTING.md."@),
        ),
        classified(Ok::<T, IpcError>(v)) == IpcAttempt::Success(v),
        classified(Err::<T, IpcError>(IpcError::Unavailable(m))) == IpcAttempt::<T>::Unavailable(m),
        classified(Err::<T, IpcError>(IpcError::Failed(m))) == IpcAttempt::<T>::Failed(m),
{
}

/// What a write does next: it is done, or it is refused with a reason, or the
/// file is edited; the file only where there is no session.
pub proof fn law_a_write_is_done_refused_or_made_in_the_file<T>(
    tool: Seq<char>,
    v: T,
    m: String,
    step: WriteStep<T>,
)
    ensures
        write_decision(tool, IpcAttempt::Success(v), step) <==> step == WriteStep::Done(v),
        write_decision(tool, IpcAttempt::Unavailable(m), step) <==> step is EditFile,
        write_decision(tool, IpcAttempt::Failed(m), step) <==> (step matches WriteStep::Refuse(a)
            && a@ == error_answer(
            tool + ": a KiCAD IPC session is reachable but the IPC call failed ("@ + m@
                + "). Refusing to fall back to editing the .kicad_pcb file while a live KiCAD session exists — the session's unsaved state and the file would diverge and one would clobber the other. Fix the IPC-side problem (usually: open the board in KiCAD's PCB editor), or close KiCAD entirely to work file-based, then retry."@,
        )),
{
}

/// What a read does next: it takes the answer of the session, else it reads the
/// file.
pub proof fn law_a_read_takes_the_session_first<T>(v: T, m: String)
    ensures
        read_decision(IpcAttempt::Success(v)) == ReadStep::Live(v),
        read_decision(IpcAttempt::<T>::Failed(m)) == ReadStep::<T>::ReadFile,
        read_decision(IpcAttempt::<T>::Unavailable(m)) == ReadStep::<T>::ReadFile,
{
}

} // verus!
