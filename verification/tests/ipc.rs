use konnect::answer::{CallToolResult, Source, ToolContent};
use konnect::ipc::{
    classify, edit_step, ipc_write_refused, is_unavailable, moved_item, placed_item,
    read_found_step, read_step, write_step, IpcAttempt, IpcError, IpcReply, KiCadIpcClient,
    ReadStep, WriteStep,
};
use std::time::Duration;

fn body_text(result: &CallToolResult) -> String {
    match result.content.first() {
        Some(ToolContent::Text { text }) => text.clone(),
        other => panic!("expected text content, got {other:?}"),
    }
}

/// Dials a TCP endpoint and says what came of it.
fn dial<T>(address: &str) -> IpcReply<T> {
    let runtime = tokio::runtime::Builder::new_current_thread().enable_all().build().unwrap();
    let endpoint = address.trim_start_matches("tcp://").to_string();
    match runtime.block_on(tokio::net::TcpStream::connect(endpoint)) {
        Ok(_) => IpcReply::Broken("the endpoint does not speak the API".to_string()),
        Err(e) => IpcReply::NoTransport(format!("dial {address}: {e}")),
    }
}

/// An endpoint at which nothing listens.
const DEAD: &str = "tcp://127.0.0.1:1";

fn no_board<T>() -> IpcReply<T> {
    IpcReply::Refused("no board open".to_string())
}

#[test]
fn kicad_error_status_maps_to_err() {
    let client = KiCadIpcClient::new("tcp://127.0.0.1:4711");
    // An error is no answer to a ping, whatever it says.
    assert!(!client.ping(no_board()));

    // A typed call surfaces the error text.
    let err = client.get_open_documents(no_board()).unwrap_err();
    assert!(err.message().contains("no board open"), "unexpected error: {}", err.message());
}

#[test]
fn ping_succeeds_when_the_session_answers() {
    let client = KiCadIpcClient::new("tcp://127.0.0.1:4711");
    assert!(client.ping(IpcReply::Answered(())));
    assert!(!client.ping(IpcReply::Broken("receive timed out".to_string())));
}

#[test]
fn unreachable_endpoint_errors_fast() {
    // Nothing listens here; dial must fail with an error, not hang.
    let client = KiCadIpcClient::new(DEAD);
    let start = std::time::Instant::now();
    let result = client.get_open_documents(dial(&client.address));
    assert!(result.is_err());
    assert!(
        start.elapsed() < Duration::from_secs(10),
        "dial to dead endpoint took {:?}",
        start.elapsed()
    );
}

#[test]
fn empty_socket_path_is_configuration_error() {
    let client = KiCadIpcClient::new("");
    let err = client.get_open_documents(IpcReply::Unconfigured).unwrap_err();
    let err = err.message();
    assert!(err.contains("socket path not configured"), "unexpected error: {err}");
    assert!(
        err.contains("TROUBLESHOOTING"),
        "error should link the troubleshooting guide: {err}"
    );
}

#[test]
fn dead_endpoint_and_unconfigured_socket_classify_as_unavailable() {
    let client = KiCadIpcClient::new(DEAD);
    let err = client.get_open_documents(dial(&client.address)).unwrap_err();
    assert!(
        is_unavailable(&err),
        "dial failure must classify as transport-unavailable: {}",
        err.message()
    );

    let client = KiCadIpcClient::new("");
    let err = client.get_open_documents(IpcReply::Unconfigured).unwrap_err();
    assert!(
        is_unavailable(&err),
        "unconfigured socket must classify as transport-unavailable: {}",
        err.message()
    );
}

#[test]
fn a_session_found_without_a_path_keeps_the_file() {
    // The default socket may reach a session though no path is configured.
    let client = KiCadIpcClient::new("");
    let done = classify(client.call(IpcReply::Answered(7)));
    assert!(matches!(write_step("move_component", done), WriteStep::Done(7)));
    let refused = classify(client.call(no_board::<u32>()));
    assert!(matches!(write_step("move_component", refused), WriteStep::Refuse(_)));
    let nobody = classify(client.call(IpcReply::<u32>::Unconfigured));
    assert!(matches!(write_step("move_component", nobody), WriteStep::EditFile));
}

#[test]
fn application_error_from_live_session_is_not_unavailable() {
    let client = KiCadIpcClient::new("tcp://127.0.0.1:4711");
    let err = client.get_open_documents(no_board()).unwrap_err();
    assert!(
        !is_unavailable(&err),
        "a live session's application error must NOT classify as unavailable: {}",
        err.message()
    );
}

#[test]
fn write_tools_refuse_file_fallback_when_live_session_errors() {
    let client = KiCadIpcClient::new("tcp://127.0.0.1:4711");
    for name in [
        "move_component",
        "rotate_component",
        "delete_component",
        "edit_component",
        "place_component",
        "duplicate_component",
        "align_components",
        "place_component_array",
        "route_trace",
        "add_via",
        "delete_trace",
        "modify_trace",
        "route_pad_to_pad",
        "route_differential_pair",
    ] {
        let attempt = classify(client.get_open_documents(no_board()));
        match write_step(name, attempt) {
            WriteStep::Refuse(r) => {
                assert!(r.is_error, "{name} must refuse against a failing live session");
                let text = body_text(&r);
                assert!(
                    text.contains("Refusing"),
                    "{name} refusal must explain itself, got: {text}"
                );
                assert!(text.starts_with(name));
                assert!(text.contains("(no board open)"));
            }
            other => panic!("{name} must refuse, got {other:?}"),
        }
    }
}

#[test]
fn write_tools_edit_the_file_without_a_transport() {
    let client = KiCadIpcClient::new("tcp://127.0.0.1:1");
    let attempt = classify(client.get_open_documents(dial(DEAD)));
    assert!(matches!(write_step("add_via", attempt), WriteStep::EditFile));
    let live: IpcAttempt<i32> = IpcAttempt::Success(3);
    assert!(matches!(write_step("add_via", live), WriteStep::Done(3)));
}

#[test]
fn a_broken_session_keeps_the_file() {
    let client = KiCadIpcClient::new("tcp://127.0.0.1:4711");
    let broken: IpcReply<i32> = IpcReply::Broken("timed out".to_string());
    let attempt = classify(client.call(broken));
    assert!(matches!(attempt, IpcAttempt::Failed(_)));
    assert!(matches!(write_step("add_via", attempt), WriteStep::Refuse(_)));
}

#[test]
fn read_tools_fall_back_on_any_failure() {
    let failed: IpcAttempt<i32> = IpcAttempt::Failed("no board open".to_string());
    assert!(matches!(read_step(failed), ReadStep::ReadFile));
    let gone: IpcAttempt<i32> = IpcAttempt::Unavailable("x".to_string());
    assert!(matches!(read_step(gone), ReadStep::ReadFile));
    assert!(matches!(read_step(IpcAttempt::Success(1)), ReadStep::Live(1)));
    assert!(matches!(read_found_step(IpcAttempt::Success(Some(2))), ReadStep::Live(2)));
    let nothing: IpcAttempt<Option<i32>> = IpcAttempt::Success(None);
    assert!(matches!(read_found_step(nothing), ReadStep::ReadFile));
}

#[test]
fn a_query_without_a_value_may_fall_back() {
    let failed: IpcAttempt<i32> = IpcAttempt::Failed("m".to_string());
    assert!(matches!(edit_step("edit_component", failed, false), WriteStep::EditFile));
    let failed: IpcAttempt<i32> = IpcAttempt::Failed("m".to_string());
    assert!(matches!(edit_step("edit_component", failed, true), WriteStep::Refuse(_)));
}

#[test]
fn once_a_session_was_chosen_any_failure_ends_the_tool() {
    let gone: IpcAttempt<i32> = IpcAttempt::Unavailable("lost".to_string());
    let e = placed_item("U3", gone).unwrap_err();
    assert_eq!(body_text(&e), "IPC error placing U3: lost");
    let failed: IpcAttempt<i32> = IpcAttempt::Failed("bad".to_string());
    assert_eq!(body_text(&moved_item(failed).unwrap_err()), "IPC error: bad");
    assert_eq!(moved_item(IpcAttempt::Success(5)).unwrap(), 5);
}

#[test]
fn the_refusal_says_what_to_do() {
    let r = ipc_write_refused("add_via", "boom");
    assert!(r.is_error);
    assert_eq!(
        body_text(&r),
        "add_via: a KiCAD IPC session is reachable but the IPC call failed (boom). Refusing to \
         fall back to editing the .kicad_pcb file while a live KiCAD session exists — the \
         session's unsaved state and the file would diverge and one would clobber the other. Fix \
         the IPC-side problem (usually: open the board in KiCAD's PCB editor), or close KiCAD \
         entirely to work file-based, then retry."
    );
    assert_eq!(Source::Ipc.tag(), "ipc");
    assert_eq!(Source::File.tag(), "file");
    assert_eq!(IpcError::Failed("f".to_string()).message(), "f");
}
