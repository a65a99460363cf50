use listory::daemon::{
    already_running_message, requested_drive_letter, start_monitoring_decision, stop_monitoring_answer,
    summarize_build, BuildSummary, StartDecision,
};
use listory::searchd::file_entry_v2::MemoryIndex;
use listory::searchd::mft::index_mft_batch;
use listory::session::{client_start, client_step, ClientAction, ClientState, RequestKind};
use listory::usn::{MftBatch, MftRecord};

#[test]
fn daemon_build_summary() {
    let r = summarize_build(&vec![Ok(2), Err("no access".to_string()), Ok(5)]);
    assert_eq!(r, BuildSummary { success: true, indexed_files: 7 });
    let r = summarize_build(&vec![Err("x".to_string()), Ok(0)]);
    assert_eq!(r, BuildSummary { success: false, indexed_files: 0 });
}

#[test]
fn daemon_monitoring_decisions() {
    assert_eq!(requested_drive_letter("D"), 'D');
    assert_eq!(requested_drive_letter(""), 'C');
    assert_eq!(start_monitoring_decision(true, "D"), StartDecision::AlreadyRunning);
    assert_eq!(start_monitoring_decision(false, "E:"), StartDecision::Start('E'));
    assert_eq!(already_running_message(), "USN monitoring is already running");
    assert_eq!(stop_monitoring_answer(false, false), (false, "USN monitoring is not running".to_string()));
    assert_eq!(stop_monitoring_answer(true, true), (true, "USN monitoring stopped successfully".to_string()));
    assert_eq!(
        stop_monitoring_answer(true, false),
        (true, "USN monitoring stop signal sent (thread may still be finishing)".to_string())
    );
}

#[test]
fn daemon_index_mft_batch() {
    let mut index = MemoryIndex::new();
    let batch = MftBatch {
        records: vec![
            MftRecord { file_ref: 7, parent_ref: 0, name: "x.txt".to_string(), attributes: 0 },
            MftRecord { file_ref: 8, parent_ref: 7, name: "y.txt".to_string(), attributes: 1 },
        ],
        next_start: 8,
    };
    assert_eq!(index_mft_batch(&mut index, batch), 2);
    assert_eq!(index.total_files(), 2);
    assert_eq!(index.get_entry(8).unwrap().name.as_ref(), "y.txt");
    assert_eq!(index.get_full_path(8, 'C').unwrap(), "C:\\x.txt\\y.txt");
}

#[test]
fn session_full_request() {
    let (state, action) = client_start();
    assert_eq!(state, ClientState::AwaitType);
    assert!(matches!(action, ClientAction::Read(1)));
    let (state, action) = client_step(state, &[2]);
    assert_eq!(state, ClientState::AwaitLength { msg_type: 2 });
    assert!(matches!(action, ClientAction::Read(4)));
    let (state, action) = client_step(state, &[3, 0, 0, 0]);
    assert_eq!(state, ClientState::AwaitPayload { msg_type: 2, length: 3 });
    assert!(matches!(action, ClientAction::Read(3)));
    let (state, action) = client_step(state, &[7, 8, 9]);
    assert_eq!(state, ClientState::AwaitType);
    match action {
        ClientAction::Handle { kind, payload } => {
            assert_eq!(kind, RequestKind::Search);
            assert_eq!(payload, vec![7, 8, 9]);
        }
        other => panic!("unexpected {:?}", other),
    }
}

#[test]
fn session_ends() {
    assert!(matches!(client_step(ClientState::AwaitType, &[]).1, ClientAction::Disconnected));
    let s = ClientState::AwaitLength { msg_type: 0 };
    assert!(matches!(client_step(s, &[]).1, ClientAction::Disconnected));
    assert!(matches!(client_step(s, &[1, 0]).1, ClientAction::Stop));
    // An empty payload is handled at once.
    match client_step(s, &[0, 0, 0, 0]).1 {
        ClientAction::Handle { kind, payload } => {
            assert_eq!(kind, RequestKind::Ping);
            assert!(payload.is_empty());
        }
        other => panic!("unexpected {:?}", other),
    }
    // Unknown types end the conversation once their payload is read.
    let s = ClientState::AwaitPayload { msg_type: 9, length: 1 };
    assert!(matches!(client_step(s, &[1]).1, ClientAction::Stop));
    assert!(matches!(client_step(ClientState::AwaitPayload { msg_type: 1, length: 2 }, &[1]).1, ClientAction::Stop));
}
