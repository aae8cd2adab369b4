use postflight::events::{
    Event, FileEvent, FileRenameEvent, NetworkEvent, ProcessEvent, ProcessExitEvent, Protocol,
    SessionEndEvent, SessionStartEvent,
};
use postflight::time::{Duration, Timestamp};

#[test]
fn every_event_carries_its_moment() {
    let at = |secs: i64| Timestamp { secs, nanos: 5 };
    let file = |secs: i64| FileEvent { path: "a".to_string(), timestamp: at(secs), size_bytes: None };
    let events = vec![
        Event::FileCreated(file(0)),
        Event::FileModified(file(1)),
        Event::FileDeleted(file(2)),
        Event::FileRenamed(FileRenameEvent {
            from: "a".to_string(),
            to: "b".to_string(),
            timestamp: at(3),
        }),
        Event::FileRead(file(4)),
        Event::NetworkConnection(NetworkEvent {
            pid: 1,
            remote_host: "h".to_string(),
            remote_port: 2,
            protocol: Protocol::Tcp,
            timestamp: at(5),
        }),
        Event::ProcessSpawned(ProcessEvent { pid: 1, ppid: 0, argv: vec![], timestamp: at(6) }),
        Event::ProcessExited(ProcessExitEvent {
            pid: 1,
            exit_code: None,
            duration: Duration::from_secs(1),
            timestamp: at(7),
        }),
        Event::SessionStart(SessionStartEvent {
            command: "c".to_string(),
            workspace: "w".to_string(),
            timestamp: at(8),
            pid: 3,
        }),
        Event::SessionEnd(SessionEndEvent {
            exit_code: 0,
            duration: Duration::from_secs(1),
            timestamp: at(9),
        }),
    ];
    for (i, event) in events.iter().enumerate() {
        assert!(event.timestamp() == at(i as i64));
    }
}
