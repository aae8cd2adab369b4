//! What a session records.

use vstd::prelude::*;

use crate::time::{Duration, Timestamp};

verus! {

/// One entry of the event log.
#[derive(Debug, Clone)]
pub enum Event {
    FileCreated(FileEvent),
    FileModified(FileEvent),
    FileDeleted(FileEvent),
    FileRenamed(FileRenameEvent),
    FileRead(FileEvent),
    NetworkConnection(NetworkEvent),
    ProcessSpawned(ProcessEvent),
    ProcessExited(ProcessExitEvent),
    SessionStart(SessionStartEvent),
    SessionEnd(SessionEndEvent),
}

/// Something that happened to a file.
#[derive(Debug, Clone)]
pub struct FileEvent {
    pub path: String,
    pub timestamp: Timestamp,
    pub size_bytes: Option<u64>,
}

/// A file that got another name.
#[derive(Debug, Clone)]
pub struct FileRenameEvent {
    pub from: String,
    pub to: String,
    pub timestamp: Timestamp,
}

/// A connection to another host.
#[derive(Debug, Clone)]
pub struct NetworkEvent {
    pub pid: u32,
    pub remote_host: String,
    pub remote_port: u16,
    pub protocol: Protocol,
    pub timestamp: Timestamp,
}

/// A transport protocol.
#[derive(Debug, Clone, Copy, PartialEq, Eq, Hash, Structural)]
pub enum Protocol {
    Tcp,
    Udp,
}

/// A process that was seen for the first time.
#[derive(Debug, Clone)]
pub struct ProcessEvent {
    pub pid: u32,
    pub ppid: u32,
    pub argv: Vec<String>,
    pub timestamp: Timestamp,
}

/// A process that is gone. Its exit code is known only where it could be read.
#[derive(Debug, Clone)]
pub struct ProcessExitEvent {
    pub pid: u32,
    pub exit_code: Option<i32>,
    pub duration: Duration,
    pub timestamp: Timestamp,
}

/// The beginning of a session.
#[derive(Debug, Clone)]
pub struct SessionStartEvent {
    pub command: String,
    pub workspace: String,
    pub timestamp: Timestamp,
    pub pid: u32,
}

/// The end of a session.
#[derive(Debug, Clone)]
pub struct SessionEndEvent {
    pub exit_code: i32,
    pub duration: Duration,
    pub timestamp: Timestamp,
}

/// The moment that an event carries.
pub open spec fn moment(event: Event) -> Timestamp {
    match event {
        Event::FileCreated(e) => e.timestamp,
        Event::FileModified(e) => e.timestamp,
        Event::FileDeleted(e) => e.timestamp,
        Event::FileRenamed(e) => e.timestamp,
        Event::FileRead(e) => e.timestamp,
        Event::NetworkConnection(e) => e.timestamp,
        Event::ProcessSpawned(e) => e.timestamp,
        Event::ProcessExited(e) => e.timestamp,
        Event::SessionStart(e) => e.timestamp,
        Event::SessionEnd(e) => e.timestamp,
    }
}

impl Event {
    /// The moment that the event carries.
    pub fn timestamp(&self) -> (r: Timestamp)
        ensures
            r == moment(*self),
    {
        match self {
            Event::FileCreated(e) => e.timestamp,
            Event::FileModified(e) => e.timestamp,
            Event::FileDeleted(e) => e.timestamp,
            Event::FileRenamed(e) => e.timestamp,
            Event::FileRead(e) => e.timestamp,
            Event::NetworkConnection(e) => e.timestamp,
            Event::ProcessSpawned(e) => e.timestamp,
            Event::ProcessExited(e) => e.timestamp,
            Event::SessionStart(e) => e.timestamp,
            Event::SessionEnd(e) => e.timestamp,
        }
    }
}

/// The moment of an event is the one that its record carries, whatever it tells of.
pub proof fn lemma_moments(
    file: FileEvent,
    rename: FileRenameEvent,
    network: NetworkEvent,
    process: ProcessEvent,
    exit: ProcessExitEvent,
    start: SessionStartEvent,
    end: SessionEndEvent,
)
    ensures
        moment(Event::FileCreated(file)) == file.timestamp,
        moment(Event::FileModified(file)) == file.timestamp,
        moment(Event::FileDeleted(file)) == file.timestamp,
        moment(Event::FileRead(file)) == file.timestamp,
        moment(Event::FileRenamed(rename)) == rename.timestamp,
        moment(Event::NetworkConnection(network)) == network.timestamp,
        moment(Event::ProcessSpawned(process)) == process.timestamp,
        moment(Event::ProcessExited(exit)) == exit.timestamp,
        moment(Event::SessionStart(start)) == start.timestamp,
        moment(Event::SessionEnd(end)) == end.timestamp,
{
}

} // verus!
