//! The reconciliation loop's decisions: connection backoff, readiness, and
//! when TLS material read from disk counts as changed.
use vstd::prelude::*;

verus! {

/// Where the control-plane connection stands.
#[derive(Clone, Copy, Debug, PartialEq, Eq, Structural)]
pub enum Phase {
    Connecting,
    Streaming,
    Stopped,
}

/// What happened since the last step.
#[derive(Clone, Copy, Debug, PartialEq, Eq, Structural)]
pub enum Event {
    /// The channel to the control plane is up.
    Connected,
    /// Connecting failed, timed out, or TLS material is missing.
    ConnectFailed,
    /// The watch stream is open.
    WatchOpened,
    /// Opening the watch failed.
    WatchFailed,
    /// A snapshot arrived on the stream.
    SnapshotReceived,
    /// The CA or the client certificate or key changed on disk.
    MaterialChanged,
    /// The stream was closed or failed.
    StreamEnded,
    /// Shutdown was requested.
    Cancelled,
}

/// What the loop does next.
#[derive(Clone, Copy, Debug, PartialEq, Eq, Structural)]
pub enum Action {
    /// Open the watch on the new channel.
    OpenWatch,
    /// Wait this many milliseconds, then connect again.
    Reconnect(u64),
    /// Wait for the next message on the stream.
    Receive,
    /// Swap in the route table and SNI map of the snapshot, then receive.
    Apply,
    /// Leave the loop.
    Stop,
}

pub const INITIAL_BACKOFF_MS: u64 = 500;

pub const MAX_BACKOFF_MS: u64 = 10000;

/// The reconciler's state.
#[derive(Clone, Copy, Debug)]
pub struct Reconciler {
    pub phase: Phase,
    pub backoff_ms: u64,
    pub ready: bool,
}

/// Twice the delay, at most ten seconds.
pub open spec fn doubled(b: u64) -> u64 {
    if b >= MAX_BACKOFF_MS / 2 {
        MAX_BACKOFF_MS
    } else {
        (2 * b) as u64
    }
}

pub fn next_backoff(b: u64) -> (r: u64)
    ensures
        r == doubled(b),
        r <= MAX_BACKOFF_MS,
{
    if b >= MAX_BACKOFF_MS / 2 {
        MAX_BACKOFF_MS
    } else {
        b * 2
    }
}

impl Reconciler {
    pub fn new() -> (r: Self)
        ensures
            r.phase == Phase::Connecting,
            r.backoff_ms == INITIAL_BACKOFF_MS,
            !r.ready,
    {
        Reconciler { phase: Phase::Connecting, backoff_ms: INITIAL_BACKOFF_MS, ready: false }
    }

    /// One transition: success on connect resets the delay; every failure
    /// or end of stream waits the current delay and doubles it; readiness
    /// is set when a watch opens and never cleared.
    pub fn step(&mut self, event: Event) -> (action: Action)
        ensures
            final(self).ready == (old(self).ready || (old(self).phase != Phase::Stopped && event
                == Event::WatchOpened)),
            old(self).phase == Phase::Stopped ==> action == Action::Stop && *final(self) == *old(self),
            old(self).phase != Phase::Stopped ==> match event {
                Event::Cancelled => action == Action::Stop && final(self).phase == Phase::Stopped
                    && final(self).backoff_ms == old(self).backoff_ms,
                Event::Connected => action == Action::OpenWatch && final(self).backoff_ms
                    == INITIAL_BACKOFF_MS && final(self).phase == Phase::Connecting,
                Event::WatchOpened => action == Action::Receive && final(self).phase == Phase::Streaming
                    && final(self).backoff_ms == old(self).backoff_ms,
                Event::SnapshotReceived => action == Action::Apply && final(self).phase
                    == old(self).phase && final(self).backoff_ms == old(self).backoff_ms,
                _ => action == Action::Reconnect(old(self).backoff_ms) && final(self).phase
                    == Phase::Connecting && final(self).backoff_ms == doubled(old(self).backoff_ms),
            },
    {
        if self.phase == Phase::Stopped {
            return Action::Stop;
        }
        match event {
            Event::Cancelled => {
                self.phase = Phase::Stopped;
                Action::Stop
            },
            Event::Connected => {
                self.backoff_ms = INITIAL_BACKOFF_MS;
                self.phase = Phase::Connecting;
                Action::OpenWatch
            },
            Event::WatchOpened => {
                self.ready = true;
                self.phase = Phase::Streaming;
                Action::Receive
            },
            Event::SnapshotReceived => Action::Apply,
            _ => {
                let wait = self.backoff_ms;
                self.backoff_ms = next_backoff(wait);
                self.phase = Phase::Connecting;
                Action::Reconnect(wait)
            },
        }
    }
}

/// Why the channel cannot be built yet.
#[derive(Clone, Copy, Debug, PartialEq, Eq, Structural)]
pub enum MaterialError {
    CaMissing,
    IdentityMissing,
}

/// A connection needs the CA, the client certificate and the client key.
pub fn check_material(ca: &Vec<u8>, cert: &Vec<u8>, key: &Vec<u8>) -> (r: Result<(), MaterialError>)
    ensures
        r == if ca@.len() == 0 {
            Err(MaterialError::CaMissing)
        } else if cert@.len() == 0 || key@.len() == 0 {
            Err(MaterialError::IdentityMissing)
        } else {
            Ok::<(), MaterialError>(())
        },
{
    if ca.len() == 0 {
        Err(MaterialError::CaMissing)
    } else if cert.len() == 0 || key.len() == 0 {
        Err(MaterialError::IdentityMissing)
    } else {
        Ok(())
    }
}

/// What a poll of one file amounts to.
#[derive(Clone, Copy, Debug, PartialEq, Eq, Structural)]
pub enum Reload {
    /// The file could not be read.
    ReadFailed,
    /// The file is empty: kept as before.
    Empty,
    /// Same bytes as held.
    Unchanged,
    /// New bytes: store them and signal the reconciler.
    Changed,
}

pub fn bytes_eq(a: &Vec<u8>, b: &Vec<u8>) -> (r: bool)
    ensures
        r == (a@ == b@),
{
    if a.len() != b.len() {
        return false;
    }
    let mut i: usize = 0;
    while i < a.len()
        invariant
            i <= a@.len() == b@.len(),
            forall|j: int| 0 <= j < i ==> a@[j] == b@[j],
        decreases a@.len() - i,
    {
        if a[i] != b[i] {
            return false;
        }
        i += 1;
    }
    assert(a@ =~= b@);
    true
}

/// Compares what was read (`None` when the read failed) with what is held.
pub fn classify_reload(read: Option<&Vec<u8>>, current: &Vec<u8>) -> (r: Reload)
    ensures
        r == match read {
            None => Reload::ReadFailed,
            Some(b) => if b@.len() == 0 {
                Reload::Empty
            } else if b@ == current@ {
                Reload::Unchanged
            } else {
                Reload::Changed
            },
        },
{
    match read {
        None => Reload::ReadFailed,
        Some(b) => {
            if b.len() == 0 {
                Reload::Empty
            } else if bytes_eq(b, current) {
                Reload::Unchanged
            } else {
                Reload::Changed
            }
        },
    }
}

/// The files watched for TLS material.
#[derive(Clone, Copy, Debug, PartialEq, Eq, Structural)]
pub enum MaterialFile {
    Ca,
    ClientCert,
    ClientKey,
}

/// Which notifier a change of the file wakes.
#[derive(Clone, Copy, Debug, PartialEq, Eq, Structural)]
pub enum Notifier {
    Ca,
    ClientPair,
}

pub fn notifier_for(file: MaterialFile) -> (r: Notifier)
    ensures
        r == if file == MaterialFile::Ca {
            Notifier::Ca
        } else {
            Notifier::ClientPair
        },
{
    match file {
        MaterialFile::Ca => Notifier::Ca,
        _ => Notifier::ClientPair,
    }
}

pub fn file_name(file: MaterialFile) -> (r: &'static str)
    ensures
        r@ == match file {
            MaterialFile::Ca => "ca.crt"@,
            MaterialFile::ClientCert => "tls.crt"@,
            MaterialFile::ClientKey => "tls.key"@,
        },
{
    match file {
        MaterialFile::Ca => "ca.crt",
        MaterialFile::ClientCert => "tls.crt",
        MaterialFile::ClientKey => "tls.key",
    }
}

} // verus!
