//! Whether sync is running.
use crate::error::SyncModeError;
use vstd::prelude::*;

verus! {

/// Whether sync is running.
#[derive(Clone, Copy, Debug, PartialEq, Eq, Structural)]
pub enum SyncMode {
    /// No session has begun.
    NotRunning,
    /// Scanning waits, so that the wallet can be used without interruption.
    Paused,
    /// A session is running.
    Running,
    /// The session is to end.
    Shutdown,
}

/// The mode that a number stands for.
pub open spec fn mode_numbered(mode: u8) -> Option<SyncMode> {
    if mode == 0 {
        Some(SyncMode::NotRunning)
    } else if mode == 1 {
        Some(SyncMode::Paused)
    } else if mode == 2 {
        Some(SyncMode::Running)
    } else if mode == 3 {
        Some(SyncMode::Shutdown)
    } else {
        None
    }
}

impl SyncMode {
    /// The mode that a number stands for.
    pub fn from_u8(mode: u8) -> (r: Result<SyncMode, SyncModeError>)
        ensures
            match mode_numbered(mode) {
                Some(known) => r == Ok::<SyncMode, SyncModeError>(known),
                None => r == Err::<SyncMode, SyncModeError>(SyncModeError::InvalidSyncMode(mode)),
            },
    {
        if mode == 0 {
            Ok(SyncMode::NotRunning)
        } else if mode == 1 {
            Ok(SyncMode::Paused)
        } else if mode == 2 {
            Ok(SyncMode::Running)
        } else if mode == 3 {
            Ok(SyncMode::Shutdown)
        } else {
            Err(SyncModeError::InvalidSyncMode(mode))
        }
    }

    /// The number that stands for the mode.
    pub fn to_u8(self) -> (r: u8)
        ensures
            mode_numbered(r) == Some(self),
    {
        match self {
            SyncMode::NotRunning => 0,
            SyncMode::Paused => 1,
            SyncMode::Running => 2,
            SyncMode::Shutdown => 3,
        }
    }

    /// The mode once a session begins. Only one session runs at a time.
    pub fn begin(self) -> (r: Result<SyncMode, SyncModeError>)
        ensures
            r == if self == SyncMode::NotRunning {
                Ok::<SyncMode, SyncModeError>(SyncMode::Running)
            } else {
                Err(SyncModeError::SyncAlreadyRunning)
            },
    {
        if self == SyncMode::NotRunning {
            Ok(SyncMode::Running)
        } else {
            Err(SyncModeError::SyncAlreadyRunning)
        }
    }
}

/// What a running session does at its next tick.
#[derive(Clone, Copy, Debug, PartialEq, Eq, Structural)]
pub enum SessionStep {
    /// The scanner is updated.
    Update,
    /// The session waits until it is resumed or stopped.
    Pause,
    /// The session ends with what has been scanned so far.
    Stop,
}

impl SyncMode {
    /// What a running session does at its next tick. The mode of a running session is never set to not running.
    pub fn tick(self) -> (r: SessionStep)
        requires
            self != SyncMode::NotRunning,
        ensures
            r == match self {
                SyncMode::Running => SessionStep::Update,
                SyncMode::Paused => SessionStep::Pause,
                _ => SessionStep::Stop,
            },
    {
        match self {
            SyncMode::Running => SessionStep::Update,
            SyncMode::Paused => SessionStep::Pause,
            _ => SessionStep::Stop,
        }
    }
}

} // verus!
