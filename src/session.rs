use vstd::prelude::*;

verus! {

/// Players in a match.
pub const NUM_PLAYERS: usize = 2;

/// Frames a peer may simulate ahead of confirmed input.
pub const MAX_PREDICTION: usize = 12;

/// Frames by which local input is delayed.
pub const INPUT_DELAY: usize = 2;

/// Simulation steps per second.
pub const SESSION_FPS: usize = 60;

/// Largest step rate a session accepts.
pub const MAX_FPS: usize = 1000;

/// How a rollback session is set up.
#[derive(Debug, Clone, Copy, PartialEq, Eq, Structural)]
pub struct SessionConfig {
    pub num_players: usize,
    pub max_prediction: usize,
    pub fps: usize,
    pub input_delay: usize,
}

/// Why a session cannot be set up.
#[derive(Debug, Clone, Copy, PartialEq, Eq, Structural)]
pub enum SessionError {
    NoPlayers,
    InvalidFrequency,
}

/// Where a rollback session stands.
#[derive(Debug, Clone, Copy, PartialEq, Eq, Structural)]
pub enum SessionState {
    /// No session; waiting for a peer channel.
    Idle,
    /// Session created; exchanging the handshake.
    Synchronizing,
    /// Stepping one frame per tick.
    Running,
    /// Replaying from the given frame with corrected input.
    Resimulating(u32),
    /// Session and rollback state released.
    Terminated,
}

/// What happened to the session.
#[derive(Debug, Clone, Copy, PartialEq, Eq, Structural)]
pub enum SessionEvent {
    /// The transport handed over a peer channel.
    ChannelReady,
    /// The handshake with every peer is done.
    Synchronized,
    /// The fixed-rate clock ticked.
    Tick,
    /// Input predicted for the given frame arrived confirmed and different.
    Mispredicted(u32),
    /// The replay reached the present.
    CaughtUp,
    /// The match is over or the channel closed.
    Closed,
}

/// What the driver must do next.
#[derive(Debug, Clone, Copy, PartialEq, Eq, Structural)]
pub enum SessionAction {
    Nothing,
    /// Create the session with the configuration and add the players.
    StartSession,
    /// Report that the configuration cannot start a session.
    RejectConfig(SessionError),
    /// Sample input, step one frame, count it and take the checksum.
    AdvanceFrame,
    /// Restore the state saved for the given frame.
    LoadFrame(u32),
    /// Drop the session and all rollback state.
    Release,
}

/// The error a configuration is rejected with, if any: no players first, then
/// an update rate outside `1 ..= MAX_FPS`.
pub open spec fn config_error(c: SessionConfig) -> Option<SessionError> {
    if c.num_players == 0 {
        Some(SessionError::NoPlayers)
    } else if c.fps == 0 || c.fps > MAX_FPS {
        Some(SessionError::InvalidFrequency)
    } else {
        None
    }
}

/// Checks a configuration before any session is created.
pub fn validate_config(c: &SessionConfig) -> (r: Result<(), SessionError>)
    ensures
        r is Ok <==> config_error(*c) is None,
        r matches Err(e) ==> config_error(*c) == Some(e),
{
    if c.num_players == 0 {
        Err(SessionError::NoPlayers)
    } else if c.fps == 0 || c.fps > MAX_FPS {
        Err(SessionError::InvalidFrequency)
    } else {
        Ok(())
    }
}

/// The configuration of a two-player match at the game's fixed rate.
pub fn default_config() -> (r: SessionConfig)
    ensures
        r == (SessionConfig { num_players: NUM_PLAYERS, max_prediction: MAX_PREDICTION, fps: SESSION_FPS, input_delay: INPUT_DELAY }),
        config_error(r) is None,
{
    SessionConfig {
        num_players: NUM_PLAYERS,
        max_prediction: MAX_PREDICTION,
        fps: SESSION_FPS,
        input_delay: INPUT_DELAY,
    }
}

/// The session's next state and the driver's next action.
///
/// A closed session terminates from any live state; a rejected configuration
/// keeps the session idle; a misprediction while running starts a replay from
/// its frame, during which each tick replays one frame until the replay
/// catches up. Every other event leaves the state as it is.
pub open spec fn spec_next(s: SessionState, e: SessionEvent, c: SessionConfig) -> (SessionState, SessionAction) {
    match (s, e) {
        (SessionState::Terminated, _) => (s, SessionAction::Nothing),
        (_, SessionEvent::Closed) => (SessionState::Terminated, SessionAction::Release),
        (SessionState::Idle, SessionEvent::ChannelReady) => match config_error(c) {
            Some(err) => (SessionState::Idle, SessionAction::RejectConfig(err)),
            None => (SessionState::Synchronizing, SessionAction::StartSession),
        },
        (SessionState::Synchronizing, SessionEvent::Synchronized) => (SessionState::Running, SessionAction::Nothing),
        (SessionState::Running, SessionEvent::Tick) => (SessionState::Running, SessionAction::AdvanceFrame),
        (SessionState::Running, SessionEvent::Mispredicted(f)) => (
            SessionState::Resimulating(f),
            SessionAction::LoadFrame(f),
        ),
        (SessionState::Resimulating(f), SessionEvent::Tick) => (
            SessionState::Resimulating(f),
            SessionAction::AdvanceFrame,
        ),
        (SessionState::Resimulating(_), SessionEvent::CaughtUp) => (SessionState::Running, SessionAction::Nothing),
        _ => (s, SessionAction::Nothing),
    }
}

/// Decides the session's next state and action for an event.
pub fn next_state(s: SessionState, e: SessionEvent, c: &SessionConfig) -> (r: (SessionState, SessionAction))
    ensures
        r == spec_next(s, e, *c),
{
    match (s, e) {
        (SessionState::Terminated, _) => (s, SessionAction::Nothing),
        (_, SessionEvent::Closed) => (SessionState::Terminated, SessionAction::Release),
        (SessionState::Idle, SessionEvent::ChannelReady) => match validate_config(c) {
            Err(err) => (SessionState::Idle, SessionAction::RejectConfig(err)),
            Ok(()) => (SessionState::Synchronizing, SessionAction::StartSession),
        },
        (SessionState::Synchronizing, SessionEvent::Synchronized) => (SessionState::Running, SessionAction::Nothing),
        (SessionState::Running, SessionEvent::Tick) => (SessionState::Running, SessionAction::AdvanceFrame),
        (SessionState::Running, SessionEvent::Mispredicted(f)) => (
            SessionState::Resimulating(f),
            SessionAction::LoadFrame(f),
        ),
        (SessionState::Resimulating(f), SessionEvent::Tick) => (
            SessionState::Resimulating(f),
            SessionAction::AdvanceFrame,
        ),
        (SessionState::Resimulating(_), SessionEvent::CaughtUp) => (SessionState::Running, SessionAction::Nothing),
        _ => (s, SessionAction::Nothing),
    }
}

/// A frame is only ever stepped by a live session: every `AdvanceFrame` comes
/// from `Running` or `Resimulating`, and a terminated session never acts.
pub proof fn lemma_only_live_sessions_step(s: SessionState, e: SessionEvent, c: SessionConfig)
    ensures
        spec_next(s, e, c).1 == SessionAction::AdvanceFrame ==> (s == SessionState::Running
            || s is Resimulating),
        s == SessionState::Terminated ==> spec_next(s, e, c) == (s, SessionAction::Nothing),
        spec_next(s, e, c).1 == SessionAction::StartSession ==> config_error(c) is None,
{
}

} // verus!
