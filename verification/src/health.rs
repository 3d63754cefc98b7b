//! Connector health: the states a connector reports, and how an observed
//! Zenoh session state maps onto them.

use vstd::prelude::*;

use crate::zenoh_session::SessionState;

verus! {

/// Health of a connector.
#[derive(Debug)]
pub enum ConnectorHealth {
    /// Bringing the link up, or bringing it back after a loss.
    Connecting,
    /// The link is up.
    Up,
    /// The link is down; the text says why.
    Down { reason: String },
}

/// The kind of a health state, without its details.
#[derive(PartialEq, Eq, Structural, Clone, Copy, Debug)]
pub enum ConnectorHealthKind {
    /// See `ConnectorHealth::Connecting`.
    Connecting,
    /// See `ConnectorHealth::Up`.
    Up,
    /// See `ConnectorHealth::Down`.
    Down,
}

/// The kind of `h`.
pub open spec fn kind_of(h: &ConnectorHealth) -> ConnectorHealthKind {
    match h {
        ConnectorHealth::Connecting => ConnectorHealthKind::Connecting,
        ConnectorHealth::Up => ConnectorHealthKind::Up,
        ConnectorHealth::Down { .. } => ConnectorHealthKind::Down,
    }
}

impl ConnectorHealth {
    /// The kind of this health state.
    pub fn kind(&self) -> (r: ConnectorHealthKind)
        ensures
            r == kind_of(self),
    {
        match self {
            ConnectorHealth::Connecting => ConnectorHealthKind::Connecting,
            ConnectorHealth::Up => ConnectorHealthKind::Up,
            ConnectorHealth::Down { .. } => ConnectorHealthKind::Down,
        }
    }
}

impl Clone for ConnectorHealth {
    fn clone(&self) -> (r: Self)
        ensures
            r == *self,
    {
        match self {
            ConnectorHealth::Connecting => ConnectorHealth::Connecting,
            ConnectorHealth::Up => ConnectorHealth::Up,
            ConnectorHealth::Down { reason } => ConnectorHealth::Down { reason: reason.clone() },
        }
    }
}

/// The health a connector should move to when its session is observed in
/// `state`: connecting stays connecting, alive is up, closed is down for
/// the same reason.
pub open spec fn health_for_session(state: &SessionState) -> ConnectorHealth {
    match state {
        SessionState::Connecting => ConnectorHealth::Connecting,
        SessionState::Alive => ConnectorHealth::Up,
        SessionState::Closed { reason } => ConnectorHealth::Down { reason: *reason },
    }
}

/// The health target for an observed session state.
pub fn target_for_session(state: &SessionState) -> (r: ConnectorHealth)
    ensures
        r == health_for_session(state),
{
    match state {
        SessionState::Connecting => ConnectorHealth::Connecting,
        SessionState::Alive => ConnectorHealth::Up,
        SessionState::Closed { reason } => ConnectorHealth::Down { reason: reason.clone() },
    }
}

/// Holder of a connector's current health.
#[derive(Debug)]
pub struct HealthMonitor {
    current: ConnectorHealth,
}

impl HealthMonitor {
    /// The current health.
    pub closed spec fn health(&self) -> ConnectorHealth {
        self.current
    }

    /// A monitor that starts in `Connecting`.
    pub fn new() -> (r: Self)
        ensures
            r.health() == ConnectorHealth::Connecting,
    {
        HealthMonitor { current: ConnectorHealth::Connecting }
    }

    /// A snapshot of the current health.
    pub fn current(&self) -> (r: ConnectorHealth)
        ensures
            r == self.health(),
    {
        self.current.clone()
    }
}

} // verus!
