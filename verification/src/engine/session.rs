//! Sessions and the states that they go through.

use crate::chunking::Chunker;
use crate::engine::apply::Applier;
use crate::engine::planner::Planner;
use crate::error::{SessionError, TransportError};
use crate::path::SyncPath;
use crate::transport::Transport;
use vstd::prelude::*;

verus! {

/// Which ends of a session are remote.
#[derive(Debug, Clone, Copy, PartialEq, Eq, Structural)]
pub enum SessionMode {
    Local,
    RemotePush,
    RemotePull,
}

/// How far a session has come.
#[derive(Debug, Clone, Copy, PartialEq, Eq, Structural)]
pub enum SessionState {
    Initialized,
    Scanning,
    Planning,
    Transferring,
    Applying,
    Completed,
}

/// How much a session may hold at once.
#[derive(Debug, Clone, Copy, PartialEq, Eq, Structural)]
pub struct SessionBudget {
    pub scan_queue_capacity: usize,
    pub transfer_queue_capacity: usize,
    pub apply_queue_capacity: usize,
    pub chunk_workers: usize,
}

impl SessionBudget {
    /// The budget on a machine that can run `parallelism` workers at once. Where
    /// that is not known, there is one worker.
    pub fn for_parallelism(parallelism: Option<usize>) -> (budget: Self)
        ensures
            budget == (SessionBudget {
                scan_queue_capacity: 128,
                transfer_queue_capacity: 64,
                apply_queue_capacity: 32,
                chunk_workers: match parallelism {
                    Some(count) => count,
                    None => 1,
                },
            }),
    {
        let chunk_workers: usize = match parallelism {
            Some(count) => count,
            None => 1,
        };
        SessionBudget {
            scan_queue_capacity: 128,
            transfer_queue_capacity: 64,
            apply_queue_capacity: 32,
            chunk_workers,
        }
    }
}

/// What a session syncs.
#[derive(Debug, Clone)]
pub struct SessionConfig {
    pub mode: SessionMode,
    pub source: SyncPath,
    pub destination: SyncPath,
    pub budget: SessionBudget,
}

/// A sync that is under way.
pub struct Session<'a, T: Transport, P: Planner, A: Applier, C: Chunker> {
    state: SessionState,
    pub config: SessionConfig,
    pub transport: &'a T,
    pub planner: &'a P,
    pub applier: &'a A,
    pub chunker: &'a C,
}

impl<'a, T: Transport, P: Planner, A: Applier, C: Chunker> Session<'a, T, P, A, C> {
    pub closed spec fn spec_state(&self) -> SessionState {
        self.state
    }

    /// What the session was made from.
    pub closed spec fn parts(&self) -> (SessionConfig, &'a T, &'a P, &'a A, &'a C) {
        (self.config, self.transport, self.planner, self.applier, self.chunker)
    }

    pub fn new(
        config: SessionConfig,
        transport: &'a T,
        planner: &'a P,
        applier: &'a A,
        chunker: &'a C,
    ) -> (session: Self)
        ensures
            session.spec_state() == SessionState::Initialized,
            session.parts() == (config, transport, planner, applier, chunker),
    {
        Session {
            state: SessionState::Initialized,
            config,
            transport,
            planner,
            applier,
            chunker,
        }
    }

    pub fn state(&self) -> (state: SessionState)
        ensures
            state == self.spec_state(),
    {
        self.state
    }

    pub fn destination_root(&self) -> (root: &SyncPath)
        ensures
            *root == self.parts().0.destination,
    {
        &self.config.destination
    }

    /// Goes on to the point at which the peers shake hands.
    pub fn start_transfer(&mut self)
        ensures
            final(self).spec_state() == SessionState::Transferring,
            final(self).parts() == old(self).parts(),
    {
        self.state = SessionState::Scanning;
        self.state = SessionState::Planning;
        self.state = SessionState::Transferring;
    }

    /// Goes on from the handshake. One that failed leaves the session where it is.
    pub fn finish(&mut self, handshake: Result<(), TransportError>) -> (outcome: Result<
        (),
        SessionError,
    >)
        ensures
            final(self).parts() == old(self).parts(),
            match handshake {
                Ok(_) => outcome is Ok && final(self).spec_state() == SessionState::Completed,
                Err(error) => outcome == Err::<(), SessionError>(SessionError::Transport(error))
                    && final(self).spec_state() == old(self).spec_state(),
            },
    {
        if let Err(error) = handshake {
            return Err(SessionError::Transport(error));
        }
        self.state = SessionState::Applying;
        self.state = SessionState::Completed;
        Ok(())
    }

    /// Runs the session, given how the handshake goes.
    pub fn run(&mut self, handshake: Result<(), TransportError>) -> (outcome: Result<
        (),
        SessionError,
    >)
        ensures
            final(self).parts() == old(self).parts(),
            match handshake {
                Ok(_) => outcome is Ok && final(self).spec_state() == SessionState::Completed,
                Err(error) => outcome == Err::<(), SessionError>(SessionError::Transport(error))
                    && final(self).spec_state() == SessionState::Transferring,
            },
    {
        self.start_transfer();
        self.finish(handshake)
    }
}

} // verus!
