//! Interruptions at chosen points, for tests that a crash loses nothing.

use vstd::prelude::*;

verus! {

/// A point at which a transition can be interrupted.
#[derive(Clone, Copy, Debug, PartialEq, Eq, Structural)]
pub enum TransitionFailpoint {
    /// Before the numbered cryptographic operation.
    BeforeCryptoStep(usize),
    /// After the numbered cryptographic operation.
    AfterCryptoStep(usize),
    /// After the commit, before the state in memory is replaced.
    BeforeMemoryReplacement,
    /// Right after the state in memory is replaced.
    AfterMemoryReplacement,
    /// Before events are delivered.
    BeforeEventDelivery,
    /// Right after events are delivered.
    AfterEventDelivery,
}

/// The point that is armed, if any, and the number of the next cryptographic operation.
#[derive(Clone, Copy, Debug, PartialEq, Eq, Structural)]
pub struct Failpoints {
    /// The armed point.
    pub armed: Option<TransitionFailpoint>,
    /// It was reached.
    pub fired: bool,
    /// Number of the next cryptographic operation.
    pub crypto_step: usize,
}

impl Failpoints {
    /// Nothing is armed.
    pub fn new() -> (res: Failpoints)
        ensures
            res == (Failpoints { armed: None, fired: false, crypto_step: 0 }),
    {
        Failpoints { armed: None, fired: false, crypto_step: 0 }
    }

    /// Arm a point, and number cryptographic operations from zero again.
    pub fn arm_transition_failpoint(&mut self, point: TransitionFailpoint)
        ensures
            *final(self) == (Failpoints { armed: Some(point), fired: false, crypto_step: 0 }),
    {
        self.armed = Some(point);
        self.fired = false;
        self.crypto_step = 0;
    }

    /// Whether the armed point was reached.
    pub fn transition_failpoint_fired(&self) -> (res: bool)
        ensures
            res == self.fired,
    {
        self.fired
    }

    /// Reach a point: true interrupts. Each armed point interrupts once.
    pub fn reach(&mut self, point: TransitionFailpoint) -> (res: bool)
        ensures
            res == (old(self).armed == Some(point)),
            *final(self) == if res {
                Failpoints { armed: None, fired: true, ..*old(self) }
            } else {
                *old(self)
            },
    {
        match self.armed {
            Some(armed) => if armed == point {
                self.armed = None;
                self.fired = true;
                true
            } else {
                false
            },
            None => false,
        }
    }

    /// Begin a cryptographic operation: its number, or nothing where it is interrupted. An
    /// interrupted operation does not use up its number.
    pub fn begin_crypto_step(&mut self) -> (res: Option<usize>)
        requires
            old(self).crypto_step < usize::MAX,
        ensures
            ({
                let step = old(self).crypto_step;
                let hit = old(self).armed == Some(TransitionFailpoint::BeforeCryptoStep(step));
                &&& res == if hit {
                    None
                } else {
                    Some(step)
                }
                &&& *final(self) == if hit {
                    Failpoints { armed: None, fired: true, ..*old(self) }
                } else {
                    Failpoints { crypto_step: (step + 1) as usize, ..*old(self) }
                }
            }),
    {
        let step: usize = self.crypto_step;
        if self.reach(TransitionFailpoint::BeforeCryptoStep(step)) {
            return None;
        }
        self.crypto_step = step + 1;
        Some(step)
    }

    /// Finish a cryptographic operation: true interrupts.
    pub fn finish_crypto_step(&mut self, step: usize) -> (res: bool)
        ensures
            res == (old(self).armed == Some(TransitionFailpoint::AfterCryptoStep(step))),
            *final(self) == if res {
                Failpoints { armed: None, fired: true, ..*old(self) }
            } else {
                *old(self)
            },
    {
        self.reach(TransitionFailpoint::AfterCryptoStep(step))
    }
}

} // verus!
