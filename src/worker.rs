//! The receive worker of one client: it reads frames from the client's
//! socket and forwards the decoded messages to the broadcast router. The
//! caller performs each read and hands over its outcome; the worker decides
//! what to do with it.

use vstd::prelude::*;
use vstd::utf8::{decode_utf8, valid_utf8};

use crate::frame::{decode_message, payload_of, FRAME_SIZE};

verus! {

/// Where a receive worker stands: reading frames, or stopped for good.
#[derive(Clone, Copy, Debug, PartialEq, Eq, Structural)]
pub enum WorkerState {
    Reading,
    Terminated,
}

/// The outcome of one attempt to read a whole frame from the socket.
#[derive(Debug)]
pub enum ReadOutcome {
    /// The bytes that were read.
    Frame(Vec<u8>),
    /// No data was available yet.
    WouldBlock,
    /// The read failed: the peer closed, reset, or sent a partial frame.
    Failed,
}

/// What the worker does after a read.
#[derive(Debug)]
pub enum WorkerAction {
    /// Send this message to the broadcast router, then read again.
    Forward(String),
    /// Pause briefly, then read again.
    Wait,
    /// Stop reading: the worker has ended.
    Stop,
}

/// A receive worker; it starts reading and ends only on a failed read or an
/// undecodable frame.
#[derive(Debug)]
pub struct ReceiveWorker {
    pub state: WorkerState,
}

impl ReceiveWorker {
    /// A worker that is reading.
    pub fn new() -> (w: Self)
        ensures
            w.state == WorkerState::Reading,
    {
        ReceiveWorker { state: WorkerState::Reading }
    }

    /// Takes the outcome of a read and says what to do next. A whole frame
    /// whose payload is valid UTF-8 is forwarded as a message; no data means
    /// waiting; anything else ends the worker, which then stays ended.
    pub fn on_read(&mut self, outcome: ReadOutcome) -> (action: WorkerAction)
        ensures
            old(self).state == WorkerState::Terminated ==> {
                &&& final(self).state == WorkerState::Terminated
                &&& action is Stop
            },
            old(self).state == WorkerState::Reading ==> match outcome {
                ReadOutcome::Frame(frame) => if frame@.len() == FRAME_SIZE && valid_utf8(
                    payload_of(frame@),
                ) {
                    &&& final(self).state == WorkerState::Reading
                    &&& action matches WorkerAction::Forward(m) && m@ == decode_utf8(
                        payload_of(frame@),
                    )
                } else {
                    &&& final(self).state == WorkerState::Terminated
                    &&& action is Stop
                },
                ReadOutcome::WouldBlock => {
                    &&& final(self).state == WorkerState::Reading
                    &&& action is Wait
                },
                ReadOutcome::Failed => {
                    &&& final(self).state == WorkerState::Terminated
                    &&& action is Stop
                },
            },
    {
        if self.state == WorkerState::Terminated {
            return WorkerAction::Stop;
        }
        match outcome {
            ReadOutcome::Frame(frame) => {
                if frame.len() != FRAME_SIZE {
                    self.state = WorkerState::Terminated;
                    return WorkerAction::Stop;
                }
                match decode_message(frame.as_slice()) {
                    Some(message) => WorkerAction::Forward(message),
                    None => {
                        self.state = WorkerState::Terminated;
                        WorkerAction::Stop
                    },
                }
            },
            ReadOutcome::WouldBlock => WorkerAction::Wait,
            ReadOutcome::Failed => {
                self.state = WorkerState::Terminated;
                WorkerAction::Stop
            },
        }
    }
}

} // verus!
