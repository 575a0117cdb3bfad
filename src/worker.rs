//! A worker's run as a state machine: the caller performs the receive or send
//! that each step asks for and hands back what arrived.

use vstd::prelude::*;

use crate::error::MatrixError;
use crate::matrix::{is_kernel, is_product, Matrix};
use crate::partition::WorkAssignment;

verus! {

/// Where a worker stands in its single run.
#[derive(Debug)]
pub enum WorkerState<T> {
    /// Waiting for the coordinator's assignment.
    AwaitingAssignment,
    /// Has work; waiting for its band of the left operand.
    ReceivingA { assignment: WorkAssignment },
    /// Has its band; waiting for the right operand.
    ReceivingB { assignment: WorkAssignment, band: Matrix<T> },
    /// Finished, with or without work.
    Done,
}

/// What the transport handed the worker.
#[derive(Debug)]
pub enum WorkerEvent<T> {
    Assignment(WorkAssignment),
    Matrix(Matrix<T>),
}

/// What the worker asks its caller to do next.
#[derive(Debug)]
pub enum WorkerAction<T> {
    /// Receive the next matrix from the coordinator.
    ReceiveMatrix,
    /// Send this result to the coordinator; the run is then over.
    SendResult(Matrix<T>),
    /// The run is over without a result: there was no work.
    Finish,
    /// The run is over with this error.
    Fail(MatrixError),
}

/// Every matrix that a state holds is well formed.
pub open spec fn state_wf<T>(s: WorkerState<T>) -> bool {
    s matches WorkerState::ReceivingB { band, .. } ==> band.wf()
}

/// A worker: a process of the group other than the coordinator, which
/// computes one band of the product.
pub struct Worker<T> {
    rank: i32,
    state: WorkerState<T>,
}

impl<T: Copy> Worker<T> {
    pub closed spec fn rank_spec(&self) -> i32 {
        self.rank
    }

    pub closed spec fn state_spec(&self) -> WorkerState<T> {
        self.state
    }

    /// A worker of the given rank, waiting for its assignment.
    pub fn new(rank: i32) -> (r: Self)
        ensures
            r.rank_spec() == rank,
            r.state_spec() is AwaitingAssignment,
    {
        Worker { rank, state: WorkerState::AwaitingAssignment }
    }

    pub fn rank(&self) -> (r: i32)
        ensures
            r == self.rank_spec(),
    {
        self.rank
    }

    pub fn state(&self) -> (r: &WorkerState<T>)
        ensures
            *r == self.state_spec(),
    {
        &self.state
    }

    /// Takes one event and says what to do next. An assignment without work
    /// ends the run; one with work asks for the band of the left operand and
    /// then for the right operand, whose product with the band is the result.
    /// A message that the state does not expect ends the run with
    /// `ProtocolViolation`.
    pub fn step<F: Fn(T, T, T) -> T>(&mut self, event: WorkerEvent<T>, zero: T, mul_add: &F) -> (r: WorkerAction<T>)
        requires
            state_wf(old(self).state_spec()),
            event matches WorkerEvent::Matrix(m) ==> m.wf(),
            is_kernel(*mul_add),
        ensures
            final(self).rank_spec() == old(self).rank_spec(),
            state_wf(final(self).state_spec()),
            match (old(self).state_spec(), event) {
                (WorkerState::AwaitingAssignment, WorkerEvent::Assignment(a)) => if a.has_work_spec() {
                    final(self).state_spec() == WorkerState::<T>::ReceivingA { assignment: a }
                        && r is ReceiveMatrix
                } else {
                    final(self).state_spec() is Done && r is Finish
                },
                (WorkerState::ReceivingA { assignment }, WorkerEvent::Matrix(m)) => final(self).state_spec()
                    == WorkerState::ReceivingB { assignment, band: m } && r is ReceiveMatrix,
                (WorkerState::ReceivingB { band, .. }, WorkerEvent::Matrix(m)) => {
                    &&& final(self).state_spec() is Done
                    &&& band.cols == m.rows ==> (r matches WorkerAction::SendResult(c) && is_product(
                        c,
                        band,
                        m,
                        zero,
                        *mul_add,
                    ))
                    &&& band.cols != m.rows ==> r == WorkerAction::<T>::Fail(MatrixError::DimensionMismatch)
                },
                _ => final(self).state_spec() is Done && r == WorkerAction::<T>::Fail(
                    MatrixError::ProtocolViolation,
                ),
            },
    {
        let mut state = WorkerState::Done;
        core::mem::swap(&mut state, &mut self.state);
        match (state, event) {
            (WorkerState::AwaitingAssignment, WorkerEvent::Assignment(a)) => {
                if a.has_work() {
                    self.state = WorkerState::ReceivingA { assignment: a };
                    WorkerAction::ReceiveMatrix
                } else {
                    WorkerAction::Finish
                }
            },
            (WorkerState::ReceivingA { assignment }, WorkerEvent::Matrix(m)) => {
                self.state = WorkerState::ReceivingB { assignment, band: m };
                WorkerAction::ReceiveMatrix
            },
            (WorkerState::ReceivingB { band, .. }, WorkerEvent::Matrix(m)) => {
                match Matrix::multiply_chunks(&band, &m, zero, mul_add) {
                    Ok(c) => WorkerAction::SendResult(c),
                    Err(e) => WorkerAction::Fail(e),
                }
            },
            _ => WorkerAction::Fail(MatrixError::ProtocolViolation),
        }
    }
}

} // verus!
