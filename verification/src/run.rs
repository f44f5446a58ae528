//! The run engine: consuming the execution sequence one task at a time. The
//! caller performs each script invocation and reports its exit code back;
//! this module decides what runs next and what the whole run reports.
//!
//! The sequence is consumed strictly in order, the run stops at the first
//! non-zero exit code, and the reported status is that task's code — or zero
//! when the whole sequence completes.

use vstd::prelude::*;

use crate::error::FriggenError;
use crate::scan::copy_bytes;

verus! {

broadcast use crate::scan::lemma_bytes_deep_view;

/// The state of one run over a fixed execution sequence.
#[derive(Debug, PartialEq)]
pub struct TaskRun {
    order: Vec<Vec<u8>>,
    next: usize,
    failure: Option<(Vec<u8>, i32)>,
}

impl TaskRun {
    /// The execution sequence being consumed.
    pub closed spec fn order_spec(&self) -> Seq<Seq<u8>> {
        self.order.deep_view()
    }

    /// How many tasks have finished successfully.
    pub closed spec fn next_spec(&self) -> int {
        self.next as int
    }

    /// The task that stopped the run and its exit code, if any did.
    pub closed spec fn failure_spec(&self) -> Option<(Seq<u8>, i32)> {
        match self.failure {
            Some(p) => Some((p.0@, p.1)),
            None => None,
        }
    }

    pub open spec fn wf(&self) -> bool {
        self.next_spec() <= self.order_spec().len()
    }

    /// Starts a run over the given sequence.
    pub fn new(order: Vec<Vec<u8>>) -> (r: Self)
        ensures
            r.wf(),
            r.order_spec() == order.deep_view(),
            r.next_spec() == 0,
            r.failure_spec() is None,
    {
        Self { order, next: 0, failure: None }
    }

    /// The task to execute now: the first not yet run, unless an earlier one
    /// failed or the sequence is exhausted.
    pub fn next_task(&self) -> (r: Option<&Vec<u8>>)
        requires
            self.wf(),
        ensures
            match r {
                Some(t) => self.failure_spec() is None && self.next_spec()
                    < self.order_spec().len() && t@ == self.order_spec()[self.next_spec()],
                None => self.failure_spec() is Some || self.next_spec()
                    >= self.order_spec().len(),
            },
    {
        if self.failure.is_some() {
            None
        } else if self.next < self.order.len() {
            Some(&self.order[self.next])
        } else {
            None
        }
    }

    /// Records the exit code of the task just executed. A zero code advances
    /// to the next task; any other code stops the run right there, so that
    /// no later task of the sequence is ever offered again.
    pub fn record_exit(&mut self, code: i32)
        requires
            old(self).wf(),
            old(self).failure_spec() is None,
            old(self).next_spec() < old(self).order_spec().len(),
        ensures
            final(self).wf(),
            final(self).order_spec() == old(self).order_spec(),
            code == 0 ==> {
                &&& final(self).next_spec() == old(self).next_spec() + 1
                &&& final(self).failure_spec() is None
            },
            code != 0 ==> {
                &&& final(self).next_spec() == old(self).next_spec()
                &&& final(self).failure_spec() == Some(
                    (old(self).order_spec()[old(self).next_spec()], code),
                )
            },
    {
        proof {
            assert(self.next < self.order.len());
        }
        if code == 0 {
            self.next = self.next + 1;
        } else {
            let name = copy_bytes(&self.order[self.next]);
            self.failure = Some((name, code));
        }
    }

    /// The run's reported exit status: the code of the task that stopped it,
    /// or zero when nothing failed.
    pub fn exit_status(&self) -> (r: i32)
        ensures
            r == (match self.failure_spec() {
                Some(p) => p.1,
                None => 0,
            }),
    {
        match &self.failure {
            Some(p) => p.1,
            None => 0,
        }
    }

    /// The error the whole run reports when a task stopped it: the expected
    /// outcome "task N failed with code C", to be propagated as the process's
    /// own exit status.
    pub fn failure_error(&self) -> (r: Option<FriggenError>)
        ensures
            match r {
                Some(e) => {
                    &&& self.failure_spec() matches Some(p)
                    &&& e matches FriggenError::TaskExecutionFailure { task, exit_code }
                    &&& self.failure_spec() == Some((task@, exit_code))
                },
                None => self.failure_spec() is None,
            },
    {
        match &self.failure {
            Some(p) => Some(
                FriggenError::TaskExecutionFailure { task: copy_bytes(&p.0), exit_code: p.1 },
            ),
            None => None,
        }
    }

    /// The task that stopped the run and its exit code, for reporting.
    pub fn failure_info(&self) -> (r: Option<(&Vec<u8>, i32)>)
        ensures
            match r {
                Some(p) => self.failure_spec() == Some((p.0@, p.1)),
                None => self.failure_spec() is None,
            },
    {
        match &self.failure {
            Some(p) => Some((&p.0, p.1)),
            None => None,
        }
    }
}

} // verus!
