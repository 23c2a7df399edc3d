//! What the tools of an unattended run may do. Nobody is there to ask, so the
//! policy is fixed: reading always runs, writing runs where the task's ceiling
//! permits it, and a publishing or dangerous call never runs.
use vstd::prelude::*;
use vstd::string::*;
use crate::scheduled::task::SafetyCeiling;

verus! {

/// What a tool call may do at worst.
#[derive(Debug, Clone, Copy, PartialEq, Eq, Structural)]
pub enum Safety {
    /// Reads only.
    ReadOnly,
    /// Writes within the workspace.
    Write,
    /// Touches something sensitive.
    Sensitive,
    /// Publishes to a remote.
    Publish,
    /// Can do lasting harm.
    Dangerous,
}

/// Why a call was denied.
#[derive(Debug, Clone, Copy, PartialEq, Eq, Structural)]
pub enum DenyReason {
    /// There is nobody to approve the call.
    NoInteractiveTerminal,
}

/// Whether a tool call may run.
#[derive(Debug, Clone, Copy, PartialEq, Eq, Structural)]
pub enum ApprovalOutcome {
    /// It may.
    Allowed,
    /// It may not.
    Denied(DenyReason),
}

/// Whether a run under that ceiling may make a call of that safety.
pub open spec fn permits(ceiling: SafetyCeiling, safety: Safety) -> bool {
    match safety {
        Safety::ReadOnly => true,
        Safety::Write | Safety::Sensitive => ceiling == SafetyCeiling::Write,
        Safety::Publish | Safety::Dangerous => false,
    }
}

/// Approves the tool calls of one scheduled run under a fixed ceiling.
#[derive(Debug)]
pub struct ScheduledApprover {
    ceiling: SafetyCeiling,
    needs_attention: bool,
}

impl View for ScheduledApprover {
    type V = (SafetyCeiling, bool);

    closed spec fn view(&self) -> (SafetyCeiling, bool) {
        (self.ceiling, self.needs_attention)
    }
}

impl ScheduledApprover {
    /// An approver for one run, which has asked nothing yet.
    pub fn new(ceiling: SafetyCeiling) -> (r: Self)
        ensures
            r@ == (ceiling, false),
    {
        ScheduledApprover { ceiling, needs_attention: false }
    }

    /// Whether the run has asked a question, which nobody can answer.
    pub fn needs_attention(&self) -> (r: bool)
        ensures
            r == self@.1,
    {
        self.needs_attention
    }

    /// Whether a tool call may run. Neither the call nor the tool matters, only
    /// how safe it is.
    pub fn approve(
        &self,
        _message_id: &str,
        _call_id: &str,
        _name: &str,
        safety: Safety,
    ) -> (r: ApprovalOutcome)
        ensures
            permits(self@.0, safety) ==> r == ApprovalOutcome::Allowed,
            !permits(self@.0, safety) ==> r == ApprovalOutcome::Denied(
                DenyReason::NoInteractiveTerminal,
            ),
    {
        match safety {
            Safety::ReadOnly => ApprovalOutcome::Allowed,
            Safety::Write | Safety::Sensitive => {
                if self.ceiling == SafetyCeiling::Write {
                    ApprovalOutcome::Allowed
                } else {
                    ApprovalOutcome::Denied(DenyReason::NoInteractiveTerminal)
                }
            },
            Safety::Publish | Safety::Dangerous => {
                ApprovalOutcome::Denied(DenyReason::NoInteractiveTerminal)
            },
        }
    }

    /// Dismisses a question without an answer and keeps that one was asked.
    pub fn ask(&mut self, _message_id: &str, _call_id: &str) -> (r: Option<String>)
        ensures
            r is None,
            final(self)@ == (old(self)@.0, true),
    {
        self.needs_attention = true;
        None
    }
}

/// No ceiling lets an unattended run publish or do a dangerous thing.
pub proof fn law_nothing_is_published_unattended(ceiling: SafetyCeiling)
    ensures
        !permits(ceiling, Safety::Publish),
        !permits(ceiling, Safety::Dangerous),
{
}

/// What a read-only ceiling permits, a write ceiling permits too, and a
/// sensitive call is treated as a write.
pub proof fn law_write_ceiling_permits_more(safety: Safety)
    ensures
        permits(SafetyCeiling::ReadOnly, safety) ==> permits(SafetyCeiling::Write, safety),
        forall|c: SafetyCeiling| #[trigger]
            permits(c, Safety::Sensitive) == permits(c, Safety::Write),
{
}

} // verus!
