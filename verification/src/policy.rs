//! The runtime policy that is consulted on each alignment, and the ledger
//! of `fp_runtime` that records its decisions.

use vstd::prelude::*;
use fp_runtime::EvidenceLedger;

verus! {

#[verifier::external_type_specification]
#[verifier::external_body]
pub struct ExEvidenceLedger(EvidenceLedger);

/// How strictly a policy judges.
#[derive(Debug, Clone, Copy, PartialEq, Eq, Structural)]
pub enum RuntimeMode {
    Strict,
    Hardened,
}

/// What a policy decides on an operation.
#[derive(Debug, Clone, Copy, PartialEq, Eq, Structural)]
pub enum DecisionAction {
    Allow,
    Reject,
    Repair,
}

/// How guarded an operation runs: the mode, whether an unknown feature is
/// refused, and the number of rows up to which a hardened policy admits a
/// union.
#[derive(Debug, Clone, PartialEq, Eq)]
pub struct RuntimePolicy {
    pub mode: RuntimeMode,
    pub fail_closed_unknown_features: bool,
    pub hardened_join_row_cap: Option<usize>,
}

/// The subjects of the decisions that a ledger holds, oldest first.
pub uninterp spec fn ledger_subjects(ledger: EvidenceLedger) -> Seq<Seq<char>>;

/// The action that `fp_runtime` decides on for the admission of a union of
/// `rows` rows under a policy with this mode and this cap.
pub uninterp spec fn join_admission(mode: RuntimeMode, cap: Option<usize>, rows: usize) -> DecisionAction;

/// The policy is a hardened one with a cap, and the rows are over the cap.
pub open spec fn over_cap(mode: RuntimeMode, cap: Option<usize>, rows: nat) -> bool {
    mode == RuntimeMode::Hardened && cap is Some && rows > cap->Some_0
}

/// `EvidenceLedger::new`: a ledger that holds no decision.
#[verifier::external_body]
pub(crate) fn new_ledger() -> (ledger: EvidenceLedger)
    ensures
        ledger_subjects(ledger) == Seq::<Seq<char>>::empty(),
{
    EvidenceLedger::new()
}

impl RuntimePolicy {
    /// The strict policy: unknown features are refused and no cap is set.
    pub fn strict() -> (r: Self)
        ensures
            r.mode == RuntimeMode::Strict,
            r.fail_closed_unknown_features,
            r.hardened_join_row_cap is None,
    {
        RuntimePolicy {
            mode: RuntimeMode::Strict,
            fail_closed_unknown_features: true,
            hardened_join_row_cap: None,
        }
    }

    /// The hardened policy with the given cap on the rows of a union.
    pub fn hardened(join_row_cap: Option<usize>) -> (r: Self)
        ensures
            r.mode == RuntimeMode::Hardened,
            !r.fail_closed_unknown_features,
            r.hardened_join_row_cap == join_row_cap,
    {
        RuntimePolicy {
            mode: RuntimeMode::Hardened,
            fail_closed_unknown_features: false,
            hardened_join_row_cap: join_row_cap,
        }
    }

    /// Whether the mode is the strict one.
    pub fn is_strict(&self) -> (r: bool)
        ensures
            r == (self.mode == RuntimeMode::Strict),
    {
        match self.mode {
            RuntimeMode::Strict => true,
            RuntimeMode::Hardened => false,
        }
    }
}

/// `RuntimePolicy::decide_unknown_feature` of `fp_runtime`, on the policy with
/// the same three fields: it appends one decision to the ledger, whose subject
/// is the one given. The action it returns is advisory and is dropped.
#[verifier::external_body]
pub(crate) fn note_unknown_feature(
    policy: &RuntimePolicy,
    subject: &str,
    detail: &str,
    ledger: &mut EvidenceLedger,
)
    ensures
        ledger_subjects(*final(ledger)) == ledger_subjects(*old(ledger)).push(subject@),
{
    let mode = match policy.mode {
        RuntimeMode::Strict => fp_runtime::RuntimeMode::Strict,
        RuntimeMode::Hardened => fp_runtime::RuntimeMode::Hardened,
    };
    let outside = fp_runtime::RuntimePolicy {
        mode,
        fail_closed_unknown_features: policy.fail_closed_unknown_features,
        hardened_join_row_cap: policy.hardened_join_row_cap,
    };
    let _ = outside.decide_unknown_feature(subject, detail, ledger);
}

/// `RuntimePolicy::decide_join_admission` of `fp_runtime`, on the policy with
/// the same three fields: the action depends on the mode, the cap and the
/// number of rows alone, a hardened policy over its cap repairs, and one
/// decision is appended to the ledger, whose subject is `join_estimator`.
#[verifier::external_body]
pub(crate) fn decide_join_admission(
    policy: &RuntimePolicy,
    estimated_rows: usize,
    ledger: &mut EvidenceLedger,
) -> (action: DecisionAction)
    ensures
        action == join_admission(policy.mode, policy.hardened_join_row_cap, estimated_rows),
        over_cap(policy.mode, policy.hardened_join_row_cap, estimated_rows as nat) ==> action
            == DecisionAction::Repair,
        ledger_subjects(*final(ledger)) == ledger_subjects(*old(ledger)).push("join_estimator"@),
{
    let mode = match policy.mode {
        RuntimeMode::Strict => fp_runtime::RuntimeMode::Strict,
        RuntimeMode::Hardened => fp_runtime::RuntimeMode::Hardened,
    };
    let outside = fp_runtime::RuntimePolicy {
        mode,
        fail_closed_unknown_features: policy.fail_closed_unknown_features,
        hardened_join_row_cap: policy.hardened_join_row_cap,
    };
    match outside.decide_join_admission(estimated_rows, ledger) {
        fp_runtime::DecisionAction::Allow => DecisionAction::Allow,
        fp_runtime::DecisionAction::Reject => DecisionAction::Reject,
        fp_runtime::DecisionAction::Repair => DecisionAction::Repair,
    }
}

} // verus!
