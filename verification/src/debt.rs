//! Debt lifecycle state machine.
//!
//! After every save, the patient's debt flags are re-derived from the
//! patient ledger total strictly before the call and strictly after it.
//! The rules form a priority-ordered transition table; the first rule
//! whose guard holds is the one applied.

use vstd::prelude::*;

verus! {

/// The debt flags kept on a patient row.  `opened_at` and `archived_at`
/// are day numbers.
#[derive(Clone, Copy, Debug, PartialEq, Eq, Structural)]
pub struct DebtFields {
    pub opened_at: Option<i64>,
    pub archived: bool,
    pub archived_at: Option<i64>,
}

/// The transitions of the debt lifecycle, in priority order.
#[derive(Debug, PartialEq, Eq, Structural)]
pub enum DebtTransition {
    /// The ledger went from settled to owing: the debt opens.
    OpenDebt,
    /// The ledger went from owing to settled: the debt closes.
    CloseDebt,
    /// The ledger still shows debt but the record was archived away:
    /// bring it back.
    Unarchive,
    /// The ledger shows debt but no opening date was ever recorded:
    /// repair the row.
    RepairOpenedDate,
    /// None of the guards hold: the row is left alone.
    NoChange,
}

/// Selects the transition: the first rule of the table whose guard
/// holds, given the ledger total before the save, the total after it,
/// and the current flags.
pub open spec fn debt_rule(previous_total: int, new_total: int, current: DebtFields) -> DebtTransition {
    if previous_total <= 0 && new_total > 0 {
        DebtTransition::OpenDebt
    } else if previous_total > 0 && new_total <= 0 {
        DebtTransition::CloseDebt
    } else if new_total > 0 && current.archived {
        DebtTransition::Unarchive
    } else if new_total > 0 && current.opened_at is None {
        DebtTransition::RepairOpenedDate
    } else {
        DebtTransition::NoChange
    }
}

/// The flags a transition leaves behind.  `trigger_date` is the date of
/// the last session saved by the call, when that session exists.
pub open spec fn debt_step(
    t: DebtTransition,
    current: DebtFields,
    trigger_date: Option<i64>,
) -> DebtFields {
    match t {
        DebtTransition::OpenDebt => DebtFields {
            opened_at: trigger_date,
            archived: false,
            archived_at: None,
        },
        DebtTransition::CloseDebt => DebtFields { opened_at: None, archived: false, archived_at: None },
        DebtTransition::Unarchive => DebtFields {
            opened_at: current.opened_at,
            archived: false,
            archived_at: None,
        },
        DebtTransition::RepairOpenedDate => DebtFields {
            opened_at: trigger_date,
            archived: false,
            archived_at: current.archived_at,
        },
        DebtTransition::NoChange => current,
    }
}

/// The whole evaluation pass: select a rule, apply it.
pub open spec fn debt_transition(
    previous_total: int,
    new_total: int,
    current: DebtFields,
    trigger_date: Option<i64>,
) -> DebtFields {
    debt_step(debt_rule(previous_total, new_total, current), current, trigger_date)
}

/// Executable rule selection, checked against the table.
pub fn select_debt_transition(
    previous_total: i64,
    new_total: i64,
    current: &DebtFields,
) -> (t: DebtTransition)
    ensures
        t == debt_rule(previous_total as int, new_total as int, *current),
{
    if previous_total <= 0 && new_total > 0 {
        DebtTransition::OpenDebt
    } else if previous_total > 0 && new_total <= 0 {
        DebtTransition::CloseDebt
    } else if new_total > 0 && current.archived {
        DebtTransition::Unarchive
    } else if new_total > 0 && current.opened_at.is_none() {
        DebtTransition::RepairOpenedDate
    } else {
        DebtTransition::NoChange
    }
}

/// Executable application of a transition, checked against the table.
pub fn apply_debt_transition(
    t: &DebtTransition,
    current: &DebtFields,
    trigger_date: Option<i64>,
) -> (r: DebtFields)
    ensures
        r == debt_step(*t, *current, trigger_date),
{
    match t {
        DebtTransition::OpenDebt => DebtFields {
            opened_at: trigger_date,
            archived: false,
            archived_at: None,
        },
        DebtTransition::CloseDebt => DebtFields { opened_at: None, archived: false, archived_at: None },
        DebtTransition::Unarchive => DebtFields {
            opened_at: current.opened_at,
            archived: false,
            archived_at: None,
        },
        DebtTransition::RepairOpenedDate => DebtFields {
            opened_at: trigger_date,
            archived: false,
            archived_at: current.archived_at,
        },
        DebtTransition::NoChange => DebtFields {
            opened_at: current.opened_at,
            archived: current.archived,
            archived_at: current.archived_at,
        },
    }
}

/// Going from a settled ledger to an owing one opens the debt: the
/// opening date becomes the triggering session's date and the archive
/// flag is cleared.
pub proof fn lemma_debt_opens(
    previous_total: int,
    new_total: int,
    current: DebtFields,
    trigger_date: Option<i64>,
)
    requires
        previous_total <= 0,
        new_total > 0,
    ensures
        debt_transition(previous_total, new_total, current, trigger_date) == (DebtFields {
            opened_at: trigger_date,
            archived: false,
            archived_at: None,
        }),
{
}

/// Going from an owing ledger to a settled one clears the opening date
/// and every archive mark.
pub proof fn lemma_debt_closes(
    previous_total: int,
    new_total: int,
    current: DebtFields,
    trigger_date: Option<i64>,
)
    requires
        previous_total > 0,
        new_total <= 0,
    ensures
        debt_transition(previous_total, new_total, current, trigger_date) == (DebtFields {
            opened_at: None,
            archived: false,
            archived_at: None,
        }),
{
}

/// A save that keeps the ledger owing unarchives an archived debt and
/// leaves the opening date untouched.
pub proof fn lemma_archived_debt_reopens(
    previous_total: int,
    new_total: int,
    current: DebtFields,
    trigger_date: Option<i64>,
)
    requires
        previous_total > 0,
        new_total > 0,
        current.archived,
    ensures
        debt_transition(previous_total, new_total, current, trigger_date) == (DebtFields {
            opened_at: current.opened_at,
            archived: false,
            archived_at: None,
        }),
{
}

} // verus!
