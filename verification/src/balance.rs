//! Balance calculator: the authoritative budget and balance of a session.
//!
//! The budget submitted by a caller is never trusted; it is recomputed
//! from the session's items.  An item counts toward the budget when its
//! `is_active` flag is set, or, with the flag absent, when its quantity
//! is positive.

use vstd::prelude::*;
use crate::model::{SessionItem, MAX_SESSION_ITEMS, MONEY_LIMIT, BUDGET_LIMIT, money_in_range};

verus! {

/// Whether an item takes part in the budget: the explicit flag, falling
/// back to `quantity > 0` when the flag is absent.
pub open spec fn item_is_active(it: SessionItem) -> bool {
    match it.is_active {
        Some(b) => b,
        None => it.quantity > 0,
    }
}

/// The sum, in cents, of the subtotals of the active items.
pub open spec fn budget_of(items: Seq<SessionItem>) -> int
    decreases items.len(),
{
    if items.len() == 0 {
        0
    } else {
        budget_of(items.drop_last()) + if item_is_active(items.last()) {
            items.last().subtotal as int
        } else {
            0
        }
    }
}

/// All subtotals of the given items lie within the accepted range.
pub open spec fn items_in_range(items: Seq<SessionItem>) -> bool {
    forall|i: int| 0 <= i < items.len() ==> money_in_range(#[trigger] items[i].subtotal as int)
}

/// A budget never exceeds one `MONEY_LIMIT` per item.
pub proof fn lemma_budget_of_bound(items: Seq<SessionItem>)
    requires
        items_in_range(items),
    ensures
        -(items.len() * MONEY_LIMIT) <= budget_of(items) <= items.len() * MONEY_LIMIT,
    decreases items.len(),
{
    if items.len() > 0 {
        assert(items_in_range(items.drop_last()));
        lemma_budget_of_bound(items.drop_last());
    }
}

/// Recomputes a session's budget from its items.
pub fn compute_budget(items: &Vec<SessionItem>) -> (budget: i64)
    requires
        items@.len() <= MAX_SESSION_ITEMS,
        items_in_range(items@),
    ensures
        budget == budget_of(items@),
        -BUDGET_LIMIT <= budget <= BUDGET_LIMIT,
{
    let mut budget: i64 = 0;
    let mut i: usize = 0;
    while i < items.len()
        invariant
            i <= items.len(),
            items@.len() <= MAX_SESSION_ITEMS,
            items_in_range(items@),
            budget == budget_of(items@.take(i as int)),
            -(i * MONEY_LIMIT) <= budget <= i * MONEY_LIMIT,
        decreases items.len() - i,
    {
        proof {
            assert(items@.take(i + 1).drop_last() =~= items@.take(i as int));
            assert(items@.take(i + 1).last() == items@[i as int]);
        }
        let it = &items[i];
        let active = match it.is_active {
            Some(b) => b,
            None => it.quantity > 0,
        };
        if active {
            budget = budget + it.subtotal;
        }
        i = i + 1;
    }
    proof {
        assert(items@.take(items@.len() as int) =~= items@);
        lemma_budget_of_bound(items@);
    }
    budget
}

/// The balance owed after a session: `budget - discount - payment`.
pub open spec fn balance_of(budget: int, discount: int, payment: int) -> int {
    budget - discount - payment
}

/// Computes the balance of a session from its recomputed budget.
pub fn compute_balance(budget: i64, discount: i64, payment: i64) -> (balance: i64)
    requires
        -BUDGET_LIMIT <= budget <= BUDGET_LIMIT,
        money_in_range(discount as int),
        money_in_range(payment as int),
    ensures
        balance == balance_of(budget as int, discount as int, payment as int),
        -(BUDGET_LIMIT + 2 * MONEY_LIMIT) <= balance <= BUDGET_LIMIT + 2 * MONEY_LIMIT,
{
    budget - discount - payment
}

/// Whether a caller-submitted budget disagrees with the recomputed one
/// by more than one cent.  The disagreement is only diagnostic: it never
/// blocks a save.
pub fn budget_mismatch(submitted: i64, calculated: i64) -> (r: bool)
    ensures
        r == ((submitted - calculated > 1) || (submitted - calculated < -1)),
{
    let diff: i128 = submitted as i128 - calculated as i128;
    diff > 1 || diff < -1
}

/// A session with no items has budget zero, and so owes exactly the
/// negated discount and payment.
pub proof fn lemma_empty_items_balance(discount: int, payment: int)
    ensures
        budget_of(Seq::<SessionItem>::empty()) == 0,
        balance_of(budget_of(Seq::<SessionItem>::empty()), discount, payment) == -(discount
            + payment),
{
}

} // verus!
