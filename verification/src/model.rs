//! Data model: patients, sessions and session items.
//!
//! Monetary fields hold integer cents; `date` fields and the timestamp
//! fields of the debt lifecycle hold integer day numbers (days of the
//! proleptic calendar), so that sums and comparisons are exact.  Rows
//! carry no creation or modification stamps: those columns are store
//! bookkeeping that no rule reads.

use vstd::prelude::*;

verus! {

/// Largest magnitude, in cents, accepted for a single monetary input
/// (an item subtotal, a discount, a payment).
pub const MONEY_LIMIT: i64 = 10_000_000_000;

/// Largest number of items a single session may carry.
pub const MAX_SESSION_ITEMS: usize = 1_000;

/// Largest magnitude a recomputed session budget can reach:
/// `MAX_SESSION_ITEMS * MONEY_LIMIT`.
pub const BUDGET_LIMIT: i64 = 10_000_000_000_000;

/// Largest magnitude a session balance can reach:
/// a budget plus a discount and a payment, rounded up.
pub const BALANCE_LIMIT: i64 = 20_000_000_000_000;

/// Largest number of session rows a store may hold.  Together with
/// `BALANCE_LIMIT` this keeps every cumulative balance within `i64`.
pub const MAX_SESSIONS: usize = 400_000;

/// Largest magnitude of a day number.  Generous enough for any calendar
/// date a date library can represent.
pub const DAY_LIMIT: i64 = 100_000_000;

/// A monetary input within the accepted range.
pub open spec fn money_in_range(v: int) -> bool {
    -MONEY_LIMIT <= v <= MONEY_LIMIT
}

/// A day number within the accepted range.
pub open spec fn day_in_range(d: int) -> bool {
    -DAY_LIMIT <= d <= DAY_LIMIT
}

/// Demographic record of a patient.  The ledger fields of the stored
/// patient row live in `PatientRecord`, not here.
#[derive(Debug, PartialEq)]
pub struct Patient {
    pub id: Option<i64>,
    pub full_name: String,
    pub doc_id: String,
    pub email: Option<String>,
    pub phone: String,
    pub emergency_phone: Option<String>,
    pub date_of_birth: String,
    pub anamnesis: Option<String>,
    pub allergy_detail: Option<String>,
    pub status: Option<String>,
}

/// One billable clinical session (visit) with its financial fields,
/// in cents.  `date` is a day number.
#[derive(Debug, PartialEq)]
pub struct Session {
    pub id: Option<i64>,
    pub patient_id: Option<i64>,
    pub date: i64,
    pub reason_type: Option<String>,
    pub reason_detail: Option<String>,
    pub diagnosis_text: Option<String>,
    pub auto_dx_text: Option<String>,
    pub full_dx_text: Option<String>,
    pub tooth_dx_json: Option<String>,
    pub clinical_notes: Option<String>,
    pub signer: Option<String>,
    pub budget: i64,
    pub discount: i64,
    pub payment: i64,
    pub balance: i64,
    pub cumulative_balance: i64,
    pub payment_method_id: Option<i64>,
    pub payment_notes: Option<String>,
    pub is_saved: Option<bool>,
}

/// One billable item of a session; `unit_price` and `subtotal` in cents.
#[derive(Debug, PartialEq)]
pub struct SessionItem {
    pub id: Option<i64>,
    pub session_id: Option<i64>,
    pub name: String,
    pub unit_price: i64,
    pub quantity: i64,
    pub subtotal: i64,
    pub is_active: Option<bool>,
    pub tooth_number: Option<String>,
    pub procedure_notes: Option<String>,
    pub procedure_template_id: Option<i64>,
    pub sort_order: Option<i64>,
}

/// A session together with its items: the draft submitted to the save
/// operation, and the shape in which queries return a session.
#[derive(Debug, PartialEq)]
pub struct SessionRow {
    pub visit: Session,
    pub items: Vec<SessionItem>,
}

/// The composite input of the save operation.
#[derive(Debug, PartialEq)]
pub struct SaveVisitPayload {
    pub patient: Patient,
    pub visit: Session,
    pub sessions: Vec<SessionRow>,
}

/// What the save operation returns: the patient identity and the
/// identity of the last session processed.
#[derive(Debug, PartialEq)]
pub struct SaveVisitResult {
    pub patient_id: i64,
    pub visit_id: i64,
}

/// What creating a diagnostic-update session returns.
#[derive(Debug, PartialEq)]
pub struct CreateDiagnosticUpdateSessionResponse {
    pub session_id: i64,
}

/// One row of the pending-payments report: a patient with open,
/// unarchived debt, with the days overdue and the contact standing.
#[derive(Debug, PartialEq)]
pub struct PatientDebtSummary {
    pub patient_id: i64,
    pub full_name: String,
    pub phone: Option<String>,
    pub doc_id: String,
    pub current_balance: i64,
    pub debt_opened_at: Option<i64>,
    pub debt_archived: i64,
    pub last_contact_at: Option<i64>,
    pub last_contact_type: Option<String>,
    pub days_overdue: i64,
    pub contact_status: String,
}

/// One row of the patient listing: demographics with the date of the
/// last session and the pending balance, in cents.
#[derive(Debug, PartialEq)]
pub struct PatientListItem {
    pub id: i64,
    pub full_name: String,
    pub doc_id: String,
    pub phone: String,
    pub allergy_detail: Option<String>,
    pub status: Option<String>,
    pub last_visit_date: Option<i64>,
    pub pending_balance: i64,
}

/// Clones an optional text field.
pub fn clone_opt_string(s: &Option<String>) -> (r: Option<String>)
    ensures
        r == *s,
{
    match s {
        Some(x) => Some(x.clone()),
        None => None,
    }
}

impl Clone for Patient {
    fn clone(&self) -> (r: Self)
        ensures
            r == *self,
    {
        Patient {
            id: self.id,
            full_name: self.full_name.clone(),
            doc_id: self.doc_id.clone(),
            email: clone_opt_string(&self.email),
            phone: self.phone.clone(),
            emergency_phone: clone_opt_string(&self.emergency_phone),
            date_of_birth: self.date_of_birth.clone(),
            anamnesis: clone_opt_string(&self.anamnesis),
            allergy_detail: clone_opt_string(&self.allergy_detail),
            status: clone_opt_string(&self.status),
        }
    }
}

impl Clone for Session {
    fn clone(&self) -> (r: Self)
        ensures
            r == *self,
    {
        Session {
            id: self.id,
            patient_id: self.patient_id,
            date: self.date,
            reason_type: clone_opt_string(&self.reason_type),
            reason_detail: clone_opt_string(&self.reason_detail),
            diagnosis_text: clone_opt_string(&self.diagnosis_text),
            auto_dx_text: clone_opt_string(&self.auto_dx_text),
            full_dx_text: clone_opt_string(&self.full_dx_text),
            tooth_dx_json: clone_opt_string(&self.tooth_dx_json),
            clinical_notes: clone_opt_string(&self.clinical_notes),
            signer: clone_opt_string(&self.signer),
            budget: self.budget,
            discount: self.discount,
            payment: self.payment,
            balance: self.balance,
            cumulative_balance: self.cumulative_balance,
            payment_method_id: self.payment_method_id,
            payment_notes: clone_opt_string(&self.payment_notes),
            is_saved: self.is_saved,
        }
    }
}

impl Clone for SessionItem {
    fn clone(&self) -> (r: Self)
        ensures
            r == *self,
    {
        SessionItem {
            id: self.id,
            session_id: self.session_id,
            name: self.name.clone(),
            unit_price: self.unit_price,
            quantity: self.quantity,
            subtotal: self.subtotal,
            is_active: self.is_active,
            tooth_number: clone_opt_string(&self.tooth_number),
            procedure_notes: clone_opt_string(&self.procedure_notes),
            procedure_template_id: self.procedure_template_id,
            sort_order: self.sort_order,
        }
    }
}

/// Clones a vector of items, element for element.
pub fn clone_items(items: &Vec<SessionItem>) -> (r: Vec<SessionItem>)
    ensures
        r@ == items@,
{
    let mut out: Vec<SessionItem> = Vec::new();
    let mut i: usize = 0;
    while i < items.len()
        invariant
            i <= items.len(),
            out@ =~= items@.take(i as int),
        decreases items.len() - i,
    {
        out.push(items[i].clone());
        i = i + 1;
    }
    proof {
        assert(out@ =~= items@);
    }
    out
}

impl Clone for SessionRow {
    fn clone(&self) -> (r: Self)
        ensures
            r.visit == self.visit,
            r.items@ == self.items@,
    {
        SessionRow { visit: self.visit.clone(), items: clone_items(&self.items) }
    }
}

} // verus!
