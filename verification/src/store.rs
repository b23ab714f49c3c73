//! The clinic store: patients, sessions and session items, with the
//! save path that keeps the ledger and the debt lifecycle coherent.
//!
//! The store mirrors the three tables the transactional core writes:
//! a patient table carrying the debt flags, a session table and an
//! item table.  Row identities are handed out by per-table counters,
//! in insertion order, as a rowid column would.

use vstd::prelude::*;
use crate::balance::{budget_of, items_in_range};
use crate::debt::DebtFields;
use crate::items::{build_items, build_stored_items, items_without, replace_items_table};
use crate::ledger::{
    balances_bounded, find_session, find_session_index, saved_balance_sum, session_id_exists,
    sum_saved_balances,
};
use crate::model::{
    CreateDiagnosticUpdateSessionResponse, Patient, PatientDebtSummary, PatientListItem,
    SaveVisitResult, Session, SessionItem, SessionRow, day_in_range, money_in_range,
    BALANCE_LIMIT, MAX_SESSIONS, MAX_SESSION_ITEMS,
};

verus! {

/// Headroom kept under `i64::MAX` by every identity counter, so that a
/// whole save cannot overflow one.
pub const ID_HEADROOM: i64 = 1_000_000_000_000_000_000;

/// A stored patient row: the demographic record together with the debt
/// lifecycle flags and the contact bookkeeping of the debt report.
#[derive(Debug, PartialEq)]
pub struct PatientRecord {
    pub info: Patient,
    pub debt: DebtFields,
    pub last_contact_at: Option<i64>,
    pub last_contact_type: Option<String>,
}

impl Clone for PatientRecord {
    fn clone(&self) -> (r: Self)
        ensures
            r == *self,
    {
        PatientRecord {
            info: self.info.clone(),
            debt: DebtFields {
                opened_at: self.debt.opened_at,
                archived: self.debt.archived,
                archived_at: self.debt.archived_at,
            },
            last_contact_at: self.last_contact_at,
            last_contact_type: crate::model::clone_opt_string(&self.last_contact_type),
        }
    }
}

/// The store the transactional core writes.
pub struct LedgerStore {
    pub patients: Vec<PatientRecord>,
    pub sessions: Vec<Session>,
    pub items: Vec<SessionItem>,
    pub next_patient_id: i64,
    pub next_session_id: i64,
    pub next_item_id: i64,
}

/// Shape of a stored patient row: a real identity below the counter,
/// and every lifecycle timestamp a day number in range.
pub open spec fn patient_row_ok(r: PatientRecord, next_pid: int) -> bool {
    &&& r.info.id is Some
    &&& 1 <= r.info.id->0 < next_pid
    &&& (r.debt.opened_at is Some ==> day_in_range(r.debt.opened_at->0 as int))
    &&& (r.debt.archived_at is Some ==> day_in_range(r.debt.archived_at->0 as int))
    &&& (r.last_contact_at is Some ==> day_in_range(r.last_contact_at->0 as int))
}

/// Shape of a stored session row: a real identity below the counter,
/// an owner, an explicit saved flag, a bounded balance and a date in
/// range.
pub open spec fn session_row_ok(s: Session, next_sid: int) -> bool {
    &&& s.id is Some
    &&& 1 <= s.id->0 < next_sid
    &&& s.patient_id is Some
    &&& s.is_saved is Some
    &&& -BALANCE_LIMIT <= s.balance <= BALANCE_LIMIT
    &&& day_in_range(s.date as int)
    &&& s.is_saved == Some(true) ==> s.balance as int == s.budget - s.discount - s.payment
}

impl LedgerStore {
    /// Well-formedness of the store: counters start at one, row
    /// identities are unique and below their counter, and the session
    /// table respects the size and balance bounds.
    pub open spec fn wf(self) -> bool {
        &&& 1 <= self.next_patient_id
        &&& 1 <= self.next_session_id
        &&& 1 <= self.next_item_id
        &&& self.sessions@.len() <= MAX_SESSIONS
        &&& forall|i: int|
            0 <= i < self.patients@.len() ==> patient_row_ok(
                #[trigger] self.patients@[i],
                self.next_patient_id as int,
            )
        &&& forall|i: int, j: int|
            0 <= i < j < self.patients@.len() ==> (#[trigger] self.patients@[i]).info.id != (
            #[trigger] self.patients@[j]).info.id
        &&& forall|i: int|
            0 <= i < self.sessions@.len() ==> session_row_ok(
                #[trigger] self.sessions@[i],
                self.next_session_id as int,
            )
        &&& forall|i: int, j: int|
            0 <= i < j < self.sessions@.len() ==> (#[trigger] self.sessions@[i]).id != (
            #[trigger] self.sessions@[j]).id
    }

    /// An empty store.
    pub fn new() -> (s: LedgerStore)
        ensures
            s.wf(),
            s.patients@.len() == 0,
            s.sessions@.len() == 0,
            s.items@.len() == 0,
            s.next_patient_id == 1,
            s.next_session_id == 1,
            s.next_item_id == 1,
    {
        LedgerStore {
            patients: Vec::new(),
            sessions: Vec::new(),
            items: Vec::new(),
            next_patient_id: 1,
            next_session_id: 1,
            next_item_id: 1,
        }
    }
}

/// The first index holding the patient with the given identity.
pub open spec fn find_patient(table: Seq<PatientRecord>, pid: i64) -> Option<int>
    decreases table.len(),
{
    if table.len() == 0 {
        None
    } else if table.first().info.id == Some(pid) {
        Some(0)
    } else {
        match find_patient(table.drop_first(), pid) {
            Some(j) => Some(j + 1),
            None => None,
        }
    }
}

/// Whether some stored patient row carries the given identity.
pub open spec fn patient_id_exists(table: Seq<PatientRecord>, pid: i64) -> bool {
    exists|j: int| 0 <= j < table.len() && (#[trigger] table[j]).info.id == Some(pid)
}

/// `find_patient` finds exactly the first match.
pub proof fn lemma_find_patient_at(table: Seq<PatientRecord>, pid: i64, i: int)
    requires
        0 <= i < table.len(),
        table[i].info.id == Some(pid),
        forall|j: int| 0 <= j < i ==> (#[trigger] table[j]).info.id != Some(pid),
    ensures
        find_patient(table, pid) == Some(i),
    decreases table.len(),
{
    if i > 0 {
        assert(table.drop_first()[i - 1] == table[i]);
        assert(forall|j: int|
            0 <= j < i - 1 ==> (#[trigger] table.drop_first()[j]) == table[j + 1]);
        lemma_find_patient_at(table.drop_first(), pid, i - 1);
    }
}

/// When no stored patient row carries the identity, `find_patient`
/// yields nothing.
pub proof fn lemma_find_patient_none(table: Seq<PatientRecord>, pid: i64)
    requires
        !patient_id_exists(table, pid),
    ensures
        find_patient(table, pid) is None,
    decreases table.len(),
{
    if table.len() > 0 {
        assert(table[0].info.id != Some(pid));
        assert(forall|j: int|
            0 <= j < table.len() - 1 ==> (#[trigger] table.drop_first()[j]) == table[j + 1]);
        lemma_find_patient_none(table.drop_first(), pid);
    }
}

/// A found index holds the identity sought.
pub proof fn lemma_find_patient_found(table: Seq<PatientRecord>, pid: i64)
    requires
        find_patient(table, pid) is Some,
    ensures
        0 <= find_patient(table, pid)->0 < table.len(),
        table[find_patient(table, pid)->0].info.id == Some(pid),
    decreases table.len(),
{
    if table.len() > 0 && table.first().info.id != Some(pid) {
        lemma_find_patient_found(table.drop_first(), pid);
        assert(table.drop_first()[find_patient(table.drop_first(), pid)->0] == table[find_patient(
            table,
            pid,
        )->0]);
    }
}

/// Finds the index of the patient row with the given identity.
pub fn find_patient_index(table: &Vec<PatientRecord>, pid: i64) -> (r: Option<usize>)
    ensures
        match r {
            Some(j) => find_patient(table@, pid) == Some(j as int) && j < table@.len()
                && table@[j as int].info.id == Some(pid),
            None => find_patient(table@, pid) is None && !patient_id_exists(table@, pid),
        },
{
    let mut i: usize = 0;
    while i < table.len()
        invariant
            i <= table.len(),
            forall|j: int| 0 <= j < i ==> (#[trigger] table@[j]).info.id != Some(pid),
        decreases table.len() - i,
    {
        let matched = match table[i].info.id {
            Some(id) => id == pid,
            None => false,
        };
        if matched {
            proof {
                lemma_find_patient_at(table@, pid, i as int);
            }
            return Some(i);
        }
        i = i + 1;
    }
    proof {
        assert(!patient_id_exists(table@, pid));
        lemma_find_patient_none(table@, pid);
    }
    None
}

/// What an upsert stores for a patient: the submitted demographics
/// under the resolved identity, the status defaulted to `active` when
/// it was absent.
pub open spec fn upserted_info(stored: Patient, given: Patient, pid: i64) -> bool {
    &&& stored.id == Some(pid)
    &&& stored.full_name == given.full_name
    &&& stored.doc_id == given.doc_id
    &&& stored.email == given.email
    &&& stored.phone == given.phone
    &&& stored.emergency_phone == given.emergency_phone
    &&& stored.date_of_birth == given.date_of_birth
    &&& stored.anamnesis == given.anamnesis
    &&& stored.allergy_detail == given.allergy_detail
    &&& match given.status {
        Some(_) => stored.status == given.status,
        None => stored.status is Some && stored.status->0@ == "active"@,
    }
}

/// Builds the demographic record an upsert stores.
pub fn normalize_patient(given: Patient, pid: i64) -> (p: Patient)
    ensures
        upserted_info(p, given, pid),
{
    let status = match given.status {
        Some(s) => Some(s),
        None => Some("active".to_owned()),
    };
    Patient {
        id: Some(pid),
        full_name: given.full_name,
        doc_id: given.doc_id,
        email: given.email,
        phone: given.phone,
        emergency_phone: given.emergency_phone,
        date_of_birth: given.date_of_birth,
        anamnesis: given.anamnesis,
        allergy_detail: given.allergy_detail,
        status,
    }
}

impl LedgerStore {
    /// Inserts or updates a patient's demographic record.  With an
    /// identity the matching row is rewritten (and the identity echoed
    /// back even when no row matches, as a parameterized update would);
    /// without one a fresh row is inserted, its debt lifecycle clear.
    pub fn upsert_patient(&mut self, patient: Patient) -> (r: Result<i64, String>)
        requires
            old(self).wf(),
            old(self).next_patient_id < i64::MAX,
        ensures
            final(self).wf(),
            final(self).sessions@ == old(self).sessions@,
            final(self).items@ == old(self).items@,
            final(self).next_session_id == old(self).next_session_id,
            final(self).next_item_id == old(self).next_item_id,
            r is Ok,
            match patient.id {
                Some(pid) => {
                    &&& r->Ok_0 == pid
                    &&& final(self).next_patient_id == old(self).next_patient_id
                    &&& match find_patient(old(self).patients@, pid) {
                        Some(j) => {
                            &&& final(self).patients@.len() == old(self).patients@.len()
                            &&& forall|k: int|
                                0 <= k < old(self).patients@.len() && k != j ==> final(self).patients@[k] == #[trigger] old(self).patients@[k]
                            &&& upserted_info(final(self).patients@[j].info, patient, pid)
                            &&& final(self).patients@[j].debt == old(self).patients@[j].debt
                            &&& final(self).patients@[j].last_contact_at == old(self).patients@[j].last_contact_at
                            &&& final(self).patients@[j].last_contact_type == old(self).patients@[j].last_contact_type
                        },
                        None => final(self).patients@ == old(self).patients@,
                    }
                },
                None => {
                    &&& r->Ok_0 == old(self).next_patient_id
                    &&& final(self).next_patient_id == old(self).next_patient_id + 1
                    &&& final(self).patients@.len() == old(self).patients@.len() + 1
                    &&& final(self).patients@.take(old(self).patients@.len() as int) == old(self).patients@
                    &&& upserted_info(
                        final(self).patients@.last().info,
                        patient,
                        old(self).next_patient_id,
                    )
                    &&& final(self).patients@.last().debt == (DebtFields {
                        opened_at: None,
                        archived: false,
                        archived_at: None,
                    })
                    &&& final(self).patients@.last().last_contact_at is None
                    &&& final(self).patients@.last().last_contact_type is None
                },
            },
    {
        match patient.id {
            Some(pid) => {
                match find_patient_index(&self.patients, pid) {
                    Some(j) => {
                        let old_row = self.patients[j].clone();
                        let rec = PatientRecord {
                            info: normalize_patient(patient, pid),
                            debt: old_row.debt,
                            last_contact_at: old_row.last_contact_at,
                            last_contact_type: old_row.last_contact_type,
                        };
                        self.patients.set(j, rec);
                        proof {
                            assert forall|i: int|
                                0 <= i < self.patients@.len() implies patient_row_ok(
                                #[trigger] self.patients@[i],
                                self.next_patient_id as int,
                            ) by {
                                assert(patient_row_ok(
                                    old(self).patients@[i],
                                    self.next_patient_id as int,
                                ));
                            }
                        }
                        Ok(pid)
                    },
                    None => Ok(pid),
                }
            },
            None => {
                let pid = self.next_patient_id;
                let rec = PatientRecord {
                    info: normalize_patient(patient, pid),
                    debt: DebtFields { opened_at: None, archived: false, archived_at: None },
                    last_contact_at: None,
                    last_contact_type: None,
                };
                self.patients.push(rec);
                self.next_patient_id = self.next_patient_id + 1;
                proof {
                    assert(self.patients@.take(old(self).patients@.len() as int) =~= old(self).patients@);
                    assert forall|i: int|
                        0 <= i < self.patients@.len() implies patient_row_ok(
                        #[trigger] self.patients@[i],
                        self.next_patient_id as int,
                    ) by {
                        if i < old(self).patients@.len() {
                            assert(patient_row_ok(
                                old(self).patients@[i],
                                old(self).next_patient_id as int,
                            ));
                        }
                    }
                }
                Ok(pid)
            },
        }
    }

    /// Looks a patient up by identity.
    pub fn find_patient_by_id(&self, id: i64) -> (r: Option<Patient>)
        ensures
            match find_patient(self.patients@, id) {
                Some(j) => r == Some(self.patients@[j].info),
                None => r is None,
            },
    {
        match find_patient_index(&self.patients, id) {
            Some(j) => Some(self.patients[j].info.clone()),
            None => None,
        }
    }

    /// Updates a patient's demographic record only; the session tables
    /// and the debt lifecycle are left alone.  An identity is required.
    pub fn update_patient_only(&mut self, patient: Patient) -> (r: Result<(), String>)
        requires
            old(self).wf(),
        ensures
            final(self).wf(),
            final(self).sessions@ == old(self).sessions@,
            final(self).items@ == old(self).items@,
            final(self).next_session_id == old(self).next_session_id,
            final(self).next_item_id == old(self).next_item_id,
            final(self).next_patient_id == old(self).next_patient_id,
            r is Err <==> patient.id is None,
            r is Err ==> r->Err_0@ == "Patient ID is required for update"@,
            match patient.id {
                Some(pid) => match find_patient(old(self).patients@, pid) {
                    Some(j) => {
                        &&& final(self).patients@.len() == old(self).patients@.len()
                        &&& forall|k: int|
                            0 <= k < old(self).patients@.len() && k != j ==> final(self).patients@[k] == #[trigger] old(self).patients@[k]
                        &&& upserted_info(final(self).patients@[j].info, patient, pid)
                        &&& final(self).patients@[j].debt == old(self).patients@[j].debt
                        &&& final(self).patients@[j].last_contact_at == old(self).patients@[j].last_contact_at
                        &&& final(self).patients@[j].last_contact_type == old(self).patients@[j].last_contact_type
                    },
                    None => final(self).patients@ == old(self).patients@,
                },
                None => final(self).patients@ == old(self).patients@,
            },
    {
        let pid = match patient.id {
            Some(pid) => pid,
            None => {
                return Err("Patient ID is required for update".to_owned());
            },
        };
        match find_patient_index(&self.patients, pid) {
            Some(j) => {
                let old_row = self.patients[j].clone();
                let rec = PatientRecord {
                    info: normalize_patient(patient, pid),
                    debt: old_row.debt,
                    last_contact_at: old_row.last_contact_at,
                    last_contact_type: old_row.last_contact_type,
                };
                self.patients.set(j, rec);
                proof {
                    assert forall|i: int|
                        0 <= i < self.patients@.len() implies patient_row_ok(
                        #[trigger] self.patients@[i],
                        self.next_patient_id as int,
                    ) by {
                        assert(patient_row_ok(old(self).patients@[i], self.next_patient_id as int));
                    }
                }
                Ok(())
            },
            None => Ok(()),
        }
    }
}

/// Bounds on a single session draft: money inputs and the date within
/// range, and the item list small enough to recompute exactly.
pub open spec fn draft_ok(d: SessionRow) -> bool {
    &&& money_in_range(d.visit.discount as int)
    &&& money_in_range(d.visit.payment as int)
    &&& day_in_range(d.visit.date as int)
    &&& d.items@.len() <= MAX_SESSION_ITEMS
    &&& items_in_range(d.items@)
}

/// Bounds on every draft of a save call.
pub open spec fn drafts_ok(drafts: Seq<SessionRow>) -> bool {
    forall|k: int| 0 <= k < drafts.len() ==> draft_ok(#[trigger] drafts[k])
}

/// The persisted identity a draft is anchored to, when it has one.
pub open spec fn draft_anchor(d: SessionRow) -> Option<i64> {
    match d.visit.id {
        Some(i) => if i > 0 {
            Some(i)
        } else {
            None
        },
        None => None,
    }
}

/// The session row a save stores for one draft: per-session fields from
/// the draft, the shared diagnostic fields from the visit, the
/// financial fields recomputed, and the row marked saved.
pub open spec fn make_session_row(
    pid: i64,
    shared: Session,
    d: SessionRow,
    sid: i64,
    budget: int,
    balance: int,
    cum: int,
) -> Session {
    Session {
        id: Some(sid),
        patient_id: Some(pid),
        date: d.visit.date,
        reason_type: d.visit.reason_type,
        reason_detail: d.visit.reason_detail,
        diagnosis_text: shared.diagnosis_text,
        auto_dx_text: shared.auto_dx_text,
        full_dx_text: shared.full_dx_text,
        tooth_dx_json: shared.tooth_dx_json,
        clinical_notes: d.visit.clinical_notes,
        signer: d.visit.signer,
        budget: budget as i64,
        discount: d.visit.discount,
        payment: d.visit.payment,
        balance: balance as i64,
        cumulative_balance: cum as i64,
        payment_method_id: d.visit.payment_method_id,
        payment_notes: d.visit.payment_notes,
        is_saved: Some(true),
    }
}

/// One step of the save loop over the session and item tables.  The
/// five components are the session table, the item table, the next
/// session identity, the next item identity, and the identity of the
/// session just processed.
pub open spec fn apply_one(
    sessions: Seq<Session>,
    items: Seq<SessionItem>,
    next_sid: int,
    next_iid: int,
    pid: i64,
    shared: Session,
    d: SessionRow,
) -> (Seq<Session>, Seq<SessionItem>, int, int, int) {
    let budget = budget_of(d.items@);
    let balance = budget - d.visit.discount - d.visit.payment;
    match draft_anchor(d) {
        Some(sid) => {
            let prev = saved_balance_sum(sessions, pid, Some(sid));
            let cum = prev + balance;
            let built = build_items(d.items@, sid, next_iid);
            let items2 = items_without(items, sid) + built.0;
            match find_session(sessions, sid) {
                Some(j) => (
                    sessions.update(j, make_session_row(pid, shared, d, sid, budget, balance, cum)),
                    items2,
                    next_sid,
                    built.1,
                    sid as int,
                ),
                None => (sessions, items2, next_sid, built.1, sid as int),
            }
        },
        None => {
            let sid = next_sid as i64;
            let prev = saved_balance_sum(sessions, pid, None);
            let cum = prev + balance;
            let built = build_items(d.items@, sid, next_iid);
            let items2 = items_without(items, sid) + built.0;
            (
                sessions.push(make_session_row(pid, shared, d, sid, budget, balance, cum)),
                items2,
                next_sid + 1,
                built.1,
                next_sid,
            )
        },
    }
}

/// The save loop over a whole draft list, in list order.  The last
/// component is the identity of the last draft processed, zero when
/// the list is empty.
pub open spec fn apply_drafts(
    sessions: Seq<Session>,
    items: Seq<SessionItem>,
    next_sid: int,
    next_iid: int,
    pid: i64,
    shared: Session,
    drafts: Seq<SessionRow>,
) -> (Seq<Session>, Seq<SessionItem>, int, int, int)
    decreases drafts.len(),
{
    if drafts.len() == 0 {
        (sessions, items, next_sid, next_iid, 0)
    } else {
        let pre = apply_drafts(sessions, items, next_sid, next_iid, pid, shared, drafts.drop_last());
        apply_one(pre.0, pre.1, pre.2, pre.3, pid, shared, drafts.last())
    }
}

impl LedgerStore {
    /// Saves one session draft: recomputes its budget and balance,
    /// anchors its cumulative snapshot, upserts the session row and
    /// replaces its items.  Returns the session's identity.
    fn save_one_session(&mut self, pid: i64, shared: &Session, d: &SessionRow) -> (sid: i64)
        requires
            old(self).wf(),
            draft_ok(*d),
            draft_anchor(*d) matches Some(a) ==> session_id_exists(old(self).sessions@, a),
            draft_anchor(*d) is None ==> old(self).sessions@.len() < MAX_SESSIONS,
            old(self).next_session_id < i64::MAX,
            old(self).next_item_id + MAX_SESSION_ITEMS <= i64::MAX,
        ensures
            final(self).wf(),
            final(self).patients@ == old(self).patients@,
            final(self).next_patient_id == old(self).next_patient_id,
            (
                final(self).sessions@,
                final(self).items@,
                final(self).next_session_id as int,
                final(self).next_item_id as int,
                sid as int,
            ) == apply_one(
                old(self).sessions@,
                old(self).items@,
                old(self).next_session_id as int,
                old(self).next_item_id as int,
                pid,
                *shared,
                *d,
            ),
            old(self).next_session_id <= final(self).next_session_id <= old(self).next_session_id
                + 1,
            old(self).next_item_id <= final(self).next_item_id <= old(self).next_item_id
                + d.items@.len(),
            final(self).sessions@.len() <= old(self).sessions@.len() + 1,
            draft_anchor(*d) is Some ==> final(self).sessions@.len() == old(self).sessions@.len(),
            forall|s2: i64|
                session_id_exists(old(self).sessions@, s2) ==> session_id_exists(
                    final(self).sessions@,
                    s2,
                ),
    {
        let budget = crate::balance::compute_budget(&d.items);
        let balance = crate::balance::compute_balance(budget, d.visit.discount, d.visit.payment);
        let anchor: Option<i64> = match d.visit.id {
            Some(i) => if i > 0 {
                Some(i)
            } else {
                None
            },
            None => None,
        };
        proof {
            assert(balances_bounded(self.sessions@)) by {
                assert forall|i: int|
                    0 <= i < self.sessions@.len() implies -BALANCE_LIMIT <= (
                #[trigger] self.sessions@[i]).balance <= BALANCE_LIMIT by {
                    assert(session_row_ok(self.sessions@[i], self.next_session_id as int));
                }
            }
        }
        match anchor {
            Some(sid) => {
                let prev = sum_saved_balances(&self.sessions, pid, Some(sid));
                let cum = prev + balance;
                let (new_items, niid) = build_stored_items(&d.items, sid, self.next_item_id);
                let row = Session {
                    id: Some(sid),
                    patient_id: Some(pid),
                    date: d.visit.date,
                    reason_type: crate::model::clone_opt_string(&d.visit.reason_type),
                    reason_detail: crate::model::clone_opt_string(&d.visit.reason_detail),
                    diagnosis_text: crate::model::clone_opt_string(&shared.diagnosis_text),
                    auto_dx_text: crate::model::clone_opt_string(&shared.auto_dx_text),
                    full_dx_text: crate::model::clone_opt_string(&shared.full_dx_text),
                    tooth_dx_json: crate::model::clone_opt_string(&shared.tooth_dx_json),
                    clinical_notes: crate::model::clone_opt_string(&d.visit.clinical_notes),
                    signer: crate::model::clone_opt_string(&d.visit.signer),
                    budget,
                    discount: d.visit.discount,
                    payment: d.visit.payment,
                    balance,
                    cumulative_balance: cum,
                    payment_method_id: d.visit.payment_method_id,
                    payment_notes: crate::model::clone_opt_string(&d.visit.payment_notes),
                    is_saved: Some(true),
                };
                let j = match find_session_index(&self.sessions, sid) {
                    Some(j) => j,
                    None => {
                        proof {
                            assert(false);
                        }
                        vstd::pervasive::unreached()
                    },
                };
                self.sessions.set(j, row);
                let rebuilt = replace_items_table(&self.items, sid, new_items);
                self.items = rebuilt;
                self.next_item_id = niid;
                proof {
                    crate::items::lemma_build_items_iid(
                        d.items@,
                        sid,
                        old(self).next_item_id as int,
                    );
                    assert forall|i: int|
                        0 <= i < self.sessions@.len() implies session_row_ok(
                        #[trigger] self.sessions@[i],
                        self.next_session_id as int,
                    ) by {
                        assert(session_row_ok(
                            old(self).sessions@[i],
                            self.next_session_id as int,
                        ));
                    }
                    assert forall|a: int, b: int|
                        0 <= a < b < self.sessions@.len() implies (
                    #[trigger] self.sessions@[a]).id != (#[trigger] self.sessions@[b]).id by {
                        assert(self.sessions@[a].id == old(self).sessions@[a].id);
                        assert(self.sessions@[b].id == old(self).sessions@[b].id);
                    }
                    assert forall|s2: i64|
                        session_id_exists(old(self).sessions@, s2) implies session_id_exists(
                        self.sessions@,
                        s2,
                    ) by {
                        let w = choose|w: int|
                            0 <= w < old(self).sessions@.len() && (
                            #[trigger] old(self).sessions@[w]).id == Some(s2);
                        assert(self.sessions@[w].id == old(self).sessions@[w].id);
                    }
                }
                sid
            },
            None => {
                let sid = self.next_session_id;
                let prev = sum_saved_balances(&self.sessions, pid, None);
                let cum = prev + balance;
                let (new_items, niid) = build_stored_items(&d.items, sid, self.next_item_id);
                let row = Session {
                    id: Some(sid),
                    patient_id: Some(pid),
                    date: d.visit.date,
                    reason_type: crate::model::clone_opt_string(&d.visit.reason_type),
                    reason_detail: crate::model::clone_opt_string(&d.visit.reason_detail),
                    diagnosis_text: crate::model::clone_opt_string(&shared.diagnosis_text),
                    auto_dx_text: crate::model::clone_opt_string(&shared.auto_dx_text),
                    full_dx_text: crate::model::clone_opt_string(&shared.full_dx_text),
                    tooth_dx_json: crate::model::clone_opt_string(&shared.tooth_dx_json),
                    clinical_notes: crate::model::clone_opt_string(&d.visit.clinical_notes),
                    signer: crate::model::clone_opt_string(&d.visit.signer),
                    budget,
                    discount: d.visit.discount,
                    payment: d.visit.payment,
                    balance,
                    cumulative_balance: cum,
                    payment_method_id: d.visit.payment_method_id,
                    payment_notes: crate::model::clone_opt_string(&d.visit.payment_notes),
                    is_saved: Some(true),
                };
                self.sessions.push(row);
                let rebuilt = replace_items_table(&self.items, sid, new_items);
                self.items = rebuilt;
                self.next_session_id = sid + 1;
                self.next_item_id = niid;
                proof {
                    crate::items::lemma_build_items_iid(
                        d.items@,
                        sid,
                        old(self).next_item_id as int,
                    );
                    assert forall|i: int|
                        0 <= i < self.sessions@.len() implies session_row_ok(
                        #[trigger] self.sessions@[i],
                        self.next_session_id as int,
                    ) by {
                        if i < old(self).sessions@.len() {
                            assert(session_row_ok(
                                old(self).sessions@[i],
                                old(self).next_session_id as int,
                            ));
                        }
                    }
                    assert forall|a: int, b: int|
                        0 <= a < b < self.sessions@.len() implies (
                    #[trigger] self.sessions@[a]).id != (#[trigger] self.sessions@[b]).id by {
                        if b < old(self).sessions@.len() {
                            assert(self.sessions@[a].id == old(self).sessions@[a].id);
                            assert(self.sessions@[b].id == old(self).sessions@[b].id);
                        } else {
                            assert(session_row_ok(
                                old(self).sessions@[a],
                                old(self).next_session_id as int,
                            ));
                        }
                    }
                    assert forall|s2: i64|
                        session_id_exists(old(self).sessions@, s2) implies session_id_exists(
                        self.sessions@,
                        s2,
                    ) by {
                        let w = choose|w: int|
                            0 <= w < old(self).sessions@.len() && (
                            #[trigger] old(self).sessions@[w]).id == Some(s2);
                        assert(self.sessions@[w].id == old(self).sessions@[w].id);
                    }
                }
                sid
            },
        }
    }
}

/// The patient identity a save resolves to: the submitted one, or the
/// next free identity for an insert.
pub open spec fn save_pid(pre: LedgerStore, patient: Patient) -> i64 {
    match patient.id {
        Some(i) => i,
        None => pre.next_patient_id,
    }
}

/// The session and item tables a save leaves behind.
pub open spec fn save_tables(
    pre: LedgerStore,
    visit: Session,
    drafts: Seq<SessionRow>,
    pid: i64,
) -> (Seq<Session>, Seq<SessionItem>, int, int, int) {
    apply_drafts(
        pre.sessions@,
        pre.items@,
        pre.next_session_id as int,
        pre.next_item_id as int,
        pid,
        visit,
        drafts,
    )
}

/// The debt flags a save leaves on the patient: the transition table
/// evaluated on the ledger total strictly before the call and strictly
/// after it, with the last saved session's date as trigger.
pub open spec fn save_debt(
    st: (Seq<Session>, Seq<SessionItem>, int, int, int),
    pid: i64,
    cur: DebtFields,
) -> DebtFields {
    crate::debt::debt_transition(
        crate::ledger::latest_total(st.0, pid, Some(st.4 as i64)),
        crate::ledger::latest_total(st.0, pid, None),
        cur,
        crate::ledger::session_date(st.0, st.4 as i64),
    )
}

/// A save call rejects exactly a submitted patient identity that no
/// stored row carries.
pub open spec fn save_rejects(pre: LedgerStore, patient: Patient) -> bool {
    patient.id is Some && find_patient(pre.patients@, patient.id->0) is None
}

/// Everything a successful save guarantees of the store it leaves
/// behind and of its result.
pub open spec fn save_ok_post(
    pre: LedgerStore,
    post: LedgerStore,
    patient: Patient,
    visit: Session,
    drafts: Seq<SessionRow>,
    out: SaveVisitResult,
) -> bool {
    let pid = save_pid(pre, patient);
    let st = save_tables(pre, visit, drafts, pid);
    &&& post.sessions@ == st.0
    &&& post.items@ == st.1
    &&& post.next_session_id as int == st.2
    &&& post.next_item_id as int == st.3
    &&& out.patient_id == pid
    &&& out.visit_id as int == st.4
    &&& match patient.id {
        Some(_) => {
            let j = find_patient(pre.patients@, pid)->0;
            &&& find_patient(pre.patients@, pid) is Some
            &&& post.next_patient_id == pre.next_patient_id
            &&& post.patients@.len() == pre.patients@.len()
            &&& forall|k: int|
                0 <= k < pre.patients@.len() && k != j ==> post.patients@[k]
                    == #[trigger] pre.patients@[k]
            &&& upserted_info(post.patients@[j].info, patient, pid)
            &&& post.patients@[j].debt == save_debt(st, pid, pre.patients@[j].debt)
            &&& post.patients@[j].last_contact_at == pre.patients@[j].last_contact_at
            &&& post.patients@[j].last_contact_type == pre.patients@[j].last_contact_type
        },
        None => {
            &&& post.next_patient_id == pre.next_patient_id + 1
            &&& post.patients@.len() == pre.patients@.len() + 1
            &&& post.patients@.take(pre.patients@.len() as int) == pre.patients@
            &&& upserted_info(post.patients@.last().info, patient, pid)
            &&& post.patients@.last().debt == save_debt(
                st,
                pid,
                DebtFields { opened_at: None, archived: false, archived_at: None },
            )
            &&& post.patients@.last().last_contact_at is None
            &&& post.patients@.last().last_contact_type is None
        },
    }
}

/// Every saved session satisfies the balance law: its balance is
/// exactly its budget less its discount and payment.
pub proof fn lemma_saved_balance_law(store: LedgerStore)
    requires
        store.wf(),
    ensures
        forall|i: int|
            0 <= i < store.sessions@.len() && (#[trigger] store.sessions@[i]).is_saved == Some(true)
                ==> store.sessions@[i].balance as int == store.sessions@[i].budget
                - store.sessions@[i].discount - store.sessions@[i].payment,
{
    assert forall|i: int|
        0 <= i < store.sessions@.len() && (#[trigger] store.sessions@[i]).is_saved == Some(
            true,
        ) implies store.sessions@[i].balance as int == store.sessions@[i].budget
        - store.sessions@[i].discount - store.sessions@[i].payment by {
        assert(session_row_ok(store.sessions@[i], store.next_session_id as int));
    }
}

/// After a save whose last draft is new, the cumulative snapshot on
/// the session just stored — the patient's most recently saved one —
/// equals the sum of the balances of all the patient's saved sessions.
pub proof fn lemma_last_snapshot_is_ledger_total(
    pre: LedgerStore,
    post: LedgerStore,
    patient: Patient,
    visit: Session,
    drafts: Seq<SessionRow>,
    out: SaveVisitResult,
)
    requires
        post.wf(),
        save_ok_post(pre, post, patient, visit, drafts, out),
        drafts.len() > 0,
        draft_anchor(drafts.last()) is None,
        draft_ok(drafts.last()),
    ensures
        post.sessions@.len() > 0,
        post.sessions@.last().id == Some(out.visit_id),
        post.sessions@.last().cumulative_balance as int == saved_balance_sum(
            post.sessions@,
            save_pid(pre, patient),
            None,
        ),
{
    let pid = save_pid(pre, patient);
    let st = save_tables(pre, visit, drafts, pid);
    let stp = apply_drafts(
        pre.sessions@,
        pre.items@,
        pre.next_session_id as int,
        pre.next_item_id as int,
        pid,
        visit,
        drafts.drop_last(),
    );
    let d = drafts.last();
    let budget = budget_of(d.items@);
    let balance = budget - d.visit.discount - d.visit.payment;
    let prev = saved_balance_sum(stp.0, pid, None);
    let row = make_session_row(pid, visit, d, stp.2 as i64, budget, balance, prev + balance);
    assert(st.0 == stp.0.push(row));
    assert(post.sessions@.last() == row);
    // The prefix table is the final table less its last row, so its
    // balances are bounded by the final table's well-formedness.
    assert(stp.0 =~= post.sessions@.drop_last());
    assert(balances_bounded(stp.0)) by {
        assert forall|i: int|
            0 <= i < stp.0.len() implies -BALANCE_LIMIT <= (#[trigger] stp.0[i]).balance
            <= BALANCE_LIMIT by {
            assert(stp.0[i] == post.sessions@[i]);
            assert(session_row_ok(post.sessions@[i], post.next_session_id as int));
        }
    }
    crate::ledger::lemma_saved_balance_sum_bound(stp.0, pid, None);
    assert(stp.0.len() <= MAX_SESSIONS);
    crate::balance::lemma_budget_of_bound(d.items@);
    // The appended row is saved and the patient's, so the final sum is
    // the previous sum plus its balance.
    assert(st.0.drop_last() =~= stp.0);
    assert(saved_balance_sum(st.0, pid, None) == prev + row.balance);
    assert(row.cumulative_balance as int == prev + balance);
}

/// Re-saving the patient's most recent session — one whose identity no
/// other saved session of the patient exceeds — also leaves its
/// cumulative snapshot equal to the sum of the balances of all the
/// patient's saved sessions.
pub proof fn lemma_resave_latest_snapshot(
    pre: LedgerStore,
    post: LedgerStore,
    patient: Patient,
    visit: Session,
    drafts: Seq<SessionRow>,
    out: SaveVisitResult,
)
    requires
        pre.wf(),
        save_ok_post(pre, post, patient, visit, drafts, out),
        drafts.len() == 1,
        draft_ok(drafts[0]),
        draft_anchor(drafts[0]) is Some,
        find_session(pre.sessions@, draft_anchor(drafts[0])->0) is Some,
        forall|i: int|
            0 <= i < pre.sessions@.len() && crate::ledger::in_ledger(
                #[trigger] pre.sessions@[i],
                save_pid(pre, patient),
            ) ==> crate::ledger::sid_key(pre.sessions@[i]) <= draft_anchor(drafts[0])->0,
    ensures
        find_session(post.sessions@, out.visit_id) is Some,
        post.sessions@[find_session(post.sessions@, out.visit_id)->0].cumulative_balance as int
            == saved_balance_sum(post.sessions@, save_pid(pre, patient), None),
{
    let pid = save_pid(pre, patient);
    let a = draft_anchor(drafts[0])->0;
    let d = drafts[0];
    let st = save_tables(pre, visit, drafts, pid);
    let st0 = apply_drafts(
        pre.sessions@,
        pre.items@,
        pre.next_session_id as int,
        pre.next_item_id as int,
        pid,
        visit,
        drafts.drop_last(),
    );
    assert(drafts.drop_last().len() == 0);
    assert(st0.0 == pre.sessions@ && st0.1 == pre.items@ && st0.2 == pre.next_session_id as int
        && st0.3 == pre.next_item_id as int);
    assert(st == apply_one(st0.0, st0.1, st0.2, st0.3, pid, visit, drafts.last()));
    assert(drafts.last() == drafts[0]);
    let j = find_session(pre.sessions@, a)->0;
    crate::ledger::lemma_find_session_found(pre.sessions@, a);
    let budget = budget_of(d.items@);
    let balance = budget - d.visit.discount - d.visit.payment;
    let prev = saved_balance_sum(pre.sessions@, pid, Some(a));
    let row = make_session_row(pid, visit, d, a, budget, balance, prev + balance);
    assert(st.0 == pre.sessions@.update(j, row));
    assert(st.4 == a as int);
    // The stored snapshot is the bounded sum plus the new balance,
    // neither cast losing range.
    assert(balances_bounded(pre.sessions@)) by {
        assert forall|i: int|
            0 <= i < pre.sessions@.len() implies -BALANCE_LIMIT <= (
        #[trigger] pre.sessions@[i]).balance <= BALANCE_LIMIT by {
            assert(session_row_ok(pre.sessions@[i], pre.next_session_id as int));
        }
    }
    crate::ledger::lemma_saved_balance_sum_bound(pre.sessions@, pid, Some(a));
    crate::balance::lemma_budget_of_bound(d.items@);
    assert(row.cumulative_balance as int == prev + balance);
    // Splitting the old sum at the anchor and replacing the row gives
    // the new full sum.
    assert forall|i: int|
        0 <= i < pre.sessions@.len() && i != j && crate::ledger::in_ledger(
            #[trigger] pre.sessions@[i],
            pid,
        ) implies crate::ledger::sid_key(pre.sessions@[i]) < a by {
        assert(session_row_ok(pre.sessions@[i], pre.next_session_id as int));
        assert(session_row_ok(pre.sessions@[j], pre.next_session_id as int));
        if crate::ledger::sid_key(pre.sessions@[i]) == a {
            assert(pre.sessions@[i].id == Some(a));
            assert(pre.sessions@[j].id == Some(a));
        }
    }
    crate::ledger::lemma_sum_split_at(pre.sessions@, pid, a, j);
    crate::ledger::lemma_sum_after_update(pre.sessions@, pid, None, j, row);
    // The updated row keeps its identity, so it is still the first
    // match.
    assert forall|i: int| 0 <= i < j implies (#[trigger] st.0[i]).id != Some(a) by {
        assert(st.0[i] == pre.sessions@[i]);
    }
    crate::ledger::lemma_find_session_at(st.0, a, j);
    assert(post.sessions@[j] == row);
}

/// A draft with no items is stored with budget zero and a balance of
/// exactly the negated discount and payment, whether it re-saves an
/// existing session or creates one.
pub proof fn lemma_empty_draft_stored_row(
    sessions: Seq<Session>,
    items: Seq<SessionItem>,
    next_sid: int,
    next_iid: int,
    pid: i64,
    shared: Session,
    d: SessionRow,
)
    requires
        d.items@.len() == 0,
        money_in_range(d.visit.discount as int),
        money_in_range(d.visit.payment as int),
        draft_anchor(d) matches Some(a) ==> find_session(sessions, a) is Some,
    ensures
        ({
            let st = apply_one(sessions, items, next_sid, next_iid, pid, shared, d);
            let row = match draft_anchor(d) {
                Some(a) => st.0[find_session(sessions, a)->0],
                None => st.0.last(),
            };
            row.budget == 0 && row.balance as int == -(d.visit.discount + d.visit.payment)
        }),
{
    assert(budget_of(d.items@) == 0);
    match draft_anchor(d) {
        Some(a) => {
            crate::ledger::lemma_find_session_found(sessions, a);
            let j = find_session(sessions, a)->0;
            let st = apply_one(sessions, items, next_sid, next_iid, pid, shared, d);
            assert(st.0[j] == make_session_row(
                pid,
                shared,
                d,
                a,
                0,
                -(d.visit.discount + d.visit.payment),
                saved_balance_sum(sessions, pid, Some(a)) + (0 - d.visit.discount
                    - d.visit.payment),
            ));
        },
        None => {},
    }
}

/// The patient ledger total strictly before a save: the cumulative
/// snapshot of the latest saved session whose identity sorts before
/// the last session the save processed.
pub open spec fn save_prev_total(
    pre: LedgerStore,
    patient: Patient,
    visit: Session,
    drafts: Seq<SessionRow>,
) -> int {
    let pid = save_pid(pre, patient);
    let st = save_tables(pre, visit, drafts, pid);
    crate::ledger::latest_total(st.0, pid, Some(st.4 as i64))
}

/// The patient ledger total strictly after a save: the cumulative
/// snapshot of the latest saved session.
pub open spec fn save_new_total(
    pre: LedgerStore,
    patient: Patient,
    visit: Session,
    drafts: Seq<SessionRow>,
) -> int {
    let pid = save_pid(pre, patient);
    let st = save_tables(pre, visit, drafts, pid);
    crate::ledger::latest_total(st.0, pid, None)
}

/// The debt flags the save left on the patient's row.
pub open spec fn save_post_debt(pre: LedgerStore, post: LedgerStore, patient: Patient) -> DebtFields {
    match patient.id {
        Some(pid) => post.patients@[find_patient(pre.patients@, pid)->0].debt,
        None => post.patients@.last().debt,
    }
}

/// A save that takes the ledger from settled to owing opens the debt:
/// the opening date becomes the last saved session's date and every
/// archive mark is cleared.
pub proof fn lemma_save_opens_debt(
    pre: LedgerStore,
    post: LedgerStore,
    patient: Patient,
    visit: Session,
    drafts: Seq<SessionRow>,
    out: SaveVisitResult,
)
    requires
        save_ok_post(pre, post, patient, visit, drafts, out),
        save_prev_total(pre, patient, visit, drafts) <= 0,
        save_new_total(pre, patient, visit, drafts) > 0,
    ensures
        save_post_debt(pre, post, patient) == (DebtFields {
            opened_at: crate::ledger::session_date(post.sessions@, out.visit_id),
            archived: false,
            archived_at: None,
        }),
{
    let pid = save_pid(pre, patient);
    let st = save_tables(pre, visit, drafts, pid);
    assert(st.4 as i64 == out.visit_id);
}

/// A save that takes the ledger from owing to settled closes the
/// debt: the opening date and every archive mark are cleared.
pub proof fn lemma_save_closes_debt(
    pre: LedgerStore,
    post: LedgerStore,
    patient: Patient,
    visit: Session,
    drafts: Seq<SessionRow>,
    out: SaveVisitResult,
)
    requires
        save_ok_post(pre, post, patient, visit, drafts, out),
        save_prev_total(pre, patient, visit, drafts) > 0,
        save_new_total(pre, patient, visit, drafts) <= 0,
    ensures
        save_post_debt(pre, post, patient) == (DebtFields {
            opened_at: None,
            archived: false,
            archived_at: None,
        }),
{
}

/// A save that keeps an archived patient's ledger owing lifts the
/// archive mark and leaves the opening date untouched.
pub proof fn lemma_save_unarchives_debt(
    pre: LedgerStore,
    post: LedgerStore,
    patient: Patient,
    visit: Session,
    drafts: Seq<SessionRow>,
    out: SaveVisitResult,
)
    requires
        save_ok_post(pre, post, patient, visit, drafts, out),
        patient.id is Some,
        pre.patients@[find_patient(pre.patients@, patient.id->0)->0].debt.archived,
        save_prev_total(pre, patient, visit, drafts) > 0,
        save_new_total(pre, patient, visit, drafts) > 0,
    ensures
        save_post_debt(pre, post, patient) == (DebtFields {
            opened_at: pre.patients@[find_patient(
                pre.patients@,
                patient.id->0,
            )->0].debt.opened_at,
            archived: false,
            archived_at: None,
        }),
{
}

impl LedgerStore {
    /// Saves a visit with its sessions, as one all-or-nothing
    /// operation: upserts the patient, then for each draft recomputes
    /// the budget and balance, anchors its cumulative snapshot, upserts
    /// the session row and replaces its items, and finally re-derives
    /// the patient's debt lifecycle flags from the ledger totals before
    /// and after the call.  A submitted patient identity that no stored
    /// row carries is the one rejection; nothing is changed then.
    pub fn save_visit_with_sessions(
        &mut self,
        patient: Patient,
        visit: Session,
        sessions: Vec<SessionRow>,
    ) -> (r: Result<SaveVisitResult, String>)
        requires
            old(self).wf(),
            drafts_ok(sessions@),
            forall|m: int|
                0 <= m < sessions@.len() && draft_anchor(#[trigger] sessions@[m]) is Some
                    ==> session_id_exists(old(self).sessions@, draft_anchor(sessions@[m])->0),
            old(self).sessions@.len() + sessions@.len() <= MAX_SESSIONS,
            old(self).next_patient_id <= ID_HEADROOM,
            old(self).next_session_id <= ID_HEADROOM,
            old(self).next_item_id <= ID_HEADROOM,
        ensures
            final(self).wf(),
            r is Err <==> save_rejects(*old(self), patient),
            r is Err ==> {
                &&& final(self).patients@ == old(self).patients@
                &&& final(self).sessions@ == old(self).sessions@
                &&& final(self).items@ == old(self).items@
                &&& final(self).next_patient_id == old(self).next_patient_id
                &&& final(self).next_session_id == old(self).next_session_id
                &&& final(self).next_item_id == old(self).next_item_id
            },
            r is Ok ==> save_ok_post(
                *old(self),
                *final(self),
                patient,
                visit,
                sessions@,
                r->Ok_0,
            ),
    {
        let ghost patient0 = patient;
        // Upsert the patient first; remember where its row stands.
        let (pid, pidx): (i64, usize) = match patient.id {
            Some(id) => {
                match find_patient_index(&self.patients, id) {
                    Some(j) => {
                        let old_row = self.patients[j].clone();
                        let rec = PatientRecord {
                            info: normalize_patient(patient, id),
                            debt: old_row.debt,
                            last_contact_at: old_row.last_contact_at,
                            last_contact_type: old_row.last_contact_type,
                        };
                        self.patients.set(j, rec);
                        (id, j)
                    },
                    None => {
                        return Err("patient not found".to_owned());
                    },
                }
            },
            None => {
                let pid = self.next_patient_id;
                let rec = PatientRecord {
                    info: normalize_patient(patient, pid),
                    debt: DebtFields { opened_at: None, archived: false, archived_at: None },
                    last_contact_at: None,
                    last_contact_type: None,
                };
                self.patients.push(rec);
                self.next_patient_id = self.next_patient_id + 1;
                (pid, self.patients.len() - 1)
            },
        };
        proof {
            assert forall|i: int|
                0 <= i < self.patients@.len() implies patient_row_ok(
                #[trigger] self.patients@[i],
                self.next_patient_id as int,
            ) by {
                if i < old(self).patients@.len() {
                    assert(patient_row_ok(old(self).patients@[i], old(self).next_patient_id as int));
                }
            }
            if patient0.id is None {
                assert(self.patients@.take(old(self).patients@.len() as int) =~= old(
                    self,
                ).patients@);
            }
        }
        let ghost patients_mid = self.patients@;
        let ghost next_pid_mid = self.next_patient_id;

        // Save each session draft in list order.
        let mut last_sid: i64 = 0;
        let mut k: usize = 0;
        while k < sessions.len()
            invariant
                k <= sessions@.len(),
                sessions@.len() <= MAX_SESSIONS,
                drafts_ok(sessions@),
                self.wf(),
                self.patients@ == patients_mid,
                self.next_patient_id == next_pid_mid,
                old(self).sessions@.len() + sessions@.len() <= MAX_SESSIONS,
                self.sessions@.len() <= old(self).sessions@.len() + k,
                old(self).next_session_id <= self.next_session_id,
                self.next_session_id as int <= old(self).next_session_id + k,
                old(self).next_item_id <= self.next_item_id,
                self.next_item_id as int <= old(self).next_item_id + k * (
                MAX_SESSION_ITEMS as int),
                old(self).next_session_id <= ID_HEADROOM,
                old(self).next_item_id <= ID_HEADROOM,
                (
                    self.sessions@,
                    self.items@,
                    self.next_session_id as int,
                    self.next_item_id as int,
                    last_sid as int,
                ) == apply_drafts(
                    old(self).sessions@,
                    old(self).items@,
                    old(self).next_session_id as int,
                    old(self).next_item_id as int,
                    pid,
                    visit,
                    sessions@.take(k as int),
                ),
                forall|m: int|
                    k <= m < sessions@.len() && draft_anchor(#[trigger] sessions@[m]) is Some
                        ==> session_id_exists(self.sessions@, draft_anchor(sessions@[m])->0),
            decreases sessions@.len() - k,
        {
            proof {
                assert(draft_ok(sessions@[k as int]));
                assert(self.next_session_id as int <= ID_HEADROOM + k);
                assert(self.next_item_id as int <= ID_HEADROOM + k * (MAX_SESSION_ITEMS as int));
                assert(k * (MAX_SESSION_ITEMS as int) <= MAX_SESSIONS * (MAX_SESSION_ITEMS as int));
            }
            let ghost pre_sessions = self.sessions@;
            let ghost pre_items = self.items@;
            let ghost pre_nsid = self.next_session_id as int;
            let ghost pre_niid = self.next_item_id as int;
            let sid = self.save_one_session(pid, &visit, &sessions[k]);
            last_sid = sid;
            k = k + 1;
            proof {
                assert(sessions@.take(k as int).drop_last() =~= sessions@.take(k as int - 1));
                assert(sessions@.take(k as int).last() == sessions@[k as int - 1]);
                assert((
                    self.sessions@,
                    self.items@,
                    self.next_session_id as int,
                    self.next_item_id as int,
                    last_sid as int,
                ) == apply_one(
                    pre_sessions,
                    pre_items,
                    pre_nsid,
                    pre_niid,
                    pid,
                    visit,
                    sessions@[k as int - 1],
                ));
            }
        }
        proof {
            assert(sessions@.take(sessions@.len() as int) =~= sessions@);
        }

        // Debt lifecycle pass, on the tables as they now stand.
        let cur = self.patients[pidx].debt;
        let prev_total = match crate::ledger::find_latest_saved(
            &self.sessions,
            pid,
            Some(last_sid),
        ) {
            Some(i) => self.sessions[i].cumulative_balance,
            None => 0,
        };
        let new_total = match crate::ledger::find_latest_saved(&self.sessions, pid, None) {
            Some(i) => self.sessions[i].cumulative_balance,
            None => 0,
        };
        let trigger_date = match find_session_index(&self.sessions, last_sid) {
            Some(i) => Some(self.sessions[i].date),
            None => None,
        };
        let t = crate::debt::select_debt_transition(prev_total, new_total, &cur);
        let nf = crate::debt::apply_debt_transition(&t, &cur, trigger_date);
        let old_rec = self.patients[pidx].clone();
        self.patients.set(
            pidx,
            PatientRecord {
                info: old_rec.info,
                debt: nf,
                last_contact_at: old_rec.last_contact_at,
                last_contact_type: old_rec.last_contact_type,
            },
        );
        proof {
            if trigger_date is Some {
                let ti = find_session(self.sessions@, last_sid)->0;
                crate::ledger::lemma_find_session_found(self.sessions@, last_sid);
                assert(session_row_ok(self.sessions@[ti], self.next_session_id as int));
            }
            assert forall|i: int|
                0 <= i < self.patients@.len() implies patient_row_ok(
                #[trigger] self.patients@[i],
                self.next_patient_id as int,
            ) by {
                assert(patient_row_ok(patients_mid[i], self.next_patient_id as int));
            }
            if patient0.id is None {
                assert(self.patients@.take(old(self).patients@.len() as int) =~= old(
                    self,
                ).patients@);
            }
        }
        Ok(SaveVisitResult { patient_id: pid, visit_id: last_sid })
    }

    /// Rewrites the patient row at a found index with new debt flags,
    /// leaving the demographics and contact bookkeeping alone.
    fn set_debt_fields(&mut self, j: usize, nf: DebtFields)
        requires
            old(self).wf(),
            j < old(self).patients@.len(),
            nf.opened_at is Some ==> day_in_range(nf.opened_at->0 as int),
            nf.archived_at is Some ==> day_in_range(nf.archived_at->0 as int),
        ensures
            final(self).wf(),
            final(self).sessions@ == old(self).sessions@,
            final(self).items@ == old(self).items@,
            final(self).next_patient_id == old(self).next_patient_id,
            final(self).next_session_id == old(self).next_session_id,
            final(self).next_item_id == old(self).next_item_id,
            final(self).patients@ == old(self).patients@.update(
                j as int,
                PatientRecord {
                    info: old(self).patients@[j as int].info,
                    debt: nf,
                    last_contact_at: old(self).patients@[j as int].last_contact_at,
                    last_contact_type: old(self).patients@[j as int].last_contact_type,
                },
            ),
    {
        let old_rec = self.patients[j].clone();
        self.patients.set(
            j,
            PatientRecord {
                info: old_rec.info,
                debt: nf,
                last_contact_at: old_rec.last_contact_at,
                last_contact_type: old_rec.last_contact_type,
            },
        );
        proof {
            assert forall|i: int|
                0 <= i < self.patients@.len() implies patient_row_ok(
                #[trigger] self.patients@[i],
                self.next_patient_id as int,
            ) by {
                assert(patient_row_ok(old(self).patients@[i], self.next_patient_id as int));
            }
        }
    }

    /// Archives a patient's debt as of the given day: a pure visibility
    /// flag, leaving the opening date and every balance alone.
    pub fn archive_debt_at(&mut self, patient_id: i64, now: i64) -> (r: Result<(), String>)
        requires
            old(self).wf(),
            day_in_range(now as int),
        ensures
            final(self).wf(),
            r is Ok,
            final(self).sessions@ == old(self).sessions@,
            final(self).items@ == old(self).items@,
            final(self).next_patient_id == old(self).next_patient_id,
            final(self).next_session_id == old(self).next_session_id,
            final(self).next_item_id == old(self).next_item_id,
            match find_patient(old(self).patients@, patient_id) {
                Some(j) => final(self).patients@ == old(self).patients@.update(
                    j,
                    PatientRecord {
                        info: old(self).patients@[j].info,
                        debt: DebtFields {
                            opened_at: old(self).patients@[j].debt.opened_at,
                            archived: true,
                            archived_at: Some(now),
                        },
                        last_contact_at: old(self).patients@[j].last_contact_at,
                        last_contact_type: old(self).patients@[j].last_contact_type,
                    },
                ),
                None => final(self).patients@ == old(self).patients@,
            },
    {
        match find_patient_index(&self.patients, patient_id) {
            Some(j) => {
                let opened = self.patients[j].debt.opened_at;
                self.set_debt_fields(
                    j,
                    DebtFields { opened_at: opened, archived: true, archived_at: Some(now) },
                );
                Ok(())
            },
            None => Ok(()),
        }
    }

    /// Archives a patient's debt as of today.
    pub fn archive_debt(&mut self, patient_id: i64) -> (r: Result<(), String>)
        requires
            old(self).wf(),
        ensures
            final(self).wf(),
            r is Ok,
            final(self).sessions@ == old(self).sessions@,
            final(self).items@ == old(self).items@,
            final(self).next_patient_id == old(self).next_patient_id,
            final(self).next_session_id == old(self).next_session_id,
            final(self).next_item_id == old(self).next_item_id,
            match find_patient(old(self).patients@, patient_id) {
                Some(j) => {
                    &&& final(self).patients@.len() == old(self).patients@.len()
                    &&& forall|k: int|
                        0 <= k < old(self).patients@.len() && k != j ==> final(self).patients@[k]
                            == #[trigger] old(self).patients@[k]
                    &&& final(self).patients@[j].info == old(self).patients@[j].info
                    &&& final(self).patients@[j].debt.opened_at == old(
                        self,
                    ).patients@[j].debt.opened_at
                    &&& final(self).patients@[j].debt.archived
                    &&& final(self).patients@[j].debt.archived_at is Some
                    &&& final(self).patients@[j].last_contact_at == old(
                        self,
                    ).patients@[j].last_contact_at
                    &&& final(self).patients@[j].last_contact_type == old(
                        self,
                    ).patients@[j].last_contact_type
                },
                None => final(self).patients@ == old(self).patients@,
            },
    {
        let now = crate::clock::today_day_number();
        let r = self.archive_debt_at(patient_id, now);
        proof {
            if find_patient(old(self).patients@, patient_id) is Some {
                lemma_find_patient_found(old(self).patients@, patient_id);
            }
        }
        r
    }

    /// Clears the archive flag on a patient's debt, leaving the
    /// opening date and every balance alone.
    pub fn unarchive_debt(&mut self, patient_id: i64) -> (r: Result<(), String>)
        requires
            old(self).wf(),
        ensures
            final(self).wf(),
            r is Ok,
            final(self).sessions@ == old(self).sessions@,
            final(self).items@ == old(self).items@,
            final(self).next_patient_id == old(self).next_patient_id,
            final(self).next_session_id == old(self).next_session_id,
            final(self).next_item_id == old(self).next_item_id,
            match find_patient(old(self).patients@, patient_id) {
                Some(j) => final(self).patients@ == old(self).patients@.update(
                    j,
                    PatientRecord {
                        info: old(self).patients@[j].info,
                        debt: DebtFields {
                            opened_at: old(self).patients@[j].debt.opened_at,
                            archived: false,
                            archived_at: None,
                        },
                        last_contact_at: old(self).patients@[j].last_contact_at,
                        last_contact_type: old(self).patients@[j].last_contact_type,
                    },
                ),
                None => final(self).patients@ == old(self).patients@,
            },
    {
        match find_patient_index(&self.patients, patient_id) {
            Some(j) => {
                let opened = self.patients[j].debt.opened_at;
                self.set_debt_fields(
                    j,
                    DebtFields { opened_at: opened, archived: false, archived_at: None },
                );
                Ok(())
            },
            None => Ok(()),
        }
    }

    /// Records that the patient was contacted on the given day, and
    /// how.
    pub fn mark_patient_contacted_at(
        &mut self,
        patient_id: i64,
        contact_type: String,
        now: i64,
    ) -> (r: Result<(), String>)
        requires
            old(self).wf(),
            day_in_range(now as int),
        ensures
            final(self).wf(),
            r is Ok,
            final(self).sessions@ == old(self).sessions@,
            final(self).items@ == old(self).items@,
            final(self).next_patient_id == old(self).next_patient_id,
            final(self).next_session_id == old(self).next_session_id,
            final(self).next_item_id == old(self).next_item_id,
            match find_patient(old(self).patients@, patient_id) {
                Some(j) => final(self).patients@ == old(self).patients@.update(
                    j,
                    PatientRecord {
                        info: old(self).patients@[j].info,
                        debt: old(self).patients@[j].debt,
                        last_contact_at: Some(now),
                        last_contact_type: Some(contact_type),
                    },
                ),
                None => final(self).patients@ == old(self).patients@,
            },
    {
        match find_patient_index(&self.patients, patient_id) {
            Some(j) => {
                let old_rec = self.patients[j].clone();
                self.patients.set(
                    j,
                    PatientRecord {
                        info: old_rec.info,
                        debt: old_rec.debt,
                        last_contact_at: Some(now),
                        last_contact_type: Some(contact_type),
                    },
                );
                proof {
                    assert forall|i: int|
                        0 <= i < self.patients@.len() implies patient_row_ok(
                        #[trigger] self.patients@[i],
                        self.next_patient_id as int,
                    ) by {
                        assert(patient_row_ok(old(self).patients@[i], self.next_patient_id as int));
                    }
                }
                Ok(())
            },
            None => Ok(()),
        }
    }

    /// Records that the patient was contacted today, and how.
    pub fn mark_patient_contacted(&mut self, patient_id: i64, contact_type: String) -> (r: Result<
        (),
        String,
    >)
        requires
            old(self).wf(),
        ensures
            final(self).wf(),
            r is Ok,
            final(self).sessions@ == old(self).sessions@,
            final(self).items@ == old(self).items@,
            final(self).next_patient_id == old(self).next_patient_id,
            final(self).next_session_id == old(self).next_session_id,
            final(self).next_item_id == old(self).next_item_id,
            match find_patient(old(self).patients@, patient_id) {
                Some(j) => {
                    &&& final(self).patients@.len() == old(self).patients@.len()
                    &&& forall|k: int|
                        0 <= k < old(self).patients@.len() && k != j ==> final(self).patients@[k]
                            == #[trigger] old(self).patients@[k]
                    &&& final(self).patients@[j].info == old(self).patients@[j].info
                    &&& final(self).patients@[j].debt == old(self).patients@[j].debt
                    &&& final(self).patients@[j].last_contact_at is Some
                    &&& final(self).patients@[j].last_contact_type == Some(contact_type)
                },
                None => final(self).patients@ == old(self).patients@,
            },
    {
        let now = crate::clock::today_day_number();
        let r = self.mark_patient_contacted_at(patient_id, contact_type, now);
        proof {
            if find_patient(old(self).patients@, patient_id) is Some {
                lemma_find_patient_found(old(self).patients@, patient_id);
            }
        }
        r
    }

    /// Deletes a session, unless it was saved: saved sessions are
    /// immutable by deletion.
    pub fn delete_visit(&mut self, visit_id: i64) -> (r: Result<(), String>)
        requires
            old(self).wf(),
        ensures
            final(self).wf(),
            final(self).patients@ == old(self).patients@,
            final(self).items@ == old(self).items@,
            final(self).next_patient_id == old(self).next_patient_id,
            final(self).next_session_id == old(self).next_session_id,
            final(self).next_item_id == old(self).next_item_id,
            match find_session(old(self).sessions@, visit_id) {
                Some(j) => if old(self).sessions@[j].is_saved == Some(true) {
                    r is Err && r->Err_0@ == "Cannot delete a saved session"@
                        && final(self).sessions@ == old(self).sessions@
                } else {
                    r is Ok && final(self).sessions@ == old(self).sessions@.remove(j)
                },
                None => r is Ok && final(self).sessions@ == old(self).sessions@,
            },
    {
        match find_session_index(&self.sessions, visit_id) {
            Some(j) => {
                let saved = match self.sessions[j].is_saved {
                    Some(b) => b,
                    None => false,
                };
                if saved {
                    proof {
                        crate::ledger::lemma_find_session_found(self.sessions@, visit_id);
                    }
                    Err("Cannot delete a saved session".to_owned())
                } else {
                    self.sessions.remove(j);
                    proof {
                        assert forall|i: int|
                            0 <= i < self.sessions@.len() implies session_row_ok(
                            #[trigger] self.sessions@[i],
                            self.next_session_id as int,
                        ) by {
                            if i < j {
                                assert(session_row_ok(
                                    old(self).sessions@[i],
                                    self.next_session_id as int,
                                ));
                            } else {
                                assert(session_row_ok(
                                    old(self).sessions@[i + 1],
                                    self.next_session_id as int,
                                ));
                            }
                        }
                        assert forall|a: int, b: int|
                            0 <= a < b < self.sessions@.len() implies (
                        #[trigger] self.sessions@[a]).id != (#[trigger] self.sessions@[b]).id by {
                            let a0: int = if a < j {
                                a
                            } else {
                                a + 1
                            };
                            let b0: int = if b < j {
                                b
                            } else {
                                b + 1
                            };
                            assert(self.sessions@[a] == old(self).sessions@[a0]);
                            assert(self.sessions@[b] == old(self).sessions@[b0]);
                        }
                    }
                    Ok(())
                }
            },
            None => Ok(()),
        }
    }
}

/// The session of each returned row, in order.
pub open spec fn visits_of(rows: Seq<SessionRow>) -> Seq<Session> {
    Seq::new(rows.len(), |i: int| rows[i].visit)
}

/// Every session the patient filter yields is a table row of that
/// patient.
pub proof fn lemma_sessions_of_subset(table: Seq<Session>, pid: i64)
    ensures
        forall|x: Session|
            #[trigger] crate::ledger::sessions_of(table, pid).contains(x) ==> table.contains(x)
                && x.patient_id == Some(pid),
    decreases table.len(),
{
    if table.len() > 0 {
        lemma_sessions_of_subset(table.drop_last(), pid);
        assert forall|x: Session|
            #[trigger] crate::ledger::sessions_of(table, pid).contains(x) implies table.contains(
            x,
        ) && x.patient_id == Some(pid) by {
            let f = crate::ledger::sessions_of(table, pid);
            let k = choose|k: int| 0 <= k < f.len() && f[k] == x;
            let pre = crate::ledger::sessions_of(table.drop_last(), pid);
            if k < pre.len() {
                assert(pre.contains(x));
                assert(table.drop_last().contains(x));
                let w = choose|w: int| 0 <= w < table.drop_last().len() && table.drop_last()[w]
                    == x;
                assert(table[w] == x);
            } else {
                assert(x == table.last());
            }
        }
    }
}

impl LedgerStore {
    /// The items of one session, ordered by their stamped position,
    /// then identity.
    pub fn get_procedures_by_visit(&self, visit_id: i64) -> (r: Result<Vec<SessionItem>, String>)
        ensures
            r is Ok,
            r->Ok_0@.to_multiset() == crate::items::items_of_session(
                self.items@,
                visit_id,
            ).to_multiset(),
            crate::items::items_sorted(r->Ok_0@),
    {
        Ok(crate::items::collect_session_items(&self.items, visit_id))
    }

    /// The patient's sessions, latest first: by date, then identity,
    /// both descending.
    pub fn get_visits_by_patient(&self, patient_id: i64) -> (r: Result<Vec<Session>, String>)
        ensures
            r is Ok,
            r->Ok_0@.to_multiset() == crate::ledger::sessions_of(
                self.sessions@,
                patient_id,
            ).to_multiset(),
            crate::ledger::sessions_sorted_desc(r->Ok_0@),
    {
        let filtered = crate::ledger::filter_sessions(&self.sessions, patient_id);
        Ok(crate::ledger::sort_sessions_desc(filtered))
    }

    /// The patient's sessions with their items, latest first.
    pub fn get_sessions_by_patient(&self, patient_id: i64) -> (r: Result<Vec<SessionRow>, String>)
        requires
            self.wf(),
        ensures
            r is Ok,
            visits_of(r->Ok_0@).to_multiset() == crate::ledger::sessions_of(
                self.sessions@,
                patient_id,
            ).to_multiset(),
            crate::ledger::sessions_sorted_desc(visits_of(r->Ok_0@)),
            forall|i: int|
                0 <= i < r->Ok_0@.len() ==> (#[trigger] r->Ok_0@[i]).visit.id is Some
                    && r->Ok_0@[i].items@.to_multiset() == crate::items::items_of_session(
                    self.items@,
                    r->Ok_0@[i].visit.id->0,
                ).to_multiset() && crate::items::items_sorted(r->Ok_0@[i].items@),
    {
        let filtered = crate::ledger::filter_sessions(&self.sessions, patient_id);
        let vs = crate::ledger::sort_sessions_desc(filtered);
        proof {
            lemma_sessions_of_subset(self.sessions@, patient_id);
            broadcast use vstd::seq_lib::group_to_multiset_ensures;

            assert forall|q: int|
                0 <= q < vs@.len() implies (#[trigger] vs@[q]).id is Some && vs@[q].patient_id
                == Some(patient_id) by {
                assert(vs@.contains(vs@[q]));
                assert(vs@.to_multiset().count(vs@[q]) > 0);
                assert(crate::ledger::sessions_of(self.sessions@, patient_id).contains(vs@[q]));
                assert(self.sessions@.contains(vs@[q]));
                let w = choose|w: int|
                    0 <= w < self.sessions@.len() && self.sessions@[w] == vs@[q];
                assert(session_row_ok(self.sessions@[w], self.next_session_id as int));
            }
        }
        let mut out: Vec<SessionRow> = Vec::new();
        let mut i: usize = 0;
        while i < vs.len()
            invariant
                self.wf(),
                i <= vs@.len(),
                out@.len() == i,
                forall|q: int| 0 <= q < i ==> (#[trigger] out@[q]).visit == vs@[q],
                forall|q: int|
                    0 <= q < i ==> (#[trigger] out@[q]).visit.id is Some
                        && out@[q].items@.to_multiset() == crate::items::items_of_session(
                        self.items@,
                        out@[q].visit.id->0,
                    ).to_multiset() && crate::items::items_sorted(out@[q].items@),
                forall|q: int|
                    0 <= q < vs@.len() ==> (#[trigger] vs@[q]).id is Some && vs@[q].patient_id
                        == Some(patient_id),
            decreases vs@.len() - i,
        {
            let sid = match vs[i].id {
                Some(s) => s,
                None => {
                    proof {
                        assert(false);
                    }
                    vstd::pervasive::unreached()
                },
            };
            let row = SessionRow {
                visit: vs[i].clone(),
                items: crate::items::collect_session_items(&self.items, sid),
            };
            out.push(row);
            i = i + 1;
        }
        proof {
            assert(visits_of(out@) =~= vs@);
        }
        Ok(out)
    }

    /// One session with its items, as a singleton listing; an unknown
    /// identity yields an empty one.
    pub fn get_sessions_by_visit(&self, visit_id: i64) -> (r: Result<Vec<SessionRow>, String>)
        ensures
            r is Ok,
            match find_session(self.sessions@, visit_id) {
                Some(j) => r->Ok_0@.len() == 1 && r->Ok_0@[0].visit == self.sessions@[j]
                    && r->Ok_0@[0].items@.to_multiset() == crate::items::items_of_session(
                    self.items@,
                    visit_id,
                ).to_multiset() && crate::items::items_sorted(r->Ok_0@[0].items@),
                None => r->Ok_0@.len() == 0,
            },
    {
        match find_session_index(&self.sessions, visit_id) {
            Some(j) => {
                proof {
                    crate::ledger::lemma_find_session_found(self.sessions@, visit_id);
                }
                let row = SessionRow {
                    visit: self.sessions[j].clone(),
                    items: crate::items::collect_session_items(&self.items, visit_id),
                };
                let mut out: Vec<SessionRow> = Vec::new();
                out.push(row);
                Ok(out)
            },
            None => Ok(Vec::new()),
        }
    }
}

/// Whether a patient's record is active.
pub open spec fn status_active(p: Patient) -> bool {
    p.status is Some && p.status->0@ == "active"@
}

/// Whether an optional status text reads `active`.
pub fn is_active_status(s: &Option<String>) -> (r: bool)
    ensures
        r == (s is Some && s->0@ == "active"@),
{
    match s {
        Some(t) => {
            let a = "active".to_owned();
            *t == a
        },
        None => false,
    }
}

/// Whether a patient row is owed a debt-opening-date repair: an active
/// patient whose ledger shows debt but whose row never recorded when
/// the debt opened.
pub open spec fn needs_repair(r: PatientRecord, sessions: Seq<Session>) -> bool {
    &&& r.info.id is Some
    &&& status_active(r.info)
    &&& r.debt.opened_at is None
    &&& crate::ledger::latest_total(sessions, r.info.id->0, None) > 0
}

/// The repaired row: the debt opens at the date of the latest saved
/// session, unarchived.
pub open spec fn repaired(r: PatientRecord, sessions: Seq<Session>) -> PatientRecord {
    PatientRecord {
        info: r.info,
        debt: DebtFields {
            opened_at: Some(
                crate::ledger::latest_saved(sessions, r.info.id->0, None)->0.date,
            ),
            archived: false,
            archived_at: None,
        },
        last_contact_at: r.last_contact_at,
        last_contact_type: r.last_contact_type,
    }
}

/// How many patient rows are owed a repair.
pub open spec fn repair_count(patients: Seq<PatientRecord>, sessions: Seq<Session>) -> int
    decreases patients.len(),
{
    if patients.len() == 0 {
        0
    } else {
        repair_count(patients.drop_last(), sessions) + if needs_repair(patients.last(), sessions) {
            1int
        } else {
            0int
        }
    }
}

impl LedgerStore {
    /// One-time repair pass: every active patient whose ledger shows
    /// debt but whose row lacks an opening date gets one, dated to the
    /// latest saved session.  Returns how many rows were fixed.
    pub fn repair_debt_opened_dates(&mut self) -> (r: Result<i64, String>)
        requires
            old(self).wf(),
            old(self).patients@.len() < i64::MAX,
        ensures
            final(self).wf(),
            r is Ok,
            final(self).sessions@ == old(self).sessions@,
            final(self).items@ == old(self).items@,
            final(self).next_patient_id == old(self).next_patient_id,
            final(self).next_session_id == old(self).next_session_id,
            final(self).next_item_id == old(self).next_item_id,
            final(self).patients@.len() == old(self).patients@.len(),
            forall|i: int|
                0 <= i < old(self).patients@.len() ==> final(self).patients@[i] == (
                if needs_repair(#[trigger] old(self).patients@[i], old(self).sessions@) {
                    repaired(old(self).patients@[i], old(self).sessions@)
                } else {
                    old(self).patients@[i]
                }),
            r->Ok_0 == repair_count(old(self).patients@, old(self).sessions@),
    {
        let mut count: i64 = 0;
        let mut i: usize = 0;
        let n = self.patients.len();
        while i < n
            invariant
                i <= n,
                n == old(self).patients@.len(),
                n < i64::MAX,
                self.wf(),
                self.sessions@ == old(self).sessions@,
                self.items@ == old(self).items@,
                self.next_patient_id == old(self).next_patient_id,
                self.next_session_id == old(self).next_session_id,
                self.next_item_id == old(self).next_item_id,
                self.patients@.len() == n,
                forall|m: int| i <= m < n ==> self.patients@[m] == #[trigger] old(self).patients@[m],
                forall|m: int|
                    0 <= m < i ==> self.patients@[m] == (if needs_repair(
                        #[trigger] old(self).patients@[m],
                        old(self).sessions@,
                    ) {
                        repaired(old(self).patients@[m], old(self).sessions@)
                    } else {
                        old(self).patients@[m]
                    }),
                0 <= count <= i,
                count == repair_count(old(self).patients@.take(i as int), old(self).sessions@),
            decreases n - i,
        {
            proof {
                assert(old(self).patients@.take(i + 1).drop_last() =~= old(self).patients@.take(
                    i as int,
                ));
                assert(old(self).patients@.take(i + 1).last() == old(self).patients@[i as int]);
            }
            let active = is_active_status(&self.patients[i].info.status);
            let opened_none = match self.patients[i].debt.opened_at {
                Some(_) => false,
                None => true,
            };
            let idopt = self.patients[i].info.id;
            if active && opened_none {
                match idopt {
                    Some(pid) => {
                        match crate::ledger::find_latest_saved(&self.sessions, pid, None) {
                            Some(jj) => {
                                let cum = self.sessions[jj].cumulative_balance;
                                if cum > 0 {
                                    let date = self.sessions[jj].date;
                                    proof {
                                        assert(session_row_ok(
                                            self.sessions@[jj as int],
                                            self.next_session_id as int,
                                        ));
                                    }
                                    self.set_debt_fields(
                                        i,
                                        DebtFields {
                                            opened_at: Some(date),
                                            archived: false,
                                            archived_at: None,
                                        },
                                    );
                                    count = count + 1;
                                }
                            },
                            None => {},
                        }
                    },
                    None => {},
                }
            }
            i = i + 1;
        }
        proof {
            assert(old(self).patients@.take(n as int) =~= old(self).patients@);
        }
        Ok(count)
    }
}

/// The active patient rows, in table order.
pub open spec fn actives(patients: Seq<PatientRecord>) -> Seq<PatientRecord>
    decreases patients.len(),
{
    if patients.len() == 0 {
        patients
    } else {
        let pre = actives(patients.drop_last());
        if status_active(patients.last().info) {
            pre.push(patients.last())
        } else {
            pre
        }
    }
}

/// One row of the patient listing, derived from a stored patient row
/// and the session table.
pub open spec fn list_row_ok(x: PatientListItem, r: PatientRecord, sessions: Seq<Session>) -> bool {
    &&& r.info.id is Some && x.id == r.info.id->0
    &&& x.full_name == r.info.full_name
    &&& x.doc_id == r.info.doc_id
    &&& x.phone == r.info.phone
    &&& x.allergy_detail == r.info.allergy_detail
    &&& x.status == r.info.status
    &&& x.last_visit_date == crate::ledger::max_session_date(sessions, r.info.id->0)
    &&& x.pending_balance as int == saved_balance_sum(sessions, r.info.id->0, None)
}

/// A patient listing in ascending name order.
pub open spec fn list_names_sorted(s: Seq<PatientListItem>) -> bool {
    forall|i: int, j: int|
        0 <= i < j < s.len() ==> crate::text::text_le(
            (#[trigger] s[i]).full_name@,
            (#[trigger] s[j]).full_name@,
        )
}

/// Whether a row lists one of the store's active patients.
pub open spec fn row_in_list(
    x: PatientListItem,
    patients: Seq<PatientRecord>,
    sessions: Seq<Session>,
) -> bool {
    exists|j: int|
        0 <= j < actives(patients).len() && list_row_ok(
            x,
            #[trigger] actives(patients)[j],
            sessions,
        )
}

/// Every active-filtered row is a stored patient row.
proof fn lemma_actives_subset(patients: Seq<PatientRecord>)
    ensures
        forall|x: PatientRecord| #[trigger] actives(patients).contains(x) ==> patients.contains(x),
    decreases patients.len(),
{
    if patients.len() > 0 {
        lemma_actives_subset(patients.drop_last());
        assert forall|x: PatientRecord|
            #[trigger] actives(patients).contains(x) implies patients.contains(x) by {
            let d = actives(patients);
            let k = choose|k: int| 0 <= k < d.len() && d[k] == x;
            let pre = actives(patients.drop_last());
            if k < pre.len() {
                assert(pre.contains(x));
                assert(patients.drop_last().contains(x));
                let w = choose|w: int|
                    0 <= w < patients.drop_last().len() && patients.drop_last()[w] == x;
                assert(patients[w] == x);
            } else {
                assert(x == patients.last());
            }
        }
    }
}

/// Distinct stored identities stay distinct through the active
/// filter.
proof fn lemma_actives_distinct(patients: Seq<PatientRecord>)
    requires
        forall|i: int, j: int|
            0 <= i < j < patients.len() ==> (#[trigger] patients[i]).info.id != (
            #[trigger] patients[j]).info.id,
    ensures
        forall|i: int, j: int|
            0 <= i < j < actives(patients).len() ==> (#[trigger] actives(patients)[i]).info.id
                != (#[trigger] actives(patients)[j]).info.id,
    decreases patients.len(),
{
    if patients.len() > 0 {
        assert(forall|i: int, j: int|
            0 <= i < j < patients.drop_last().len() ==> (
            #[trigger] patients.drop_last()[i]).info.id != (
            #[trigger] patients.drop_last()[j]).info.id);
        lemma_actives_distinct(patients.drop_last());
        lemma_actives_subset(patients.drop_last());
        let d = actives(patients);
        let pre = actives(patients.drop_last());
        assert forall|i: int, j: int|
            0 <= i < j < d.len() implies (#[trigger] d[i]).info.id != (
        #[trigger] d[j]).info.id by {
            if j < pre.len() {
                assert(d[i] == pre[i] && d[j] == pre[j]);
            } else if j == pre.len() && d.len() > pre.len() {
                assert(d[j] == patients.last());
                assert(pre.contains(pre[i]));
                let w = choose|w: int|
                    0 <= w < patients.drop_last().len() && patients.drop_last()[w] == pre[i];
                assert(patients[w] == pre[i]);
                assert(patients[w].info.id != patients[patients.len() - 1].info.id);
            }
        }
    }
}

/// Sorts listing rows into ascending name order.
fn sort_list_by_name(v: Vec<PatientListItem>) -> (r: Vec<PatientListItem>)
    ensures
        r@.to_multiset() == v@.to_multiset(),
        list_names_sorted(r@),
{
    let mut rest = v;
    let mut out: Vec<PatientListItem> = Vec::new();
    proof {
        broadcast use vstd::multiset::group_multiset_axioms;
        broadcast use vstd::seq_lib::group_to_multiset_ensures;

        assert(out@.to_multiset().len() == 0);
        assert(out@.to_multiset().add(rest@.to_multiset()) =~= v@.to_multiset());
    }
    while rest.len() > 0
        invariant
            out@.to_multiset().add(rest@.to_multiset()) == v@.to_multiset(),
            list_names_sorted(out@),
            forall|q: int, w: int|
                0 <= q < out@.len() && 0 <= w < rest@.len() ==> crate::text::text_le(
                    (#[trigger] out@[q]).full_name@,
                    (#[trigger] rest@[w]).full_name@,
                ),
        decreases rest.len(),
    {
        let mut m: usize = 0;
        let mut t: usize = 1;
        proof {
            crate::text::lemma_text_le_refl(rest@[0].full_name@);
        }
        while t < rest.len()
            invariant
                m < t <= rest@.len(),
                rest@.len() > 0,
                forall|w: int|
                    0 <= w < t ==> crate::text::text_le(
                        rest@[m as int].full_name@,
                        (#[trigger] rest@[w]).full_name@,
                    ),
            decreases rest.len() - t,
        {
            let ghost m_old = m as int;
            let keeps = crate::text::str_le(rest[m].full_name.as_str(), rest[t].full_name.as_str());
            if !keeps {
                proof {
                    crate::text::lemma_text_le_total(
                        rest@[m_old].full_name@,
                        rest@[t as int].full_name@,
                    );
                    assert forall|w: int|
                        0 <= w < t implies crate::text::text_le(
                        rest@[t as int].full_name@,
                        (#[trigger] rest@[w]).full_name@,
                    ) by {
                        crate::text::lemma_text_le_trans(
                            rest@[t as int].full_name@,
                            rest@[m_old].full_name@,
                            rest@[w].full_name@,
                        );
                    }
                }
                m = t;
            }
            proof {
                crate::text::lemma_text_le_refl(rest@[t as int].full_name@);
            }
            t = t + 1;
        }
        let ghost rest_old = rest@;
        let ghost out_old = out@;
        let x = rest.remove(m);
        out.push(x);
        proof {
            broadcast use vstd::seq_lib::group_to_multiset_ensures;
            broadcast use vstd::multiset::group_multiset_axioms;

            assert(rest@.to_multiset() =~= rest_old.to_multiset().remove(x));
            assert(out@.to_multiset() =~= out_old.to_multiset().insert(x));
            assert(rest_old.to_multiset().contains(x));
            assert(out@.to_multiset().add(rest@.to_multiset()) =~= out_old.to_multiset().add(
                rest_old.to_multiset(),
            ));
            assert forall|i: int, j: int|
                0 <= i < j < out@.len() implies crate::text::text_le(
                out@[i].full_name@,
                out@[j].full_name@,
            ) by {
                if j < out@.len() - 1 {
                    assert(crate::text::text_le(out_old[i].full_name@, out_old[j].full_name@));
                }
            }
            assert(list_names_sorted(out@));
            assert forall|q: int, w: int|
                0 <= q < out@.len() && 0 <= w < rest@.len() implies crate::text::text_le(
                (#[trigger] out@[q]).full_name@,
                (#[trigger] rest@[w]).full_name@,
            ) by {
                let w0: int = if w < m {
                    w
                } else {
                    w + 1
                };
                assert(rest@[w] == rest_old[w0]);
                if q < out@.len() - 1 {
                    assert(crate::text::text_le(out_old[q].full_name@, rest_old[w0].full_name@));
                } else {
                    assert(crate::text::text_le(
                        rest_old[m as int].full_name@,
                        rest_old[w0].full_name@,
                    ));
                }
            }
        }
    }
    proof {
        broadcast use vstd::multiset::group_multiset_axioms;
        broadcast use vstd::seq_lib::group_to_multiset_ensures;

        assert(rest@.to_multiset().len() == 0);
        assert(out@.to_multiset() =~= v@.to_multiset());
    }
    out
}

/// Whether a patient's texts match a search query, ignoring ASCII
/// case: the query occurs in the full name or in the document number.
pub open spec fn patient_matches(p: Patient, q: Seq<char>) -> bool {
    crate::text::contains_ci(p.full_name@, q) || crate::text::contains_ci(p.doc_id@, q)
}

/// The demographic records matching a query, in table order.
pub open spec fn matching_patients(patients: Seq<PatientRecord>, q: Seq<char>) -> Seq<Patient>
    decreases patients.len(),
{
    if patients.len() == 0 {
        Seq::empty()
    } else {
        let pre = matching_patients(patients.drop_last(), q);
        if patient_matches(patients.last().info, q) {
            pre.push(patients.last().info)
        } else {
            pre
        }
    }
}

/// A demographic listing in ascending name order.
pub open spec fn patient_names_sorted(s: Seq<Patient>) -> bool {
    forall|i: int, j: int|
        0 <= i < j < s.len() ==> crate::text::text_le(
            (#[trigger] s[i]).full_name@,
            (#[trigger] s[j]).full_name@,
        )
}

/// A name-sorted arrangement of the query's matches.
pub open spec fn search_arrangement(
    s: Seq<Patient>,
    patients: Seq<PatientRecord>,
    q: Seq<char>,
) -> bool {
    s.to_multiset() == matching_patients(patients, q).to_multiset() && patient_names_sorted(s)
}

/// Sorts demographic records into ascending name order.
fn sort_patients_by_name(v: Vec<Patient>) -> (r: Vec<Patient>)
    ensures
        r@.to_multiset() == v@.to_multiset(),
        patient_names_sorted(r@),
{
    let mut rest = v;
    let mut out: Vec<Patient> = Vec::new();
    proof {
        broadcast use vstd::multiset::group_multiset_axioms;
        broadcast use vstd::seq_lib::group_to_multiset_ensures;

        assert(out@.to_multiset().len() == 0);
        assert(out@.to_multiset().add(rest@.to_multiset()) =~= v@.to_multiset());
    }
    while rest.len() > 0
        invariant
            out@.to_multiset().add(rest@.to_multiset()) == v@.to_multiset(),
            patient_names_sorted(out@),
            forall|q: int, w: int|
                0 <= q < out@.len() && 0 <= w < rest@.len() ==> crate::text::text_le(
                    (#[trigger] out@[q]).full_name@,
                    (#[trigger] rest@[w]).full_name@,
                ),
        decreases rest.len(),
    {
        let mut m: usize = 0;
        let mut t: usize = 1;
        proof {
            crate::text::lemma_text_le_refl(rest@[0].full_name@);
        }
        while t < rest.len()
            invariant
                m < t <= rest@.len(),
                rest@.len() > 0,
                forall|w: int|
                    0 <= w < t ==> crate::text::text_le(
                        rest@[m as int].full_name@,
                        (#[trigger] rest@[w]).full_name@,
                    ),
            decreases rest.len() - t,
        {
            let ghost m_old = m as int;
            let keeps = crate::text::str_le(rest[m].full_name.as_str(), rest[t].full_name.as_str());
            if !keeps {
                proof {
                    crate::text::lemma_text_le_total(
                        rest@[m_old].full_name@,
                        rest@[t as int].full_name@,
                    );
                    assert forall|w: int|
                        0 <= w < t implies crate::text::text_le(
                        rest@[t as int].full_name@,
                        (#[trigger] rest@[w]).full_name@,
                    ) by {
                        crate::text::lemma_text_le_trans(
                            rest@[t as int].full_name@,
                            rest@[m_old].full_name@,
                            rest@[w].full_name@,
                        );
                    }
                }
                m = t;
            }
            proof {
                crate::text::lemma_text_le_refl(rest@[t as int].full_name@);
            }
            t = t + 1;
        }
        let ghost rest_old = rest@;
        let ghost out_old = out@;
        let x = rest.remove(m);
        out.push(x);
        proof {
            broadcast use vstd::seq_lib::group_to_multiset_ensures;
            broadcast use vstd::multiset::group_multiset_axioms;

            assert(rest@.to_multiset() =~= rest_old.to_multiset().remove(x));
            assert(out@.to_multiset() =~= out_old.to_multiset().insert(x));
            assert(rest_old.to_multiset().contains(x));
            assert(out@.to_multiset().add(rest@.to_multiset()) =~= out_old.to_multiset().add(
                rest_old.to_multiset(),
            ));
            assert forall|i: int, j: int|
                0 <= i < j < out@.len() implies crate::text::text_le(
                out@[i].full_name@,
                out@[j].full_name@,
            ) by {
                if j < out@.len() - 1 {
                    assert(crate::text::text_le(out_old[i].full_name@, out_old[j].full_name@));
                }
            }
            assert(patient_names_sorted(out@));
            assert forall|q: int, w: int|
                0 <= q < out@.len() && 0 <= w < rest@.len() implies crate::text::text_le(
                (#[trigger] out@[q]).full_name@,
                (#[trigger] rest@[w]).full_name@,
            ) by {
                let w0: int = if w < m {
                    w
                } else {
                    w + 1
                };
                assert(rest@[w] == rest_old[w0]);
                if q < out@.len() - 1 {
                    assert(crate::text::text_le(out_old[q].full_name@, rest_old[w0].full_name@));
                } else {
                    assert(crate::text::text_le(
                        rest_old[m as int].full_name@,
                        rest_old[w0].full_name@,
                    ));
                }
            }
        }
    }
    proof {
        broadcast use vstd::multiset::group_multiset_axioms;
        broadcast use vstd::seq_lib::group_to_multiset_ensures;

        assert(rest@.to_multiset().len() == 0);
        assert(out@.to_multiset() =~= v@.to_multiset());
    }
    out
}

/// Whether a patient belongs in the pending-payments report: active,
/// debt open and not archived, and a ledger that still shows debt.
pub open spec fn eligible_debtor(r: PatientRecord, sessions: Seq<Session>) -> bool {
    &&& r.info.id is Some
    &&& status_active(r.info)
    &&& !r.debt.archived
    &&& r.debt.opened_at is Some
    &&& crate::ledger::latest_total(sessions, r.info.id->0, None) > 0
}

/// The report's patients, in table order.
pub open spec fn debtors(patients: Seq<PatientRecord>, sessions: Seq<Session>) -> Seq<
    PatientRecord,
>
    decreases patients.len(),
{
    if patients.len() == 0 {
        patients
    } else {
        let pre = debtors(patients.drop_last(), sessions);
        if eligible_debtor(patients.last(), sessions) {
            pre.push(patients.last())
        } else {
            pre
        }
    }
}

/// The day-independent part of a report row: the patient's texts,
/// flags and ledger total carried over.
pub open spec fn summary_row_core(
    x: PatientDebtSummary,
    r: PatientRecord,
    sessions: Seq<Session>,
) -> bool {
    &&& r.info.id is Some && x.patient_id == r.info.id->0
    &&& x.full_name == r.info.full_name
    &&& x.phone == Some(r.info.phone)
    &&& x.doc_id == r.info.doc_id
    &&& x.current_balance as int == crate::ledger::latest_total(sessions, r.info.id->0, None)
    &&& x.debt_opened_at == r.debt.opened_at
    &&& x.debt_archived == 0
    &&& x.last_contact_at == r.last_contact_at
    &&& x.last_contact_type == r.last_contact_type
}

/// One report row, derived from a stored patient row, the session
/// table and the day the report is drawn.
pub open spec fn summary_row_ok(
    x: PatientDebtSummary,
    r: PatientRecord,
    sessions: Seq<Session>,
    today: i64,
) -> bool {
    &&& summary_row_core(x, r, sessions)
    &&& r.debt.opened_at is Some && x.days_overdue == today - r.debt.opened_at->0
    &&& match r.last_contact_at {
        None => x.contact_status@ == "not_contacted"@,
        Some(c) => if today - c <= 7 {
            x.contact_status@ == "recently_contacted"@
        } else {
            x.contact_status@ == "long_ago"@
        },
    }
}

/// Whether a row reports one of the store's debtors as of the given
/// day.
pub open spec fn row_reported(
    x: PatientDebtSummary,
    patients: Seq<PatientRecord>,
    sessions: Seq<Session>,
    today: i64,
) -> bool {
    exists|j: int|
        0 <= j < debtors(patients, sessions).len() && summary_row_ok(
            x,
            #[trigger] debtors(patients, sessions)[j],
            sessions,
            today,
        )
}

/// Whether a row carries one of the store's debtors, apart from the
/// day-dependent fields.
pub open spec fn row_listed(
    x: PatientDebtSummary,
    patients: Seq<PatientRecord>,
    sessions: Seq<Session>,
) -> bool {
    exists|j: int|
        0 <= j < debtors(patients, sessions).len() && summary_row_core(
            x,
            #[trigger] debtors(patients, sessions)[j],
            sessions,
        )
}

/// Whether `a` stands no later than `b` in the report: more days
/// overdue first, the larger balance breaking ties.
pub open spec fn summary_ge(a: PatientDebtSummary, b: PatientDebtSummary) -> bool {
    a.days_overdue > b.days_overdue || (a.days_overdue == b.days_overdue && a.current_balance
        >= b.current_balance)
}

/// A report in descending order of urgency.
pub open spec fn summaries_sorted_desc(s: Seq<PatientDebtSummary>) -> bool {
    forall|i: int, j: int| 0 <= i < j < s.len() ==> summary_ge(#[trigger] s[i], #[trigger] s[j])
}

/// Sorts report rows into urgency order.
fn sort_summaries_desc(v: Vec<PatientDebtSummary>) -> (r: Vec<PatientDebtSummary>)
    ensures
        r@.to_multiset() == v@.to_multiset(),
        summaries_sorted_desc(r@),
{
    let mut rest = v;
    let mut out: Vec<PatientDebtSummary> = Vec::new();
    proof {
        broadcast use vstd::multiset::group_multiset_axioms;
        broadcast use vstd::seq_lib::group_to_multiset_ensures;

        assert(out@.to_multiset().len() == 0);
        assert(out@.to_multiset().add(rest@.to_multiset()) =~= v@.to_multiset());
    }
    while rest.len() > 0
        invariant
            out@.to_multiset().add(rest@.to_multiset()) == v@.to_multiset(),
            summaries_sorted_desc(out@),
            forall|q: int, w: int|
                0 <= q < out@.len() && 0 <= w < rest@.len() ==> summary_ge(
                    #[trigger] out@[q],
                    #[trigger] rest@[w],
                ),
        decreases rest.len(),
    {
        let mut m: usize = 0;
        let mut t: usize = 1;
        while t < rest.len()
            invariant
                m < t <= rest@.len(),
                rest@.len() > 0,
                forall|w: int| 0 <= w < t ==> summary_ge(rest@[m as int], #[trigger] rest@[w]),
            decreases rest.len() - t,
        {
            let a = &rest[t];
            let b = &rest[m];
            if a.days_overdue > b.days_overdue || (a.days_overdue == b.days_overdue
                && a.current_balance > b.current_balance) {
                m = t;
            }
            t = t + 1;
        }
        let ghost rest_old = rest@;
        let ghost out_old = out@;
        let x = rest.remove(m);
        out.push(x);
        proof {
            broadcast use vstd::seq_lib::group_to_multiset_ensures;
            broadcast use vstd::multiset::group_multiset_axioms;

            assert(rest@.to_multiset() =~= rest_old.to_multiset().remove(x));
            assert(out@.to_multiset() =~= out_old.to_multiset().insert(x));
            assert(rest_old.to_multiset().contains(x));
            assert(out@.to_multiset().add(rest@.to_multiset()) =~= out_old.to_multiset().add(
                rest_old.to_multiset(),
            ));
            assert forall|i: int, j: int|
                0 <= i < j < out@.len() implies summary_ge(out@[i], out@[j]) by {
                if j < out@.len() - 1 {
                    assert(summary_ge(out_old[i], out_old[j]));
                }
            }
            assert(summaries_sorted_desc(out@));
            assert forall|q: int, w: int|
                0 <= q < out@.len() && 0 <= w < rest@.len() implies summary_ge(
                #[trigger] out@[q],
                #[trigger] rest@[w],
            ) by {
                let w0: int = if w < m {
                    w
                } else {
                    w + 1
                };
                assert(rest@[w] == rest_old[w0]);
                if q < out@.len() - 1 {
                    assert(summary_ge(out_old[q], rest_old[w0]));
                } else {
                    assert(summary_ge(rest_old[m as int], rest_old[w0]));
                }
            }
        }
    }
    proof {
        broadcast use vstd::multiset::group_multiset_axioms;
        broadcast use vstd::seq_lib::group_to_multiset_ensures;

        assert(rest@.to_multiset().len() == 0);
        assert(out@.to_multiset() =~= v@.to_multiset());
    }
    out
}

/// Every report patient is a stored patient row.
proof fn lemma_debtors_subset(patients: Seq<PatientRecord>, sessions: Seq<Session>)
    ensures
        forall|x: PatientRecord|
            #[trigger] debtors(patients, sessions).contains(x) ==> patients.contains(x),
    decreases patients.len(),
{
    if patients.len() > 0 {
        lemma_debtors_subset(patients.drop_last(), sessions);
        assert forall|x: PatientRecord|
            #[trigger] debtors(patients, sessions).contains(x) implies patients.contains(x) by {
            let d = debtors(patients, sessions);
            let k = choose|k: int| 0 <= k < d.len() && d[k] == x;
            let pre = debtors(patients.drop_last(), sessions);
            if k < pre.len() {
                assert(pre.contains(x));
                assert(patients.drop_last().contains(x));
                let w = choose|w: int|
                    0 <= w < patients.drop_last().len() && patients.drop_last()[w] == x;
                assert(patients[w] == x);
            } else {
                assert(x == patients.last());
            }
        }
    }
}

/// Distinct stored identities stay distinct through the report
/// filter.
proof fn lemma_debtors_distinct(patients: Seq<PatientRecord>, sessions: Seq<Session>)
    requires
        forall|i: int, j: int|
            0 <= i < j < patients.len() ==> (#[trigger] patients[i]).info.id != (
            #[trigger] patients[j]).info.id,
    ensures
        forall|i: int, j: int|
            0 <= i < j < debtors(patients, sessions).len() ==> (#[trigger] debtors(
                patients,
                sessions,
            )[i]).info.id != (#[trigger] debtors(patients, sessions)[j]).info.id,
    decreases patients.len(),
{
    if patients.len() > 0 {
        assert(forall|i: int, j: int|
            0 <= i < j < patients.drop_last().len() ==> (
            #[trigger] patients.drop_last()[i]).info.id != (
            #[trigger] patients.drop_last()[j]).info.id);
        lemma_debtors_distinct(patients.drop_last(), sessions);
        lemma_debtors_subset(patients.drop_last(), sessions);
        let d = debtors(patients, sessions);
        let pre = debtors(patients.drop_last(), sessions);
        assert forall|i: int, j: int|
            0 <= i < j < d.len() implies (#[trigger] d[i]).info.id != (
        #[trigger] d[j]).info.id by {
            if j < pre.len() {
                assert(d[i] == pre[i] && d[j] == pre[j]);
            } else if j == pre.len() && d.len() > pre.len() {
                assert(d[j] == patients.last());
                assert(pre.contains(pre[i]));
                let w = choose|w: int|
                    0 <= w < patients.drop_last().len() && patients.drop_last()[w] == pre[i];
                assert(patients[w] == pre[i]);
                assert(patients[w].info.id != patients[patients.len() - 1].info.id);
            }
        }
    }
}

impl LedgerStore {
    /// The active patients with the date of their last session and
    /// their pending balance, ordered by name; rows sharing a name
    /// keep no particular order among themselves.
    pub fn get_all_patients_list(&self) -> (r: Result<Vec<PatientListItem>, String>)
        requires
            self.wf(),
        ensures
            r is Ok,
            r->Ok_0@.len() == actives(self.patients@).len(),
            list_names_sorted(r->Ok_0@),
            forall|i: int|
                0 <= i < r->Ok_0@.len() ==> row_in_list(
                    #[trigger] r->Ok_0@[i],
                    self.patients@,
                    self.sessions@,
                ),
            forall|i1: int, i2: int|
                0 <= i1 < i2 < r->Ok_0@.len() ==> (#[trigger] r->Ok_0@[i1]).id != (
                #[trigger] r->Ok_0@[i2]).id,
    {
        proof {
            assert(balances_bounded(self.sessions@)) by {
                assert forall|i: int|
                    0 <= i < self.sessions@.len() implies -BALANCE_LIMIT <= (
                #[trigger] self.sessions@[i]).balance <= BALANCE_LIMIT by {
                    assert(session_row_ok(self.sessions@[i], self.next_session_id as int));
                }
            }
        }
        let mut out: Vec<PatientListItem> = Vec::new();
        let mut i: usize = 0;
        while i < self.patients.len()
            invariant
                self.wf(),
                balances_bounded(self.sessions@),
                i <= self.patients@.len(),
                out@.len() == actives(self.patients@.take(i as int)).len(),
                forall|q: int|
                    0 <= q < out@.len() ==> list_row_ok(
                        #[trigger] out@[q],
                        actives(self.patients@.take(i as int))[q],
                        self.sessions@,
                    ),
            decreases self.patients@.len() - i,
        {
            proof {
                assert(self.patients@.take(i + 1).drop_last() =~= self.patients@.take(i as int));
                assert(self.patients@.take(i + 1).last() == self.patients@[i as int]);
            }
            let rec = &self.patients[i];
            if is_active_status(&rec.info.status) {
                let pid = match rec.info.id {
                    Some(p) => p,
                    None => {
                        proof {
                            assert(patient_row_ok(
                                self.patients@[i as int],
                                self.next_patient_id as int,
                            ));
                            assert(false);
                        }
                        vstd::pervasive::unreached()
                    },
                };
                let last_visit_date = crate::ledger::find_max_session_date(&self.sessions, pid);
                let pending_balance = sum_saved_balances(&self.sessions, pid, None);
                let item = PatientListItem {
                    id: pid,
                    full_name: rec.info.full_name.clone(),
                    doc_id: rec.info.doc_id.clone(),
                    phone: rec.info.phone.clone(),
                    allergy_detail: crate::model::clone_opt_string(&rec.info.allergy_detail),
                    status: crate::model::clone_opt_string(&rec.info.status),
                    last_visit_date,
                    pending_balance,
                };
                out.push(item);
            }
            i = i + 1;
        }
        proof {
            assert(self.patients@.take(self.patients@.len() as int) =~= self.patients@);
        }
        let ghost raw = out@;
        let ghost acts = actives(self.patients@);
        proof {
            lemma_actives_distinct(self.patients@);
            assert forall|q1: int, q2: int|
                0 <= q1 < q2 < raw.len() implies raw[q1] != raw[q2] by {
                assert(list_row_ok(raw[q1], acts[q1], self.sessions@));
                assert(list_row_ok(raw[q2], acts[q2], self.sessions@));
                assert(acts[q1].info.id != acts[q2].info.id);
            }
            assert(raw.no_duplicates());
            raw.lemma_multiset_has_no_duplicates();
        }
        let sorted = sort_list_by_name(out);
        proof {
            broadcast use vstd::seq_lib::group_to_multiset_ensures;

            assert(sorted@.to_multiset().len() == raw.to_multiset().len());
            assert forall|x: PatientListItem|
                sorted@.to_multiset().contains(x) implies sorted@.to_multiset().count(x)
                == 1 by {
                assert(raw.to_multiset().contains(x));
            }
            sorted@.lemma_multiset_has_no_duplicates_conv();
            assert forall|i: int|
                0 <= i < sorted@.len() implies row_in_list(
                #[trigger] sorted@[i],
                self.patients@,
                self.sessions@,
            ) by {
                assert(sorted@.contains(sorted@[i]));
                assert(sorted@.to_multiset().count(sorted@[i]) > 0);
                assert(raw.to_multiset().count(sorted@[i]) > 0);
                assert(raw.contains(sorted@[i]));
                let k = choose|k: int| 0 <= k < raw.len() && raw[k] == sorted@[i];
                assert(list_row_ok(sorted@[i], acts[k], self.sessions@));
            }
            assert forall|i1: int, i2: int|
                0 <= i1 < i2 < sorted@.len() implies (#[trigger] sorted@[i1]).id != (
            #[trigger] sorted@[i2]).id by {
                assert(sorted@[i1] != sorted@[i2]);
                assert(sorted@.contains(sorted@[i1]));
                assert(sorted@.to_multiset().count(sorted@[i1]) > 0);
                assert(raw.to_multiset().count(sorted@[i1]) > 0);
                assert(raw.contains(sorted@[i1]));
                assert(sorted@.contains(sorted@[i2]));
                assert(sorted@.to_multiset().count(sorted@[i2]) > 0);
                assert(raw.to_multiset().count(sorted@[i2]) > 0);
                assert(raw.contains(sorted@[i2]));
                let k1 = choose|k: int| 0 <= k < raw.len() && raw[k] == sorted@[i1];
                let k2 = choose|k: int| 0 <= k < raw.len() && raw[k] == sorted@[i2];
                assert(k1 != k2);
                assert(list_row_ok(sorted@[i1], acts[k1], self.sessions@));
                assert(list_row_ok(sorted@[i2], acts[k2], self.sessions@));
                assert(acts[k1].info.id != acts[k2].info.id);
            }
        }
        Ok(sorted)
    }

    /// The patients whose name or document number contains the query,
    /// ignoring ASCII case: ordered by name, truncated to the first
    /// fifty in that order.  The query's characters are all matched
    /// literally, `%` and `_` included.
    pub fn search_patients(&self, query: &str) -> (r: Result<Vec<Patient>, String>)
        ensures
            r is Ok,
            exists|s: Seq<Patient>|
                #[trigger] search_arrangement(s, self.patients@, query@) && r->Ok_0@ == (
                if s.len() <= 50 {
                    s
                } else {
                    s.take(50)
                }),
    {
        let mut out: Vec<Patient> = Vec::new();
        let mut i: usize = 0;
        while i < self.patients.len()
            invariant
                i <= self.patients@.len(),
                out@ == matching_patients(self.patients@.take(i as int), query@),
            decreases self.patients@.len() - i,
        {
            proof {
                assert(self.patients@.take(i + 1).drop_last() =~= self.patients@.take(i as int));
                assert(self.patients@.take(i + 1).last() == self.patients@[i as int]);
            }
            let rec = &self.patients[i];
            let matched = crate::text::str_contains_ci(rec.info.full_name.as_str(), query)
                || crate::text::str_contains_ci(rec.info.doc_id.as_str(), query);
            if matched {
                out.push(rec.info.clone());
            }
            i = i + 1;
        }
        proof {
            assert(self.patients@.take(self.patients@.len() as int) =~= self.patients@);
        }
        let mut sorted = sort_patients_by_name(out);
        let ghost full = sorted@;
        proof {
            assert(search_arrangement(full, self.patients@, query@));
        }
        if sorted.len() > 50 {
            sorted.truncate(50);
            proof {
                assert(sorted@ =~= full.take(50));
            }
        }
        Ok(sorted)
    }

    /// The pending-payments report as of the given day: one row for
    /// every active patient with open, unarchived debt whose ledger
    /// still shows debt, the most days overdue first and the larger
    /// balance breaking ties.
    pub fn pending_payments_summary_as_of(&self, today: i64) -> (r: Result<
        Vec<PatientDebtSummary>,
        String,
    >)
        requires
            self.wf(),
            day_in_range(today as int),
        ensures
            r is Ok,
            r->Ok_0@.len() == debtors(self.patients@, self.sessions@).len(),
            summaries_sorted_desc(r->Ok_0@),
            forall|i: int|
                0 <= i < r->Ok_0@.len() ==> row_reported(
                    #[trigger] r->Ok_0@[i],
                    self.patients@,
                    self.sessions@,
                    today,
                ),
            forall|i1: int, i2: int|
                0 <= i1 < i2 < r->Ok_0@.len() ==> (#[trigger] r->Ok_0@[i1]).patient_id != (
                #[trigger] r->Ok_0@[i2]).patient_id,
    {
        let mut out: Vec<PatientDebtSummary> = Vec::new();
        let mut i: usize = 0;
        while i < self.patients.len()
            invariant
                self.wf(),
                day_in_range(today as int),
                i <= self.patients@.len(),
                out@.len() == debtors(self.patients@.take(i as int), self.sessions@).len(),
                forall|q: int|
                    0 <= q < out@.len() ==> summary_row_ok(
                        #[trigger] out@[q],
                        debtors(self.patients@.take(i as int), self.sessions@)[q],
                        self.sessions@,
                        today,
                    ),
            decreases self.patients@.len() - i,
        {
            proof {
                assert(self.patients@.take(i + 1).drop_last() =~= self.patients@.take(i as int));
                assert(self.patients@.take(i + 1).last() == self.patients@[i as int]);
                assert(patient_row_ok(self.patients@[i as int], self.next_patient_id as int));
            }
            let rec = &self.patients[i];
            let active = is_active_status(&rec.info.status);
            let opened = match rec.debt.opened_at {
                Some(d) => Some(d),
                None => None,
            };
            let idopt = rec.info.id;
            if active && !rec.debt.archived {
                match (opened, idopt) {
                    (Some(opened_day), Some(pid)) => {
                        let balance = match crate::ledger::find_latest_saved(
                            &self.sessions,
                            pid,
                            None,
                        ) {
                            Some(jj) => self.sessions[jj].cumulative_balance,
                            None => 0,
                        };
                        if balance > 0 {
                            let contact_status = match rec.last_contact_at {
                                None => "not_contacted".to_owned(),
                                Some(c) => if today - c <= 7 {
                                    "recently_contacted".to_owned()
                                } else {
                                    "long_ago".to_owned()
                                },
                            };
                            let row = PatientDebtSummary {
                                patient_id: pid,
                                full_name: rec.info.full_name.clone(),
                                phone: Some(rec.info.phone.clone()),
                                doc_id: rec.info.doc_id.clone(),
                                current_balance: balance,
                                debt_opened_at: Some(opened_day),
                                debt_archived: 0,
                                last_contact_at: rec.last_contact_at,
                                last_contact_type: crate::model::clone_opt_string(
                                    &rec.last_contact_type,
                                ),
                                days_overdue: today - opened_day,
                                contact_status,
                            };
                            out.push(row);
                        }
                    },
                    _ => {},
                }
            }
            i = i + 1;
        }
        proof {
            assert(self.patients@.take(self.patients@.len() as int) =~= self.patients@);
        }
        let ghost raw = out@;
        let ghost ds = debtors(self.patients@, self.sessions@);
        proof {
            // Rows carry their debtor's identity, and stored
            // identities are unique, so the raw rows are pairwise
            // distinct.
            lemma_debtors_distinct(self.patients@, self.sessions@);
            assert forall|q1: int, q2: int|
                0 <= q1 < q2 < raw.len() implies raw[q1] != raw[q2] by {
                assert(summary_row_ok(raw[q1], ds[q1], self.sessions@, today));
                assert(summary_row_ok(raw[q2], ds[q2], self.sessions@, today));
                assert(ds[q1].info.id != ds[q2].info.id);
            }
            assert(raw.no_duplicates());
            raw.lemma_multiset_has_no_duplicates();
        }
        let sorted = sort_summaries_desc(out);
        proof {
            broadcast use vstd::seq_lib::group_to_multiset_ensures;

            assert(sorted@.to_multiset().len() == raw.to_multiset().len());
            assert forall|x: PatientDebtSummary|
                sorted@.to_multiset().contains(x) implies sorted@.to_multiset().count(x)
                == 1 by {
                assert(raw.to_multiset().contains(x));
            }
            sorted@.lemma_multiset_has_no_duplicates_conv();
            assert forall|i: int|
                0 <= i < sorted@.len() implies row_reported(
                #[trigger] sorted@[i],
                self.patients@,
                self.sessions@,
                today,
            ) by {
                assert(sorted@.contains(sorted@[i]));
                assert(sorted@.to_multiset().count(sorted@[i]) > 0);
                assert(raw.to_multiset().count(sorted@[i]) > 0);
                assert(raw.contains(sorted@[i]));
                let k = choose|k: int| 0 <= k < raw.len() && raw[k] == sorted@[i];
                assert(summary_row_ok(sorted@[i], ds[k], self.sessions@, today));
            }
            assert forall|i1: int, i2: int|
                0 <= i1 < i2 < sorted@.len() implies (#[trigger] sorted@[i1]).patient_id != (
            #[trigger] sorted@[i2]).patient_id by {
                assert(sorted@[i1] != sorted@[i2]);
                assert(sorted@.contains(sorted@[i1]));
                assert(sorted@.to_multiset().count(sorted@[i1]) > 0);
                assert(raw.to_multiset().count(sorted@[i1]) > 0);
                assert(raw.contains(sorted@[i1]));
                assert(sorted@.contains(sorted@[i2]));
                assert(sorted@.to_multiset().count(sorted@[i2]) > 0);
                assert(raw.to_multiset().count(sorted@[i2]) > 0);
                assert(raw.contains(sorted@[i2]));
                let k1 = choose|k: int| 0 <= k < raw.len() && raw[k] == sorted@[i1];
                let k2 = choose|k: int| 0 <= k < raw.len() && raw[k] == sorted@[i2];
                assert(k1 != k2);
                assert(summary_row_ok(raw[k1], ds[k1], self.sessions@, today));
                assert(summary_row_ok(raw[k2], ds[k2], self.sessions@, today));
                assert(ds[k1].info.id != ds[k2].info.id);
            }
        }
        Ok(sorted)
    }

    /// The pending-payments report as of today.
    pub fn get_pending_payments_summary(&self) -> (r: Result<Vec<PatientDebtSummary>, String>)
        requires
            self.wf(),
        ensures
            r is Ok,
            r->Ok_0@.len() == debtors(self.patients@, self.sessions@).len(),
            summaries_sorted_desc(r->Ok_0@),
            forall|i: int|
                0 <= i < r->Ok_0@.len() ==> row_listed(
                    #[trigger] r->Ok_0@[i],
                    self.patients@,
                    self.sessions@,
                ),
            forall|i1: int, i2: int|
                0 <= i1 < i2 < r->Ok_0@.len() ==> (#[trigger] r->Ok_0@[i1]).patient_id != (
                #[trigger] r->Ok_0@[i2]).patient_id,
    {
        let today = crate::clock::today_day_number();
        let r = self.pending_payments_summary_as_of(today);
        proof {
            let ds = debtors(self.patients@, self.sessions@);
            match &r {
                Ok(v) => {
                    assert forall|i: int|
                        0 <= i < v@.len() implies row_listed(
                        #[trigger] v@[i],
                        self.patients@,
                        self.sessions@,
                    ) by {
                        assert(row_reported(v@[i], self.patients@, self.sessions@, today));
                        let j = choose|j: int|
                            0 <= j < ds.len() && summary_row_ok(
                                v@[i],
                                #[trigger] ds[j],
                                self.sessions@,
                                today,
                            );
                        assert(summary_row_core(v@[i], ds[j], self.sessions@));
                    }
                },
                Err(_) => {},
            }
        }
        r
    }
}

/// The session row a diagnostic update stores, apart from its date
/// and cumulative snapshot: the odontogram fields carried through,
/// budget, discount, payment and balance all zero, and the row saved,
/// under the system reason.
pub open spec fn diagnostic_row(
    s: Session,
    pid: i64,
    sid: i64,
    tooth_dx_json: Option<String>,
    auto_dx_text: Option<String>,
    full_dx_text: Option<String>,
) -> bool {
    &&& s.id == Some(sid)
    &&& s.patient_id == Some(pid)
    &&& s.reason_type is Some && s.reason_type->0@ == "Otro"@
    &&& s.reason_detail is Some && s.reason_detail->0@ == "Sistema: Odontograma"@
    &&& s.diagnosis_text is None
    &&& s.auto_dx_text == auto_dx_text
    &&& s.full_dx_text == full_dx_text
    &&& s.tooth_dx_json == tooth_dx_json
    &&& s.clinical_notes is None
    &&& s.signer is None
    &&& s.budget == 0 && s.discount == 0 && s.payment == 0 && s.balance == 0
    &&& s.payment_method_id is None
    &&& s.payment_notes is None
    &&& s.is_saved == Some(true)
}

impl LedgerStore {
    /// Creates a saved session carrying only an odontogram update, as
    /// of the given day: no financial data, so historical snapshots
    /// are preserved by adding a row instead of editing one.  The new
    /// row's cumulative snapshot carries the patient's ledger total
    /// forward — its own balance is zero, so the total is unchanged
    /// and the latest snapshot keeps equalling the sum of the saved
    /// balances.
    pub fn create_diagnostic_update_session_on(
        &mut self,
        patient_id: i64,
        tooth_dx_json: Option<String>,
        auto_dx_text: Option<String>,
        full_dx_text: Option<String>,
        today: i64,
    ) -> (r: Result<CreateDiagnosticUpdateSessionResponse, String>)
        requires
            old(self).wf(),
            old(self).sessions@.len() < MAX_SESSIONS,
            old(self).next_session_id < i64::MAX,
            day_in_range(today as int),
        ensures
            final(self).wf(),
            r is Ok,
            final(self).patients@ == old(self).patients@,
            final(self).items@ == old(self).items@,
            final(self).next_patient_id == old(self).next_patient_id,
            final(self).next_item_id == old(self).next_item_id,
            final(self).next_session_id == old(self).next_session_id + 1,
            r->Ok_0.session_id == old(self).next_session_id,
            final(self).sessions@.len() == old(self).sessions@.len() + 1,
            final(self).sessions@.take(old(self).sessions@.len() as int) == old(self).sessions@,
            diagnostic_row(
                final(self).sessions@.last(),
                patient_id,
                old(self).next_session_id,
                tooth_dx_json,
                auto_dx_text,
                full_dx_text,
            ),
            final(self).sessions@.last().date == today,
            final(self).sessions@.last().cumulative_balance as int == saved_balance_sum(
                old(self).sessions@,
                patient_id,
                None,
            ),
    {
        proof {
            assert(balances_bounded(self.sessions@)) by {
                assert forall|i: int|
                    0 <= i < self.sessions@.len() implies -BALANCE_LIMIT <= (
                #[trigger] self.sessions@[i]).balance <= BALANCE_LIMIT by {
                    assert(session_row_ok(self.sessions@[i], self.next_session_id as int));
                }
            }
        }
        let running = sum_saved_balances(&self.sessions, patient_id, None);
        let sid = self.next_session_id;
        let row = Session {
            id: Some(sid),
            patient_id: Some(patient_id),
            date: today,
            reason_type: Some("Otro".to_owned()),
            reason_detail: Some("Sistema: Odontograma".to_owned()),
            diagnosis_text: None,
            auto_dx_text,
            full_dx_text,
            tooth_dx_json,
            clinical_notes: None,
            signer: None,
            budget: 0,
            discount: 0,
            payment: 0,
            balance: 0,
            cumulative_balance: running,
            payment_method_id: None,
            payment_notes: None,
            is_saved: Some(true),
        };
        self.sessions.push(row);
        self.next_session_id = sid + 1;
        proof {
            assert(self.sessions@.take(old(self).sessions@.len() as int) =~= old(self).sessions@);
            assert forall|i: int|
                0 <= i < self.sessions@.len() implies session_row_ok(
                #[trigger] self.sessions@[i],
                self.next_session_id as int,
            ) by {
                if i < old(self).sessions@.len() {
                    assert(session_row_ok(old(self).sessions@[i], old(self).next_session_id as int));
                }
            }
            assert forall|a: int, b: int|
                0 <= a < b < self.sessions@.len() implies (#[trigger] self.sessions@[a]).id != (
            #[trigger] self.sessions@[b]).id by {
                if b < old(self).sessions@.len() {
                    assert(self.sessions@[a].id == old(self).sessions@[a].id);
                    assert(self.sessions@[b].id == old(self).sessions@[b].id);
                } else {
                    assert(session_row_ok(old(self).sessions@[a], old(self).next_session_id as int));
                }
            }
        }
        Ok(CreateDiagnosticUpdateSessionResponse { session_id: sid })
    }

    /// Creates a saved odontogram-update session dated today.
    pub fn create_diagnostic_update_session(
        &mut self,
        patient_id: i64,
        tooth_dx_json: Option<String>,
        auto_dx_text: Option<String>,
        full_dx_text: Option<String>,
    ) -> (r: Result<CreateDiagnosticUpdateSessionResponse, String>)
        requires
            old(self).wf(),
            old(self).sessions@.len() < MAX_SESSIONS,
            old(self).next_session_id < i64::MAX,
        ensures
            final(self).wf(),
            r is Ok,
            final(self).patients@ == old(self).patients@,
            final(self).items@ == old(self).items@,
            final(self).next_patient_id == old(self).next_patient_id,
            final(self).next_item_id == old(self).next_item_id,
            final(self).next_session_id == old(self).next_session_id + 1,
            r->Ok_0.session_id == old(self).next_session_id,
            final(self).sessions@.len() == old(self).sessions@.len() + 1,
            final(self).sessions@.take(old(self).sessions@.len() as int) == old(self).sessions@,
            diagnostic_row(
                final(self).sessions@.last(),
                patient_id,
                old(self).next_session_id,
                tooth_dx_json,
                auto_dx_text,
                full_dx_text,
            ),
            day_in_range(final(self).sessions@.last().date as int),
            final(self).sessions@.last().cumulative_balance as int == saved_balance_sum(
                old(self).sessions@,
                patient_id,
                None,
            ),
    {
        let today = crate::clock::today_day_number();
        self.create_diagnostic_update_session_on(
            patient_id,
            tooth_dx_json,
            auto_dx_text,
            full_dx_text,
            today,
        )
    }
}

} // verus!
