//! End-to-end tests of the save path, the ledger and the debt
//! lifecycle.  Amounts are cents and dates are day numbers.

use clinic_ledger::balance::budget_mismatch;
use clinic_ledger::items::is_blank;
use clinic_ledger::model::{Patient, Session, SessionItem, SessionRow};
use clinic_ledger::store::LedgerStore;

fn sample_patient() -> Patient {
    Patient {
        id: None,
        full_name: "Ana Maria Perez".to_string(),
        doc_id: "V-1234".to_string(),
        email: None,
        phone: "555-0100".to_string(),
        emergency_phone: None,
        date_of_birth: "1990-04-01".to_string(),
        anamnesis: None,
        allergy_detail: None,
        status: None,
    }
}

fn blank_visit(date: i64) -> Session {
    Session {
        id: None,
        patient_id: None,
        date,
        reason_type: None,
        reason_detail: None,
        diagnosis_text: None,
        auto_dx_text: None,
        full_dx_text: None,
        tooth_dx_json: None,
        clinical_notes: None,
        signer: None,
        budget: 0,
        discount: 0,
        payment: 0,
        balance: 0,
        cumulative_balance: 0,
        payment_method_id: None,
        payment_notes: None,
        is_saved: None,
    }
}

fn item(name: &str, subtotal: i64, quantity: i64) -> SessionItem {
    SessionItem {
        id: None,
        session_id: None,
        name: name.to_string(),
        unit_price: subtotal,
        quantity,
        subtotal,
        is_active: None,
        tooth_number: None,
        procedure_notes: None,
        procedure_template_id: None,
        sort_order: None,
    }
}

fn draft(id: Option<i64>, date: i64, discount: i64, payment: i64, items: Vec<SessionItem>) -> SessionRow {
    let mut visit = blank_visit(date);
    visit.id = id;
    visit.discount = discount;
    visit.payment = payment;
    SessionRow { visit, items }
}

#[test]
fn new_patient_debt_opens() {
    let mut store = LedgerStore::new();
    let drafts = vec![draft(None, 700_000, 0, 30, vec![item("cleaning", 100, 1), item("x-ray", 50, 1)])];
    let res = store
        .save_visit_with_sessions(sample_patient(), blank_visit(700_000), drafts)
        .unwrap();
    assert_eq!(res.patient_id, 1);
    assert_eq!(res.visit_id, 1);
    let rows = store.get_sessions_by_visit(1).unwrap();
    assert_eq!(rows.len(), 1);
    assert_eq!(rows[0].visit.budget, 150);
    assert_eq!(rows[0].visit.balance, 120);
    assert_eq!(rows[0].visit.cumulative_balance, 120);
    assert_eq!(rows[0].visit.is_saved, Some(true));
    assert_eq!(store.patients[0].debt.opened_at, Some(700_000));
    assert!(!store.patients[0].debt.archived);
    assert_eq!(store.patients[0].debt.archived_at, None);
}

#[test]
fn next_session_settles_and_debt_closes() {
    let mut store = LedgerStore::new();
    store
        .save_visit_with_sessions(
            sample_patient(),
            blank_visit(700_000),
            vec![draft(None, 700_000, 0, 30, vec![item("cleaning", 100, 1), item("x-ray", 50, 1)])],
        )
        .unwrap();
    let mut follow_up = sample_patient();
    follow_up.id = Some(1);
    let res = store
        .save_visit_with_sessions(
            follow_up,
            blank_visit(700_010),
            vec![draft(None, 700_010, 0, 120, vec![])],
        )
        .unwrap();
    assert_eq!(res.visit_id, 2);
    let rows = store.get_sessions_by_visit(2).unwrap();
    assert_eq!(rows[0].visit.budget, 0);
    assert_eq!(rows[0].visit.balance, -120);
    assert_eq!(rows[0].visit.cumulative_balance, 0);
    assert_eq!(store.patients[0].debt.opened_at, None);
    assert!(!store.patients[0].debt.archived);
}

#[test]
fn archived_debt_reopens_on_save() {
    let mut store = LedgerStore::new();
    store
        .save_visit_with_sessions(
            sample_patient(),
            blank_visit(700_000),
            vec![draft(None, 700_000, 0, 30, vec![item("cleaning", 100, 1), item("x-ray", 50, 1)])],
        )
        .unwrap();
    store.archive_debt_at(1, 700_005).unwrap();
    assert!(store.patients[0].debt.archived);
    assert_eq!(store.patients[0].debt.archived_at, Some(700_005));
    let mut follow_up = sample_patient();
    follow_up.id = Some(1);
    store
        .save_visit_with_sessions(
            follow_up,
            blank_visit(700_010),
            vec![draft(None, 700_010, 0, 0, vec![item("filling", 50, 1)])],
        )
        .unwrap();
    // The ledger still shows debt, so the archive mark is lifted and
    // the opening date stays what it was.
    assert!(!store.patients[0].debt.archived);
    assert_eq!(store.patients[0].debt.archived_at, None);
    assert_eq!(store.patients[0].debt.opened_at, Some(700_000));
}

#[test]
fn resave_with_empty_items_zeroes_budget() {
    let mut store = LedgerStore::new();
    store
        .save_visit_with_sessions(
            sample_patient(),
            blank_visit(700_000),
            vec![draft(None, 700_000, 10, 20, vec![item("cleaning", 100, 1)])],
        )
        .unwrap();
    let mut same = sample_patient();
    same.id = Some(1);
    store
        .save_visit_with_sessions(
            same,
            blank_visit(700_000),
            vec![draft(Some(1), 700_000, 10, 20, vec![])],
        )
        .unwrap();
    let rows = store.get_sessions_by_visit(1).unwrap();
    assert_eq!(rows[0].visit.budget, 0);
    assert_eq!(rows[0].visit.balance, -30);
    assert_eq!(rows[0].items.len(), 0);
}

#[test]
fn missing_opening_date_is_repaired_on_save() {
    let mut store = LedgerStore::new();
    store
        .save_visit_with_sessions(
            sample_patient(),
            blank_visit(700_000),
            vec![draft(None, 700_000, 0, 0, vec![item("cleaning", 100, 1)])],
        )
        .unwrap();
    // A legacy row: debt on the ledger, no opening date recorded.
    store.patients[0].debt.opened_at = None;
    let mut same = sample_patient();
    same.id = Some(1);
    store
        .save_visit_with_sessions(
            same,
            blank_visit(700_020),
            vec![draft(None, 700_020, 0, 0, vec![item("filling", 40, 1)])],
        )
        .unwrap();
    assert_eq!(store.patients[0].debt.opened_at, Some(700_020));
    assert!(!store.patients[0].debt.archived);
}

#[test]
fn unknown_patient_identity_is_rejected() {
    let mut store = LedgerStore::new();
    let mut ghost_patient = sample_patient();
    ghost_patient.id = Some(99);
    let r = store.save_visit_with_sessions(ghost_patient, blank_visit(700_000), vec![]);
    assert!(r.is_err());
    assert_eq!(store.patients.len(), 0);
    assert_eq!(store.sessions.len(), 0);
}

#[test]
fn save_without_drafts_touches_no_session() {
    let mut store = LedgerStore::new();
    store
        .save_visit_with_sessions(
            sample_patient(),
            blank_visit(700_000),
            vec![draft(None, 700_000, 0, 0, vec![item("cleaning", 100, 1)])],
        )
        .unwrap();
    let mut same = sample_patient();
    same.id = Some(1);
    let res = store
        .save_visit_with_sessions(same, blank_visit(700_001), vec![])
        .unwrap();
    assert_eq!(res.visit_id, 0);
    assert_eq!(store.sessions.len(), 1);
    // The lifecycle pass still runs, anchored to the null session
    // identity: the before-total reads zero, the debt re-opens, and
    // the trigger date of the nonexistent session is null.
    assert_eq!(store.patients[0].debt.opened_at, None);
    assert!(!store.patients[0].debt.archived);
}

#[test]
fn items_are_replaced_and_stamped_in_list_order() {
    let mut store = LedgerStore::new();
    let mut named_inactive = item("note only", 25, 0);
    named_inactive.is_active = None;
    let drafts = vec![draft(
        None,
        700_000,
        0,
        0,
        vec![item("kept", 80, 1), item("", 0, 0), named_inactive, item("\u{000B}", 0, 0)],
    )];
    store
        .save_visit_with_sessions(sample_patient(), blank_visit(700_000), drafts)
        .unwrap();
    let items = store.get_procedures_by_visit(1).unwrap();
    // The zero-quantity entries whose names trim to nothing — empty
    // or whitespace-only — are skipped; positions keep the submitted
    // indexes.
    assert_eq!(items.len(), 2);
    assert_eq!(items[0].name, "kept");
    assert_eq!(items[0].sort_order, Some(0));
    assert_eq!(items[0].is_active, Some(true));
    assert_eq!(items[1].name, "note only");
    assert_eq!(items[1].sort_order, Some(2));
    assert_eq!(items[1].is_active, Some(false));
    // Only the active item is counted in the budget.
    let rows = store.get_sessions_by_visit(1).unwrap();
    assert_eq!(rows[0].visit.budget, 80);
}

#[test]
fn cumulative_is_anchored_below_resaved_identity() {
    let mut store = LedgerStore::new();
    store
        .save_visit_with_sessions(
            sample_patient(),
            blank_visit(700_000),
            vec![
                draft(None, 700_000, 0, 0, vec![item("a", 100, 1)]),
                draft(None, 700_001, 0, 0, vec![item("b", 40, 1)]),
            ],
        )
        .unwrap();
    // Re-save the first session: its snapshot sums only the saved
    // sessions whose identity sorts before it, so it stays its own
    // balance.
    let mut same = sample_patient();
    same.id = Some(1);
    store
        .save_visit_with_sessions(
            same,
            blank_visit(700_000),
            vec![draft(Some(1), 700_000, 0, 70, vec![item("a", 100, 1)])],
        )
        .unwrap();
    let rows = store.get_sessions_by_visit(1).unwrap();
    assert_eq!(rows[0].visit.balance, 30);
    assert_eq!(rows[0].visit.cumulative_balance, 30);
}

#[test]
fn sessions_listing_is_latest_first() {
    let mut store = LedgerStore::new();
    store
        .save_visit_with_sessions(
            sample_patient(),
            blank_visit(700_000),
            vec![
                draft(None, 700_005, 0, 0, vec![item("a", 10, 1)]),
                draft(None, 700_001, 0, 0, vec![item("b", 20, 1)]),
                draft(None, 700_005, 0, 0, vec![item("c", 30, 1)]),
            ],
        )
        .unwrap();
    let visits = store.get_visits_by_patient(1).unwrap();
    assert_eq!(visits.len(), 3);
    // Dates descend; the identity breaks the tie, newest first.
    assert_eq!(visits[0].id, Some(3));
    assert_eq!(visits[1].id, Some(1));
    assert_eq!(visits[2].id, Some(2));
    let rows = store.get_sessions_by_patient(1).unwrap();
    assert_eq!(rows.len(), 3);
    assert_eq!(rows[0].visit.id, Some(3));
    assert_eq!(rows[0].items.len(), 1);
    assert_eq!(rows[0].items[0].name, "c");
}

#[test]
fn delete_visit_refuses_saved_sessions() {
    let mut store = LedgerStore::new();
    store
        .save_visit_with_sessions(
            sample_patient(),
            blank_visit(700_000),
            vec![draft(None, 700_000, 0, 0, vec![item("a", 10, 1)])],
        )
        .unwrap();
    let r = store.delete_visit(1);
    assert_eq!(r, Err("Cannot delete a saved session".to_string()));
    assert_eq!(store.sessions.len(), 1);
    // An unknown identity deletes nothing and is no error.
    assert!(store.delete_visit(42).is_ok());
    // An unsaved draft row, created outside the save path, goes away.
    let mut unsaved = blank_visit(700_001);
    unsaved.id = Some(7);
    unsaved.patient_id = Some(1);
    unsaved.is_saved = Some(false);
    store.sessions.push(unsaved);
    store.next_session_id = 8;
    assert!(store.delete_visit(7).is_ok());
    assert_eq!(store.sessions.len(), 1);
}

#[test]
fn update_patient_only_requires_identity() {
    let mut store = LedgerStore::new();
    let r = store.update_patient_only(sample_patient());
    assert_eq!(r, Err("Patient ID is required for update".to_string()));
    store.upsert_patient(sample_patient()).unwrap();
    let mut renamed = sample_patient();
    renamed.id = Some(1);
    renamed.full_name = "Ana M. Perez".to_string();
    assert!(store.update_patient_only(renamed).is_ok());
    let found = store.find_patient_by_id(1).unwrap();
    assert_eq!(found.full_name, "Ana M. Perez");
    assert_eq!(found.status, Some("active".to_string()));
}

#[test]
fn diagnostic_update_session_carries_no_money() {
    let mut store = LedgerStore::new();
    store.upsert_patient(sample_patient()).unwrap();
    let res = store
        .create_diagnostic_update_session_on(1, Some("{}".to_string()), None, None, 700_003)
        .unwrap();
    assert_eq!(res.session_id, 1);
    let rows = store.get_sessions_by_visit(1).unwrap();
    assert_eq!(rows[0].visit.budget, 0);
    assert_eq!(rows[0].visit.balance, 0);
    assert_eq!(rows[0].visit.cumulative_balance, 0);
    assert_eq!(rows[0].visit.is_saved, Some(true));
    assert_eq!(rows[0].visit.reason_type, Some("Otro".to_string()));
    assert_eq!(rows[0].visit.reason_detail, Some("Sistema: Odontograma".to_string()));
    assert_eq!(rows[0].visit.date, 700_003);
}

#[test]
fn repair_pass_fixes_only_rows_that_need_it() {
    let mut store = LedgerStore::new();
    store
        .save_visit_with_sessions(
            sample_patient(),
            blank_visit(700_000),
            vec![draft(None, 700_000, 0, 0, vec![item("a", 100, 1)])],
        )
        .unwrap();
    let mut second = sample_patient();
    second.full_name = "Luis Soto".to_string();
    second.doc_id = "V-5678".to_string();
    store
        .save_visit_with_sessions(
            second,
            blank_visit(700_002),
            vec![draft(None, 700_002, 0, 0, vec![item("b", 60, 1)])],
        )
        .unwrap();
    // Strip the first patient's opening date; the second keeps hers.
    store.patients[0].debt.opened_at = None;
    let fixed = store.repair_debt_opened_dates().unwrap();
    assert_eq!(fixed, 1);
    assert_eq!(store.patients[0].debt.opened_at, Some(700_000));
    assert_eq!(store.patients[1].debt.opened_at, Some(700_002));
}

#[test]
fn pending_payments_report_classifies_contact() {
    let mut store = LedgerStore::new();
    store
        .save_visit_with_sessions(
            sample_patient(),
            blank_visit(700_000),
            vec![draft(None, 700_000, 0, 0, vec![item("a", 100, 1)])],
        )
        .unwrap();
    store
        .mark_patient_contacted_at(1, "whatsapp".to_string(), 700_004)
        .unwrap();
    let report = store.pending_payments_summary_as_of(700_009).unwrap();
    assert_eq!(report.len(), 1);
    assert_eq!(report[0].patient_id, 1);
    assert_eq!(report[0].current_balance, 100);
    assert_eq!(report[0].days_overdue, 9);
    assert_eq!(report[0].contact_status, "recently_contacted");
    assert_eq!(report[0].last_contact_type, Some("whatsapp".to_string()));
    let later = store.pending_payments_summary_as_of(700_020).unwrap();
    assert_eq!(later[0].contact_status, "long_ago");
    // Settled or archived patients stay out of the report.
    store.archive_debt_at(1, 700_021).unwrap();
    assert_eq!(store.pending_payments_summary_as_of(700_022).unwrap().len(), 0);
}

#[test]
fn report_orders_by_urgency() {
    let mut store = LedgerStore::new();
    // An old small debt...
    store
        .save_visit_with_sessions(
            sample_patient(),
            blank_visit(700_000),
            vec![draft(None, 700_000, 0, 0, vec![item("a", 40, 1)])],
        )
        .unwrap();
    // ...and a fresher, larger one for another patient.
    let mut second = sample_patient();
    second.full_name = "Luis Soto".to_string();
    second.doc_id = "V-5678".to_string();
    store
        .save_visit_with_sessions(
            second,
            blank_visit(700_015),
            vec![draft(None, 700_015, 0, 0, vec![item("b", 500, 1)])],
        )
        .unwrap();
    let report = store.pending_payments_summary_as_of(700_020).unwrap();
    assert_eq!(report.len(), 2);
    // More days overdue comes first.
    assert_eq!(report[0].patient_id, 1);
    assert_eq!(report[0].days_overdue, 20);
    assert_eq!(report[1].patient_id, 2);
    assert_eq!(report[1].days_overdue, 5);
}

#[test]
fn unarchive_debt_restores_visibility() {
    let mut store = LedgerStore::new();
    store
        .save_visit_with_sessions(
            sample_patient(),
            blank_visit(700_000),
            vec![draft(None, 700_000, 0, 0, vec![item("a", 100, 1)])],
        )
        .unwrap();
    store.archive_debt_at(1, 700_001).unwrap();
    assert_eq!(store.pending_payments_summary_as_of(700_002).unwrap().len(), 0);
    store.unarchive_debt(1).unwrap();
    assert!(!store.patients[0].debt.archived);
    assert_eq!(store.patients[0].debt.archived_at, None);
    assert_eq!(store.patients[0].debt.opened_at, Some(700_000));
    assert_eq!(store.pending_payments_summary_as_of(700_002).unwrap().len(), 1);
}

#[test]
fn patient_listing_totals_saved_balances() {
    let mut store = LedgerStore::new();
    store
        .save_visit_with_sessions(
            sample_patient(),
            blank_visit(700_000),
            vec![
                draft(None, 700_000, 0, 0, vec![item("a", 100, 1)]),
                draft(None, 700_004, 0, 30, vec![item("b", 50, 1)]),
            ],
        )
        .unwrap();
    let list = store.get_all_patients_list().unwrap();
    assert_eq!(list.len(), 1);
    assert_eq!(list[0].id, 1);
    assert_eq!(list[0].pending_balance, 120);
    assert_eq!(list[0].last_visit_date, Some(700_004));
    // A second patient slots in by name.
    let mut earlier_name = sample_patient();
    earlier_name.full_name = "Alba Ruiz".to_string();
    earlier_name.doc_id = "V-2".to_string();
    store.upsert_patient(earlier_name).unwrap();
    let list = store.get_all_patients_list().unwrap();
    assert_eq!(list.len(), 2);
    assert_eq!(list[0].full_name, "Alba Ruiz");
    assert_eq!(list[1].full_name, "Ana Maria Perez");
}

#[test]
fn search_ignores_ascii_case() {
    let mut store = LedgerStore::new();
    store.upsert_patient(sample_patient()).unwrap();
    let mut other = sample_patient();
    other.full_name = "Luis Soto".to_string();
    other.doc_id = "E-9".to_string();
    store.upsert_patient(other).unwrap();
    let hits = store.search_patients("ANA").unwrap();
    assert_eq!(hits.len(), 1);
    assert_eq!(hits[0].full_name, "Ana Maria Perez");
    let by_doc = store.search_patients("v-12").unwrap();
    assert_eq!(by_doc.len(), 1);
    // Every patient matches the empty query, in name order.
    let all = store.search_patients("").unwrap();
    assert_eq!(all.len(), 2);
    assert_eq!(all[0].full_name, "Ana Maria Perez");
    assert_eq!(all[1].full_name, "Luis Soto");
    assert_eq!(store.search_patients("zzz").unwrap().len(), 0);
}

#[test]
fn snapshot_tracks_total_over_history() {
    let mut store = LedgerStore::new();
    store
        .save_visit_with_sessions(
            sample_patient(),
            blank_visit(700_000),
            vec![
                draft(None, 700_000, 0, 0, vec![item("a", 100, 1)]),
                draft(None, 700_003, 5, 10, vec![item("b", 60, 1)]),
                draft(None, 700_006, 0, 80, vec![item("c", 30, 1)]),
            ],
        )
        .unwrap();
    // Balances: 100, 45, -50; the latest snapshot carries the sum.
    let rows = store.get_sessions_by_patient(1).unwrap();
    assert_eq!(rows[0].visit.id, Some(3));
    assert_eq!(rows[0].visit.cumulative_balance, 95);
    assert_eq!(rows[1].visit.cumulative_balance, 145);
    assert_eq!(rows[2].visit.cumulative_balance, 100);
    // Re-saving the newest session keeps the rule: its snapshot is
    // again the sum over everything saved.
    let mut same = sample_patient();
    same.id = Some(1);
    store
        .save_visit_with_sessions(
            same,
            blank_visit(700_006),
            vec![draft(Some(3), 700_006, 0, 150, vec![item("c", 30, 1)])],
        )
        .unwrap();
    let rows = store.get_sessions_by_visit(3).unwrap();
    assert_eq!(rows[0].visit.balance, -120);
    assert_eq!(rows[0].visit.cumulative_balance, 25);
}

#[test]
fn search_caps_at_fifty_matches() {
    let mut store = LedgerStore::new();
    let mut i = 0;
    while i < 55 {
        let mut p = sample_patient();
        p.full_name = format!("Patient {}", i);
        p.doc_id = format!("D-{}", i);
        store.upsert_patient(p).unwrap();
        i += 1;
    }
    let hits = store.search_patients("patient").unwrap();
    assert_eq!(hits.len(), 50);
    // The fifty smallest names, in name order: "Patient 0",
    // "Patient 1", "Patient 10", ... — the cut falls at "Patient 53".
    assert_eq!(hits[0].full_name, "Patient 0");
    assert_eq!(hits[1].full_name, "Patient 1");
    assert_eq!(hits[2].full_name, "Patient 10");
    assert_eq!(hits[49].full_name, "Patient 53");
}

#[test]
fn flagged_active_item_counts_even_when_skipped() {
    // An entry flagged active with no quantity and a blank name is
    // counted in the recomputed budget yet never stored: the stored
    // item set and the budget are allowed to disagree on it.
    let mut store = LedgerStore::new();
    let mut odd = item("", 70, 0);
    odd.is_active = Some(true);
    store
        .save_visit_with_sessions(
            sample_patient(),
            blank_visit(700_000),
            vec![draft(None, 700_000, 0, 0, vec![item("kept", 30, 1), odd])],
        )
        .unwrap();
    let rows = store.get_sessions_by_visit(1).unwrap();
    assert_eq!(rows[0].visit.budget, 100);
    assert_eq!(rows[0].items.len(), 1);
    assert_eq!(rows[0].items[0].name, "kept");
}

#[test]
fn budget_mismatch_tolerates_one_cent() {
    assert!(!budget_mismatch(150, 150));
    assert!(!budget_mismatch(151, 150));
    assert!(!budget_mismatch(149, 150));
    assert!(budget_mismatch(152, 150));
    assert!(budget_mismatch(148, 150));
    assert!(budget_mismatch(i64::MIN, i64::MAX));
}

#[test]
fn blankness_means_whitespace_only() {
    assert!(is_blank(""));
    assert!(is_blank("   "));
    assert!(is_blank(" \t\r\n"));
    // The whole White_Space set counts, as `str::trim` strips it.
    assert!(is_blank("\u{000B}\u{000C}\u{0085}\u{00A0}\u{2003}\u{202F}\u{3000}"));
    assert!(!is_blank("a"));
    assert!(!is_blank("  a  "));
    assert!(!is_blank("\u{00A0}a\u{00A0}"));
}

#[test]
fn clock_backed_commands_stamp_days() {
    let mut store = LedgerStore::new();
    store
        .save_visit_with_sessions(
            sample_patient(),
            blank_visit(700_000),
            vec![draft(None, 700_000, 0, 0, vec![item("a", 100, 1)])],
        )
        .unwrap();
    store.mark_patient_contacted(1, "call".to_string()).unwrap();
    assert!(store.patients[0].last_contact_at.is_some());
    assert_eq!(store.patients[0].last_contact_type, Some("call".to_string()));
    let res = store.create_diagnostic_update_session(1, None, None, None).unwrap();
    assert_eq!(res.session_id, 2);
    // The diagnostic row carries the ledger total forward, so the
    // debtor stays on the report with the same balance.
    let report = store.get_pending_payments_summary().unwrap();
    assert_eq!(report.len(), 1);
    assert_eq!(report[0].current_balance, 100);
    // Archiving hides the debtor from the report.
    store.archive_debt(1).unwrap();
    assert!(store.patients[0].debt.archived);
    assert!(store.patients[0].debt.archived_at.is_some());
    assert_eq!(store.get_pending_payments_summary().unwrap().len(), 0);
}
