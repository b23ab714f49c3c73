//! Tests of the lookup tables, the profile and settings, and the
//! stand-alone payment and attachment records.

use clinic_ledger::catalog::{CatalogStore, DiagnosisOption, ProcedureTemplate};
use clinic_ledger::model::SessionItem;
use clinic_ledger::records::{AttachmentMeta, AttachmentStore, Payment, PaymentStore};
use clinic_ledger::settings::{DoctorProfile, SettingsStore};

fn option_row(id: Option<i64>, label: &str, color: &str) -> DiagnosisOption {
    DiagnosisOption {
        id,
        label: label.to_string(),
        color: color.to_string(),
        active: None,
        sort_order: None,
    }
}

fn template_row(id: Option<i64>, name: &str, price: i64) -> ProcedureTemplate {
    ProcedureTemplate { id, name: name.to_string(), default_price: price, active: None }
}

fn payment_row(patient_id: i64, date: i64, amount: i64) -> Payment {
    Payment { id: None, patient_id, date, amount, payment_method: None, notes: None }
}

#[test]
fn signers_soft_delete() {
    let mut cat = CatalogStore::new();
    let a = cat.create_signer("Dr. Lee".to_string()).unwrap();
    let b = cat.create_signer("Dr. Park".to_string()).unwrap();
    assert_eq!((a, b), (1, 2));
    assert_eq!(cat.get_signers().unwrap().len(), 2);
    cat.delete_signer(a).unwrap();
    let active = cat.get_signers().unwrap();
    assert_eq!(active.len(), 1);
    assert_eq!(active[0].name, "Dr. Park");
    // The row is kept, only hidden.
    assert_eq!(cat.signers.len(), 2);
}

#[test]
fn reason_types_and_payment_methods_start_active() {
    let mut cat = CatalogStore::new();
    assert_eq!(cat.create_reason_type("Control".to_string()).unwrap(), 1);
    assert_eq!(cat.create_payment_method("Cash".to_string()).unwrap(), 1);
    let reasons = cat.get_reason_types().unwrap();
    assert_eq!(reasons[0].active, Some(true));
    assert_eq!(reasons[0].sort_order, None);
    let methods = cat.get_payment_methods().unwrap();
    assert_eq!(methods[0].name, "Cash");
}

#[test]
fn diagnosis_options_upsert_by_label() {
    let mut cat = CatalogStore::new();
    cat.save_diagnosis_options(vec![option_row(None, "Caries", "red")]).unwrap();
    assert_eq!(cat.diagnosis_options.len(), 1);
    assert_eq!(cat.diagnosis_options[0].id, Some(1));
    // The same label again rewrites the row instead of adding one.
    cat.save_diagnosis_options(vec![option_row(None, "Caries", "blue")]).unwrap();
    assert_eq!(cat.diagnosis_options.len(), 1);
    assert_eq!(cat.diagnosis_options[0].id, Some(1));
    assert_eq!(cat.diagnosis_options[0].color, "blue");
    assert_eq!(cat.diagnosis_options[0].active, Some(true));
    assert_eq!(cat.diagnosis_options[0].sort_order, Some(0));
    // With an identity, the matching row is rewritten wholesale.
    let mut relabeled = option_row(Some(1), "Fractura", "green");
    relabeled.sort_order = Some(4);
    cat.save_diagnosis_options(vec![relabeled]).unwrap();
    assert_eq!(cat.diagnosis_options[0].label, "Fractura");
    assert_eq!(cat.diagnosis_options[0].sort_order, Some(4));
    // An unknown identity rewrites nothing.
    cat.save_diagnosis_options(vec![option_row(Some(9), "X", "x")]).unwrap();
    assert_eq!(cat.diagnosis_options.len(), 1);
    let active = cat.get_diagnosis_options().unwrap();
    assert_eq!(active.len(), 1);
}

#[test]
fn diagnosis_listing_orders_by_rank_then_label() {
    let mut cat = CatalogStore::new();
    let mut caries = option_row(None, "Caries", "red");
    caries.sort_order = Some(2);
    let mut absceso = option_row(None, "Absceso", "blue");
    absceso.sort_order = Some(1);
    let mut gingivitis = option_row(None, "Gingivitis", "green");
    gingivitis.sort_order = Some(1);
    cat.save_diagnosis_options(vec![caries, gingivitis, absceso]).unwrap();
    let listed = cat.get_diagnosis_options().unwrap();
    assert_eq!(listed.len(), 3);
    assert_eq!(listed[0].label, "Absceso");
    assert_eq!(listed[1].label, "Gingivitis");
    assert_eq!(listed[2].label, "Caries");
}

#[test]
fn payments_listing_is_latest_first() {
    let mut store = PaymentStore::new();
    store.create_payment(payment_row(1, 700_002, 10)).unwrap();
    store.create_payment(payment_row(1, 700_009, 20)).unwrap();
    store.create_payment(payment_row(1, 700_002, 30)).unwrap();
    let mine = store.get_payments_by_patient(1).unwrap();
    assert_eq!(mine.len(), 3);
    // Dates descend; the identity breaks the tie, newest first.
    assert_eq!(mine[0].amount, 20);
    assert_eq!(mine[1].amount, 30);
    assert_eq!(mine[2].amount, 10);
}

#[test]
fn template_save_deactivates_upserts_and_prunes() {
    let mut cat = CatalogStore::new();
    let no_items: Vec<SessionItem> = vec![];
    cat.save_procedure_templates(
        vec![template_row(None, "Cleaning", 500), template_row(None, "X-ray", 300)],
        &no_items,
    )
    .unwrap();
    assert_eq!(cat.procedure_templates.len(), 2);
    assert_eq!(cat.procedure_templates[0].id, Some(1));
    assert_eq!(cat.procedure_templates[1].id, Some(2));
    // Saving only one template drops the other: it was deactivated and
    // nothing refers to it.
    cat.save_procedure_templates(vec![template_row(None, "Cleaning", 550)], &no_items).unwrap();
    assert_eq!(cat.procedure_templates.len(), 1);
    assert_eq!(cat.procedure_templates[0].name, "Cleaning");
    assert_eq!(cat.procedure_templates[0].default_price, 550);
    assert_eq!(cat.procedure_templates[0].id, Some(1));
    let listed = cat.get_procedure_templates().unwrap();
    assert_eq!(listed.len(), 1);
}

#[test]
fn referenced_template_survives_pruning() {
    let mut cat = CatalogStore::new();
    let no_items: Vec<SessionItem> = vec![];
    cat.save_procedure_templates(
        vec![template_row(None, "Cleaning", 500), template_row(None, "X-ray", 300)],
        &no_items,
    )
    .unwrap();
    let items = vec![SessionItem {
        id: Some(1),
        session_id: Some(1),
        name: "X-ray".to_string(),
        unit_price: 300,
        quantity: 1,
        subtotal: 300,
        is_active: Some(true),
        tooth_number: None,
        procedure_notes: None,
        procedure_template_id: Some(2),
        sort_order: Some(0),
    }];
    cat.save_procedure_templates(vec![template_row(None, "Cleaning", 500)], &items).unwrap();
    // The referenced template stays, deactivated.
    assert_eq!(cat.procedure_templates.len(), 2);
    assert_eq!(cat.procedure_templates[1].id, Some(2));
    assert_eq!(cat.procedure_templates[1].active, Some(false));
    assert_eq!(cat.get_procedure_templates().unwrap().len(), 1);
}

#[test]
fn template_save_with_explicit_identity_inserts() {
    let mut cat = CatalogStore::new();
    let no_items: Vec<SessionItem> = vec![];
    cat.save_procedure_templates(vec![template_row(Some(10), "Implant", 9_000)], &no_items)
        .unwrap();
    assert_eq!(cat.procedure_templates[0].id, Some(10));
    // The counter moved past the supplied identity.
    cat.save_procedure_templates(
        vec![template_row(Some(10), "Implant", 9_500), template_row(None, "Crown", 2_000)],
        &no_items,
    )
    .unwrap();
    assert_eq!(cat.procedure_templates.len(), 2);
    assert_eq!(cat.procedure_templates[0].default_price, 9_500);
    assert_eq!(cat.procedure_templates[1].id, Some(11));
}

#[test]
fn profile_upsert_keeps_identity_fields() {
    let mut settings = SettingsStore::new();
    let fresh = DoctorProfile {
        id: None,
        doctor_id: "D-1".to_string(),
        name: "Dr. Lee".to_string(),
        email: None,
        clinic_name: Some("Smiles".to_string()),
        clinic_hours: None,
        clinic_slogan: None,
        phone: None,
        location: None,
        app_version: None,
        agreed_to_terms: None,
        last_sync: None,
    };
    assert_eq!(settings.upsert_doctor_profile(fresh).unwrap(), 1);
    let stored = settings.get_doctor_profile().unwrap().unwrap();
    assert_eq!(stored.id, Some(1));
    assert_eq!(stored.app_version, Some("1.0.0".to_string()));
    assert_eq!(stored.agreed_to_terms, Some(false));
    let update = DoctorProfile {
        id: None,
        doctor_id: "D-2".to_string(),
        name: "Dr. Lee Jr.".to_string(),
        email: Some("lee@example.test".to_string()),
        clinic_name: None,
        clinic_hours: None,
        clinic_slogan: None,
        phone: None,
        location: None,
        app_version: Some("9.9".to_string()),
        agreed_to_terms: Some(true),
        last_sync: None,
    };
    assert_eq!(settings.upsert_doctor_profile(update).unwrap(), 1);
    let stored = settings.get_doctor_profile().unwrap().unwrap();
    // The doctor code and version stay what was first stored.
    assert_eq!(stored.doctor_id, "D-1");
    assert_eq!(stored.app_version, Some("1.0.0".to_string()));
    assert_eq!(stored.name, "Dr. Lee Jr.");
    assert_eq!(stored.agreed_to_terms, Some(true));
}

#[test]
fn settings_upsert_by_key_and_reset() {
    let mut settings = SettingsStore::new();
    settings
        .save_setting("theme".to_string(), "light".to_string(), "appearance".to_string())
        .unwrap();
    settings
        .save_setting("theme".to_string(), "dark".to_string(), "appearance".to_string())
        .unwrap();
    let all = settings.get_all_settings().unwrap();
    assert_eq!(all.len(), 1);
    assert_eq!(all[0].value, Some("dark".to_string()));
    settings.reset_all_settings().unwrap();
    let all = settings.get_all_settings().unwrap();
    assert_eq!(all.len(), 5);
    assert_eq!(all[0].key, "theme");
    assert_eq!(all[0].value, Some("dark".to_string()));
    assert_eq!(all[1].key, "brandHsl");
    assert_eq!(all[1].value, Some("172 49% 56%".to_string()));
    assert_eq!(all[2].key, "font");
    assert_eq!(all[3].key, "size");
    assert_eq!(all[4].key, "layoutMode");
    assert_eq!(all[4].value, Some("vertical".to_string()));
}

#[test]
fn payments_crud_round_trip() {
    let mut store = PaymentStore::new();
    let a = store.create_payment(payment_row(1, 700_000, 2_500)).unwrap();
    let b = store.create_payment(payment_row(2, 700_001, 900)).unwrap();
    assert_eq!((a, b), (1, 2));
    let mine = store.get_payments_by_patient(1).unwrap();
    assert_eq!(mine.len(), 1);
    assert_eq!(mine[0].amount, 2_500);
    let no_id = store.update_payment(payment_row(1, 700_002, 3_000));
    assert_eq!(no_id, Err("Payment ID is required for update".to_string()));
    let mut edit = payment_row(7, 700_002, 3_000);
    edit.id = Some(a);
    store.update_payment(edit).unwrap();
    let mine = store.get_payments_by_patient(1).unwrap();
    // The owning patient never changes on update.
    assert_eq!(mine.len(), 1);
    assert_eq!(mine[0].amount, 3_000);
    assert_eq!(mine[0].date, 700_002);
    store.delete_payment(a).unwrap();
    assert_eq!(store.get_payments_by_patient(1).unwrap().len(), 0);
    assert_eq!(store.get_payments_by_patient(2).unwrap().len(), 1);
}

#[test]
fn attachments_batch_and_delete() {
    let mut store = AttachmentStore::new();
    let first = store
        .create_attachment_on(
            1,
            Some(4),
            "scan.png".to_string(),
            "image/png".to_string(),
            2_048,
            "blob-1".to_string(),
            700_000,
        )
        .unwrap();
    assert_eq!(first, 1);
    let batch = vec![
        AttachmentMeta {
            filename: "a.pdf".to_string(),
            mime_type: "application/pdf".to_string(),
            bytes: 10,
            storage_key: "blob-2".to_string(),
        },
        AttachmentMeta {
            filename: "b.pdf".to_string(),
            mime_type: "application/pdf".to_string(),
            bytes: 20,
            storage_key: "blob-3".to_string(),
        },
    ];
    let ids = store.save_attachments_without_session_on(1, batch, 700_001).unwrap();
    assert_eq!(ids, vec![2, 3]);
    let mine = store.get_attachments_by_patient(1).unwrap();
    assert_eq!(mine.len(), 3);
    // Newest creation day first: the batch rows precede the scan; the
    // two batch rows share a day, so their mutual order is free.
    assert_eq!(mine[2].filename, "scan.png");
    assert_eq!(mine[2].session_id, Some(4));
    assert!(mine[0].filename.ends_with(".pdf"));
    assert!(mine[1].filename.ends_with(".pdf"));
    assert_ne!(mine[0].filename, mine[1].filename);
    assert_eq!(mine[0].kind, "file");
    assert_eq!(mine[0].session_id, None);
    store.delete_attachment(2).unwrap();
    assert_eq!(store.get_attachments_by_patient(1).unwrap().len(), 2);
}
