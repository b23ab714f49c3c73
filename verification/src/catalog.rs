//! Lookup tables: signers, reason types, payment methods, diagnosis
//! options and procedure templates.
//!
//! These tables feed pick-lists.  Rows are soft-deleted by clearing
//! their `active` flag; listings return the active rows — diagnosis
//! options ordered by rank, then label, the rest in table order.
//! Identities are handed out by per-table counters, except where a
//! caller supplies one, which moves the counter past it.

use vstd::prelude::*;
use crate::model::SessionItem;

verus! {

/// A person who signs clinical records.
#[derive(Debug, PartialEq)]
pub struct Signer {
    pub id: Option<i64>,
    pub name: String,
    pub active: Option<bool>,
}

impl Clone for Signer {
    fn clone(&self) -> (r: Self)
        ensures
            r == *self,
    {
        Signer { id: self.id, name: self.name.clone(), active: self.active }
    }
}

/// A visit-reason kind offered by the intake form.
#[derive(Debug, PartialEq)]
pub struct ReasonType {
    pub id: Option<i64>,
    pub name: String,
    pub active: Option<bool>,
    pub sort_order: Option<i64>,
}

impl Clone for ReasonType {
    fn clone(&self) -> (r: Self)
        ensures
            r == *self,
    {
        ReasonType {
            id: self.id,
            name: self.name.clone(),
            active: self.active,
            sort_order: self.sort_order,
        }
    }
}

/// A payment method offered by the billing form.
#[derive(Debug, PartialEq)]
pub struct PaymentMethod {
    pub id: Option<i64>,
    pub name: String,
    pub active: Option<bool>,
    pub sort_order: Option<i64>,
}

impl Clone for PaymentMethod {
    fn clone(&self) -> (r: Self)
        ensures
            r == *self,
    {
        PaymentMethod {
            id: self.id,
            name: self.name.clone(),
            active: self.active,
            sort_order: self.sort_order,
        }
    }
}

/// A diagnosis label with its display colour.
#[derive(Debug, PartialEq)]
pub struct DiagnosisOption {
    pub id: Option<i64>,
    pub label: String,
    pub color: String,
    pub active: Option<bool>,
    pub sort_order: Option<i64>,
}

impl Clone for DiagnosisOption {
    fn clone(&self) -> (r: Self)
        ensures
            r == *self,
    {
        DiagnosisOption {
            id: self.id,
            label: self.label.clone(),
            color: self.color.clone(),
            active: self.active,
            sort_order: self.sort_order,
        }
    }
}

/// A billable procedure template with its default price, in cents.
#[derive(Debug, PartialEq)]
pub struct ProcedureTemplate {
    pub id: Option<i64>,
    pub name: String,
    pub default_price: i64,
    pub active: Option<bool>,
}

impl Clone for ProcedureTemplate {
    fn clone(&self) -> (r: Self)
        ensures
            r == *self,
    {
        ProcedureTemplate {
            id: self.id,
            name: self.name.clone(),
            default_price: self.default_price,
            active: self.active,
        }
    }
}

/// The lookup-table store.
pub struct CatalogStore {
    pub signers: Vec<Signer>,
    pub reason_types: Vec<ReasonType>,
    pub payment_methods: Vec<PaymentMethod>,
    pub diagnosis_options: Vec<DiagnosisOption>,
    pub procedure_templates: Vec<ProcedureTemplate>,
    pub next_signer_id: i64,
    pub next_reason_type_id: i64,
    pub next_payment_method_id: i64,
    pub next_diagnosis_option_id: i64,
    pub next_template_id: i64,
}

impl CatalogStore {
    /// Well-formedness: every row carries an identity below its
    /// table's counter, and identities are unique per table.
    pub open spec fn wf(self) -> bool {
        &&& forall|i: int|
            0 <= i < self.signers@.len() ==> (#[trigger] self.signers@[i]).id is Some
                && self.signers@[i].id->0 < self.next_signer_id
        &&& forall|i: int, j: int|
            0 <= i < j < self.signers@.len() ==> (#[trigger] self.signers@[i]).id != (
            #[trigger] self.signers@[j]).id
        &&& forall|i: int|
            0 <= i < self.reason_types@.len() ==> (#[trigger] self.reason_types@[i]).id is Some
                && self.reason_types@[i].id->0 < self.next_reason_type_id
        &&& forall|i: int, j: int|
            0 <= i < j < self.reason_types@.len() ==> (#[trigger] self.reason_types@[i]).id != (
            #[trigger] self.reason_types@[j]).id
        &&& forall|i: int|
            0 <= i < self.payment_methods@.len() ==> (
            #[trigger] self.payment_methods@[i]).id is Some && self.payment_methods@[i].id->0
                < self.next_payment_method_id
        &&& forall|i: int, j: int|
            0 <= i < j < self.payment_methods@.len() ==> (
            #[trigger] self.payment_methods@[i]).id != (#[trigger] self.payment_methods@[j]).id
        &&& forall|i: int|
            0 <= i < self.diagnosis_options@.len() ==> (
            #[trigger] self.diagnosis_options@[i]).id is Some
                && self.diagnosis_options@[i].id->0 < self.next_diagnosis_option_id
        &&& forall|i: int, j: int|
            0 <= i < j < self.diagnosis_options@.len() ==> (
            #[trigger] self.diagnosis_options@[i]).id != (
            #[trigger] self.diagnosis_options@[j]).id
        &&& forall|i: int|
            0 <= i < self.procedure_templates@.len() ==> (
            #[trigger] self.procedure_templates@[i]).id is Some
                && self.procedure_templates@[i].id->0 < self.next_template_id
        &&& forall|i: int, j: int|
            0 <= i < j < self.procedure_templates@.len() ==> (
            #[trigger] self.procedure_templates@[i]).id != (
            #[trigger] self.procedure_templates@[j]).id
    }

    /// An empty catalog.
    pub fn new() -> (s: CatalogStore)
        ensures
            s.wf(),
            s.signers@.len() == 0,
            s.reason_types@.len() == 0,
            s.payment_methods@.len() == 0,
            s.diagnosis_options@.len() == 0,
            s.procedure_templates@.len() == 0,
    {
        CatalogStore {
            signers: Vec::new(),
            reason_types: Vec::new(),
            payment_methods: Vec::new(),
            diagnosis_options: Vec::new(),
            procedure_templates: Vec::new(),
            next_signer_id: 1,
            next_reason_type_id: 1,
            next_payment_method_id: 1,
            next_diagnosis_option_id: 1,
            next_template_id: 1,
        }
    }
}

/// The active signers, in table order.
pub open spec fn active_signers(t: Seq<Signer>) -> Seq<Signer>
    decreases t.len(),
{
    if t.len() == 0 {
        t
    } else {
        let pre = active_signers(t.drop_last());
        if t.last().active == Some(true) {
            pre.push(t.last())
        } else {
            pre
        }
    }
}

/// The active reason types, in table order.
pub open spec fn active_reason_types(t: Seq<ReasonType>) -> Seq<ReasonType>
    decreases t.len(),
{
    if t.len() == 0 {
        t
    } else {
        let pre = active_reason_types(t.drop_last());
        if t.last().active == Some(true) {
            pre.push(t.last())
        } else {
            pre
        }
    }
}

/// The active payment methods, in table order.
pub open spec fn active_payment_methods(t: Seq<PaymentMethod>) -> Seq<PaymentMethod>
    decreases t.len(),
{
    if t.len() == 0 {
        t
    } else {
        let pre = active_payment_methods(t.drop_last());
        if t.last().active == Some(true) {
            pre.push(t.last())
        } else {
            pre
        }
    }
}

/// The active diagnosis options, in table order.
pub open spec fn active_diagnosis_options(t: Seq<DiagnosisOption>) -> Seq<DiagnosisOption>
    decreases t.len(),
{
    if t.len() == 0 {
        t
    } else {
        let pre = active_diagnosis_options(t.drop_last());
        if t.last().active == Some(true) {
            pre.push(t.last())
        } else {
            pre
        }
    }
}

/// The active procedure templates, in table order.
pub open spec fn active_templates(t: Seq<ProcedureTemplate>) -> Seq<ProcedureTemplate>
    decreases t.len(),
{
    if t.len() == 0 {
        t
    } else {
        let pre = active_templates(t.drop_last());
        if t.last().active == Some(true) {
            pre.push(t.last())
        } else {
            pre
        }
    }
}

impl CatalogStore {
    /// Lists the active signers.
    pub fn get_signers(&self) -> (r: Result<Vec<Signer>, String>)
        ensures
            r is Ok,
            r->Ok_0@ == active_signers(self.signers@),
    {
        let mut out: Vec<Signer> = Vec::new();
        let mut i: usize = 0;
        while i < self.signers.len()
            invariant
                i <= self.signers@.len(),
                out@ == active_signers(self.signers@.take(i as int)),
            decreases self.signers@.len() - i,
        {
            proof {
                assert(self.signers@.take(i + 1).drop_last() =~= self.signers@.take(i as int));
                assert(self.signers@.take(i + 1).last() == self.signers@[i as int]);
            }
            if match self.signers[i].active {
                Some(b) => b,
                None => false,
            } {
                out.push(self.signers[i].clone());
            }
            i = i + 1;
        }
        proof {
            assert(self.signers@.take(self.signers@.len() as int) =~= self.signers@);
        }
        Ok(out)
    }

    /// Creates an active signer; returns its identity.
    pub fn create_signer(&mut self, name: String) -> (r: Result<i64, String>)
        requires
            old(self).wf(),
            old(self).next_signer_id < i64::MAX,
        ensures
            final(self).wf(),
            r is Ok,
            r->Ok_0 == old(self).next_signer_id,
            final(self).signers@ == old(self).signers@.push(
                Signer { id: Some(old(self).next_signer_id), name, active: Some(true) },
            ),
            final(self).next_signer_id == old(self).next_signer_id + 1,
            final(self).reason_types@ == old(self).reason_types@,
            final(self).payment_methods@ == old(self).payment_methods@,
            final(self).diagnosis_options@ == old(self).diagnosis_options@,
            final(self).procedure_templates@ == old(self).procedure_templates@,
    {
        let id = self.next_signer_id;
        self.signers.push(Signer { id: Some(id), name, active: Some(true) });
        self.next_signer_id = id + 1;
        proof {
            assert forall|i: int, j: int|
                0 <= i < j < self.signers@.len() implies (#[trigger] self.signers@[i]).id != (
            #[trigger] self.signers@[j]).id by {
                if j < old(self).signers@.len() {
                    assert(self.signers@[i] == old(self).signers@[i]);
                }
            }
        }
        Ok(id)
    }

    /// Soft-deletes a signer: clears its active flag.
    pub fn delete_signer(&mut self, id: i64) -> (r: Result<(), String>)
        requires
            old(self).wf(),
        ensures
            final(self).wf(),
            r is Ok,
            final(self).next_signer_id == old(self).next_signer_id,
            final(self).next_reason_type_id == old(self).next_reason_type_id,
            final(self).next_payment_method_id == old(self).next_payment_method_id,
            final(self).next_diagnosis_option_id == old(self).next_diagnosis_option_id,
            final(self).next_template_id == old(self).next_template_id,
            final(self).reason_types@ == old(self).reason_types@,
            final(self).payment_methods@ == old(self).payment_methods@,
            final(self).diagnosis_options@ == old(self).diagnosis_options@,
            final(self).procedure_templates@ == old(self).procedure_templates@,
            final(self).signers@.len() == old(self).signers@.len(),
            forall|i: int|
                0 <= i < old(self).signers@.len() ==> final(self).signers@[i] == (
                if (#[trigger] old(self).signers@[i]).id == Some(id) {
                    Signer {
                        id: old(self).signers@[i].id,
                        name: old(self).signers@[i].name,
                        active: Some(false),
                    }
                } else {
                    old(self).signers@[i]
                }),
    {
        let mut i: usize = 0;
        while i < self.signers.len()
            invariant
                old(self).wf(),
                i <= self.signers@.len(),
                self.signers@.len() == old(self).signers@.len(),
                self.next_signer_id == old(self).next_signer_id,
                self.next_reason_type_id == old(self).next_reason_type_id,
                self.next_payment_method_id == old(self).next_payment_method_id,
                self.next_diagnosis_option_id == old(self).next_diagnosis_option_id,
                self.next_template_id == old(self).next_template_id,
                self.reason_types@ == old(self).reason_types@,
                self.payment_methods@ == old(self).payment_methods@,
                self.diagnosis_options@ == old(self).diagnosis_options@,
                self.procedure_templates@ == old(self).procedure_templates@,
                forall|m: int|
                    0 <= m < old(self).signers@.len() ==> self.signers@[m] == (
                    if m < i && (#[trigger] old(self).signers@[m]).id == Some(id) {
                        Signer {
                            id: old(self).signers@[m].id,
                            name: old(self).signers@[m].name,
                            active: Some(false),
                        }
                    } else {
                        old(self).signers@[m]
                    }),
            decreases self.signers@.len() - i,
        {
            let matched = match self.signers[i].id {
                Some(s) => s == id,
                None => false,
            };
            if matched {
                let row = self.signers[i].clone();
                self.signers.set(
                    i,
                    Signer { id: row.id, name: row.name, active: Some(false) },
                );
            }
            i = i + 1;
        }
        proof {
            assert forall|i: int|
                0 <= i < self.signers@.len() implies (#[trigger] self.signers@[i]).id is Some
                && self.signers@[i].id->0 < self.next_signer_id by {
                assert(self.signers@[i].id == old(self).signers@[i].id);
                assert(old(self).signers@[i].id is Some);
            }
            assert forall|i: int, j: int|
                0 <= i < j < self.signers@.len() implies (#[trigger] self.signers@[i]).id != (
            #[trigger] self.signers@[j]).id by {
                assert(self.signers@[i].id == old(self).signers@[i].id);
                assert(self.signers@[j].id == old(self).signers@[j].id);
                assert(old(self).signers@[i].id != old(self).signers@[j].id);
            }
        }
        Ok(())
    }

    /// Lists the active reason types.
    pub fn get_reason_types(&self) -> (r: Result<Vec<ReasonType>, String>)
        ensures
            r is Ok,
            r->Ok_0@ == active_reason_types(self.reason_types@),
    {
        let mut out: Vec<ReasonType> = Vec::new();
        let mut i: usize = 0;
        while i < self.reason_types.len()
            invariant
                i <= self.reason_types@.len(),
                out@ == active_reason_types(self.reason_types@.take(i as int)),
            decreases self.reason_types@.len() - i,
        {
            proof {
                assert(self.reason_types@.take(i + 1).drop_last() =~= self.reason_types@.take(
                    i as int,
                ));
                assert(self.reason_types@.take(i + 1).last() == self.reason_types@[i as int]);
            }
            if match self.reason_types[i].active {
                Some(b) => b,
                None => false,
            } {
                out.push(self.reason_types[i].clone());
            }
            i = i + 1;
        }
        proof {
            assert(self.reason_types@.take(self.reason_types@.len() as int)
                =~= self.reason_types@);
        }
        Ok(out)
    }

    /// Creates an active reason type; returns its identity.
    pub fn create_reason_type(&mut self, name: String) -> (r: Result<i64, String>)
        requires
            old(self).wf(),
            old(self).next_reason_type_id < i64::MAX,
        ensures
            final(self).wf(),
            r is Ok,
            r->Ok_0 == old(self).next_reason_type_id,
            final(self).reason_types@ == old(self).reason_types@.push(
                ReasonType {
                    id: Some(old(self).next_reason_type_id),
                    name,
                    active: Some(true),
                    sort_order: None,
                },
            ),
            final(self).next_reason_type_id == old(self).next_reason_type_id + 1,
            final(self).signers@ == old(self).signers@,
            final(self).payment_methods@ == old(self).payment_methods@,
            final(self).diagnosis_options@ == old(self).diagnosis_options@,
            final(self).procedure_templates@ == old(self).procedure_templates@,
    {
        let id = self.next_reason_type_id;
        self.reason_types.push(
            ReasonType { id: Some(id), name, active: Some(true), sort_order: None },
        );
        self.next_reason_type_id = id + 1;
        proof {
            assert forall|i: int, j: int|
                0 <= i < j < self.reason_types@.len() implies (
            #[trigger] self.reason_types@[i]).id != (#[trigger] self.reason_types@[j]).id by {
                if j < old(self).reason_types@.len() {
                    assert(self.reason_types@[i] == old(self).reason_types@[i]);
                }
            }
        }
        Ok(id)
    }

    /// Lists the active payment methods.
    pub fn get_payment_methods(&self) -> (r: Result<Vec<PaymentMethod>, String>)
        ensures
            r is Ok,
            r->Ok_0@ == active_payment_methods(self.payment_methods@),
    {
        let mut out: Vec<PaymentMethod> = Vec::new();
        let mut i: usize = 0;
        while i < self.payment_methods.len()
            invariant
                i <= self.payment_methods@.len(),
                out@ == active_payment_methods(self.payment_methods@.take(i as int)),
            decreases self.payment_methods@.len() - i,
        {
            proof {
                assert(self.payment_methods@.take(i + 1).drop_last()
                    =~= self.payment_methods@.take(i as int));
                assert(self.payment_methods@.take(i + 1).last()
                    == self.payment_methods@[i as int]);
            }
            if match self.payment_methods[i].active {
                Some(b) => b,
                None => false,
            } {
                out.push(self.payment_methods[i].clone());
            }
            i = i + 1;
        }
        proof {
            assert(self.payment_methods@.take(self.payment_methods@.len() as int)
                =~= self.payment_methods@);
        }
        Ok(out)
    }

    /// Creates an active payment method; returns its identity.
    pub fn create_payment_method(&mut self, name: String) -> (r: Result<i64, String>)
        requires
            old(self).wf(),
            old(self).next_payment_method_id < i64::MAX,
        ensures
            final(self).wf(),
            r is Ok,
            r->Ok_0 == old(self).next_payment_method_id,
            final(self).payment_methods@ == old(self).payment_methods@.push(
                PaymentMethod {
                    id: Some(old(self).next_payment_method_id),
                    name,
                    active: Some(true),
                    sort_order: None,
                },
            ),
            final(self).next_payment_method_id == old(self).next_payment_method_id + 1,
            final(self).signers@ == old(self).signers@,
            final(self).reason_types@ == old(self).reason_types@,
            final(self).diagnosis_options@ == old(self).diagnosis_options@,
            final(self).procedure_templates@ == old(self).procedure_templates@,
    {
        let id = self.next_payment_method_id;
        self.payment_methods.push(
            PaymentMethod { id: Some(id), name, active: Some(true), sort_order: None },
        );
        self.next_payment_method_id = id + 1;
        proof {
            assert forall|i: int, j: int|
                0 <= i < j < self.payment_methods@.len() implies (
            #[trigger] self.payment_methods@[i]).id != (
            #[trigger] self.payment_methods@[j]).id by {
                if j < old(self).payment_methods@.len() {
                    assert(self.payment_methods@[i] == old(self).payment_methods@[i]);
                }
            }
        }
        Ok(id)
    }

    /// Lists the active diagnosis options, ordered by rank, then
    /// label.
    pub fn get_diagnosis_options(&self) -> (r: Result<Vec<DiagnosisOption>, String>)
        ensures
            r is Ok,
            r->Ok_0@.to_multiset() == active_diagnosis_options(
                self.diagnosis_options@,
            ).to_multiset(),
            options_sorted(r->Ok_0@),
    {
        let mut out: Vec<DiagnosisOption> = Vec::new();
        let mut i: usize = 0;
        while i < self.diagnosis_options.len()
            invariant
                i <= self.diagnosis_options@.len(),
                out@ == active_diagnosis_options(self.diagnosis_options@.take(i as int)),
            decreases self.diagnosis_options@.len() - i,
        {
            proof {
                assert(self.diagnosis_options@.take(i + 1).drop_last()
                    =~= self.diagnosis_options@.take(i as int));
                assert(self.diagnosis_options@.take(i + 1).last()
                    == self.diagnosis_options@[i as int]);
            }
            if match self.diagnosis_options[i].active {
                Some(b) => b,
                None => false,
            } {
                out.push(self.diagnosis_options[i].clone());
            }
            i = i + 1;
        }
        proof {
            assert(self.diagnosis_options@.take(self.diagnosis_options@.len() as int)
                =~= self.diagnosis_options@);
        }
        Ok(sort_options(out))
    }

    /// Lists the active procedure templates.
    pub fn get_procedure_templates(&self) -> (r: Result<Vec<ProcedureTemplate>, String>)
        ensures
            r is Ok,
            r->Ok_0@ == active_templates(self.procedure_templates@),
    {
        let mut out: Vec<ProcedureTemplate> = Vec::new();
        let mut i: usize = 0;
        while i < self.procedure_templates.len()
            invariant
                i <= self.procedure_templates@.len(),
                out@ == active_templates(self.procedure_templates@.take(i as int)),
            decreases self.procedure_templates@.len() - i,
        {
            proof {
                assert(self.procedure_templates@.take(i + 1).drop_last()
                    =~= self.procedure_templates@.take(i as int));
                assert(self.procedure_templates@.take(i + 1).last()
                    == self.procedure_templates@[i as int]);
            }
            if match self.procedure_templates[i].active {
                Some(b) => b,
                None => false,
            } {
                out.push(self.procedure_templates[i].clone());
            }
            i = i + 1;
        }
        proof {
            assert(self.procedure_templates@.take(self.procedure_templates@.len() as int)
                =~= self.procedure_templates@);
        }
        Ok(out)
    }
}

/// The rank a diagnosis option sorts by; an absent rank sorts first,
/// as an ascending scan over a null column would.
pub open spec fn option_rank(o: DiagnosisOption) -> int {
    match o.sort_order {
        Some(v) => v as int,
        None => i64::MIN as int - 1,
    }
}

/// Whether `a` comes no later than `b` in the options listing: by
/// rank, then label.
pub open spec fn option_le(a: DiagnosisOption, b: DiagnosisOption) -> bool {
    option_rank(a) < option_rank(b) || (option_rank(a) == option_rank(b)
        && crate::text::text_le(a.label@, b.label@))
}

/// An options listing in ascending rank-then-label order.
pub open spec fn options_sorted(s: Seq<DiagnosisOption>) -> bool {
    forall|i: int, j: int| 0 <= i < j < s.len() ==> option_le(#[trigger] s[i], #[trigger] s[j])
}

proof fn lemma_option_le_refl(a: DiagnosisOption)
    ensures
        option_le(a, a),
{
    crate::text::lemma_text_le_refl(a.label@);
}

proof fn lemma_option_le_total(a: DiagnosisOption, b: DiagnosisOption)
    ensures
        option_le(a, b) || option_le(b, a),
{
    if option_rank(a) == option_rank(b) {
        crate::text::lemma_text_le_total(a.label@, b.label@);
    }
}

proof fn lemma_option_le_trans(a: DiagnosisOption, b: DiagnosisOption, c: DiagnosisOption)
    requires
        option_le(a, b),
        option_le(b, c),
    ensures
        option_le(a, c),
{
    if option_rank(a) == option_rank(b) && option_rank(b) == option_rank(c) {
        crate::text::lemma_text_le_trans(a.label@, b.label@, c.label@);
    }
}

/// Sorts diagnosis options into listing order: rank, then label, both
/// ascending.
fn sort_options(v: Vec<DiagnosisOption>) -> (r: Vec<DiagnosisOption>)
    ensures
        r@.to_multiset() == v@.to_multiset(),
        options_sorted(r@),
{
    let mut rest = v;
    let mut out: Vec<DiagnosisOption> = Vec::new();
    proof {
        broadcast use vstd::multiset::group_multiset_axioms;
        broadcast use vstd::seq_lib::group_to_multiset_ensures;

        assert(out@.to_multiset().len() == 0);
        assert(out@.to_multiset().add(rest@.to_multiset()) =~= v@.to_multiset());
    }
    while rest.len() > 0
        invariant
            out@.to_multiset().add(rest@.to_multiset()) == v@.to_multiset(),
            options_sorted(out@),
            forall|q: int, w: int|
                0 <= q < out@.len() && 0 <= w < rest@.len() ==> option_le(
                    #[trigger] out@[q],
                    #[trigger] rest@[w],
                ),
        decreases rest.len(),
    {
        let mut m: usize = 0;
        let mut t: usize = 1;
        proof {
            lemma_option_le_refl(rest@[0]);
        }
        while t < rest.len()
            invariant
                m < t <= rest@.len(),
                rest@.len() > 0,
                forall|w: int| 0 <= w < t ==> option_le(rest@[m as int], #[trigger] rest@[w]),
            decreases rest.len() - t,
        {
            let ghost m_old = m as int;
            let rm: i128 = match rest[m].sort_order {
                Some(v) => v as i128,
                None => i64::MIN as i128 - 1,
            };
            let rt: i128 = match rest[t].sort_order {
                Some(v) => v as i128,
                None => i64::MIN as i128 - 1,
            };
            let keeps = rm < rt || (rm == rt && crate::text::str_le(
                rest[m].label.as_str(),
                rest[t].label.as_str(),
            ));
            if !keeps {
                proof {
                    lemma_option_le_total(rest@[m_old], rest@[t as int]);
                    assert forall|w: int|
                        0 <= w < t implies option_le(rest@[t as int], #[trigger] rest@[w]) by {
                        lemma_option_le_trans(rest@[t as int], rest@[m_old], rest@[w]);
                    }
                }
                m = t;
            }
            proof {
                lemma_option_le_refl(rest@[t as int]);
            }
            t = t + 1;
        }
        let ghost rest_old = rest@;
        let ghost out_old = out@;
        let x = rest.remove(m);
        out.push(x);
        proof {
            broadcast use vstd::seq_lib::group_to_multiset_ensures;
            broadcast use vstd::multiset::group_multiset_axioms;

            assert(rest@.to_multiset() =~= rest_old.to_multiset().remove(x));
            assert(out@.to_multiset() =~= out_old.to_multiset().insert(x));
            assert(rest_old.to_multiset().contains(x));
            assert(out@.to_multiset().add(rest@.to_multiset()) =~= out_old.to_multiset().add(
                rest_old.to_multiset(),
            ));
            assert forall|i: int, j: int|
                0 <= i < j < out@.len() implies option_le(out@[i], out@[j]) by {
                if j < out@.len() - 1 {
                    assert(option_le(out_old[i], out_old[j]));
                }
            }
            assert(options_sorted(out@));
            assert forall|q: int, w: int|
                0 <= q < out@.len() && 0 <= w < rest@.len() implies option_le(
                #[trigger] out@[q],
                #[trigger] rest@[w],
            ) by {
                let w0: int = if w < m {
                    w
                } else {
                    w + 1
                };
                assert(rest@[w] == rest_old[w0]);
                if q < out@.len() - 1 {
                    assert(option_le(out_old[q], rest_old[w0]));
                } else {
                    assert(option_le(rest_old[m as int], rest_old[w0]));
                }
            }
        }
    }
    proof {
        broadcast use vstd::multiset::group_multiset_axioms;
        broadcast use vstd::seq_lib::group_to_multiset_ensures;

        assert(rest@.to_multiset().len() == 0);
        assert(out@.to_multiset() =~= v@.to_multiset());
    }
    out
}

/// The first index holding the diagnosis option with the given
/// identity.
pub open spec fn find_option(t: Seq<DiagnosisOption>, id: i64) -> Option<int>
    decreases t.len(),
{
    if t.len() == 0 {
        None
    } else if t.first().id == Some(id) {
        Some(0)
    } else {
        match find_option(t.drop_first(), id) {
            Some(j) => Some(j + 1),
            None => None,
        }
    }
}

proof fn lemma_find_option_at(t: Seq<DiagnosisOption>, id: i64, i: int)
    requires
        0 <= i < t.len(),
        t[i].id == Some(id),
        forall|j: int| 0 <= j < i ==> (#[trigger] t[j]).id != Some(id),
    ensures
        find_option(t, id) == Some(i),
    decreases t.len(),
{
    if i > 0 {
        assert(t.drop_first()[i - 1] == t[i]);
        assert(forall|j: int| 0 <= j < i - 1 ==> (#[trigger] t.drop_first()[j]) == t[j + 1]);
        lemma_find_option_at(t.drop_first(), id, i - 1);
    }
}

proof fn lemma_find_option_none(t: Seq<DiagnosisOption>, id: i64)
    requires
        forall|j: int| 0 <= j < t.len() ==> (#[trigger] t[j]).id != Some(id),
    ensures
        find_option(t, id) is None,
    decreases t.len(),
{
    if t.len() > 0 {
        assert(forall|j: int|
            0 <= j < t.len() - 1 ==> (#[trigger] t.drop_first()[j]) == t[j + 1]);
        lemma_find_option_none(t.drop_first(), id);
    }
}

/// Finds the index of the diagnosis option with the given identity.
pub fn find_option_index(t: &Vec<DiagnosisOption>, id: i64) -> (r: Option<usize>)
    ensures
        match r {
            Some(j) => find_option(t@, id) == Some(j as int) && j < t@.len() && t@[j as int].id
                == Some(id),
            None => find_option(t@, id) is None,
        },
{
    let mut i: usize = 0;
    while i < t.len()
        invariant
            i <= t.len(),
            forall|j: int| 0 <= j < i ==> (#[trigger] t@[j]).id != Some(id),
        decreases t.len() - i,
    {
        let matched = match t[i].id {
            Some(s) => s == id,
            None => false,
        };
        if matched {
            proof {
                lemma_find_option_at(t@, id, i as int);
            }
            return Some(i);
        }
        i = i + 1;
    }
    proof {
        lemma_find_option_none(t@, id);
    }
    None
}

/// The first index holding a diagnosis option with the given label.
pub open spec fn find_option_label(t: Seq<DiagnosisOption>, label: Seq<char>) -> Option<int>
    decreases t.len(),
{
    if t.len() == 0 {
        None
    } else if t.first().label@ == label {
        Some(0)
    } else {
        match find_option_label(t.drop_first(), label) {
            Some(j) => Some(j + 1),
            None => None,
        }
    }
}

proof fn lemma_find_option_label_at(t: Seq<DiagnosisOption>, label: Seq<char>, i: int)
    requires
        0 <= i < t.len(),
        t[i].label@ == label,
        forall|j: int| 0 <= j < i ==> (#[trigger] t[j]).label@ != label,
    ensures
        find_option_label(t, label) == Some(i),
    decreases t.len(),
{
    if i > 0 {
        assert(t.drop_first()[i - 1] == t[i]);
        assert(forall|j: int| 0 <= j < i - 1 ==> (#[trigger] t.drop_first()[j]) == t[j + 1]);
        lemma_find_option_label_at(t.drop_first(), label, i - 1);
    }
}

proof fn lemma_find_option_label_none(t: Seq<DiagnosisOption>, label: Seq<char>)
    requires
        forall|j: int| 0 <= j < t.len() ==> (#[trigger] t[j]).label@ != label,
    ensures
        find_option_label(t, label) is None,
    decreases t.len(),
{
    if t.len() > 0 {
        assert(forall|j: int|
            0 <= j < t.len() - 1 ==> (#[trigger] t.drop_first()[j]) == t[j + 1]);
        lemma_find_option_label_none(t.drop_first(), label);
    }
}

/// Finds the index of the diagnosis option carrying the given label.
pub fn find_option_label_index(t: &Vec<DiagnosisOption>, label: &String) -> (r: Option<usize>)
    ensures
        match r {
            Some(j) => find_option_label(t@, label@) == Some(j as int) && j < t@.len()
                && t@[j as int].label@ == label@,
            None => find_option_label(t@, label@) is None,
        },
{
    let mut i: usize = 0;
    while i < t.len()
        invariant
            i <= t.len(),
            forall|j: int| 0 <= j < i ==> (#[trigger] t@[j]).label@ != label@,
        decreases t.len() - i,
    {
        if t[i].label == *label {
            proof {
                lemma_find_option_label_at(t@, label@, i as int);
            }
            return Some(i);
        }
        i = i + 1;
    }
    proof {
        lemma_find_option_label_none(t@, label@);
    }
    None
}

/// The row a diagnosis-option save stores: the submitted fields with
/// the flag and the sort rank made explicit.
pub open spec fn stored_option(o: DiagnosisOption, id: Option<i64>, label: String) -> DiagnosisOption {
    DiagnosisOption {
        id,
        label,
        color: o.color,
        active: Some(
            match o.active {
                Some(b) => b,
                None => true,
            },
        ),
        sort_order: Some(
            match o.sort_order {
                Some(v) => v,
                None => 0,
            },
        ),
    }
}

/// One step of the diagnosis-option save: by identity when one is
/// submitted, else upserted by label.
pub open spec fn apply_option(t: Seq<DiagnosisOption>, next: int, o: DiagnosisOption) -> (Seq<
    DiagnosisOption,
>, int) {
    match o.id {
        Some(id) => match find_option(t, id) {
            Some(j) => (t.update(j, stored_option(o, Some(id), o.label)), next),
            None => (t, next),
        },
        None => match find_option_label(t, o.label@) {
            Some(j) => (t.update(j, stored_option(o, t[j].id, t[j].label)), next),
            None => (t.push(stored_option(o, Some(next as i64), o.label)), next + 1),
        },
    }
}

/// The diagnosis-option save over a whole batch, in list order.
pub open spec fn apply_options(t: Seq<DiagnosisOption>, next: int, os: Seq<DiagnosisOption>) -> (
    Seq<DiagnosisOption>,
    int,
)
    decreases os.len(),
{
    if os.len() == 0 {
        (t, next)
    } else {
        let pre = apply_options(t, next, os.drop_last());
        apply_option(pre.0, pre.1, os.last())
    }
}

impl CatalogStore {
    /// Rewrites one diagnosis-option row, keeping its identity.
    fn option_set(&mut self, j: usize, row: DiagnosisOption)
        requires
            old(self).wf(),
            j < old(self).diagnosis_options@.len(),
            row.id == old(self).diagnosis_options@[j as int].id,
        ensures
            final(self).wf(),
            final(self).diagnosis_options@ == old(self).diagnosis_options@.update(j as int, row),
            final(self).signers@ == old(self).signers@,
            final(self).reason_types@ == old(self).reason_types@,
            final(self).payment_methods@ == old(self).payment_methods@,
            final(self).procedure_templates@ == old(self).procedure_templates@,
            final(self).next_signer_id == old(self).next_signer_id,
            final(self).next_reason_type_id == old(self).next_reason_type_id,
            final(self).next_payment_method_id == old(self).next_payment_method_id,
            final(self).next_diagnosis_option_id == old(self).next_diagnosis_option_id,
            final(self).next_template_id == old(self).next_template_id,
    {
        self.diagnosis_options.set(j, row);
        proof {
            assert forall|a: int|
                0 <= a < self.diagnosis_options@.len() implies (
            #[trigger] self.diagnosis_options@[a]).id is Some
                && self.diagnosis_options@[a].id->0 < self.next_diagnosis_option_id by {
                assert(self.diagnosis_options@[a].id == old(self).diagnosis_options@[a].id);
                assert(old(self).diagnosis_options@[a].id is Some);
            }
            assert forall|a: int, b: int|
                0 <= a < b < self.diagnosis_options@.len() implies (
            #[trigger] self.diagnosis_options@[a]).id != (
            #[trigger] self.diagnosis_options@[b]).id by {
                assert(self.diagnosis_options@[a].id == old(self).diagnosis_options@[a].id);
                assert(self.diagnosis_options@[b].id == old(self).diagnosis_options@[b].id);
                assert(old(self).diagnosis_options@[a].id != old(self).diagnosis_options@[b].id);
            }
        }
    }

    /// Inserts a fresh diagnosis-option row under the next identity.
    fn option_insert(&mut self, row: DiagnosisOption)
        requires
            old(self).wf(),
            row.id == Some(old(self).next_diagnosis_option_id),
            old(self).next_diagnosis_option_id < i64::MAX,
        ensures
            final(self).wf(),
            final(self).diagnosis_options@ == old(self).diagnosis_options@.push(row),
            final(self).next_diagnosis_option_id == old(self).next_diagnosis_option_id + 1,
            final(self).signers@ == old(self).signers@,
            final(self).reason_types@ == old(self).reason_types@,
            final(self).payment_methods@ == old(self).payment_methods@,
            final(self).procedure_templates@ == old(self).procedure_templates@,
            final(self).next_signer_id == old(self).next_signer_id,
            final(self).next_reason_type_id == old(self).next_reason_type_id,
            final(self).next_payment_method_id == old(self).next_payment_method_id,
            final(self).next_template_id == old(self).next_template_id,
    {
        self.diagnosis_options.push(row);
        self.next_diagnosis_option_id = self.next_diagnosis_option_id + 1;
        proof {
            assert forall|a: int, b: int|
                0 <= a < b < self.diagnosis_options@.len() implies (
            #[trigger] self.diagnosis_options@[a]).id != (
            #[trigger] self.diagnosis_options@[b]).id by {
                if b < old(self).diagnosis_options@.len() {
                    assert(self.diagnosis_options@[a] == old(self).diagnosis_options@[a]);
                    assert(self.diagnosis_options@[b] == old(self).diagnosis_options@[b]);
                } else {
                    assert(old(self).diagnosis_options@[a].id->0 < old(
                        self,
                    ).next_diagnosis_option_id);
                }
            }
        }
    }

    /// Saves a batch of diagnosis options: one with an identity
    /// rewrites the matching row; one without is upserted by label —
    /// the matching row rewritten, or a fresh row inserted.
    pub fn save_diagnosis_options(&mut self, options: Vec<DiagnosisOption>) -> (r: Result<
        (),
        String,
    >)
        requires
            old(self).wf(),
            old(self).next_diagnosis_option_id + options@.len() <= i64::MAX,
        ensures
            final(self).wf(),
            r is Ok,
            final(self).signers@ == old(self).signers@,
            final(self).reason_types@ == old(self).reason_types@,
            final(self).payment_methods@ == old(self).payment_methods@,
            final(self).procedure_templates@ == old(self).procedure_templates@,
            (final(self).diagnosis_options@, final(self).next_diagnosis_option_id as int)
                == apply_options(
                old(self).diagnosis_options@,
                old(self).next_diagnosis_option_id as int,
                options@,
            ),
    {
        let mut k: usize = 0;
        while k < options.len()
            invariant
                k <= options@.len(),
                self.wf(),
                self.signers@ == old(self).signers@,
                self.reason_types@ == old(self).reason_types@,
                self.payment_methods@ == old(self).payment_methods@,
                self.procedure_templates@ == old(self).procedure_templates@,
                self.next_signer_id == old(self).next_signer_id,
                self.next_reason_type_id == old(self).next_reason_type_id,
                self.next_payment_method_id == old(self).next_payment_method_id,
                self.next_template_id == old(self).next_template_id,
                old(self).next_diagnosis_option_id <= self.next_diagnosis_option_id,
                self.next_diagnosis_option_id as int <= old(self).next_diagnosis_option_id + k,
                old(self).next_diagnosis_option_id + options@.len() <= i64::MAX,
                (self.diagnosis_options@, self.next_diagnosis_option_id as int) == apply_options(
                    old(self).diagnosis_options@,
                    old(self).next_diagnosis_option_id as int,
                    options@.take(k as int),
                ),
            decreases options@.len() - k,
        {
            proof {
                assert(options@.take(k + 1).drop_last() =~= options@.take(k as int));
                assert(options@.take(k + 1).last() == options@[k as int]);
            }
            let o = &options[k];
            let active = match o.active {
                Some(b) => b,
                None => true,
            };
            let sort_order = match o.sort_order {
                Some(v) => v,
                None => 0,
            };
            match o.id {
                Some(id) => {
                    match find_option_index(&self.diagnosis_options, id) {
                        Some(j) => {
                            self.option_set(
                                j,
                                DiagnosisOption {
                                    id: Some(id),
                                    label: o.label.clone(),
                                    color: o.color.clone(),
                                    active: Some(active),
                                    sort_order: Some(sort_order),
                                },
                            );
                        },
                        None => {},
                    }
                },
                None => {
                    match find_option_label_index(&self.diagnosis_options, &o.label) {
                        Some(j) => {
                            let kept = self.diagnosis_options[j].clone();
                            self.option_set(
                                j,
                                DiagnosisOption {
                                    id: kept.id,
                                    label: kept.label,
                                    color: o.color.clone(),
                                    active: Some(active),
                                    sort_order: Some(sort_order),
                                },
                            );
                        },
                        None => {
                            let id = self.next_diagnosis_option_id;
                            self.option_insert(
                                DiagnosisOption {
                                    id: Some(id),
                                    label: o.label.clone(),
                                    color: o.color.clone(),
                                    active: Some(active),
                                    sort_order: Some(sort_order),
                                },
                            );
                        },
                    }
                },
            }
            k = k + 1;
        }
        proof {
            assert(options@.take(options@.len() as int) =~= options@);
        }
        Ok(())
    }
}

/// The first index holding the procedure template with the given
/// identity.
pub open spec fn find_template(t: Seq<ProcedureTemplate>, id: i64) -> Option<int>
    decreases t.len(),
{
    if t.len() == 0 {
        None
    } else if t.first().id == Some(id) {
        Some(0)
    } else {
        match find_template(t.drop_first(), id) {
            Some(j) => Some(j + 1),
            None => None,
        }
    }
}

proof fn lemma_find_template_at(t: Seq<ProcedureTemplate>, id: i64, i: int)
    requires
        0 <= i < t.len(),
        t[i].id == Some(id),
        forall|j: int| 0 <= j < i ==> (#[trigger] t[j]).id != Some(id),
    ensures
        find_template(t, id) == Some(i),
    decreases t.len(),
{
    if i > 0 {
        assert(t.drop_first()[i - 1] == t[i]);
        assert(forall|j: int| 0 <= j < i - 1 ==> (#[trigger] t.drop_first()[j]) == t[j + 1]);
        lemma_find_template_at(t.drop_first(), id, i - 1);
    }
}

proof fn lemma_find_template_none(t: Seq<ProcedureTemplate>, id: i64)
    requires
        forall|j: int| 0 <= j < t.len() ==> (#[trigger] t[j]).id != Some(id),
    ensures
        find_template(t, id) is None,
    decreases t.len(),
{
    if t.len() > 0 {
        assert(forall|j: int|
            0 <= j < t.len() - 1 ==> (#[trigger] t.drop_first()[j]) == t[j + 1]);
        lemma_find_template_none(t.drop_first(), id);
    }
}

/// Finds the index of the procedure template with the given identity.
pub fn find_template_index(t: &Vec<ProcedureTemplate>, id: i64) -> (r: Option<usize>)
    ensures
        match r {
            Some(j) => find_template(t@, id) == Some(j as int) && j < t@.len() && t@[j as int].id
                == Some(id),
            None => find_template(t@, id) is None && forall|j: int|
                0 <= j < t@.len() ==> (#[trigger] t@[j]).id != Some(id),
        },
{
    let mut i: usize = 0;
    while i < t.len()
        invariant
            i <= t.len(),
            forall|j: int| 0 <= j < i ==> (#[trigger] t@[j]).id != Some(id),
        decreases t.len() - i,
    {
        let matched = match t[i].id {
            Some(s) => s == id,
            None => false,
        };
        if matched {
            proof {
                lemma_find_template_at(t@, id, i as int);
            }
            return Some(i);
        }
        i = i + 1;
    }
    proof {
        lemma_find_template_none(t@, id);
    }
    None
}

/// The first index holding a procedure template with the given name.
pub open spec fn find_template_name(t: Seq<ProcedureTemplate>, name: Seq<char>) -> Option<int>
    decreases t.len(),
{
    if t.len() == 0 {
        None
    } else if t.first().name@ == name {
        Some(0)
    } else {
        match find_template_name(t.drop_first(), name) {
            Some(j) => Some(j + 1),
            None => None,
        }
    }
}

proof fn lemma_find_template_name_at(t: Seq<ProcedureTemplate>, name: Seq<char>, i: int)
    requires
        0 <= i < t.len(),
        t[i].name@ == name,
        forall|j: int| 0 <= j < i ==> (#[trigger] t[j]).name@ != name,
    ensures
        find_template_name(t, name) == Some(i),
    decreases t.len(),
{
    if i > 0 {
        assert(t.drop_first()[i - 1] == t[i]);
        assert(forall|j: int| 0 <= j < i - 1 ==> (#[trigger] t.drop_first()[j]) == t[j + 1]);
        lemma_find_template_name_at(t.drop_first(), name, i - 1);
    }
}

proof fn lemma_find_template_name_none(t: Seq<ProcedureTemplate>, name: Seq<char>)
    requires
        forall|j: int| 0 <= j < t.len() ==> (#[trigger] t[j]).name@ != name,
    ensures
        find_template_name(t, name) is None,
    decreases t.len(),
{
    if t.len() > 0 {
        assert(forall|j: int|
            0 <= j < t.len() - 1 ==> (#[trigger] t.drop_first()[j]) == t[j + 1]);
        lemma_find_template_name_none(t.drop_first(), name);
    }
}

/// Finds the index of the procedure template carrying the given name.
pub fn find_template_name_index(t: &Vec<ProcedureTemplate>, name: &String) -> (r: Option<usize>)
    ensures
        match r {
            Some(j) => find_template_name(t@, name@) == Some(j as int) && j < t@.len()
                && t@[j as int].name@ == name@,
            None => find_template_name(t@, name@) is None,
        },
{
    let mut i: usize = 0;
    while i < t.len()
        invariant
            i <= t.len(),
            forall|j: int| 0 <= j < i ==> (#[trigger] t@[j]).name@ != name@,
        decreases t.len() - i,
    {
        if t[i].name == *name {
            proof {
                lemma_find_template_name_at(t@, name@, i as int);
            }
            return Some(i);
        }
        i = i + 1;
    }
    proof {
        lemma_find_template_name_none(t@, name@);
    }
    None
}

/// A template row with its active flag cleared.
pub open spec fn deactivate(r: ProcedureTemplate) -> ProcedureTemplate {
    ProcedureTemplate {
        id: r.id,
        name: r.name,
        default_price: r.default_price,
        active: Some(false),
    }
}

/// The template table with every active flag cleared.
pub open spec fn deactivated(t: Seq<ProcedureTemplate>) -> Seq<ProcedureTemplate> {
    Seq::new(t.len(), |i: int| deactivate(t[i]))
}

/// One step of the template save: with an identity, the matching row
/// rewritten or a row inserted under that identity; without one,
/// upserted by name.
pub open spec fn apply_template(t: Seq<ProcedureTemplate>, next: int, tp: ProcedureTemplate) -> (
    Seq<ProcedureTemplate>,
    int,
) {
    let active = Some(
        match tp.active {
            Some(b) => b,
            None => true,
        },
    );
    match tp.id {
        Some(id) => match find_template(t, id) {
            Some(j) => (
                t.update(
                    j,
                    ProcedureTemplate {
                        id: Some(id),
                        name: tp.name,
                        default_price: tp.default_price,
                        active,
                    },
                ),
                next,
            ),
            None => (
                t.push(
                    ProcedureTemplate {
                        id: Some(id),
                        name: tp.name,
                        default_price: tp.default_price,
                        active,
                    },
                ),
                if id + 1 > next {
                    id + 1
                } else {
                    next
                },
            ),
        },
        None => match find_template_name(t, tp.name@) {
            Some(j) => (
                t.update(
                    j,
                    ProcedureTemplate {
                        id: t[j].id,
                        name: t[j].name,
                        default_price: tp.default_price,
                        active,
                    },
                ),
                next,
            ),
            None => (
                t.push(
                    ProcedureTemplate {
                        id: Some(next as i64),
                        name: tp.name,
                        default_price: tp.default_price,
                        active,
                    },
                ),
                next + 1,
            ),
        },
    }
}

/// The template save over a whole batch, in list order.
pub open spec fn apply_templates(
    t: Seq<ProcedureTemplate>,
    next: int,
    tps: Seq<ProcedureTemplate>,
) -> (Seq<ProcedureTemplate>, int)
    decreases tps.len(),
{
    if tps.len() == 0 {
        (t, next)
    } else {
        let pre = apply_templates(t, next, tps.drop_last());
        apply_template(pre.0, pre.1, tps.last())
    }
}

/// Whether some session item refers to the template.
pub open spec fn template_referenced(items: Seq<SessionItem>, id: i64) -> bool {
    exists|k: int|
        0 <= k < items.len() && (#[trigger] items[k]).procedure_template_id == Some(id)
}

/// Whether a template row survives the pruning pass: it stayed active,
/// or some session item still refers to it.
pub open spec fn template_kept(r: ProcedureTemplate, items: Seq<SessionItem>) -> bool {
    r.active != Some(false) || (r.id is Some && template_referenced(items, r.id->0))
}

/// The template table with the deactivated, unreferenced rows deleted.
pub open spec fn pruned(t: Seq<ProcedureTemplate>, items: Seq<SessionItem>) -> Seq<
    ProcedureTemplate,
>
    decreases t.len(),
{
    if t.len() == 0 {
        t
    } else {
        let pre = pruned(t.drop_last(), items);
        if template_kept(t.last(), items) {
            pre.push(t.last())
        } else {
            pre
        }
    }
}

/// Every pruned row is a row of the table it was pruned from.
proof fn lemma_pruned_subset(t: Seq<ProcedureTemplate>, items: Seq<SessionItem>)
    ensures
        forall|x: ProcedureTemplate| #[trigger] pruned(t, items).contains(x) ==> t.contains(x),
    decreases t.len(),
{
    if t.len() > 0 {
        lemma_pruned_subset(t.drop_last(), items);
        assert forall|x: ProcedureTemplate|
            #[trigger] pruned(t, items).contains(x) implies t.contains(x) by {
            let p = pruned(t, items);
            let k = choose|k: int| 0 <= k < p.len() && p[k] == x;
            let pre = pruned(t.drop_last(), items);
            if k < pre.len() {
                assert(pre.contains(x));
                assert(t.drop_last().contains(x));
                let w = choose|w: int| 0 <= w < t.drop_last().len() && t.drop_last()[w] == x;
                assert(t[w] == x);
            } else {
                assert(x == t.last());
            }
        }
    }
}

/// Pruning keeps identities present, bounded and unique.
proof fn lemma_pruned_wf(t: Seq<ProcedureTemplate>, items: Seq<SessionItem>, next: int)
    requires
        forall|i: int| 0 <= i < t.len() ==> (#[trigger] t[i]).id is Some && t[i].id->0 < next,
        forall|i: int, j: int| 0 <= i < j < t.len() ==> (#[trigger] t[i]).id != (#[trigger] t[j]).id,
    ensures
        forall|i: int|
            0 <= i < pruned(t, items).len() ==> (#[trigger] pruned(t, items)[i]).id is Some
                && pruned(t, items)[i].id->0 < next,
        forall|i: int, j: int|
            0 <= i < j < pruned(t, items).len() ==> (#[trigger] pruned(t, items)[i]).id != (
            #[trigger] pruned(t, items)[j]).id,
    decreases t.len(),
{
    lemma_pruned_subset(t, items);
    assert forall|i: int|
        0 <= i < pruned(t, items).len() implies (#[trigger] pruned(t, items)[i]).id is Some
        && pruned(t, items)[i].id->0 < next by {
        assert(pruned(t, items).contains(pruned(t, items)[i]));
        let w = choose|w: int| 0 <= w < t.len() && t[w] == pruned(t, items)[i];
    }
    if t.len() > 0 {
        assert(forall|i: int|
            0 <= i < t.len() - 1 ==> (#[trigger] t.drop_last()[i]).id is Some
                && t.drop_last()[i].id->0 < next);
        assert(forall|i: int, j: int|
            0 <= i < j < t.len() - 1 ==> (#[trigger] t.drop_last()[i]).id != (
            #[trigger] t.drop_last()[j]).id);
        lemma_pruned_wf(t.drop_last(), items, next);
        lemma_pruned_subset(t.drop_last(), items);
        let p = pruned(t, items);
        let pre = pruned(t.drop_last(), items);
        assert forall|i: int, j: int|
            0 <= i < j < p.len() implies (#[trigger] p[i]).id != (#[trigger] p[j]).id by {
            if j < pre.len() {
                assert(p[i] == pre[i] && p[j] == pre[j]);
            } else if j == pre.len() && p.len() > pre.len() {
                assert(p[j] == t.last());
                assert(pre.contains(pre[i]));
                let w = choose|w: int| 0 <= w < t.drop_last().len() && t.drop_last()[w] == pre[i];
                assert(t[w] == pre[i]);
                assert(t[w].id != t[t.len() - 1].id);
            }
        }
    }
}

/// Whether any session item refers to the given template identity.
pub fn any_item_references(items: &Vec<SessionItem>, id: i64) -> (r: bool)
    ensures
        r == template_referenced(items@, id),
{
    let mut k: usize = 0;
    while k < items.len()
        invariant
            k <= items@.len(),
            forall|w: int|
                0 <= w < k ==> (#[trigger] items@[w]).procedure_template_id != Some(id),
        decreases items@.len() - k,
    {
        let matched = match items[k].procedure_template_id {
            Some(p) => p == id,
            None => false,
        };
        if matched {
            return true;
        }
        k = k + 1;
    }
    false
}

impl CatalogStore {
    /// Rewrites one template row, keeping its identity.
    fn template_set(&mut self, j: usize, row: ProcedureTemplate)
        requires
            old(self).wf(),
            j < old(self).procedure_templates@.len(),
            row.id == old(self).procedure_templates@[j as int].id,
        ensures
            final(self).wf(),
            final(self).procedure_templates@ == old(self).procedure_templates@.update(
                j as int,
                row,
            ),
            final(self).signers@ == old(self).signers@,
            final(self).reason_types@ == old(self).reason_types@,
            final(self).payment_methods@ == old(self).payment_methods@,
            final(self).diagnosis_options@ == old(self).diagnosis_options@,
            final(self).next_signer_id == old(self).next_signer_id,
            final(self).next_reason_type_id == old(self).next_reason_type_id,
            final(self).next_payment_method_id == old(self).next_payment_method_id,
            final(self).next_diagnosis_option_id == old(self).next_diagnosis_option_id,
            final(self).next_template_id == old(self).next_template_id,
    {
        self.procedure_templates.set(j, row);
        proof {
            assert forall|a: int|
                0 <= a < self.procedure_templates@.len() implies (
            #[trigger] self.procedure_templates@[a]).id is Some
                && self.procedure_templates@[a].id->0 < self.next_template_id by {
                assert(self.procedure_templates@[a].id == old(self).procedure_templates@[a].id);
                assert(old(self).procedure_templates@[a].id is Some);
            }
            assert forall|a: int, b: int|
                0 <= a < b < self.procedure_templates@.len() implies (
            #[trigger] self.procedure_templates@[a]).id != (
            #[trigger] self.procedure_templates@[b]).id by {
                assert(self.procedure_templates@[a].id == old(self).procedure_templates@[a].id);
                assert(self.procedure_templates@[b].id == old(self).procedure_templates@[b].id);
                assert(old(self).procedure_templates@[a].id != old(
                    self,
                ).procedure_templates@[b].id);
            }
        }
    }

    /// Inserts a template row under a caller-supplied identity that no
    /// row carries, moving the counter past it if need be.
    fn template_insert_explicit(&mut self, row: ProcedureTemplate, id: i64)
        requires
            old(self).wf(),
            row.id == Some(id),
            id < i64::MAX,
            forall|j: int|
                0 <= j < old(self).procedure_templates@.len() ==> (
                #[trigger] old(self).procedure_templates@[j]).id != Some(id),
        ensures
            final(self).wf(),
            final(self).procedure_templates@ == old(self).procedure_templates@.push(row),
            final(self).next_template_id as int == (if id + 1 > old(self).next_template_id as int {
                id + 1
            } else {
                old(self).next_template_id as int
            }),
            final(self).signers@ == old(self).signers@,
            final(self).reason_types@ == old(self).reason_types@,
            final(self).payment_methods@ == old(self).payment_methods@,
            final(self).diagnosis_options@ == old(self).diagnosis_options@,
            final(self).next_signer_id == old(self).next_signer_id,
            final(self).next_reason_type_id == old(self).next_reason_type_id,
            final(self).next_payment_method_id == old(self).next_payment_method_id,
            final(self).next_diagnosis_option_id == old(self).next_diagnosis_option_id,
    {
        self.procedure_templates.push(row);
        if id + 1 > self.next_template_id {
            self.next_template_id = id + 1;
        }
        proof {
            assert forall|a: int, b: int|
                0 <= a < b < self.procedure_templates@.len() implies (
            #[trigger] self.procedure_templates@[a]).id != (
            #[trigger] self.procedure_templates@[b]).id by {
                if b < old(self).procedure_templates@.len() {
                    assert(self.procedure_templates@[a] == old(self).procedure_templates@[a]);
                    assert(self.procedure_templates@[b] == old(self).procedure_templates@[b]);
                } else {
                    assert(old(self).procedure_templates@[a].id != Some(id));
                }
            }
        }
    }

    /// Inserts a fresh template row under the next identity.
    fn template_insert_auto(&mut self, row: ProcedureTemplate)
        requires
            old(self).wf(),
            row.id == Some(old(self).next_template_id),
            old(self).next_template_id < i64::MAX,
        ensures
            final(self).wf(),
            final(self).procedure_templates@ == old(self).procedure_templates@.push(row),
            final(self).next_template_id == old(self).next_template_id + 1,
            final(self).signers@ == old(self).signers@,
            final(self).reason_types@ == old(self).reason_types@,
            final(self).payment_methods@ == old(self).payment_methods@,
            final(self).diagnosis_options@ == old(self).diagnosis_options@,
            final(self).next_signer_id == old(self).next_signer_id,
            final(self).next_reason_type_id == old(self).next_reason_type_id,
            final(self).next_payment_method_id == old(self).next_payment_method_id,
            final(self).next_diagnosis_option_id == old(self).next_diagnosis_option_id,
    {
        self.procedure_templates.push(row);
        self.next_template_id = self.next_template_id + 1;
        proof {
            assert forall|a: int, b: int|
                0 <= a < b < self.procedure_templates@.len() implies (
            #[trigger] self.procedure_templates@[a]).id != (
            #[trigger] self.procedure_templates@[b]).id by {
                if b < old(self).procedure_templates@.len() {
                    assert(self.procedure_templates@[a] == old(self).procedure_templates@[a]);
                    assert(self.procedure_templates@[b] == old(self).procedure_templates@[b]);
                } else {
                    assert(old(self).procedure_templates@[a].id->0 < old(self).next_template_id);
                }
            }
        }
    }

    /// Saves the whole template catalog: every row is first
    /// deactivated, the submitted templates are then upserted — by
    /// identity when one is supplied, else by name — and finally the
    /// rows left deactivated are deleted, except those some session
    /// item still refers to.
    pub fn save_procedure_templates(
        &mut self,
        templates: Vec<ProcedureTemplate>,
        session_items: &Vec<SessionItem>,
    ) -> (r: Result<(), String>)
        requires
            old(self).wf(),
            old(self).next_template_id <= crate::store::ID_HEADROOM,
            templates@.len() <= 1_000_000,
            forall|k: int|
                0 <= k < templates@.len() && (#[trigger] templates@[k]).id is Some
                    ==> templates@[k].id->0 <= crate::store::ID_HEADROOM,
        ensures
            final(self).wf(),
            r is Ok,
            final(self).signers@ == old(self).signers@,
            final(self).reason_types@ == old(self).reason_types@,
            final(self).payment_methods@ == old(self).payment_methods@,
            final(self).diagnosis_options@ == old(self).diagnosis_options@,
            ({
                let folded = apply_templates(
                    deactivated(old(self).procedure_templates@),
                    old(self).next_template_id as int,
                    templates@,
                );
                final(self).procedure_templates@ == pruned(folded.0, session_items@)
                    && final(self).next_template_id as int == folded.1
            }),
    {
        // First pass: deactivate every row.
        let mut i: usize = 0;
        let n = self.procedure_templates.len();
        while i < n
            invariant
                i <= n,
                n == old(self).procedure_templates@.len(),
                self.wf(),
                self.signers@ == old(self).signers@,
                self.reason_types@ == old(self).reason_types@,
                self.payment_methods@ == old(self).payment_methods@,
                self.diagnosis_options@ == old(self).diagnosis_options@,
                self.next_signer_id == old(self).next_signer_id,
                self.next_reason_type_id == old(self).next_reason_type_id,
                self.next_payment_method_id == old(self).next_payment_method_id,
                self.next_diagnosis_option_id == old(self).next_diagnosis_option_id,
                self.next_template_id == old(self).next_template_id,
                self.procedure_templates@.len() == n,
                forall|q: int|
                    0 <= q < i ==> self.procedure_templates@[q] == deactivate(
                        #[trigger] old(self).procedure_templates@[q],
                    ),
                forall|q: int|
                    i <= q < n ==> self.procedure_templates@[q] == #[trigger] old(
                        self,
                    ).procedure_templates@[q],
            decreases n - i,
        {
            let row = self.procedure_templates[i].clone();
            self.template_set(
                i,
                ProcedureTemplate {
                    id: row.id,
                    name: row.name,
                    default_price: row.default_price,
                    active: Some(false),
                },
            );
            i = i + 1;
        }
        proof {
            assert(self.procedure_templates@ =~= deactivated(old(self).procedure_templates@));
        }
        let ghost t1 = self.procedure_templates@;

        // Second pass: upsert each submitted template.
        let mut k: usize = 0;
        while k < templates.len()
            invariant
                k <= templates@.len(),
                templates@.len() <= 1_000_000,
                forall|m: int|
                    0 <= m < templates@.len() && (#[trigger] templates@[m]).id is Some
                        ==> templates@[m].id->0 <= crate::store::ID_HEADROOM,
                self.wf(),
                self.signers@ == old(self).signers@,
                self.reason_types@ == old(self).reason_types@,
                self.payment_methods@ == old(self).payment_methods@,
                self.diagnosis_options@ == old(self).diagnosis_options@,
                self.next_signer_id == old(self).next_signer_id,
                self.next_reason_type_id == old(self).next_reason_type_id,
                self.next_payment_method_id == old(self).next_payment_method_id,
                self.next_diagnosis_option_id == old(self).next_diagnosis_option_id,
                self.next_template_id as int <= crate::store::ID_HEADROOM + 1 + k,
                (self.procedure_templates@, self.next_template_id as int) == apply_templates(
                    t1,
                    old(self).next_template_id as int,
                    templates@.take(k as int),
                ),
            decreases templates@.len() - k,
        {
            proof {
                assert(templates@.take(k + 1).drop_last() =~= templates@.take(k as int));
                assert(templates@.take(k + 1).last() == templates@[k as int]);
            }
            let tp = &templates[k];
            let active = match tp.active {
                Some(b) => b,
                None => true,
            };
            match tp.id {
                Some(id) => {
                    match find_template_index(&self.procedure_templates, id) {
                        Some(j) => {
                            self.template_set(
                                j,
                                ProcedureTemplate {
                                    id: Some(id),
                                    name: tp.name.clone(),
                                    default_price: tp.default_price,
                                    active: Some(active),
                                },
                            );
                        },
                        None => {
                            self.template_insert_explicit(
                                ProcedureTemplate {
                                    id: Some(id),
                                    name: tp.name.clone(),
                                    default_price: tp.default_price,
                                    active: Some(active),
                                },
                                id,
                            );
                        },
                    }
                },
                None => {
                    match find_template_name_index(&self.procedure_templates, &tp.name) {
                        Some(j) => {
                            let kept = self.procedure_templates[j].clone();
                            self.template_set(
                                j,
                                ProcedureTemplate {
                                    id: kept.id,
                                    name: kept.name,
                                    default_price: tp.default_price,
                                    active: Some(active),
                                },
                            );
                        },
                        None => {
                            let id = self.next_template_id;
                            self.template_insert_auto(
                                ProcedureTemplate {
                                    id: Some(id),
                                    name: tp.name.clone(),
                                    default_price: tp.default_price,
                                    active: Some(active),
                                },
                            );
                        },
                    }
                },
            }
            k = k + 1;
        }
        proof {
            assert(templates@.take(templates@.len() as int) =~= templates@);
        }
        let ghost t2 = self.procedure_templates@;
        let ghost n2 = self.next_template_id;

        // Third pass: delete the rows left deactivated, except those
        // still referred to by a session item.
        let mut out: Vec<ProcedureTemplate> = Vec::new();
        let mut p: usize = 0;
        while p < self.procedure_templates.len()
            invariant
                p <= self.procedure_templates@.len(),
                self.procedure_templates@ == t2,
                self.next_template_id == n2,
                out@ == pruned(t2.take(p as int), session_items@),
            decreases self.procedure_templates@.len() - p,
        {
            proof {
                assert(t2.take(p + 1).drop_last() =~= t2.take(p as int));
                assert(t2.take(p + 1).last() == t2[p as int]);
            }
            let row = &self.procedure_templates[p];
            let keep = match row.active {
                Some(b) => b,
                None => true,
            } || match row.id {
                Some(id) => any_item_references(session_items, id),
                None => false,
            };
            if keep {
                out.push(row.clone());
            }
            p = p + 1;
        }
        proof {
            assert(t2.take(t2.len() as int) =~= t2);
            assert(self.wf());
            lemma_pruned_wf(t2, session_items@, n2 as int);
        }
        self.procedure_templates = out;
        Ok(())
    }
}

} // verus!
