//! Standalone payments and file attachments.
//!
//! These two tables sit beside the session ledger: free-standing
//! payment records, and attachment metadata rows.  Amounts are cents;
//! dates and creation stamps are day numbers.

use vstd::prelude::*;

verus! {

/// A free-standing payment record, in cents.
#[derive(Debug, PartialEq)]
pub struct Payment {
    pub id: Option<i64>,
    pub patient_id: i64,
    pub date: i64,
    pub amount: i64,
    pub payment_method: Option<String>,
    pub notes: Option<String>,
}

impl Clone for Payment {
    fn clone(&self) -> (r: Self)
        ensures
            r == *self,
    {
        Payment {
            id: self.id,
            patient_id: self.patient_id,
            date: self.date,
            amount: self.amount,
            payment_method: crate::model::clone_opt_string(&self.payment_method),
            notes: crate::model::clone_opt_string(&self.notes),
        }
    }
}

/// The payments store.
pub struct PaymentStore {
    pub payments: Vec<Payment>,
    pub next_payment_id: i64,
}

impl PaymentStore {
    /// Well-formedness: identities present, below the counter and
    /// unique.
    pub open spec fn wf(self) -> bool {
        &&& 1 <= self.next_payment_id
        &&& forall|i: int|
            0 <= i < self.payments@.len() ==> (#[trigger] self.payments@[i]).id is Some
                && 1 <= self.payments@[i].id->0 < self.next_payment_id
        &&& forall|i: int, j: int|
            0 <= i < j < self.payments@.len() ==> (#[trigger] self.payments@[i]).id != (
            #[trigger] self.payments@[j]).id
    }

    /// An empty store.
    pub fn new() -> (s: PaymentStore)
        ensures
            s.wf(),
            s.payments@.len() == 0,
            s.next_payment_id == 1,
    {
        PaymentStore { payments: Vec::new(), next_payment_id: 1 }
    }
}

/// The first index holding the payment with the given identity.
pub open spec fn find_payment(t: Seq<Payment>, id: i64) -> Option<int>
    decreases t.len(),
{
    if t.len() == 0 {
        None
    } else if t.first().id == Some(id) {
        Some(0)
    } else {
        match find_payment(t.drop_first(), id) {
            Some(j) => Some(j + 1),
            None => None,
        }
    }
}

proof fn lemma_find_payment_at(t: Seq<Payment>, id: i64, i: int)
    requires
        0 <= i < t.len(),
        t[i].id == Some(id),
        forall|j: int| 0 <= j < i ==> (#[trigger] t[j]).id != Some(id),
    ensures
        find_payment(t, id) == Some(i),
    decreases t.len(),
{
    if i > 0 {
        assert(t.drop_first()[i - 1] == t[i]);
        assert(forall|j: int| 0 <= j < i - 1 ==> (#[trigger] t.drop_first()[j]) == t[j + 1]);
        lemma_find_payment_at(t.drop_first(), id, i - 1);
    }
}

proof fn lemma_find_payment_none(t: Seq<Payment>, id: i64)
    requires
        forall|j: int| 0 <= j < t.len() ==> (#[trigger] t[j]).id != Some(id),
    ensures
        find_payment(t, id) is None,
    decreases t.len(),
{
    if t.len() > 0 {
        assert(forall|j: int|
            0 <= j < t.len() - 1 ==> (#[trigger] t.drop_first()[j]) == t[j + 1]);
        lemma_find_payment_none(t.drop_first(), id);
    }
}

/// Finds the index of the payment with the given identity.
pub fn find_payment_index(t: &Vec<Payment>, id: i64) -> (r: Option<usize>)
    ensures
        match r {
            Some(j) => find_payment(t@, id) == Some(j as int) && j < t@.len() && t@[j as int].id
                == Some(id),
            None => find_payment(t@, id) is None,
        },
{
    let mut i: usize = 0;
    while i < t.len()
        invariant
            i <= t.len(),
            forall|j: int| 0 <= j < i ==> (#[trigger] t@[j]).id != Some(id),
        decreases t.len() - i,
    {
        let matched = match t[i].id {
            Some(s) => s == id,
            None => false,
        };
        if matched {
            proof {
                lemma_find_payment_at(t@, id, i as int);
            }
            return Some(i);
        }
        i = i + 1;
    }
    proof {
        lemma_find_payment_none(t@, id);
    }
    None
}

/// The patient's payments, in table order.
pub open spec fn payments_of(t: Seq<Payment>, pid: i64) -> Seq<Payment>
    decreases t.len(),
{
    if t.len() == 0 {
        t
    } else {
        let pre = payments_of(t.drop_last(), pid);
        if t.last().patient_id == pid {
            pre.push(t.last())
        } else {
            pre
        }
    }
}

/// The identity a payment sorts by; a missing one sorts like zero.
pub open spec fn payment_sid(p: Payment) -> int {
    match p.id {
        Some(id) => id as int,
        None => 0,
    }
}

/// Whether `a` comes no earlier than `b` in the payment listing
/// order: by date, then identity, both descending.
pub open spec fn payment_ge(a: Payment, b: Payment) -> bool {
    a.date > b.date || (a.date == b.date && payment_sid(a) >= payment_sid(b))
}

/// A payment listing in descending order.
pub open spec fn payments_sorted_desc(s: Seq<Payment>) -> bool {
    forall|i: int, j: int| 0 <= i < j < s.len() ==> payment_ge(#[trigger] s[i], #[trigger] s[j])
}

/// Sorts payments into listing order: by date, then identity, both
/// descending.
pub fn sort_payments_desc(v: Vec<Payment>) -> (r: Vec<Payment>)
    ensures
        r@.to_multiset() == v@.to_multiset(),
        payments_sorted_desc(r@),
{
    let mut rest = v;
    let mut out: Vec<Payment> = Vec::new();
    proof {
        broadcast use vstd::multiset::group_multiset_axioms;
        broadcast use vstd::seq_lib::group_to_multiset_ensures;

        assert(out@.to_multiset().len() == 0);
        assert(out@.to_multiset().add(rest@.to_multiset()) =~= v@.to_multiset());
    }
    while rest.len() > 0
        invariant
            out@.to_multiset().add(rest@.to_multiset()) == v@.to_multiset(),
            payments_sorted_desc(out@),
            forall|q: int, w: int|
                0 <= q < out@.len() && 0 <= w < rest@.len() ==> payment_ge(
                    #[trigger] out@[q],
                    #[trigger] rest@[w],
                ),
        decreases rest.len(),
    {
        let mut m: usize = 0;
        let mut t: usize = 1;
        while t < rest.len()
            invariant
                m < t <= rest@.len(),
                rest@.len() > 0,
                forall|w: int| 0 <= w < t ==> payment_ge(rest@[m as int], #[trigger] rest@[w]),
            decreases rest.len() - t,
        {
            let a = &rest[t];
            let b = &rest[m];
            let ka: i64 = match a.id {
                Some(i) => i,
                None => 0,
            };
            let kb: i64 = match b.id {
                Some(i) => i,
                None => 0,
            };
            if a.date > b.date || (a.date == b.date && ka > kb) {
                m = t;
            }
            t = t + 1;
        }
        let ghost rest_old = rest@;
        let ghost out_old = out@;
        let x = rest.remove(m);
        out.push(x);
        proof {
            broadcast use vstd::seq_lib::group_to_multiset_ensures;
            broadcast use vstd::multiset::group_multiset_axioms;

            assert(rest@.to_multiset() =~= rest_old.to_multiset().remove(x));
            assert(out@.to_multiset() =~= out_old.to_multiset().insert(x));
            assert(rest_old.to_multiset().contains(x));
            assert(out@.to_multiset().add(rest@.to_multiset()) =~= out_old.to_multiset().add(
                rest_old.to_multiset(),
            ));
            assert forall|i: int, j: int|
                0 <= i < j < out@.len() implies payment_ge(out@[i], out@[j]) by {
                if j < out@.len() - 1 {
                    assert(payment_ge(out_old[i], out_old[j]));
                }
            }
            assert(payments_sorted_desc(out@));
            assert forall|q: int, w: int|
                0 <= q < out@.len() && 0 <= w < rest@.len() implies payment_ge(
                #[trigger] out@[q],
                #[trigger] rest@[w],
            ) by {
                let w0: int = if w < m {
                    w
                } else {
                    w + 1
                };
                assert(rest@[w] == rest_old[w0]);
                if q < out@.len() - 1 {
                    assert(payment_ge(out_old[q], rest_old[w0]));
                } else {
                    assert(payment_ge(rest_old[m as int], rest_old[w0]));
                }
            }
        }
    }
    proof {
        broadcast use vstd::multiset::group_multiset_axioms;
        broadcast use vstd::seq_lib::group_to_multiset_ensures;

        assert(rest@.to_multiset().len() == 0);
        assert(out@.to_multiset() =~= v@.to_multiset());
    }
    out
}

impl PaymentStore {
    /// Lists the patient's payments, latest first: by date, then
    /// identity, both descending.
    pub fn get_payments_by_patient(&self, patient_id: i64) -> (r: Result<Vec<Payment>, String>)
        ensures
            r is Ok,
            r->Ok_0@.to_multiset() == payments_of(self.payments@, patient_id).to_multiset(),
            payments_sorted_desc(r->Ok_0@),
    {
        let mut out: Vec<Payment> = Vec::new();
        let mut i: usize = 0;
        while i < self.payments.len()
            invariant
                i <= self.payments@.len(),
                out@ == payments_of(self.payments@.take(i as int), patient_id),
            decreases self.payments@.len() - i,
        {
            proof {
                assert(self.payments@.take(i + 1).drop_last() =~= self.payments@.take(i as int));
                assert(self.payments@.take(i + 1).last() == self.payments@[i as int]);
            }
            if self.payments[i].patient_id == patient_id {
                out.push(self.payments[i].clone());
            }
            i = i + 1;
        }
        proof {
            assert(self.payments@.take(self.payments@.len() as int) =~= self.payments@);
        }
        Ok(sort_payments_desc(out))
    }

    /// Records a payment; returns its identity.
    pub fn create_payment(&mut self, payment: Payment) -> (r: Result<i64, String>)
        requires
            old(self).wf(),
            old(self).next_payment_id < i64::MAX,
        ensures
            final(self).wf(),
            r is Ok,
            r->Ok_0 == old(self).next_payment_id,
            final(self).next_payment_id == old(self).next_payment_id + 1,
            final(self).payments@ == old(self).payments@.push(
                Payment {
                    id: Some(old(self).next_payment_id),
                    patient_id: payment.patient_id,
                    date: payment.date,
                    amount: payment.amount,
                    payment_method: payment.payment_method,
                    notes: payment.notes,
                },
            ),
    {
        let id = self.next_payment_id;
        self.payments.push(
            Payment {
                id: Some(id),
                patient_id: payment.patient_id,
                date: payment.date,
                amount: payment.amount,
                payment_method: payment.payment_method,
                notes: payment.notes,
            },
        );
        self.next_payment_id = id + 1;
        proof {
            assert forall|a: int, b: int|
                0 <= a < b < self.payments@.len() implies (#[trigger] self.payments@[a]).id != (
            #[trigger] self.payments@[b]).id by {
                if b < old(self).payments@.len() {
                    assert(self.payments@[a] == old(self).payments@[a]);
                    assert(self.payments@[b] == old(self).payments@[b]);
                } else {
                    assert(old(self).payments@[a].id->0 < id);
                }
            }
        }
        Ok(id)
    }

    /// Rewrites a payment's editable fields.  An identity is required;
    /// the owning patient is never changed.
    pub fn update_payment(&mut self, payment: Payment) -> (r: Result<(), String>)
        requires
            old(self).wf(),
        ensures
            final(self).wf(),
            final(self).next_payment_id == old(self).next_payment_id,
            r is Err <==> payment.id is None,
            r is Err ==> r->Err_0@ == "Payment ID is required for update"@,
            match payment.id {
                Some(id) => match find_payment(old(self).payments@, id) {
                    Some(j) => final(self).payments@ == old(self).payments@.update(
                        j,
                        Payment {
                            id: Some(id),
                            patient_id: old(self).payments@[j].patient_id,
                            date: payment.date,
                            amount: payment.amount,
                            payment_method: payment.payment_method,
                            notes: payment.notes,
                        },
                    ),
                    None => final(self).payments@ == old(self).payments@,
                },
                None => final(self).payments@ == old(self).payments@,
            },
    {
        let id = match payment.id {
            Some(id) => id,
            None => {
                return Err("Payment ID is required for update".to_owned());
            },
        };
        match find_payment_index(&self.payments, id) {
            Some(j) => {
                let kept_patient = self.payments[j].patient_id;
                self.payments.set(
                    j,
                    Payment {
                        id: Some(id),
                        patient_id: kept_patient,
                        date: payment.date,
                        amount: payment.amount,
                        payment_method: payment.payment_method,
                        notes: payment.notes,
                    },
                );
                proof {
                    assert forall|a: int|
                        0 <= a < self.payments@.len() implies (
                    #[trigger] self.payments@[a]).id is Some && 1 <= self.payments@[a].id->0
                        < self.next_payment_id by {
                        assert(self.payments@[a].id == old(self).payments@[a].id);
                        assert(old(self).payments@[a].id is Some);
                    }
                    assert forall|a: int, b: int|
                        0 <= a < b < self.payments@.len() implies (
                    #[trigger] self.payments@[a]).id != (#[trigger] self.payments@[b]).id by {
                        assert(self.payments@[a].id == old(self).payments@[a].id);
                        assert(self.payments@[b].id == old(self).payments@[b].id);
                        assert(old(self).payments@[a].id != old(self).payments@[b].id);
                    }
                }
                Ok(())
            },
            None => Ok(()),
        }
    }

    /// Deletes a payment; an unknown identity is a no-op.
    pub fn delete_payment(&mut self, payment_id: i64) -> (r: Result<(), String>)
        requires
            old(self).wf(),
        ensures
            final(self).wf(),
            r is Ok,
            final(self).next_payment_id == old(self).next_payment_id,
            match find_payment(old(self).payments@, payment_id) {
                Some(j) => final(self).payments@ == old(self).payments@.remove(j),
                None => final(self).payments@ == old(self).payments@,
            },
    {
        match find_payment_index(&self.payments, payment_id) {
            Some(j) => {
                self.payments.remove(j);
                proof {
                    assert forall|a: int|
                        0 <= a < self.payments@.len() implies (
                    #[trigger] self.payments@[a]).id is Some && 1 <= self.payments@[a].id->0
                        < self.next_payment_id by {
                        let a0: int = if a < j {
                            a
                        } else {
                            a + 1
                        };
                        assert(self.payments@[a] == old(self).payments@[a0]);
                        assert(old(self).payments@[a0].id is Some);
                    }
                    assert forall|a: int, b: int|
                        0 <= a < b < self.payments@.len() implies (
                    #[trigger] self.payments@[a]).id != (#[trigger] self.payments@[b]).id by {
                        let a0: int = if a < j {
                            a
                        } else {
                            a + 1
                        };
                        let b0: int = if b < j {
                            b
                        } else {
                            b + 1
                        };
                        assert(self.payments@[a] == old(self).payments@[a0]);
                        assert(self.payments@[b] == old(self).payments@[b0]);
                    }
                }
                Ok(())
            },
            None => Ok(()),
        }
    }
}

/// One stored attachment's metadata.  `created_at` is the day the row
/// was stored.
#[derive(Debug, PartialEq)]
pub struct Attachment {
    pub id: Option<i64>,
    pub patient_id: i64,
    pub session_id: Option<i64>,
    pub kind: String,
    pub filename: String,
    pub mime_type: Option<String>,
    pub size_bytes: Option<i64>,
    pub storage_key: String,
    pub note: Option<String>,
    pub created_at: Option<i64>,
}

impl Clone for Attachment {
    fn clone(&self) -> (r: Self)
        ensures
            r == *self,
    {
        Attachment {
            id: self.id,
            patient_id: self.patient_id,
            session_id: self.session_id,
            kind: self.kind.clone(),
            filename: self.filename.clone(),
            mime_type: crate::model::clone_opt_string(&self.mime_type),
            size_bytes: self.size_bytes,
            storage_key: self.storage_key.clone(),
            note: crate::model::clone_opt_string(&self.note),
            created_at: self.created_at,
        }
    }
}

/// What a caller hands over to store an attachment.
#[derive(Debug, PartialEq)]
pub struct AttachmentMeta {
    pub filename: String,
    pub mime_type: String,
    pub bytes: i64,
    pub storage_key: String,
}

/// The attachments store.
pub struct AttachmentStore {
    pub attachments: Vec<Attachment>,
    pub next_attachment_id: i64,
}

/// The row stored for a file attachment: the submitted metadata under
/// a fresh identity, of kind `file`, stamped with the day.
pub open spec fn attachment_row_ok(
    x: Attachment,
    id: int,
    patient_id: i64,
    session_id: Option<i64>,
    filename: String,
    mime_type: String,
    bytes: i64,
    storage_key: String,
    day: i64,
) -> bool {
    &&& x.id == Some(id as i64)
    &&& x.patient_id == patient_id
    &&& x.session_id == session_id
    &&& x.kind@ == "file"@
    &&& x.filename == filename
    &&& x.mime_type == Some(mime_type)
    &&& x.size_bytes == Some(bytes)
    &&& x.storage_key == storage_key
    &&& x.note is None
    &&& x.created_at == Some(day)
}

/// The patient's attachments, in table order.
pub open spec fn attachments_of(t: Seq<Attachment>, pid: i64) -> Seq<Attachment>
    decreases t.len(),
{
    if t.len() == 0 {
        t
    } else {
        let pre = attachments_of(t.drop_last(), pid);
        if t.last().patient_id == pid {
            pre.push(t.last())
        } else {
            pre
        }
    }
}

/// The first index holding the attachment with the given identity.
pub open spec fn find_attachment(t: Seq<Attachment>, id: i64) -> Option<int>
    decreases t.len(),
{
    if t.len() == 0 {
        None
    } else if t.first().id == Some(id) {
        Some(0)
    } else {
        match find_attachment(t.drop_first(), id) {
            Some(j) => Some(j + 1),
            None => None,
        }
    }
}

proof fn lemma_find_attachment_at(t: Seq<Attachment>, id: i64, i: int)
    requires
        0 <= i < t.len(),
        t[i].id == Some(id),
        forall|j: int| 0 <= j < i ==> (#[trigger] t[j]).id != Some(id),
    ensures
        find_attachment(t, id) == Some(i),
    decreases t.len(),
{
    if i > 0 {
        assert(t.drop_first()[i - 1] == t[i]);
        assert(forall|j: int| 0 <= j < i - 1 ==> (#[trigger] t.drop_first()[j]) == t[j + 1]);
        lemma_find_attachment_at(t.drop_first(), id, i - 1);
    }
}

proof fn lemma_find_attachment_none(t: Seq<Attachment>, id: i64)
    requires
        forall|j: int| 0 <= j < t.len() ==> (#[trigger] t[j]).id != Some(id),
    ensures
        find_attachment(t, id) is None,
    decreases t.len(),
{
    if t.len() > 0 {
        assert(forall|j: int|
            0 <= j < t.len() - 1 ==> (#[trigger] t.drop_first()[j]) == t[j + 1]);
        lemma_find_attachment_none(t.drop_first(), id);
    }
}

/// Finds the index of the attachment with the given identity.
pub fn find_attachment_index(t: &Vec<Attachment>, id: i64) -> (r: Option<usize>)
    ensures
        match r {
            Some(j) => find_attachment(t@, id) == Some(j as int) && j < t@.len()
                && t@[j as int].id == Some(id),
            None => find_attachment(t@, id) is None,
        },
{
    let mut i: usize = 0;
    while i < t.len()
        invariant
            i <= t.len(),
            forall|j: int| 0 <= j < i ==> (#[trigger] t@[j]).id != Some(id),
        decreases t.len() - i,
    {
        let matched = match t[i].id {
            Some(s) => s == id,
            None => false,
        };
        if matched {
            proof {
                lemma_find_attachment_at(t@, id, i as int);
            }
            return Some(i);
        }
        i = i + 1;
    }
    proof {
        lemma_find_attachment_none(t@, id);
    }
    None
}

/// The day an attachment sorts by; a missing one sorts last.
pub open spec fn attachment_day(a: Attachment) -> int {
    match a.created_at {
        Some(d) => d as int,
        None => i64::MIN as int - 1,
    }
}

/// Whether `a` was created no earlier than `b`.
pub open spec fn attachment_ge(a: Attachment, b: Attachment) -> bool {
    attachment_day(a) >= attachment_day(b)
}

/// An attachment listing in descending order of creation day.
pub open spec fn attachments_sorted_desc(s: Seq<Attachment>) -> bool {
    forall|i: int, j: int| 0 <= i < j < s.len() ==> attachment_ge(#[trigger] s[i], #[trigger] s[j])
}

/// Sorts attachments into listing order: newest creation day first.
pub fn sort_attachments_desc(v: Vec<Attachment>) -> (r: Vec<Attachment>)
    ensures
        r@.to_multiset() == v@.to_multiset(),
        attachments_sorted_desc(r@),
{
    let mut rest = v;
    let mut out: Vec<Attachment> = Vec::new();
    proof {
        broadcast use vstd::multiset::group_multiset_axioms;
        broadcast use vstd::seq_lib::group_to_multiset_ensures;

        assert(out@.to_multiset().len() == 0);
        assert(out@.to_multiset().add(rest@.to_multiset()) =~= v@.to_multiset());
    }
    while rest.len() > 0
        invariant
            out@.to_multiset().add(rest@.to_multiset()) == v@.to_multiset(),
            attachments_sorted_desc(out@),
            forall|q: int, w: int|
                0 <= q < out@.len() && 0 <= w < rest@.len() ==> attachment_ge(
                    #[trigger] out@[q],
                    #[trigger] rest@[w],
                ),
        decreases rest.len(),
    {
        let mut m: usize = 0;
        let mut t: usize = 1;
        while t < rest.len()
            invariant
                m < t <= rest@.len(),
                rest@.len() > 0,
                forall|w: int| 0 <= w < t ==> attachment_ge(rest@[m as int], #[trigger] rest@[w]),
            decreases rest.len() - t,
        {
            let newer = match (rest[t].created_at, rest[m].created_at) {
                (Some(x), Some(y)) => x > y,
                (Some(_), None) => true,
                (None, Some(_)) => false,
                (None, None) => false,
            };
            if newer {
                m = t;
            }
            t = t + 1;
        }
        let ghost rest_old = rest@;
        let ghost out_old = out@;
        let x = rest.remove(m);
        out.push(x);
        proof {
            broadcast use vstd::seq_lib::group_to_multiset_ensures;
            broadcast use vstd::multiset::group_multiset_axioms;

            assert(rest@.to_multiset() =~= rest_old.to_multiset().remove(x));
            assert(out@.to_multiset() =~= out_old.to_multiset().insert(x));
            assert(rest_old.to_multiset().contains(x));
            assert(out@.to_multiset().add(rest@.to_multiset()) =~= out_old.to_multiset().add(
                rest_old.to_multiset(),
            ));
            assert forall|i: int, j: int|
                0 <= i < j < out@.len() implies attachment_ge(out@[i], out@[j]) by {
                if j < out@.len() - 1 {
                    assert(attachment_ge(out_old[i], out_old[j]));
                }
            }
            assert(attachments_sorted_desc(out@));
            assert forall|q: int, w: int|
                0 <= q < out@.len() && 0 <= w < rest@.len() implies attachment_ge(
                #[trigger] out@[q],
                #[trigger] rest@[w],
            ) by {
                let w0: int = if w < m {
                    w
                } else {
                    w + 1
                };
                assert(rest@[w] == rest_old[w0]);
                if q < out@.len() - 1 {
                    assert(attachment_ge(out_old[q], rest_old[w0]));
                } else {
                    assert(attachment_ge(rest_old[m as int], rest_old[w0]));
                }
            }
        }
    }
    proof {
        broadcast use vstd::multiset::group_multiset_axioms;
        broadcast use vstd::seq_lib::group_to_multiset_ensures;

        assert(rest@.to_multiset().len() == 0);
        assert(out@.to_multiset() =~= v@.to_multiset());
    }
    out
}

impl AttachmentStore {
    /// Well-formedness: identities present, below the counter and
    /// unique.
    pub open spec fn wf(self) -> bool {
        &&& 1 <= self.next_attachment_id
        &&& forall|i: int|
            0 <= i < self.attachments@.len() ==> (#[trigger] self.attachments@[i]).id is Some && 1
                <= self.attachments@[i].id->0 < self.next_attachment_id
        &&& forall|i: int, j: int|
            0 <= i < j < self.attachments@.len() ==> (#[trigger] self.attachments@[i]).id != (
            #[trigger] self.attachments@[j]).id
    }

    /// An empty store.
    pub fn new() -> (s: AttachmentStore)
        ensures
            s.wf(),
            s.attachments@.len() == 0,
            s.next_attachment_id == 1,
    {
        AttachmentStore { attachments: Vec::new(), next_attachment_id: 1 }
    }

    /// Lists the patient's attachments, newest first by creation day;
    /// rows sharing a day keep no particular order among themselves.
    pub fn get_attachments_by_patient(&self, patient_id: i64) -> (r: Result<
        Vec<Attachment>,
        String,
    >)
        ensures
            r is Ok,
            r->Ok_0@.to_multiset() == attachments_of(self.attachments@, patient_id).to_multiset(),
            attachments_sorted_desc(r->Ok_0@),
    {
        let mut out: Vec<Attachment> = Vec::new();
        let mut i: usize = 0;
        while i < self.attachments.len()
            invariant
                i <= self.attachments@.len(),
                out@ == attachments_of(self.attachments@.take(i as int), patient_id),
            decreases self.attachments@.len() - i,
        {
            proof {
                assert(self.attachments@.take(i + 1).drop_last() =~= self.attachments@.take(
                    i as int,
                ));
                assert(self.attachments@.take(i + 1).last() == self.attachments@[i as int]);
            }
            if self.attachments[i].patient_id == patient_id {
                out.push(self.attachments[i].clone());
            }
            i = i + 1;
        }
        proof {
            assert(self.attachments@.take(self.attachments@.len() as int) =~= self.attachments@);
        }
        Ok(sort_attachments_desc(out))
    }

    /// Stores one file attachment as of the given day; returns its
    /// identity.
    pub fn create_attachment_on(
        &mut self,
        patient_id: i64,
        session_id: Option<i64>,
        filename: String,
        mime_type: String,
        bytes: i64,
        storage_key: String,
        day: i64,
    ) -> (r: Result<i64, String>)
        requires
            old(self).wf(),
            old(self).next_attachment_id < i64::MAX,
        ensures
            final(self).wf(),
            r is Ok,
            r->Ok_0 == old(self).next_attachment_id,
            final(self).next_attachment_id == old(self).next_attachment_id + 1,
            final(self).attachments@.len() == old(self).attachments@.len() + 1,
            final(self).attachments@.take(old(self).attachments@.len() as int) == old(
                self,
            ).attachments@,
            attachment_row_ok(
                final(self).attachments@.last(),
                old(self).next_attachment_id as int,
                patient_id,
                session_id,
                filename,
                mime_type,
                bytes,
                storage_key,
                day,
            ),
    {
        let id = self.next_attachment_id;
        self.attachments.push(
            Attachment {
                id: Some(id),
                patient_id,
                session_id,
                kind: "file".to_owned(),
                filename,
                mime_type: Some(mime_type),
                size_bytes: Some(bytes),
                storage_key,
                note: None,
                created_at: Some(day),
            },
        );
        self.next_attachment_id = id + 1;
        proof {
            assert(self.attachments@.take(old(self).attachments@.len() as int) =~= old(
                self,
            ).attachments@);
            assert forall|a: int, b: int|
                0 <= a < b < self.attachments@.len() implies (
            #[trigger] self.attachments@[a]).id != (#[trigger] self.attachments@[b]).id by {
                if b < old(self).attachments@.len() {
                    assert(self.attachments@[a] == old(self).attachments@[a]);
                    assert(self.attachments@[b] == old(self).attachments@[b]);
                } else {
                    assert(old(self).attachments@[a].id->0 < id);
                }
            }
        }
        Ok(id)
    }

    /// Stores one file attachment dated today; returns its identity.
    pub fn create_attachment(
        &mut self,
        patient_id: i64,
        session_id: Option<i64>,
        filename: String,
        mime_type: String,
        bytes: i64,
        storage_key: String,
    ) -> (r: Result<i64, String>)
        requires
            old(self).wf(),
            old(self).next_attachment_id < i64::MAX,
        ensures
            final(self).wf(),
            r is Ok,
            r->Ok_0 == old(self).next_attachment_id,
            final(self).next_attachment_id == old(self).next_attachment_id + 1,
            final(self).attachments@.len() == old(self).attachments@.len() + 1,
            final(self).attachments@.take(old(self).attachments@.len() as int) == old(
                self,
            ).attachments@,
            final(self).attachments@.last().created_at is Some,
            ({
                let x = final(self).attachments@.last();
                attachment_row_ok(
                    x,
                    old(self).next_attachment_id as int,
                    patient_id,
                    session_id,
                    filename,
                    mime_type,
                    bytes,
                    storage_key,
                    x.created_at->0,
                )
            }),
    {
        let day = crate::clock::today_day_number();
        self.create_attachment_on(
            patient_id,
            session_id,
            filename,
            mime_type,
            bytes,
            storage_key,
            day,
        )
    }

    /// Stores a batch of file attachments bound to no session, as of
    /// the given day; returns their identities in order.
    pub fn save_attachments_without_session_on(
        &mut self,
        patient_id: i64,
        attachments: Vec<AttachmentMeta>,
        day: i64,
    ) -> (r: Result<Vec<i64>, String>)
        requires
            old(self).wf(),
            old(self).next_attachment_id + attachments@.len() <= i64::MAX,
        ensures
            final(self).wf(),
            r is Ok,
            r->Ok_0@.len() == attachments@.len(),
            final(self).attachments@.len() == old(self).attachments@.len() + attachments@.len(),
            final(self).attachments@.take(old(self).attachments@.len() as int) == old(
                self,
            ).attachments@,
            final(self).next_attachment_id as int == old(self).next_attachment_id
                + attachments@.len(),
            forall|k: int|
                0 <= k < attachments@.len() ==> #[trigger] r->Ok_0@[k] == old(
                    self,
                ).next_attachment_id + k,
            forall|k: int|
                0 <= k < attachments@.len() ==> attachment_row_ok(
                    #[trigger] final(self).attachments@[old(self).attachments@.len() + k],
                    old(self).next_attachment_id + k,
                    patient_id,
                    None,
                    attachments@[k].filename,
                    attachments@[k].mime_type,
                    attachments@[k].bytes,
                    attachments@[k].storage_key,
                    day,
                ),
    {
        let mut ids: Vec<i64> = Vec::new();
        let mut items = attachments;
        let mut k: usize = 0;
        let n = items.len();
        while k < n
            invariant
                k <= n,
                n == items@.len(),
                self.wf(),
                old(self).next_attachment_id + n <= i64::MAX,
                self.next_attachment_id as int == old(self).next_attachment_id + k,
                ids@.len() == k,
                self.attachments@.len() == old(self).attachments@.len() + k,
                self.attachments@.take(old(self).attachments@.len() as int) == old(
                    self,
                ).attachments@,
                forall|m: int|
                    0 <= m < k ==> #[trigger] ids@[m] == old(self).next_attachment_id + m,
                forall|m: int|
                    0 <= m < k ==> attachment_row_ok(
                        #[trigger] self.attachments@[old(self).attachments@.len() + m],
                        old(self).next_attachment_id + m,
                        patient_id,
                        None,
                        items@[m].filename,
                        items@[m].mime_type,
                        items@[m].bytes,
                        items@[m].storage_key,
                        day,
                    ),
            decreases n - k,
        {
            let ghost pre = self.attachments@;
            let meta = &items[k];
            let id = self.create_attachment_on(
                patient_id,
                None,
                meta.filename.clone(),
                meta.mime_type.clone(),
                meta.bytes,
                meta.storage_key.clone(),
                day,
            );
            match id {
                Ok(id) => {
                    ids.push(id);
                },
                Err(_) => {
                    proof {
                        assert(false);
                    }
                },
            }
            proof {
                assert(self.attachments@.take(old(self).attachments@.len() as int) =~= pre.take(
                    old(self).attachments@.len() as int,
                ));
                assert forall|m: int|
                    0 <= m < k + 1 implies attachment_row_ok(
                    #[trigger] self.attachments@[old(self).attachments@.len() + m],
                    old(self).next_attachment_id + m,
                    patient_id,
                    None,
                    items@[m].filename,
                    items@[m].mime_type,
                    items@[m].bytes,
                    items@[m].storage_key,
                    day,
                ) by {
                    if m < k {
                        assert(self.attachments@[old(self).attachments@.len() + m] == pre[old(
                            self,
                        ).attachments@.len() + m]);
                    }
                }
            }
            k = k + 1;
        }
        Ok(ids)
    }

    /// Stores a batch of file attachments bound to no session, dated
    /// today; returns their identities in order.
    pub fn save_attachments_without_session(
        &mut self,
        patient_id: i64,
        attachments: Vec<AttachmentMeta>,
    ) -> (r: Result<Vec<i64>, String>)
        requires
            old(self).wf(),
            old(self).next_attachment_id + attachments@.len() <= i64::MAX,
        ensures
            final(self).wf(),
            r is Ok,
            r->Ok_0@.len() == attachments@.len(),
            final(self).attachments@.len() == old(self).attachments@.len() + attachments@.len(),
            final(self).attachments@.take(old(self).attachments@.len() as int) == old(
                self,
            ).attachments@,
            final(self).next_attachment_id as int == old(self).next_attachment_id
                + attachments@.len(),
            forall|k: int|
                0 <= k < attachments@.len() ==> #[trigger] r->Ok_0@[k] == old(
                    self,
                ).next_attachment_id + k,
            forall|k: int|
                0 <= k < attachments@.len() ==> ({
                    let x = #[trigger] final(self).attachments@[old(self).attachments@.len() + k];
                    x.created_at is Some && attachment_row_ok(
                        x,
                        old(self).next_attachment_id + k,
                        patient_id,
                        None,
                        attachments@[k].filename,
                        attachments@[k].mime_type,
                        attachments@[k].bytes,
                        attachments@[k].storage_key,
                        x.created_at->0,
                    )
                }),
    {
        let day = crate::clock::today_day_number();
        self.save_attachments_without_session_on(patient_id, attachments, day)
    }

    /// Deletes an attachment; an unknown identity is a no-op.
    pub fn delete_attachment(&mut self, attachment_id: i64) -> (r: Result<(), String>)
        requires
            old(self).wf(),
        ensures
            final(self).wf(),
            r is Ok,
            final(self).next_attachment_id == old(self).next_attachment_id,
            match find_attachment(old(self).attachments@, attachment_id) {
                Some(j) => final(self).attachments@ == old(self).attachments@.remove(j),
                None => final(self).attachments@ == old(self).attachments@,
            },
    {
        match find_attachment_index(&self.attachments, attachment_id) {
            Some(j) => {
                self.attachments.remove(j);
                proof {
                    assert forall|a: int|
                        0 <= a < self.attachments@.len() implies (
                    #[trigger] self.attachments@[a]).id is Some && 1
                        <= self.attachments@[a].id->0 < self.next_attachment_id by {
                        let a0: int = if a < j {
                            a
                        } else {
                            a + 1
                        };
                        assert(self.attachments@[a] == old(self).attachments@[a0]);
                        assert(old(self).attachments@[a0].id is Some);
                    }
                    assert forall|a: int, b: int|
                        0 <= a < b < self.attachments@.len() implies (
                    #[trigger] self.attachments@[a]).id != (
                    #[trigger] self.attachments@[b]).id by {
                        let a0: int = if a < j {
                            a
                        } else {
                            a + 1
                        };
                        let b0: int = if b < j {
                            b
                        } else {
                            b + 1
                        };
                        assert(self.attachments@[a] == old(self).attachments@[a0]);
                        assert(self.attachments@[b] == old(self).attachments@[b0]);
                    }
                }
                Ok(())
            },
            None => Ok(()),
        }
    }
}

} // verus!
