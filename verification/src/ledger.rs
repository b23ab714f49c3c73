//! Cumulative balance accumulator and ledger queries.
//!
//! The patient-wide ledger is the multiset of saved sessions.  The
//! running total anchored to a session is the sum of the balances of
//! the saved sessions whose identity sorts before the anchor; the
//! ledger total read by the debt state machine is the cumulative
//! snapshot of the latest saved session, ordered by date and then by
//! identity.

use vstd::prelude::*;
use crate::model::{Session, BALANCE_LIMIT, MAX_SESSIONS};

verus! {

/// Whether a stored session takes part in the given patient's ledger:
/// it belongs to the patient and it is saved.
pub open spec fn in_ledger(s: Session, pid: i64) -> bool {
    s.patient_id == Some(pid) && s.is_saved == Some(true)
}

/// The identity a stored session sorts by.  Stored rows always carry
/// one; a missing identity sorts like zero.
pub open spec fn sid_key(s: Session) -> int {
    match s.id {
        Some(id) => id as int,
        None => 0,
    }
}

/// Whether a session's identity sorts before the bound, when there is
/// one.
pub open spec fn id_below(s: Session, bound: Option<i64>) -> bool {
    match bound {
        Some(b) => sid_key(s) < b,
        None => true,
    }
}

/// Sum, in cents, of the balances of the patient's saved sessions whose
/// identity sorts before `bound` (all of them when `bound` is `None`).
pub open spec fn saved_balance_sum(table: Seq<Session>, pid: i64, bound: Option<i64>) -> int
    decreases table.len(),
{
    if table.len() == 0 {
        0
    } else {
        saved_balance_sum(table.drop_last(), pid, bound) + if in_ledger(table.last(), pid)
            && id_below(table.last(), bound) {
            table.last().balance as int
        } else {
            0
        }
    }
}

/// All balances of the stored sessions lie within `BALANCE_LIMIT`.
pub open spec fn balances_bounded(table: Seq<Session>) -> bool {
    forall|i: int|
        0 <= i < table.len() ==> -BALANCE_LIMIT <= (#[trigger] table[i]).balance <= BALANCE_LIMIT
}

/// A ledger sum never exceeds one `BALANCE_LIMIT` per stored session.
pub proof fn lemma_saved_balance_sum_bound(table: Seq<Session>, pid: i64, bound: Option<i64>)
    requires
        balances_bounded(table),
    ensures
        -(table.len() * BALANCE_LIMIT) <= saved_balance_sum(table, pid, bound) <= table.len()
            * BALANCE_LIMIT,
    decreases table.len(),
{
    if table.len() > 0 {
        assert(balances_bounded(table.drop_last()));
        lemma_saved_balance_sum_bound(table.drop_last(), pid, bound);
    }
}

/// Sums the balances of the patient's saved sessions below the bound.
pub fn sum_saved_balances(table: &Vec<Session>, pid: i64, bound: Option<i64>) -> (total: i64)
    requires
        table@.len() <= MAX_SESSIONS,
        balances_bounded(table@),
    ensures
        total == saved_balance_sum(table@, pid, bound),
        -(MAX_SESSIONS * BALANCE_LIMIT) <= total <= MAX_SESSIONS * BALANCE_LIMIT,
{
    let mut total: i64 = 0;
    let mut i: usize = 0;
    while i < table.len()
        invariant
            i <= table.len(),
            table@.len() <= MAX_SESSIONS,
            balances_bounded(table@),
            total == saved_balance_sum(table@.take(i as int), pid, bound),
            -(i * BALANCE_LIMIT) <= total <= i * BALANCE_LIMIT,
        decreases table.len() - i,
    {
        proof {
            assert(table@.take(i + 1).drop_last() =~= table@.take(i as int));
            assert(table@.take(i + 1).last() == table@[i as int]);
        }
        let s = &table[i];
        let counted = match s.patient_id {
            Some(p) => p == pid,
            None => false,
        } && match s.is_saved {
            Some(b) => b,
            None => false,
        } && match bound {
            Some(b) => match s.id {
                Some(id) => id < b,
                None => 0 < b,
            },
            None => true,
        };
        if counted {
            total = total + s.balance;
        }
        i = i + 1;
    }
    proof {
        assert(table@.take(table@.len() as int) =~= table@);
    }
    total
}

/// What one stored session adds to the patient's ledger sum.
pub open spec fn ledger_contribution(s: Session, pid: i64) -> int {
    if in_ledger(s, pid) {
        s.balance as int
    } else {
        0
    }
}

/// Rewriting one row moves the ledger sum by the difference of the two
/// rows' contributions.
pub proof fn lemma_sum_after_update(
    table: Seq<Session>,
    pid: i64,
    bound: Option<i64>,
    j: int,
    row: Session,
)
    requires
        0 <= j < table.len(),
    ensures
        saved_balance_sum(table.update(j, row), pid, bound) == saved_balance_sum(
            table,
            pid,
            bound,
        ) - (if in_ledger(table[j], pid) && id_below(table[j], bound) {
            table[j].balance as int
        } else {
            0
        }) + (if in_ledger(row, pid) && id_below(row, bound) {
            row.balance as int
        } else {
            0
        }),
    decreases table.len(),
{
    if table.len() > 0 {
        if j == table.len() - 1 {
            assert(table.update(j, row).drop_last() =~= table.drop_last());
        } else {
            assert(table.update(j, row).drop_last() =~= table.drop_last().update(j, row));
            lemma_sum_after_update(table.drop_last(), pid, bound, j, row);
        }
    }
}

/// When the patient's only saved session at or past the bound is the
/// one at index `j`, the full ledger sum is the bounded sum plus that
/// session's contribution.
pub proof fn lemma_sum_split_at(table: Seq<Session>, pid: i64, a: i64, j: int)
    requires
        0 <= j < table.len(),
        sid_key(table[j]) == a,
        forall|i: int|
            0 <= i < table.len() && i != j && in_ledger(#[trigger] table[i], pid) ==> sid_key(
                table[i],
            ) < a,
    ensures
        saved_balance_sum(table, pid, None) == saved_balance_sum(table, pid, Some(a))
            + ledger_contribution(table[j], pid),
    decreases table.len(),
{
    if table.len() > 0 {
        if j == table.len() - 1 {
            assert forall|i: int|
                0 <= i < table.drop_last().len() && in_ledger(
                    #[trigger] table.drop_last()[i],
                    pid,
                ) implies id_below(table.drop_last()[i], Some(a)) by {
                assert(table[i] == table.drop_last()[i]);
            }
            lemma_sum_all_below(table.drop_last(), pid, a);
        } else {
            assert(table.drop_last()[j] == table[j]);
            lemma_sum_split_at(table.drop_last(), pid, a, j);
        }
    }
}

/// When every saved session of the patient sorts below the bound, the
/// bounded sum is the full sum.
pub proof fn lemma_sum_all_below(table: Seq<Session>, pid: i64, a: i64)
    requires
        forall|i: int|
            0 <= i < table.len() && in_ledger(#[trigger] table[i], pid) ==> id_below(
                table[i],
                Some(a),
            ),
    ensures
        saved_balance_sum(table, pid, None) == saved_balance_sum(table, pid, Some(a)),
    decreases table.len(),
{
    if table.len() > 0 {
        assert(forall|i: int|
            0 <= i < table.drop_last().len() && in_ledger(
                #[trigger] table.drop_last()[i],
                pid,
            ) ==> id_below(table.drop_last()[i], Some(a)));
        lemma_sum_all_below(table.drop_last(), pid, a);
    }
}

/// Whether `a` comes later than `b` in the ledger ordering: by date,
/// then by identity.
pub open spec fn later_session(a: Session, b: Session) -> bool {
    a.date > b.date || (a.date == b.date && sid_key(a) > sid_key(b))
}

/// The latest saved session of the patient below the bound: the row a
/// descending scan by date, then identity, would yield first.
pub open spec fn latest_saved(table: Seq<Session>, pid: i64, bound: Option<i64>) -> Option<Session>
    decreases table.len(),
{
    if table.len() == 0 {
        None
    } else {
        let rest = latest_saved(table.drop_last(), pid, bound);
        let x = table.last();
        if in_ledger(x, pid) && id_below(x, bound) {
            match rest {
                Some(r) => if later_session(x, r) {
                    Some(x)
                } else {
                    Some(r)
                },
                None => Some(x),
            }
        } else {
            rest
        }
    }
}

/// The ledger total the debt state machine reads: the cumulative
/// snapshot of the latest saved session, zero when there is none.
pub open spec fn latest_total(table: Seq<Session>, pid: i64, bound: Option<i64>) -> int {
    match latest_saved(table, pid, bound) {
        Some(s) => s.cumulative_balance as int,
        None => 0,
    }
}

/// Finds the latest saved session of the patient below the bound,
/// returning its index in the table.
pub fn find_latest_saved(table: &Vec<Session>, pid: i64, bound: Option<i64>) -> (r: Option<usize>)
    ensures
        match r {
            Some(j) => j < table@.len() && latest_saved(table@, pid, bound) == Some(table@[j as int]),
            None => latest_saved(table@, pid, bound) is None,
        },
{
    let mut best: Option<usize> = None;
    let mut i: usize = 0;
    while i < table.len()
        invariant
            i <= table.len(),
            match best {
                Some(j) => j < i && latest_saved(table@.take(i as int), pid, bound) == Some(
                    table@[j as int],
                ),
                None => latest_saved(table@.take(i as int), pid, bound) is None,
            },
        decreases table.len() - i,
    {
        proof {
            assert(table@.take(i + 1).drop_last() =~= table@.take(i as int));
            assert(table@.take(i + 1).last() == table@[i as int]);
        }
        let s = &table[i];
        let eligible = match s.patient_id {
            Some(p) => p == pid,
            None => false,
        } && match s.is_saved {
            Some(b) => b,
            None => false,
        } && match bound {
            Some(b) => match s.id {
                Some(id) => id < b,
                None => 0 < b,
            },
            None => true,
        };
        if eligible {
            match best {
                Some(j) => {
                    let b = &table[j];
                    let later = s.date > b.date || (s.date == b.date && match (s.id, b.id) {
                        (Some(x), Some(y)) => x > y,
                        (Some(x), None) => x > 0,
                        (None, Some(y)) => 0 > y,
                        (None, None) => false,
                    });
                    if later {
                        best = Some(i);
                    }
                },
                None => {
                    best = Some(i);
                },
            }
        }
        i = i + 1;
    }
    proof {
        assert(table@.take(table@.len() as int) =~= table@);
    }
    best
}

/// The first index holding the session with the given identity.
pub open spec fn find_session(table: Seq<Session>, sid: i64) -> Option<int>
    decreases table.len(),
{
    if table.len() == 0 {
        None
    } else if table.first().id == Some(sid) {
        Some(0)
    } else {
        match find_session(table.drop_first(), sid) {
            Some(j) => Some(j + 1),
            None => None,
        }
    }
}

/// Whether some stored session carries the given identity.
pub open spec fn session_id_exists(table: Seq<Session>, sid: i64) -> bool {
    exists|j: int| 0 <= j < table.len() && (#[trigger] table[j]).id == Some(sid)
}

/// `find_session` finds exactly the first match.
pub proof fn lemma_find_session_at(table: Seq<Session>, sid: i64, i: int)
    requires
        0 <= i < table.len(),
        table[i].id == Some(sid),
        forall|j: int| 0 <= j < i ==> (#[trigger] table[j]).id != Some(sid),
    ensures
        find_session(table, sid) == Some(i),
    decreases table.len(),
{
    if i > 0 {
        assert(table.drop_first()[i - 1] == table[i]);
        assert(forall|j: int|
            0 <= j < i - 1 ==> (#[trigger] table.drop_first()[j]) == table[j + 1]);
        lemma_find_session_at(table.drop_first(), sid, i - 1);
    }
}

/// When no stored session carries the identity, `find_session` yields
/// nothing.
pub proof fn lemma_find_session_none(table: Seq<Session>, sid: i64)
    requires
        !session_id_exists(table, sid),
    ensures
        find_session(table, sid) is None,
    decreases table.len(),
{
    if table.len() > 0 {
        assert(table[0].id != Some(sid));
        assert(forall|j: int|
            0 <= j < table.len() - 1 ==> (#[trigger] table.drop_first()[j]) == table[j + 1]);
        lemma_find_session_none(table.drop_first(), sid);
    }
}

/// A found index holds the identity sought.
pub proof fn lemma_find_session_found(table: Seq<Session>, sid: i64)
    requires
        find_session(table, sid) is Some,
    ensures
        0 <= find_session(table, sid)->0 < table.len(),
        table[find_session(table, sid)->0].id == Some(sid),
    decreases table.len(),
{
    if table.len() > 0 && table.first().id != Some(sid) {
        lemma_find_session_found(table.drop_first(), sid);
        assert(table.drop_first()[find_session(table.drop_first(), sid)->0] == table[find_session(
            table,
            sid,
        )->0]);
    }
}

/// Finds the index of the session with the given identity.
pub fn find_session_index(table: &Vec<Session>, sid: i64) -> (r: Option<usize>)
    ensures
        match r {
            Some(j) => find_session(table@, sid) == Some(j as int) && j < table@.len()
                && table@[j as int].id == Some(sid),
            None => find_session(table@, sid) is None && !session_id_exists(table@, sid),
        },
{
    let mut i: usize = 0;
    while i < table.len()
        invariant
            i <= table.len(),
            forall|j: int| 0 <= j < i ==> (#[trigger] table@[j]).id != Some(sid),
        decreases table.len() - i,
    {
        let matched = match table[i].id {
            Some(id) => id == sid,
            None => false,
        };
        if matched {
            proof {
                lemma_find_session_at(table@, sid, i as int);
            }
            return Some(i);
        }
        i = i + 1;
    }
    proof {
        assert(!session_id_exists(table@, sid));
        lemma_find_session_none(table@, sid);
    }
    None
}

/// The date of the stored session with the given identity, when it
/// exists.
pub open spec fn session_date(table: Seq<Session>, sid: i64) -> Option<i64> {
    match find_session(table, sid) {
        Some(j) => Some(table[j].date),
        None => None,
    }
}

/// The latest session date the patient has on file, saved or not.
pub open spec fn max_session_date(table: Seq<Session>, pid: i64) -> Option<i64>
    decreases table.len(),
{
    if table.len() == 0 {
        None
    } else {
        let pre = max_session_date(table.drop_last(), pid);
        if table.last().patient_id == Some(pid) {
            match pre {
                Some(d) => if table.last().date > d {
                    Some(table.last().date)
                } else {
                    Some(d)
                },
                None => Some(table.last().date),
            }
        } else {
            pre
        }
    }
}

/// Finds the latest session date the patient has on file.
pub fn find_max_session_date(table: &Vec<Session>, pid: i64) -> (r: Option<i64>)
    ensures
        r == max_session_date(table@, pid),
{
    let mut best: Option<i64> = None;
    let mut i: usize = 0;
    while i < table.len()
        invariant
            i <= table.len(),
            best == max_session_date(table@.take(i as int), pid),
        decreases table.len() - i,
    {
        proof {
            assert(table@.take(i + 1).drop_last() =~= table@.take(i as int));
            assert(table@.take(i + 1).last() == table@[i as int]);
        }
        let matched = match table[i].patient_id {
            Some(p) => p == pid,
            None => false,
        };
        if matched {
            let d = table[i].date;
            best = match best {
                Some(b) => if d > b {
                    Some(d)
                } else {
                    Some(b)
                },
                None => Some(d),
            };
        }
        i = i + 1;
    }
    proof {
        assert(table@.take(table@.len() as int) =~= table@);
    }
    best
}

/// Whether `a` comes no earlier than `b` in the ledger ordering: the
/// order session listings descend by.
pub open spec fn date_id_ge(a: Session, b: Session) -> bool {
    !later_session(b, a)
}

/// A session listing in descending order: by date, then identity.
pub open spec fn sessions_sorted_desc(s: Seq<Session>) -> bool {
    forall|i: int, j: int|
        0 <= i < j < s.len() ==> date_id_ge(#[trigger] s[i], #[trigger] s[j])
}

/// Executable comparison in the ledger ordering.
pub fn session_later(a: &Session, b: &Session) -> (r: bool)
    ensures
        r == later_session(*a, *b),
{
    let ka: i64 = match a.id {
        Some(i) => i,
        None => 0,
    };
    let kb: i64 = match b.id {
        Some(i) => i,
        None => 0,
    };
    a.date > b.date || (a.date == b.date && ka > kb)
}

/// The patient's sessions, in table order.
pub open spec fn sessions_of(table: Seq<Session>, pid: i64) -> Seq<Session>
    decreases table.len(),
{
    if table.len() == 0 {
        table
    } else {
        let pre = sessions_of(table.drop_last(), pid);
        if table.last().patient_id == Some(pid) {
            pre.push(table.last())
        } else {
            pre
        }
    }
}

/// Collects the patient's sessions, in table order.
pub fn filter_sessions(table: &Vec<Session>, pid: i64) -> (r: Vec<Session>)
    ensures
        r@ == sessions_of(table@, pid),
{
    let mut out: Vec<Session> = Vec::new();
    let mut i: usize = 0;
    while i < table.len()
        invariant
            i <= table.len(),
            out@ == sessions_of(table@.take(i as int), pid),
        decreases table.len() - i,
    {
        proof {
            assert(table@.take(i + 1).drop_last() =~= table@.take(i as int));
            assert(table@.take(i + 1).last() == table@[i as int]);
        }
        let matched = match table[i].patient_id {
            Some(p) => p == pid,
            None => false,
        };
        if matched {
            out.push(table[i].clone());
        }
        i = i + 1;
    }
    proof {
        assert(table@.take(table@.len() as int) =~= table@);
    }
    out
}

/// Sorts sessions into listing order: by date, then identity, both
/// descending.
pub fn sort_sessions_desc(v: Vec<Session>) -> (r: Vec<Session>)
    ensures
        r@.to_multiset() == v@.to_multiset(),
        sessions_sorted_desc(r@),
{
    let mut rest = v;
    let mut out: Vec<Session> = Vec::new();
    proof {
        broadcast use vstd::multiset::group_multiset_axioms;
        broadcast use vstd::seq_lib::group_to_multiset_ensures;

        assert(out@.to_multiset().len() == 0);
        assert(out@.to_multiset().add(rest@.to_multiset()) =~= v@.to_multiset());
    }
    while rest.len() > 0
        invariant
            out@.to_multiset().add(rest@.to_multiset()) == v@.to_multiset(),
            sessions_sorted_desc(out@),
            forall|q: int, w: int|
                0 <= q < out@.len() && 0 <= w < rest@.len() ==> date_id_ge(
                    #[trigger] out@[q],
                    #[trigger] rest@[w],
                ),
        decreases rest.len(),
    {
        let mut m: usize = 0;
        let mut t: usize = 1;
        while t < rest.len()
            invariant
                m < t <= rest@.len(),
                rest@.len() > 0,
                forall|w: int| 0 <= w < t ==> date_id_ge(rest@[m as int], #[trigger] rest@[w]),
            decreases rest.len() - t,
        {
            if session_later(&rest[t], &rest[m]) {
                m = t;
            }
            t = t + 1;
        }
        let ghost rest_old = rest@;
        let ghost out_old = out@;
        let x = rest.remove(m);
        out.push(x);
        proof {
            broadcast use vstd::seq_lib::group_to_multiset_ensures;
            broadcast use vstd::multiset::group_multiset_axioms;

            assert(rest@.to_multiset() =~= rest_old.to_multiset().remove(x));
            assert(out@.to_multiset() =~= out_old.to_multiset().insert(x));
            assert(rest_old.to_multiset().contains(x));
            assert(out@.to_multiset().add(rest@.to_multiset()) =~= out_old.to_multiset().add(
                rest_old.to_multiset(),
            ));
            assert forall|i: int, j: int|
                0 <= i < j < out@.len() implies date_id_ge(out@[i], out@[j]) by {
                if j < out@.len() - 1 {
                    assert(date_id_ge(out_old[i], out_old[j]));
                }
            }
            assert(sessions_sorted_desc(out@));
            assert forall|q: int, w: int|
                0 <= q < out@.len() && 0 <= w < rest@.len() implies date_id_ge(
                #[trigger] out@[q],
                #[trigger] rest@[w],
            ) by {
                let w0: int = if w < m {
                    w
                } else {
                    w + 1
                };
                assert(rest@[w] == rest_old[w0]);
                if q < out@.len() - 1 {
                    assert(date_id_ge(out_old[q], rest_old[w0]));
                } else {
                    assert(date_id_ge(rest_old[m as int], rest_old[w0]));
                }
            }
        }
    }
    proof {
        broadcast use vstd::multiset::group_multiset_axioms;
        broadcast use vstd::seq_lib::group_to_multiset_ensures;

        assert(rest@.len() == 0);
        assert(rest@.to_multiset().len() == 0);
        assert(out@.to_multiset() =~= v@.to_multiset());
    }
    out
}

} // verus!
