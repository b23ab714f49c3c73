//! Session item replacer.
//!
//! Saving a session replaces its item set wholesale: every stored item
//! of the session is deleted, and the submitted items are inserted in
//! list order.  An entry whose quantity is not positive and whose name
//! is blank is skipped; every inserted item is stamped with the
//! zero-based position it had in the submitted list.

use vstd::prelude::*;
use crate::balance::item_is_active;
use crate::model::{SessionItem, MAX_SESSION_ITEMS};

verus! {

/// The whitespace characters the blank-name test recognises: the
/// Unicode `White_Space` set, as `str::trim` strips it.
pub open spec fn is_space(c: char) -> bool {
    ||| c == '\u{0009}'
    ||| c == '\u{000A}'
    ||| c == '\u{000B}'
    ||| c == '\u{000C}'
    ||| c == '\u{000D}'
    ||| c == '\u{0020}'
    ||| c == '\u{0085}'
    ||| c == '\u{00A0}'
    ||| c == '\u{1680}'
    ||| c == '\u{2000}'
    ||| c == '\u{2001}'
    ||| c == '\u{2002}'
    ||| c == '\u{2003}'
    ||| c == '\u{2004}'
    ||| c == '\u{2005}'
    ||| c == '\u{2006}'
    ||| c == '\u{2007}'
    ||| c == '\u{2008}'
    ||| c == '\u{2009}'
    ||| c == '\u{200A}'
    ||| c == '\u{2028}'
    ||| c == '\u{2029}'
    ||| c == '\u{202F}'
    ||| c == '\u{205F}'
    ||| c == '\u{3000}'
}

/// Executable test for one whitespace character.
pub fn is_space_char(c: char) -> (r: bool)
    ensures
        r == is_space(c),
{
    match c {
        '\u{0009}' | '\u{000A}' | '\u{000B}' | '\u{000C}' | '\u{000D}' | '\u{0020}'
            | '\u{0085}' | '\u{00A0}' | '\u{1680}' | '\u{2000}' | '\u{2001}' | '\u{2002}'
            | '\u{2003}' | '\u{2004}' | '\u{2005}' | '\u{2006}' | '\u{2007}' | '\u{2008}'
            | '\u{2009}' | '\u{200A}' | '\u{2028}' | '\u{2029}' | '\u{202F}' | '\u{205F}'
            | '\u{3000}' => true,
        _ => false,
    }
}

/// A text is blank when it has no character beyond whitespace.
pub open spec fn blank_text(s: Seq<char>) -> bool {
    forall|i: int| 0 <= i < s.len() ==> is_space(#[trigger] s[i])
}

/// Whether a string is empty or all whitespace.
pub fn is_blank(s: &str) -> (r: bool)
    ensures
        r == blank_text(s@),
{
    let n = s.unicode_len();
    let mut i: usize = 0;
    while i < n
        invariant
            n == s@.len(),
            i <= n,
            forall|j: int| 0 <= j < i ==> is_space(#[trigger] s@[j]),
        decreases n - i,
    {
        let c = s.get_char(i);
        if !is_space_char(c) {
            return false;
        }
        i = i + 1;
    }
    true
}

/// A submitted entry is kept when it has a positive quantity or a
/// non-blank name.
pub open spec fn kept_item(it: SessionItem) -> bool {
    it.quantity > 0 || !blank_text(it.name@)
}

/// The row stored for a kept entry: bound to the session, stamped with
/// a fresh identity and its position in the submitted list, its active
/// flag made explicit.
pub open spec fn stored_item(it: SessionItem, sid: i64, iid: int, pos: int) -> SessionItem {
    SessionItem {
        id: Some(iid as i64),
        session_id: Some(sid),
        name: it.name,
        unit_price: it.unit_price,
        quantity: it.quantity,
        subtotal: it.subtotal,
        is_active: Some(item_is_active(it)),
        tooth_number: it.tooth_number,
        procedure_notes: it.procedure_notes,
        procedure_template_id: it.procedure_template_id,
        sort_order: Some(pos as i64),
    }
}

/// The rows stored for a submitted item list, with the next free item
/// identity after them.  Identities are handed out in list order, to
/// kept entries only.
pub open spec fn build_items(items: Seq<SessionItem>, sid: i64, next_iid: int) -> (Seq<
    SessionItem,
>, int)
    decreases items.len(),
{
    if items.len() == 0 {
        (Seq::empty(), next_iid)
    } else {
        let (pre, nid) = build_items(items.drop_last(), sid, next_iid);
        if kept_item(items.last()) {
            (pre.push(stored_item(items.last(), sid, nid, items.len() - 1)), nid + 1)
        } else {
            (pre, nid)
        }
    }
}

/// Identities only move forward, and by at most one per entry.
pub proof fn lemma_build_items_iid(items: Seq<SessionItem>, sid: i64, next_iid: int)
    ensures
        next_iid <= build_items(items, sid, next_iid).1 <= next_iid + items.len(),
        build_items(items, sid, next_iid).0.len() <= items.len(),
    decreases items.len(),
{
    if items.len() > 0 {
        lemma_build_items_iid(items.drop_last(), sid, next_iid);
    }
}

/// The items of one session, in table order — which is submitted-list
/// order, since a save inserts them that way.
pub open spec fn items_of_session(table: Seq<SessionItem>, sid: i64) -> Seq<SessionItem>
    decreases table.len(),
{
    if table.len() == 0 {
        table
    } else {
        let pre = items_of_session(table.drop_last(), sid);
        if table.last().session_id == Some(sid) {
            pre.push(table.last())
        } else {
            pre
        }
    }
}

/// Collects the items of one session, in listing order: stamped
/// position, then identity, both ascending.
pub fn collect_session_items(table: &Vec<SessionItem>, sid: i64) -> (r: Vec<SessionItem>)
    ensures
        r@.to_multiset() == items_of_session(table@, sid).to_multiset(),
        items_sorted(r@),
{
    let mut out: Vec<SessionItem> = Vec::new();
    let mut i: usize = 0;
    while i < table.len()
        invariant
            i <= table.len(),
            out@ == items_of_session(table@.take(i as int), sid),
        decreases table.len() - i,
    {
        proof {
            assert(table@.take(i + 1).drop_last() =~= table@.take(i as int));
            assert(table@.take(i + 1).last() == table@[i as int]);
        }
        let matched = match table[i].session_id {
            Some(s) => s == sid,
            None => false,
        };
        if matched {
            out.push(table[i].clone());
        }
        i = i + 1;
    }
    proof {
        assert(table@.take(table@.len() as int) =~= table@);
    }
    sort_items(out)
}

/// The stamped position an item sorts by in a session listing; an
/// absent stamp sorts first, as an ascending scan over a null column
/// would.
pub open spec fn item_pos_key(it: SessionItem) -> int {
    match it.sort_order {
        Some(v) => v as int,
        None => i64::MIN as int - 1,
    }
}

/// The identity that breaks position ties; an absent one sorts first.
pub open spec fn item_id_key(it: SessionItem) -> int {
    match it.id {
        Some(v) => v as int,
        None => i64::MIN as int - 1,
    }
}

/// Whether `a` comes no later than `b` in a session's item listing:
/// by stamped position, then identity, both ascending.
pub open spec fn item_le(a: SessionItem, b: SessionItem) -> bool {
    item_pos_key(a) < item_pos_key(b) || (item_pos_key(a) == item_pos_key(b) && item_id_key(a)
        <= item_id_key(b))
}

/// An item listing in ascending stamp order.
pub open spec fn items_sorted(s: Seq<SessionItem>) -> bool {
    forall|i: int, j: int| 0 <= i < j < s.len() ==> item_le(#[trigger] s[i], #[trigger] s[j])
}

/// Sorts items into listing order: stamped position, then identity,
/// both ascending.
pub fn sort_items(v: Vec<SessionItem>) -> (r: Vec<SessionItem>)
    ensures
        r@.to_multiset() == v@.to_multiset(),
        items_sorted(r@),
{
    let mut rest = v;
    let mut out: Vec<SessionItem> = Vec::new();
    proof {
        broadcast use vstd::multiset::group_multiset_axioms;
        broadcast use vstd::seq_lib::group_to_multiset_ensures;

        assert(out@.to_multiset().len() == 0);
        assert(out@.to_multiset().add(rest@.to_multiset()) =~= v@.to_multiset());
    }
    while rest.len() > 0
        invariant
            out@.to_multiset().add(rest@.to_multiset()) == v@.to_multiset(),
            items_sorted(out@),
            forall|q: int, w: int|
                0 <= q < out@.len() && 0 <= w < rest@.len() ==> item_le(
                    #[trigger] out@[q],
                    #[trigger] rest@[w],
                ),
        decreases rest.len(),
    {
        let mut m: usize = 0;
        let mut t: usize = 1;
        while t < rest.len()
            invariant
                m < t <= rest@.len(),
                rest@.len() > 0,
                forall|w: int| 0 <= w < t ==> item_le(rest@[m as int], #[trigger] rest@[w]),
            decreases rest.len() - t,
        {
            let a = &rest[t];
            let b = &rest[m];
            let pa: i128 = match a.sort_order {
                Some(v) => v as i128,
                None => i64::MIN as i128 - 1,
            };
            let pb: i128 = match b.sort_order {
                Some(v) => v as i128,
                None => i64::MIN as i128 - 1,
            };
            let ia: i128 = match a.id {
                Some(v) => v as i128,
                None => i64::MIN as i128 - 1,
            };
            let ib: i128 = match b.id {
                Some(v) => v as i128,
                None => i64::MIN as i128 - 1,
            };
            if pa < pb || (pa == pb && ia < ib) {
                m = t;
            }
            t = t + 1;
        }
        let ghost rest_old = rest@;
        let ghost out_old = out@;
        let x = rest.remove(m);
        out.push(x);
        proof {
            broadcast use vstd::seq_lib::group_to_multiset_ensures;
            broadcast use vstd::multiset::group_multiset_axioms;

            assert(rest@.to_multiset() =~= rest_old.to_multiset().remove(x));
            assert(out@.to_multiset() =~= out_old.to_multiset().insert(x));
            assert(rest_old.to_multiset().contains(x));
            assert(out@.to_multiset().add(rest@.to_multiset()) =~= out_old.to_multiset().add(
                rest_old.to_multiset(),
            ));
            assert forall|i: int, j: int|
                0 <= i < j < out@.len() implies item_le(out@[i], out@[j]) by {
                if j < out@.len() - 1 {
                    assert(item_le(out_old[i], out_old[j]));
                }
            }
            assert(items_sorted(out@));
            assert forall|q: int, w: int|
                0 <= q < out@.len() && 0 <= w < rest@.len() implies item_le(
                #[trigger] out@[q],
                #[trigger] rest@[w],
            ) by {
                let w0: int = if w < m {
                    w
                } else {
                    w + 1
                };
                assert(rest@[w] == rest_old[w0]);
                if q < out@.len() - 1 {
                    assert(item_le(out_old[q], rest_old[w0]));
                } else {
                    assert(item_le(rest_old[m as int], rest_old[w0]));
                }
            }
        }
    }
    proof {
        broadcast use vstd::multiset::group_multiset_axioms;
        broadcast use vstd::seq_lib::group_to_multiset_ensures;

        assert(rest@.to_multiset().len() == 0);
        assert(out@.to_multiset() =~= v@.to_multiset());
    }
    out
}

/// The item table with every item of the given session deleted.
pub open spec fn items_without(table: Seq<SessionItem>, sid: i64) -> Seq<SessionItem>
    decreases table.len(),
{
    if table.len() == 0 {
        table
    } else {
        let pre = items_without(table.drop_last(), sid);
        if table.last().session_id == Some(sid) {
            pre
        } else {
            pre.push(table.last())
        }
    }
}

/// Replaces a session's items in the item table: deletes every item of
/// the session, then appends the given rows.
pub fn replace_items_table(table: &Vec<SessionItem>, sid: i64, new_items: Vec<SessionItem>) -> (r:
    Vec<SessionItem>)
    ensures
        r@ == items_without(table@, sid) + new_items@,
{
    let mut out: Vec<SessionItem> = Vec::new();
    let mut i: usize = 0;
    while i < table.len()
        invariant
            i <= table.len(),
            out@ == items_without(table@.take(i as int), sid),
        decreases table.len() - i,
    {
        proof {
            assert(table@.take(i + 1).drop_last() =~= table@.take(i as int));
            assert(table@.take(i + 1).last() == table@[i as int]);
        }
        let keep = match table[i].session_id {
            Some(s) => s != sid,
            None => true,
        };
        if keep {
            out.push(table[i].clone());
        }
        i = i + 1;
    }
    proof {
        assert(table@.take(table@.len() as int) =~= table@);
    }
    let mut tail = new_items;
    out.append(&mut tail);
    out
}

/// Builds the stored rows for a submitted item list.  Returns the rows
/// and the next free item identity.
pub fn build_stored_items(items: &Vec<SessionItem>, sid: i64, next_iid: i64) -> (r: (Vec<
    SessionItem,
>, i64))
    requires
        items@.len() <= MAX_SESSION_ITEMS,
        1 <= next_iid,
        next_iid + items@.len() <= i64::MAX,
    ensures
        (r.0@, r.1 as int) == build_items(items@, sid, next_iid as int),
{
    let mut out: Vec<SessionItem> = Vec::new();
    let mut iid: i64 = next_iid;
    let mut i: usize = 0;
    while i < items.len()
        invariant
            i <= items.len(),
            items@.len() <= MAX_SESSION_ITEMS,
            1 <= next_iid,
            next_iid + items@.len() <= i64::MAX,
            next_iid <= iid <= next_iid + i,
            (out@, iid as int) == build_items(items@.take(i as int), sid, next_iid as int),
        decreases items.len() - i,
    {
        proof {
            assert(items@.take(i + 1).drop_last() =~= items@.take(i as int));
            assert(items@.take(i + 1).last() == items@[i as int]);
        }
        let it = &items[i];
        let keep = it.quantity > 0 || !is_blank(it.name.as_str());
        if keep {
            let active = match it.is_active {
                Some(b) => b,
                None => it.quantity > 0,
            };
            let row = SessionItem {
                id: Some(iid),
                session_id: Some(sid),
                name: it.name.clone(),
                unit_price: it.unit_price,
                quantity: it.quantity,
                subtotal: it.subtotal,
                is_active: Some(active),
                tooth_number: crate::model::clone_opt_string(&it.tooth_number),
                procedure_notes: crate::model::clone_opt_string(&it.procedure_notes),
                procedure_template_id: it.procedure_template_id,
                sort_order: Some(i as i64),
            };
            proof {
                assert(row == stored_item(items@[i as int], sid, iid as int, i as int));
            }
            out.push(row);
            iid = iid + 1;
        }
        i = i + 1;
    }
    proof {
        assert(items@.take(items@.len() as int) =~= items@);
    }
    (out, iid)
}

} // verus!
