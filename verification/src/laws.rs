//! The laws the store's operations obey, stated over the table image that
//! the operations' own contracts speak of.

use vstd::prelude::*;
use crate::codec::{dec_seq, json_concat, json_of, lemma_json_concat_head};
use crate::fingerprint::fingerprint_digest;
use crate::models::EntryModel;
use crate::store::{has_id, in_window, page_of, range_response, window_matches, without_id};
use crate::store::written_entry;

verus! {

/// A freshly created entry is found again under its identifier, and under
/// no other: whichever stored entry carries that identifier is the created
/// one, whose payload is the created payload and whose fingerprint is the
/// digest of that payload and the stored timestamp.
pub proof fn lemma_create_then_get(m: Seq<EntryModel>, p: Seq<char>, now: u64, id: i32)
    requires
        !has_id(m, id as int),
    ensures
        has_id(m.push(written_entry(id, p, now)), id as int),
        forall|k: int|
            0 <= k < m.push(written_entry(id, p, now)).len() && (#[trigger] m.push(
                written_entry(id, p, now),
            )[k]).id == id as int ==> m.push(written_entry(id, p, now))[k] == written_entry(
                id,
                p,
                now,
            ),
        written_entry(id, p, now).opt == Some(p),
        written_entry(id, p, now).num == now,
        written_entry(id, p, now).hash == dec_seq(fingerprint_digest(p, now) as nat),
{
    let e = written_entry(id, p, now);
    let m2 = m.push(e);
    assert(m2[m.len() as int] == e);
    assert forall|k: int| 0 <= k < m2.len() && (#[trigger] m2[k]).id == id as int implies m2[k]
        == e by {
        if k < m.len() {
            assert(m2[k] == m[k]);
            assert(has_id(m, id as int));
        }
    }
}

/// An edit rewrites payload, timestamp and fingerprint together, leaves the
/// identifier and every other entry unchanged, and, as long as the clock
/// has not stepped back, never moves the timestamp earlier.
pub proof fn lemma_edit_rewrites(m: Seq<EntryModel>, k: int, p2: Seq<char>, now: u64)
    requires
        0 <= k < m.len(),
        m[k].num <= now,
    ensures
        ({
            let m2 = m.update(k, written_entry(m[k].id, p2, now));
            &&& m2.len() == m.len()
            &&& m2[k].id == m[k].id
            &&& m2[k].opt == Some(p2)
            &&& m2[k].num >= m[k].num
            &&& m2[k].hash == dec_seq(fingerprint_digest(p2, now) as nat)
            &&& forall|x: int| 0 <= x < m.len() && x != k ==> m2[x] == m[x]
        }),
{
}

/// An empty window matches nothing, so the range query answers with the
/// sentinel, whatever the store holds.
pub proof fn lemma_empty_window(m: Seq<EntryModel>, t: u64)
    ensures
        range_response(m, t, t) == "Error!"@,
{
    let pred = |e: EntryModel| in_window(e, t, t);
    assert(m.all(|e: EntryModel| !pred(e)));
    m.lemma_all_neg_filter_empty(pred);
}

/// A window with at least one match answers with a nonempty body that is
/// not the sentinel.
pub proof fn lemma_nonempty_window(m: Seq<EntryModel>, start: u64, end: u64)
    requires
        window_matches(m, start, end).len() > 0,
    ensures
        range_response(m, start, end).len() > 0,
        range_response(m, start, end) != "Error!"@,
{
    let page = page_of(m, start, end);
    assert(page.len() > 0);
    lemma_json_concat_head(page);
    reveal_strlit("Error!");
    assert(range_response(m, start, end)[0] == '{');
}

/// Any stored entry whose timestamp falls in the window makes the range
/// query answer with a nonempty body that is not the sentinel.
pub proof fn lemma_window_hit_response(m: Seq<EntryModel>, start: u64, end: u64, k: int)
    requires
        0 <= k < m.len(),
        in_window(m[k], start, end),
    ensures
        range_response(m, start, end).len() > 0,
        range_response(m, start, end) != "Error!"@,
{
    let pred = |e: EntryModel| in_window(e, start, end);
    m.lemma_filter_contains(pred, k);
    assert(window_matches(m, start, end).contains(m[k]));
    lemma_nonempty_window(m, start, end);
}

/// When exactly one stored entry falls in the window, the range query
/// answers with precisely that entry's serialized form.
pub proof fn lemma_single_match_response(m: Seq<EntryModel>, start: u64, end: u64, e: EntryModel)
    requires
        window_matches(m, start, end) == seq![e],
    ensures
        range_response(m, start, end) == json_of(e),
{
    reveal_with_fuel(json_concat, 2);
    assert(page_of(m, start, end) == seq![e]);
    assert(seq![e].drop_last() =~= Seq::<EntryModel>::empty());
    assert(json_concat(seq![e]) =~= json_of(e));
}

/// After a delete of an identifier no entry carries it, so a subsequent
/// fetch of that identifier answers with the sentinel.
pub proof fn lemma_delete_then_get(m: Seq<EntryModel>, id: i32)
    ensures
        !has_id(without_id(m, id as int), id as int),
{
    let pred = |e: EntryModel| e.id != id as int;
    let out = without_id(m, id as int);
    if has_id(out, id as int) {
        let k = choose|k: int| 0 <= k < out.len() && (#[trigger] out[k]).id == id as int;
        m.lemma_filter_pred(pred, k);
        assert(pred(out[k]));
    }
}

} // verus!
