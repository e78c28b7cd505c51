//! The entry store: the table of entries behind the service's seven data
//! operations, with the sentinel-string conventions of its responses.

use vstd::prelude::*;
use vstd::string::StrSliceExecFns;
use vstd::string::StringExecFns;
use crate::codec::{dec_seq, json_concat, json_of, serialize_entry};
use crate::codec::lemma_json_concat_head;
use crate::fingerprint::{fingerprint, fingerprint_digest};
use crate::models::{Entry, EntryModel, NewEntry};

verus! {

/// Relies on std::time::SystemTime::now: the wall clock, read once and
/// reduced to whole microseconds since the Unix epoch (zero for a clock
/// standing before the epoch). No two reads are related.
#[verifier::external_body]
pub fn now_micros() -> (r: u64) {
    match std::time::SystemTime::now().duration_since(std::time::UNIX_EPOCH) {
        Ok(d) => d.as_micros() as u64,
        Err(_) => 0,
    }
}

/// The entry the store writes for payload `p` at timestamp `now` under
/// identifier `id`: the fingerprint is taken from the very payload and
/// timestamp that are stored.
pub open spec fn written_entry(id: i32, p: Seq<char>, now: u64) -> EntryModel {
    EntryModel { id, opt: Some(p), num: now, hash: dec_seq(fingerprint_digest(p, now) as nat) }
}

/// Whether some stored entry carries identifier `id`.
pub open spec fn has_id(m: Seq<EntryModel>, id: int) -> bool {
    exists|k: int| 0 <= k < m.len() && (#[trigger] m[k]).id == id
}

/// Whether an entry's timestamp falls in the window `[start, end)`.
pub open spec fn in_window(e: EntryModel, start: u64, end: u64) -> bool {
    start <= e.num && e.num < end
}

/// The stored entries whose timestamps fall in the window, in store order.
pub open spec fn window_matches(m: Seq<EntryModel>, start: u64, end: u64) -> Seq<EntryModel> {
    m.filter(|e: EntryModel| in_window(e, start, end))
}

/// The window matches capped at the fixed page size of fifty rows.
pub open spec fn page_of(m: Seq<EntryModel>, start: u64, end: u64) -> Seq<EntryModel> {
    if window_matches(m, start, end).len() <= 50 {
        window_matches(m, start, end)
    } else {
        window_matches(m, start, end).take(50)
    }
}

/// The body a range query answers with: the concatenated serialized page,
/// or the sentinel `Error!` when no row falls in the window.
pub open spec fn range_response(m: Seq<EntryModel>, start: u64, end: u64) -> Seq<char> {
    if window_matches(m, start, end).len() == 0 {
        "Error!"@
    } else {
        json_concat(page_of(m, start, end))
    }
}

/// The stored entries without those carrying identifier `id`.
pub open spec fn without_id(m: Seq<EntryModel>, id: int) -> Seq<EntryModel> {
    m.filter(|e: EntryModel| e.id != id)
}

/// The stored entries without those falling in the window `[start, end)`.
pub open spec fn outside_window(m: Seq<EntryModel>, start: u64, end: u64) -> Seq<EntryModel> {
    m.filter(|e: EntryModel| !in_window(e, start, end))
}

/// What holds of every stored entry: an identifier assigned below the
/// store's counter, a payload present, and a fingerprint that reflects the
/// entry's current payload and timestamp.
pub open spec fn wf_entry(e: EntryModel, bound: int) -> bool {
    &&& 1 <= e.id < bound
    &&& e.opt is Some
    &&& e.hash == dec_seq(fingerprint_digest(e.opt->0, e.num) as nat)
}

/// Well-formedness of a table image under an identifier bound: every entry
/// is well formed and no identifier repeats.
pub open spec fn wf_seq(m: Seq<EntryModel>, bound: int) -> bool {
    &&& forall|k: int| 0 <= k < m.len() ==> wf_entry(#[trigger] m[k], bound)
    &&& forall|k1: int, k2: int|
        0 <= k1 < k2 < m.len() ==> (#[trigger] m[k1]).id != (#[trigger] m[k2]).id
}

/// The entry table and its identifier counter. Identifiers are assigned
/// once, ascending from one, and never reused; each fingerprint reflects
/// the entry's current payload and timestamp.
pub struct EntryStore {
    entries: Vec<Entry>,
    next_id: i32,
}

impl View for EntryStore {
    type V = Seq<EntryModel>;

    closed spec fn view(&self) -> Seq<EntryModel> {
        self.entries@.map_values(|e: Entry| e@)
    }
}

impl EntryStore {
    /// The identifier the next created entry will receive.
    pub closed spec fn fresh_id(&self) -> int {
        self.next_id as int
    }

    /// The store's invariant: counter in range, entries well formed under
    /// it, identifiers distinct.
    pub open spec fn wf(&self) -> bool {
        &&& 1 <= self.fresh_id() <= i32::MAX
        &&& wf_seq(self@, self.fresh_id())
    }

    /// An empty store.
    pub fn new() -> (s: EntryStore)
        ensures
            s.wf(),
            s@ =~= Seq::<EntryModel>::empty(),
            s.fresh_id() == 1,
    {
        EntryStore { entries: Vec::new(), next_id: 1 }
    }
}

/// Number of entries currently stored.
pub fn get_count(s: &EntryStore) -> (n: usize)
    ensures
        n == s@.len(),
{
    s.entries.len()
}

/// Inserts a new entry carrying payload `o` at timestamp `now` and returns
/// its serialized form. The entry receives the next identifier, and the
/// timestamp hashed into its fingerprint is the timestamp stored.
pub fn create_at(s: &mut EntryStore, o: &str, now: u64) -> (r: String)
    requires
        old(s).wf(),
        old(s).fresh_id() < i32::MAX,
    ensures
        final(s).wf(),
        final(s)@ =~= old(s)@.push(written_entry(old(s).fresh_id() as i32, o@, now)),
        final(s).fresh_id() == old(s).fresh_id() + 1,
        r@ == json_of(written_entry(old(s).fresh_id() as i32, o@, now)),
{
    let hash = fingerprint(o, now);
    let ne = NewEntry { opt: o, num: now, hash: hash.as_str() };
    let e = Entry {
        id: s.next_id,
        opt: Some(String::from_str(ne.opt)),
        num: ne.num,
        hash: String::from_str(ne.hash),
    };
    let r = serialize_entry(&e);
    s.entries.push(e);
    s.next_id = s.next_id + 1;
    proof {
        assert(s@ =~= old(s)@.push(written_entry(old(s).fresh_id() as i32, o@, now)));
        assert forall|k: int| 0 <= k < s@.len() implies wf_entry(#[trigger] s@[k], s.fresh_id()) by {
            if k < old(s)@.len() {
                assert(wf_entry(old(s)@[k], old(s).fresh_id()));
            }
        }
    }
    r
}

/// Creates an entry carrying payload `o` at the current wall-clock time and
/// returns its serialized form. The timestamp stored and the timestamp
/// hashed are one and the same captured value.
pub fn create_entry(s: &mut EntryStore, o: &str) -> (r: String)
    requires
        old(s).wf(),
        old(s).fresh_id() < i32::MAX,
    ensures
        final(s).wf(),
        final(s).fresh_id() == old(s).fresh_id() + 1,
        exists|now: u64|
            {
                &&& #[trigger] written_entry(old(s).fresh_id() as i32, o@, now)
                    == final(s)@.last()
                &&& final(s)@ =~= old(s)@.push(written_entry(old(s).fresh_id() as i32, o@, now))
                &&& r@ == json_of(written_entry(old(s).fresh_id() as i32, o@, now))
            },
{
    let now = now_micros();
    create_at(s, o, now)
}

/// Serialized form of the entry carrying identifier `i`, or the sentinel
/// `Error` when no entry carries it.
pub fn get_entry(s: &EntryStore, i: i32) -> (r: String)
    requires
        s.wf(),
    ensures
        has_id(s@, i as int) ==> exists|k: int|
            0 <= k < s@.len() && (#[trigger] s@[k]).id == i as int && r@ == json_of(s@[k]),
        !has_id(s@, i as int) ==> r@ == "Error"@,
{
    let n = s.entries.len();
    let mut j: usize = 0;
    while j < n
        invariant
            s.wf(),
            n == s@.len(),
            j <= n,
            forall|k: int| 0 <= k < j ==> (#[trigger] s@[k]).id != i as int,
        decreases n - j,
    {
        if s.entries[j].id == i {
            proof {
                assert(s@[j as int] == s.entries@[j as int]@);
                assert(wf_entry(s@[j as int], s.fresh_id()));
            }
            let r = serialize_entry(&s.entries[j]);
            return r;
        }
        j = j + 1;
    }
    String::from_str("Error")
}

/// Filtering keeps well-formedness: what remains is well formed and
/// distinct, since every kept element is drawn from the original run.
proof fn lemma_wf_seq_filter(m: Seq<EntryModel>, pred: spec_fn(EntryModel) -> bool, bound: int)
    requires
        wf_seq(m, bound),
    ensures
        wf_seq(m.filter(pred), bound),
        forall|x: int|
            0 <= x < m.filter(pred).len() ==> m.contains(#[trigger] m.filter(pred)[x]),
    decreases m.len(),
{
    reveal_with_fuel(Seq::<_>::filter, 2);
    if m.len() > 0 {
        let d = m.drop_last();
        assert(wf_seq(d, bound));
        lemma_wf_seq_filter(d, pred, bound);
        assert forall|x: int|
            0 <= x < d.filter(pred).len() implies m.contains(#[trigger] d.filter(pred)[x]) by {
            let idx = choose|idx: int| 0 <= idx < d.len() && d[idx] == d.filter(pred)[x];
            assert(m[idx] == d.filter(pred)[x]);
        }
        if pred(m.last()) {
            assert(m.filter(pred) == d.filter(pred).push(m.last()));
            assert forall|x: int|
                0 <= x < d.filter(pred).len() implies (#[trigger] d.filter(pred)[x]).id
                != m.last().id by {
                let idx = choose|idx: int| 0 <= idx < d.len() && d[idx] == d.filter(pred)[x];
                assert(m[idx].id != m[m.len() - 1].id);
            }
            assert(m.contains(m.last()));
        }
    }
}

/// A filter that rejects nothing leaves the run unchanged.
proof fn lemma_filter_all_kept(m: Seq<EntryModel>, pred: spec_fn(EntryModel) -> bool)
    requires
        forall|k: int| 0 <= k < m.len() ==> pred(#[trigger] m[k]),
    ensures
        m.filter(pred) =~= m,
    decreases m.len(),
{
    reveal_with_fuel(Seq::<_>::filter, 2);
    if m.len() > 0 {
        lemma_filter_all_kept(m.drop_last(), pred);
    }
}

/// Removing identifier `id` from a run whose only match stands at `j`
/// deletes exactly that element.
proof fn lemma_without_id_remove(m: Seq<EntryModel>, id: int, j: int)
    requires
        0 <= j < m.len(),
        m[j].id == id,
        forall|k: int| 0 <= k < m.len() && k != j ==> (#[trigger] m[k]).id != id,
    ensures
        without_id(m, id) =~= m.remove(j),
    decreases m.len(),
{
    let pred = |e: EntryModel| e.id != id;
    reveal_with_fuel(Seq::<_>::filter, 2);
    if j == m.len() - 1 {
        lemma_filter_all_kept(m.drop_last(), pred);
        assert(m.remove(j) =~= m.drop_last());
    } else {
        lemma_without_id_remove(m.drop_last(), id, j);
        assert(m.drop_last().remove(j).push(m.last()) =~= m.remove(j));
    }
}

/// The concatenated serialized entries of the window `[start, end)`, capped
/// at fifty rows, or the sentinel `Error!` when no row falls in the window.
pub fn get_entries(s: &EntryStore, start: u64, end: u64) -> (r: String)
    requires
        s.wf(),
    ensures
        r@ == range_response(s@, start, end),
{
    let n = s.entries.len();
    let mut text = String::new();
    let mut matched: usize = 0;
    let mut p: usize = 0;
    while p < n
        invariant
            s.wf(),
            n == s@.len(),
            p <= n,
            matched as int == if window_matches(s@.take(p as int), start, end).len() <= 50 {
                window_matches(s@.take(p as int), start, end).len() as int
            } else {
                50int
            },
            text@ == json_concat(page_of(s@.take(p as int), start, end)),
        decreases n - p,
    {
        let ghost w_old = window_matches(s@.take(p as int), start, end);
        let ghost w_new = window_matches(s@.take(p + 1), start, end);
        proof {
            assert(s@[p as int] == s.entries@[p as int]@);
            assert(wf_entry(s@[p as int], s.fresh_id()));
            assert(s@.take(p + 1).drop_last() =~= s@.take(p as int));
            assert(s@.take(p + 1).last() == s@[p as int]);
        }
        let e_num = s.entries[p].num;
        if start <= e_num && e_num < end && matched < 50 {
            let ser = serialize_entry(&s.entries[p]);
            text.append(ser.as_str());
            matched = matched + 1;
            proof {
                reveal_with_fuel(Seq::<_>::filter, 2);
                assert(w_new == w_old.push(s@[p as int]));
                assert(w_old.len() < 50);
                assert(page_of(s@.take(p as int), start, end) == w_old);
                assert(page_of(s@.take(p + 1), start, end) == w_new);
                assert(w_new.drop_last() =~= w_old);
                assert(json_concat(w_new) == json_concat(w_old) + json_of(s@[p as int]));
            }
        } else {
            proof {
                reveal_with_fuel(Seq::<_>::filter, 2);
                if start <= s@[p as int].num && s@[p as int].num < end {
                    assert(w_new == w_old.push(s@[p as int]));
                    assert(w_old.len() >= 50);
                    assert(w_new.len() > 50);
                    assert(w_new.take(50) =~= w_old.take(50));
                    if w_old.len() == 50 {
                        assert(w_old.take(50) =~= w_old);
                    }
                    assert(page_of(s@.take(p + 1), start, end) == page_of(
                        s@.take(p as int),
                        start,
                        end,
                    ));
                } else {
                    assert(w_new == w_old);
                }
            }
        }
        p = p + 1;
    }
    proof {
        assert(s@.take(n as int) =~= s@);
    }
    if matched == 0 {
        return String::from_str("Error!");
    }
    if text.as_str().is_empty() {
        proof {
            assert(page_of(s@, start, end).len() > 0);
            lemma_json_concat_head(page_of(s@, start, end));
        }
        return String::from_str("Error!");
    }
    text
}

/// Deletes the entry carrying identifier `i` and reports how many rows
/// went: one when the identifier was present, zero when it was not. A
/// missing identifier is a reported outcome, not a failure.
pub fn rm_entry(s: &mut EntryStore, i: i32) -> (r: usize)
    requires
        old(s).wf(),
    ensures
        final(s).wf(),
        final(s).fresh_id() == old(s).fresh_id(),
        final(s)@ =~= without_id(old(s)@, i as int),
        r as int == old(s)@.len() - final(s)@.len(),
        r == if has_id(old(s)@, i as int) {
            1usize
        } else {
            0usize
        },
{
    let n = s.entries.len();
    let mut j: usize = 0;
    while j < n
        invariant
            *s == *old(s),
            n == s@.len(),
            j <= n,
            s.wf(),
            forall|k: int| 0 <= k < j ==> (#[trigger] s@[k]).id != i as int,
        decreases n - j,
    {
        if s.entries[j].id == i {
            let ghost pre = s@;
            let _removed = s.entries.remove(j);
            proof {
                assert(s@ =~= pre.remove(j as int));
                assert forall|k: int| 0 <= k < pre.len() && k != j implies (#[trigger] pre[k]).id
                    != i as int by {
                    if k > j {
                        assert(pre[j as int].id != pre[k].id);
                    }
                }
                lemma_without_id_remove(pre, i as int, j as int);
                assert forall|k: int| 0 <= k < s@.len() implies wf_entry(
                    #[trigger] s@[k],
                    s.fresh_id(),
                ) by {
                    if k < j {
                        assert(wf_entry(pre[k], old(s).fresh_id()));
                    } else {
                        assert(wf_entry(pre[k + 1], old(s).fresh_id()));
                    }
                }
            }
            return 1;
        }
        j = j + 1;
    }
    proof {
        lemma_filter_all_kept(s@, |e: EntryModel| e.id != i as int);
    }
    0
}

/// Deletes every entry of the window `[start, end)` and reports how many
/// rows went.
pub fn rm_entries(s: &mut EntryStore, start: u64, end: u64) -> (r: usize)
    requires
        old(s).wf(),
    ensures
        final(s).wf(),
        final(s).fresh_id() == old(s).fresh_id(),
        final(s)@ =~= outside_window(old(s)@, start, end),
        r as int == old(s)@.len() - final(s)@.len(),
{
    let n = s.entries.len();
    let mut j: usize = n;
    let mut removed: usize = 0;
    while j > 0
        invariant
            j <= n,
            n == old(s)@.len(),
            s.fresh_id() == old(s).fresh_id(),
            old(s).wf(),
            s@ =~= old(s)@.take(j as int) + old(s)@.skip(j as int).filter(
                |e: EntryModel| !in_window(e, start, end),
            ),
            removed as int == old(s)@.len() - s@.len(),
        decreases j,
    {
        let idx = j - 1;
        proof {
            assert(s@[idx as int] == old(s)@[idx as int]);
            assert(s@[idx as int] == s.entries@[idx as int]@);
            assert(old(s)@.skip(idx as int) =~= seq![old(s)@[idx as int]] + old(s)@.skip(
                j as int,
            ));
            Seq::filter_distributes_over_add(
                seq![old(s)@[idx as int]],
                old(s)@.skip(j as int),
                |e: EntryModel| !in_window(e, start, end),
            );
        }
        let e_num = s.entries[idx].num;
        if start <= e_num && e_num < end {
            let ghost pre = s@;
            let _removed_entry = s.entries.remove(idx);
            removed = removed + 1;
            proof {
                reveal_with_fuel(Seq::<_>::filter, 2);
                assert(s@ =~= pre.remove(idx as int));
                assert(seq![old(s)@[idx as int]].filter(
                    |e: EntryModel| !in_window(e, start, end),
                ) =~= Seq::<EntryModel>::empty());
                assert(s@ =~= old(s)@.take(idx as int) + old(s)@.skip(idx as int).filter(
                    |e: EntryModel| !in_window(e, start, end),
                ));
            }
        } else {
            proof {
                reveal_with_fuel(Seq::<_>::filter, 2);
                assert(seq![old(s)@[idx as int]].filter(
                    |e: EntryModel| !in_window(e, start, end),
                ) =~= seq![old(s)@[idx as int]]);
                assert(s@ =~= old(s)@.take(idx as int) + old(s)@.skip(idx as int).filter(
                    |e: EntryModel| !in_window(e, start, end),
                ));
            }
        }
        j = idx;
    }
    proof {
        assert(old(s)@.skip(0) =~= old(s)@);
        assert(s@ =~= outside_window(old(s)@, start, end));
        lemma_wf_seq_filter(
            old(s)@,
            |e: EntryModel| !in_window(e, start, end),
            old(s).fresh_id(),
        );
    }
    removed
}

/// Rewrites the entry carrying identifier `i` to hold payload `o` at
/// timestamp `now`, re-fingerprinting it from that same payload and
/// timestamp, and returns its new serialized form; when no entry carries
/// `i`, leaves the store unchanged and returns the sentinel `Error!`.
pub fn edit_at(s: &mut EntryStore, i: i32, o: &str, now: u64) -> (r: String)
    requires
        old(s).wf(),
    ensures
        final(s).wf(),
        final(s).fresh_id() == old(s).fresh_id(),
        has_id(old(s)@, i as int) ==> exists|k: int|
            0 <= k < old(s)@.len() && (#[trigger] old(s)@[k]).id == i as int && final(s)@
                =~= old(s)@.update(k, written_entry(i, o@, now)) && r@ == json_of(
                written_entry(i, o@, now),
            ),
        !has_id(old(s)@, i as int) ==> final(s)@ =~= old(s)@ && r@ == "Error!"@,
{
    let n = s.entries.len();
    let mut j: usize = 0;
    while j < n
        invariant
            *s == *old(s),
            n == s@.len(),
            j <= n,
            s.wf(),
            forall|k: int| 0 <= k < j ==> (#[trigger] s@[k]).id != i as int,
        decreases n - j,
    {
        if s.entries[j].id == i {
            proof {
                assert(s@[j as int] == s.entries@[j as int]@);
                assert(wf_entry(s@[j as int], s.fresh_id()));
            }
            let hash = fingerprint(o, now);
            let e2 = Entry { id: i, opt: Some(String::from_str(o)), num: now, hash };
            proof {
                assert(e2@ == written_entry(i, o@, now));
            }
            let r = serialize_entry(&e2);
            let ghost pre = s@;
            let _old_entry = s.entries.remove(j);
            s.entries.insert(j, e2);
            proof {
                assert(s@ =~= pre.update(j as int, written_entry(i, o@, now)));
                assert forall|k: int| 0 <= k < s@.len() implies wf_entry(
                    #[trigger] s@[k],
                    s.fresh_id(),
                ) by {
                    assert(wf_entry(pre[k], old(s).fresh_id()));
                }
                assert forall|k1: int, k2: int| 0 <= k1 < k2 < s@.len() implies (
                #[trigger] s@[k1]).id != (#[trigger] s@[k2]).id by {
                    assert(pre[k1].id != pre[k2].id);
                    assert(s@[k1].id == pre[k1].id);
                    assert(s@[k2].id == pre[k2].id);
                }
            }
            return r;
        }
        j = j + 1;
    }
    String::from_str("Error!")
}

/// Rewrites the entry carrying identifier `i` to hold payload `o` at the
/// current wall-clock time; the timestamp stored and the timestamp hashed
/// are one and the same captured value. Returns the new serialized form, or
/// the sentinel `Error!` when no entry carries `i`.
pub fn edit_entry(s: &mut EntryStore, i: i32, o: &str) -> (r: String)
    requires
        old(s).wf(),
    ensures
        final(s).wf(),
        final(s).fresh_id() == old(s).fresh_id(),
        has_id(old(s)@, i as int) ==> exists|k: int, now: u64|
            #![trigger old(s)@.update(k, written_entry(i, o@, now))]
            0 <= k < old(s)@.len() && old(s)@[k].id == i as int && final(s)@ =~= old(s)@.update(
                k,
                written_entry(i, o@, now),
            ) && r@ == json_of(written_entry(i, o@, now)),
        !has_id(old(s)@, i as int) ==> final(s)@ =~= old(s)@ && r@ == "Error!"@,
{
    let now = now_micros();
    edit_at(s, i, o, now)
}

} // verus!
