//! Reconciling the cached log with what the device reports.
//!
//! A run of the history command loads the cache, asks the device for every
//! entry after a resume point, lets the device's copy replace the cached
//! one wherever both hold an identifier, and appends the fetched batch to
//! what is left of the cache.

use crate::calendar::CalendarDate;
use crate::entry::{ascending, carries, has_id, ordered, with_id, LogEntry};
use crate::text::joined;
use vstd::prelude::*;

verus! {

/// The largest identifier in the sequence; 0 for the empty sequence.
pub open spec fn max_id(entries: Seq<LogEntry>) -> u32
    decreases entries.len(),
{
    if entries.len() == 0 {
        0
    } else {
        let rest = max_id(entries.drop_last());
        if entries.last().id > rest {
            entries.last().id
        } else {
            rest
        }
    }
}

/// The identifier after which the next fetch starts: the operator's
/// override where one is given, else the largest cached identifier, else 0.
pub open spec fn resume_after(cache: Seq<LogEntry>, start_with: Option<u32>) -> u32 {
    match start_with {
        Some(k) => k,
        None => max_id(cache),
    }
}

/// Holds of the entries whose identifier the batch does not hold.
pub open spec fn not_in(batch: Seq<LogEntry>) -> spec_fn(LogEntry) -> bool {
    |e: LogEntry| !has_id(batch, e.id)
}

/// What stays of the cache once the batch has arrived: the cached entries
/// whose identifier the batch does not hold, in their cached order.
pub open spec fn kept(cache: Seq<LogEntry>, batch: Seq<LogEntry>) -> Seq<LogEntry> {
    cache.filter(not_in(batch))
}

/// The new cache: what stays of the old one, followed by the batch.
pub open spec fn reconciled(cache: Seq<LogEntry>, batch: Seq<LogEntry>) -> Seq<LogEntry> {
    kept(cache, batch) + batch
}

/// Every cached entry that the batch does not replace has a smaller
/// identifier than every entry of the batch.
pub open spec fn cached_precede(cache: Seq<LogEntry>, batch: Seq<LogEntry>) -> bool {
    forall|i: int, j: int|
        0 <= i < cache.len() && 0 <= j < batch.len() && !has_id(batch, (#[trigger] cache[i]).id)
            ==> cache[i].id < (#[trigger] batch[j]).id
}

/// `sorted` holds the entries of `entries` in ascending order of their
/// identifiers, entries with the same identifier in the order they had.
pub open spec fn is_stable_sort_of(sorted: Seq<LogEntry>, entries: Seq<LogEntry>) -> bool {
    &&& ordered(sorted)
    &&& sorted.len() == entries.len()
    &&& forall|id: u32| #[trigger] with_id(sorted, id) == with_id(entries, id)
}

/// Holds of the entries that are not older than the bound.
pub open spec fn not_before(bound: i64) -> spec_fn(LogEntry) -> bool {
    |e: LogEntry| e.time >= bound
}

proof fn lemma_filter_everything(s: Seq<LogEntry>, pred: spec_fn(LogEntry) -> bool)
    requires
        forall|i: int| 0 <= i < s.len() ==> pred(#[trigger] s[i]),
    ensures
        s.filter(pred) == s,
    decreases s.len(),
{
    reveal(Seq::filter);
    if s.len() > 0 {
        lemma_filter_everything(s.drop_last(), pred);
        assert(s.drop_last().push(s.last()) =~= s);
    }
}

proof fn lemma_filter_nothing(s: Seq<LogEntry>, pred: spec_fn(LogEntry) -> bool)
    requires
        forall|i: int| 0 <= i < s.len() ==> !pred(#[trigger] s[i]),
    ensures
        s.filter(pred) == Seq::<LogEntry>::empty(),
    decreases s.len(),
{
    reveal(Seq::filter);
    if s.len() > 0 {
        lemma_filter_nothing(s.drop_last(), pred);
    }
}

/// Filtering keeps the order: what is left of a strictly ascending sequence
/// is strictly ascending, each entry left satisfies the predicate and comes
/// from the sequence, and each entry that satisfies it is left.
proof fn lemma_filter_ascending(s: Seq<LogEntry>, pred: spec_fn(LogEntry) -> bool)
    requires
        ascending(s),
    ensures
        ascending(s.filter(pred)),
        forall|i: int|
            0 <= i < s.filter(pred).len() ==> pred(#[trigger] s.filter(pred)[i]) && s.contains(
                s.filter(pred)[i],
            ),
        forall|j: int| 0 <= j < s.len() && pred(s[j]) ==> s.filter(pred).contains(#[trigger] s[j]),
    decreases s.len(),
{
    reveal(Seq::filter);
    let out = s.filter(pred);
    if s.len() > 0 {
        let front = s.drop_last();
        let sub = front.filter(pred);
        lemma_filter_ascending(front, pred);
        assert forall|i: int| 0 <= i < out.len() implies pred(#[trigger] out[i]) && s.contains(
            out[i],
        ) by {
            if i < sub.len() {
                assert(out[i] == sub[i]);
                assert(front.contains(sub[i]));
                let j = choose|j: int| 0 <= j < front.len() && front[j] == sub[i];
                assert(s[j] == out[i]);
            } else {
                assert(out[i] == s.last());
                assert(s[s.len() - 1] == out[i]);
            }
        }
        assert forall|i: int, j: int| 0 <= i < j < out.len() implies (#[trigger] out[i]).id < (
        #[trigger] out[j]).id by {
            if j < sub.len() {
                assert(out[i] == sub[i] && out[j] == sub[j]);
            } else {
                assert(out[j] == s.last());
                assert(out[i] == sub[i]);
                assert(front.contains(sub[i]));
                let k = choose|k: int| 0 <= k < front.len() && front[k] == sub[i];
                assert(s[k].id < s[s.len() - 1].id);
            }
        }
        assert forall|j: int| 0 <= j < s.len() && pred(s[j]) implies out.contains(
            #[trigger] s[j],
        ) by {
            if j < front.len() {
                assert(front[j] == s[j]);
                assert(sub.contains(front[j]));
                let k = choose|k: int| 0 <= k < sub.len() && sub[k] == front[j];
                assert(out[k] == s[j]);
            } else {
                assert(out[out.len() - 1] == s[j]);
            }
        }
    }
}

/// The largest identifier bounds every identifier of the sequence, and some
/// entry carries it unless the sequence is empty.
pub proof fn lemma_max_id(entries: Seq<LogEntry>)
    ensures
        forall|i: int| 0 <= i < entries.len() ==> (#[trigger] entries[i]).id <= max_id(entries),
        entries.len() > 0 ==> has_id(entries, max_id(entries)),
        entries.len() == 0 ==> max_id(entries) == 0,
    decreases entries.len(),
{
    if entries.len() > 0 {
        let front = entries.drop_last();
        lemma_max_id(front);
        assert forall|i: int| 0 <= i < entries.len() implies (#[trigger] entries[i]).id <= max_id(
            entries,
        ) by {
            if i < front.len() {
                assert(front[i] == entries[i]);
            }
        }
        if entries.last().id > max_id(front) {
            assert(entries[entries.len() - 1].id == max_id(entries));
        } else if front.len() > 0 {
            let i = choose|i: int| 0 <= i < front.len() && (#[trigger] front[i]).id == max_id(front);
            assert(entries[i].id == max_id(entries));
        } else {
            assert(entries[entries.len() - 1].id == max_id(entries));
        }
    }
}

/// In a cache that is in ascending order the last entry carries the largest
/// identifier.
pub proof fn lemma_max_id_is_last(entries: Seq<LogEntry>)
    requires
        ordered(entries),
        entries.len() > 0,
    ensures
        max_id(entries) == entries.last().id,
{
    lemma_max_id(entries);
    let i = choose|i: int| 0 <= i < entries.len() && (#[trigger] entries[i]).id == max_id(entries);
    assert(entries[entries.len() - 1].id <= max_id(entries));
    if i < entries.len() - 1 {
        assert(entries[i].id <= entries[entries.len() - 1].id);
    }
}

/// Where the fetch starts. With an override the fetch starts strictly after
/// it, whatever the cache holds; without one it starts strictly after the
/// largest cached identifier, and at the beginning for an empty cache.
pub proof fn lemma_resume_point(cache: Seq<LogEntry>, start_with: Option<u32>)
    ensures
        start_with matches Some(k) ==> resume_after(cache, start_with) == k,
        start_with is None ==> {
            &&& forall|i: int|
                0 <= i < cache.len() ==> (#[trigger] cache[i]).id <= resume_after(cache, start_with)
            &&& cache.len() > 0 ==> has_id(cache, resume_after(cache, start_with))
            &&& cache.len() == 0 ==> resume_after(cache, start_with) == 0
        },
{
    lemma_max_id(cache);
}

/// The reconciled cache of two strictly ascending sequences is strictly
/// ascending exactly if every cached entry that stays precedes the batch.
pub proof fn lemma_reconciled_ascending(cache: Seq<LogEntry>, batch: Seq<LogEntry>)
    requires
        ascending(cache),
        ascending(batch),
    ensures
        ascending(reconciled(cache, batch)) <==> cached_precede(cache, batch),
{
    let stay = kept(cache, batch);
    let all = reconciled(cache, batch);
    lemma_filter_ascending(cache, not_in(batch));
    if cached_precede(cache, batch) {
        assert forall|i: int, j: int| 0 <= i < j < all.len() implies (#[trigger] all[i]).id < (
        #[trigger] all[j]).id by {
            if j < stay.len() {
                assert(all[i] == stay[i] && all[j] == stay[j]);
            } else if i >= stay.len() {
                assert(all[i] == batch[i - stay.len()] && all[j] == batch[j - stay.len()]);
            } else {
                assert(all[i] == stay[i] && all[j] == batch[j - stay.len()]);
                assert(not_in(batch)(stay[i]) && cache.contains(stay[i]));
                let k = choose|k: int| 0 <= k < cache.len() && cache[k] == stay[i];
                assert(cache[k].id < batch[j - stay.len()].id);
            }
        }
    }
    if ascending(all) {
        assert forall|i: int, j: int|
            0 <= i < cache.len() && 0 <= j < batch.len() && !has_id(
                batch,
                (#[trigger] cache[i]).id,
            ) implies cache[i].id < (#[trigger] batch[j]).id by {
            assert(not_in(batch)(cache[i]));
            assert(stay.contains(cache[i]));
            let k = choose|k: int| 0 <= k < stay.len() && stay[k] == cache[i];
            assert(all[k] == stay[k]);
            assert(all[stay.len() + j] == batch[j]);
            assert(all[k].id < all[stay.len() + j].id);
        }
    }
}

/// A batch that lies wholly after the largest cached identifier, as an
/// incremental fetch without override returns it, replaces nothing: the new
/// cache is the old one followed by the batch, and is strictly ascending
/// where both are.
pub proof fn lemma_incremental_fetch(cache: Seq<LogEntry>, batch: Seq<LogEntry>)
    requires
        forall|j: int| 0 <= j < batch.len() ==> (#[trigger] batch[j]).id > max_id(cache),
    ensures
        reconciled(cache, batch) == cache + batch,
        ascending(cache) && ascending(batch) ==> ascending(reconciled(cache, batch)),
{
    lemma_max_id(cache);
    assert forall|i: int| 0 <= i < cache.len() implies not_in(batch)(#[trigger] cache[i]) by {
        if has_id(batch, cache[i].id) {
            let j = choose|j: int| 0 <= j < batch.len() && (#[trigger] batch[j]).id == cache[i].id;
            assert(batch[j].id > max_id(cache));
        }
    }
    lemma_filter_everything(cache, not_in(batch));
    if ascending(cache) && ascending(batch) {
        assert(cached_precede(cache, batch));
        lemma_reconciled_ascending(cache, batch);
    }
}

/// Where an override is in force, the new cache is strictly ascending as
/// long as the batch lies after the override and holds again whatever the
/// cache holds after it: the device still has what it once sent.
pub proof fn lemma_override_fetch(cache: Seq<LogEntry>, batch: Seq<LogEntry>, start_with: u32)
    requires
        ascending(cache),
        ascending(batch),
        forall|j: int| 0 <= j < batch.len() ==> (#[trigger] batch[j]).id > start_with,
        forall|i: int|
            0 <= i < cache.len() && (#[trigger] cache[i]).id > start_with ==> has_id(
                batch,
                cache[i].id,
            ),
    ensures
        ascending(reconciled(cache, batch)),
{
    assert(cached_precede(cache, batch));
    lemma_reconciled_ascending(cache, batch);
}

/// Reconciling once more with an empty batch changes nothing.
pub proof fn lemma_reconcile_idempotent(cache: Seq<LogEntry>, batch: Seq<LogEntry>)
    ensures
        reconciled(reconciled(cache, batch), Seq::<LogEntry>::empty()) == reconciled(cache, batch),
{
    let once = reconciled(cache, batch);
    let nothing = Seq::<LogEntry>::empty();
    assert forall|i: int| 0 <= i < once.len() implies not_in(nothing)(#[trigger] once[i]) by {}
    lemma_filter_everything(once, not_in(nothing));
    assert(once + nothing =~= once);
}

/// The device's copy supersedes the cached one: for each entry of a batch
/// without repeated identifiers, the new cache holds exactly one entry with
/// that identifier, and it is the batch's.
pub proof fn lemma_superseding(cache: Seq<LogEntry>, batch: Seq<LogEntry>, j: int)
    requires
        ascending(batch),
        0 <= j < batch.len(),
    ensures
        kept(cache, batch).len() + j < reconciled(cache, batch).len(),
        reconciled(cache, batch)[kept(cache, batch).len() + j] == batch[j],
        forall|i: int|
            0 <= i < reconciled(cache, batch).len() && (#[trigger] reconciled(cache, batch)[i]).id
                == batch[j].id ==> i == kept(cache, batch).len() + j,
{
    let stay = kept(cache, batch);
    let all = reconciled(cache, batch);
    assert forall|i: int| 0 <= i < all.len() && (#[trigger] all[i]).id == batch[j].id implies i
        == stay.len() + j by {
        if i < stay.len() {
            assert(all[i] == stay[i]);
            cache.lemma_filter_pred(not_in(batch), i);
            assert(not_in(batch)(stay[i]));
            assert(batch[j].id == stay[i].id);
            assert(has_id(batch, stay[i].id));
        } else {
            assert(all[i] == batch[i - stay.len()]);
            if i - stay.len() < j {
                assert(batch[i - stay.len()].id < batch[j].id);
            } else if i - stay.len() > j {
                assert(batch[j].id < batch[i - stay.len()].id);
            }
        }
    }
}

/// Putting an entry behind the entries that do not exceed it keeps the
/// order, and keeps the entry behind those that share its identifier.
proof fn lemma_stable_insert(s: Seq<LogEntry>, p: int, e: LogEntry)
    requires
        ordered(s),
        0 <= p <= s.len(),
        forall|j: int| 0 <= j < p ==> (#[trigger] s[j]).id <= e.id,
        forall|j: int| p <= j < s.len() ==> (#[trigger] s[j]).id > e.id,
    ensures
        ordered(s.insert(p, e)),
        forall|id: u32| #[trigger] with_id(s.insert(p, e), id) == with_id(s.push(e), id),
{
    let t = s.insert(p, e);
    assert forall|i: int, j: int| 0 <= i < j < t.len() implies (#[trigger] t[i]).id <= (
    #[trigger] t[j]).id by {
        if j < p {
            assert(t[i] == s[i] && t[j] == s[j]);
        } else if j == p {
            assert(t[i] == s[i]);
        } else if i < p {
            assert(t[i] == s[i] && t[j] == s[j - 1]);
        } else if i == p {
            assert(t[j] == s[j - 1]);
        } else {
            assert(t[i] == s[i - 1] && t[j] == s[j - 1]);
        }
    }
    let head = s.take(p);
    let tail = s.skip(p);
    assert(t =~= head.push(e) + tail);
    assert(s =~= head + tail);
    assert forall|id: u32| #[trigger] with_id(t, id) == with_id(s.push(e), id) by {
        let pred = carries(id);
        Seq::filter_distributes_over_add(head.push(e), tail, pred);
        Seq::filter_distributes_over_add(head, tail, pred);
        head.lemma_filter_push(e, pred);
        s.lemma_filter_push(e, pred);
        if id == e.id {
            assert forall|j: int| 0 <= j < tail.len() implies !pred(#[trigger] tail[j]) by {
                assert(tail[j] == s[p + j]);
            }
            lemma_filter_nothing(tail, pred);
            assert(head.filter(pred).push(e) + Seq::<LogEntry>::empty() =~= head.filter(pred).push(
                e,
            ));
            assert(head.filter(pred) + Seq::<LogEntry>::empty() =~= head.filter(pred));
        }
    }
}

/// An ordered sequence is settled by what it holds under each identifier:
/// two stable sorts of the same entries are the same sequence.
pub proof fn lemma_stable_sort_unique(a: Seq<LogEntry>, b: Seq<LogEntry>)
    requires
        ordered(a),
        ordered(b),
        a.len() == b.len(),
        forall|id: u32| #[trigger] with_id(a, id) == with_id(b, id),
    ensures
        a == b,
    decreases a.len(),
{
    reveal(Seq::filter);
    if a.len() == 0 {
        assert(a =~= b);
    } else {
        let m = a.last().id;
        let n = b.last().id;
        lemma_last_with_id(a);
        lemma_last_with_id(b);
        assert(with_id(a, m) == with_id(b, m));
        assert(with_id(a, n) == with_id(b, n));
        lemma_with_id_bound(b, m);
        lemma_with_id_bound(a, n);
        assert(m == n);
        assert(a.last() == b.last());
        assert forall|id: u32| #[trigger]
            with_id(a.drop_last(), id) == with_id(b.drop_last(), id) by {
            assert(with_id(a, id) == with_id(b, id));
            if id == m {
                assert(with_id(a, id).drop_last() =~= with_id(a.drop_last(), id));
                assert(with_id(b, id).drop_last() =~= with_id(b.drop_last(), id));
            }
        }
        assert forall|i: int, j: int| 0 <= i < j < a.len() - 1 implies (
        #[trigger] a.drop_last()[i]).id <= (#[trigger] a.drop_last()[j]).id by {
            assert(a[i].id <= a[j].id);
        }
        assert forall|i: int, j: int| 0 <= i < j < b.len() - 1 implies (
        #[trigger] b.drop_last()[i]).id <= (#[trigger] b.drop_last()[j]).id by {
            assert(b[i].id <= b[j].id);
        }
        lemma_stable_sort_unique(a.drop_last(), b.drop_last());
        assert(a =~= a.drop_last().push(a.last()));
        assert(b =~= b.drop_last().push(b.last()));
    }
}

/// Sorting entries that are in order already leaves them as they are.
pub proof fn lemma_sort_of_ordered(sorted: Seq<LogEntry>, entries: Seq<LogEntry>)
    requires
        ordered(entries),
        is_stable_sort_of(sorted, entries),
    ensures
        sorted == entries,
{
    lemma_stable_sort_unique(sorted, entries);
}

/// The last entry of a sequence is the last of those that share its
/// identifier.
proof fn lemma_last_with_id(s: Seq<LogEntry>)
    requires
        s.len() > 0,
    ensures
        with_id(s, s.last().id).len() > 0,
        with_id(s, s.last().id).last() == s.last(),
{
    reveal(Seq::filter);
}

/// Where some entry carries the identifier, the last entry of an ordered
/// sequence carries one that is no smaller.
proof fn lemma_with_id_bound(s: Seq<LogEntry>, id: u32)
    requires
        ordered(s),
        s.len() > 0,
        with_id(s, id).len() > 0,
    ensures
        id <= s.last().id,
{
    let found = with_id(s, id);
    s.lemma_filter_pred(carries(id), 0);
    s.lemma_filter_contains_rev(carries(id), found[0]);
    let k = choose|k: int| 0 <= k < s.len() && s[k] == found[0];
    if k < s.len() - 1 {
        assert(s[k].id <= s[s.len() - 1].id);
    }
}

/// Whether an entry with the given identifier occurs among the entries.
pub fn contains_id(entries: &Vec<LogEntry>, id: u32) -> (found: bool)
    ensures
        found == has_id(entries@, id),
{
    let mut i: usize = 0;
    while i < entries.len()
        invariant
            i <= entries.len(),
            forall|j: int| 0 <= j < i ==> (#[trigger] entries@[j]).id != id,
        decreases entries.len() - i,
    {
        if entries[i].id == id {
            assert(entries@[i as int].id == id);
            return true;
        }
        i += 1;
    }
    false
}

/// Brings the entries into ascending order of their identifiers. Entries
/// that share an identifier keep the order in which they came.
pub fn sort_by_id(entries: Vec<LogEntry>) -> (sorted: Vec<LogEntry>)
    ensures
        is_stable_sort_of(sorted@, entries@),
{
    let mut sorted: Vec<LogEntry> = Vec::new();
    let mut k: usize = 0;
    proof {
        assert(entries@.take(0) =~= Seq::<LogEntry>::empty());
        assert forall|id: u32| #[trigger]
            with_id(sorted@, id) == with_id(entries@.take(0), id) by {}
    }
    while k < entries.len()
        invariant
            k <= entries.len(),
            sorted@.len() == k,
            ordered(sorted@),
            forall|id: u32| #[trigger]
                with_id(sorted@, id) == with_id(entries@.take(k as int), id),
        decreases entries.len() - k,
    {
        let e = entries[k];
        let mut p: usize = sorted.len();
        while p > 0 && sorted[p - 1].id > e.id
            invariant
                p <= sorted.len(),
                forall|j: int| p <= j < sorted.len() ==> (#[trigger] sorted@[j]).id > e.id,
            decreases p,
        {
            p -= 1;
        }
        proof {
            assert forall|j: int| 0 <= j < p implies (#[trigger] sorted@[j]).id <= e.id by {
                assert(sorted@[p - 1].id <= e.id);
                if j < p - 1 {
                    assert(sorted@[j].id <= sorted@[p - 1].id);
                }
            }
            lemma_stable_insert(sorted@, p as int, e);
            let before = entries@.take(k as int);
            assert(entries@.take(k + 1) =~= before.push(e));
            assert forall|id: u32| #[trigger]
                with_id(sorted@.insert(p as int, e), id) == with_id(entries@.take(k + 1), id) by {
                assert(with_id(sorted@, id) == with_id(before, id));
                sorted@.lemma_filter_push(e, carries(id));
                before.lemma_filter_push(e, carries(id));
            }
        }
        sorted.insert(p, e);
        k += 1;
    }
    proof {
        assert(entries@.take(k as int) =~= entries@);
    }
    sorted
}

/// The identifier after which the device is asked for entries.
pub fn resume_point(cache: &Vec<LogEntry>, start_with: Option<u32>) -> (resume: u32)
    ensures
        resume == resume_after(cache@, start_with),
        start_with matches Some(k) ==> resume == k,
        start_with is None ==> forall|i: int|
            0 <= i < cache.len() ==> (#[trigger] cache@[i]).id <= resume,
        start_with is None && cache.len() > 0 ==> has_id(cache@, resume),
        start_with is None && cache.len() == 0 ==> resume == 0,
{
    proof {
        lemma_max_id(cache@);
    }
    match start_with {
        Some(k) => k,
        None => {
            let mut best: u32 = 0;
            let mut i: usize = 0;
            while i < cache.len()
                invariant
                    i <= cache.len(),
                    best == max_id(cache@.take(i as int)),
                decreases cache.len() - i,
            {
                proof {
                    assert(cache@.take(i + 1).drop_last() =~= cache@.take(i as int));
                }
                if cache[i].id > best {
                    best = cache[i].id;
                }
                i += 1;
            }
            proof {
                assert(cache@.take(i as int) =~= cache@);
            }
            best
        },
    }
}

/// Drops from the cache every entry whose identifier the batch holds too.
pub fn supersede(cache: Vec<LogEntry>, batch: &Vec<LogEntry>) -> (stay: Vec<LogEntry>)
    ensures
        stay@ == kept(cache@, batch@),
{
    let mut stay: Vec<LogEntry> = Vec::new();
    let mut i: usize = 0;
    proof {
        assert(cache@.take(0) =~= Seq::<LogEntry>::empty());
        lemma_filter_nothing(cache@.take(0), not_in(batch@));
    }
    while i < cache.len()
        invariant
            i <= cache.len(),
            stay@ == kept(cache@.take(i as int), batch@),
        decreases cache.len() - i,
    {
        let e = cache[i];
        proof {
            assert(cache@.take(i + 1) =~= cache@.take(i as int).push(e));
            cache@.take(i as int).lemma_filter_push(e, not_in(batch@));
        }
        if !contains_id(batch, e.id) {
            stay.push(e);
        }
        i += 1;
    }
    proof {
        assert(cache@.take(i as int) =~= cache@);
    }
    stay
}

/// The new cache for a cache and a fetched batch: the cached entries that
/// the batch does not replace, followed by the batch.
pub fn merge(cache: Vec<LogEntry>, batch: Vec<LogEntry>) -> (result: Vec<LogEntry>)
    ensures
        result@ == reconciled(cache@, batch@),
{
    let mut result = supersede(cache, &batch);
    let mut batch = batch;
    result.append(&mut batch);
    result
}

/// Brings a cache up to date: computes the resume point, fetches once from
/// it, and merges what came back into the cache. An error of the fetch is
/// handed on as it is, and nothing is merged.
pub fn reconcile<E, F>(cache: Vec<LogEntry>, start_with: Option<u32>, fetch: F) -> (result: Result<
    Vec<LogEntry>,
    E,
>) where F: FnOnce(u32) -> Result<Vec<LogEntry>, E>
    requires
        call_requires(fetch, (resume_after(cache@, start_with),)),
    ensures
        match result {
            Ok(entries) => exists|batch: Vec<LogEntry>|
                {
                    &&& #[trigger] call_ensures(
                        fetch,
                        (resume_after(cache@, start_with),),
                        Ok::<Vec<LogEntry>, E>(batch),
                    )
                    &&& entries@ == reconciled(cache@, batch@)
                },
            Err(e) => call_ensures(
                fetch,
                (resume_after(cache@, start_with),),
                Err::<Vec<LogEntry>, E>(e),
            ),
        },
{
    let resume = resume_point(&cache, start_with);
    match fetch(resume) {
        Ok(batch) => Ok(merge(cache, batch)),
        Err(e) => Err(e),
    }
}

/// What came of reading the cache file.
#[derive(Debug, PartialEq, Eq)]
pub enum CacheRead<E> {
    /// The operator named no cache file.
    NotRequested,
    /// The file does not exist.
    Missing,
    /// The file was read and understood; it holds these entries.
    Loaded(Vec<LogEntry>),
    /// The file was read and is not a list of entries.
    Corrupt(E),
    /// The file exists and could not be read.
    Unreadable(E),
}

/// Why the history command gave up before it asked the device.
#[derive(Debug, PartialEq, Eq)]
pub enum HistoryError<E> {
    /// The cache file is there and cannot be understood.
    CacheCorrupt(E),
    /// The cache file is there and cannot be read.
    CacheUnreadable(E),
}

/// The cache to start from. A cache file that is not asked for or does not
/// exist stands for an empty cache; entries that were loaded are brought
/// into ascending order; a file that cannot be read or understood ends the
/// command.
pub fn open_cache<E>(read: CacheRead<E>) -> (cache: Result<Vec<LogEntry>, HistoryError<E>>)
    ensures
        match read {
            CacheRead::NotRequested | CacheRead::Missing => cache matches Ok(entries)
                && entries@ == Seq::<LogEntry>::empty(),
            CacheRead::Loaded(loaded) => cache matches Ok(entries) && is_stable_sort_of(
                entries@,
                loaded@,
            ),
            CacheRead::Corrupt(e) => cache == Err::<Vec<LogEntry>, HistoryError<E>>(
                HistoryError::CacheCorrupt(e),
            ),
            CacheRead::Unreadable(e) => cache == Err::<Vec<LogEntry>, HistoryError<E>>(
                HistoryError::CacheUnreadable(e),
            ),
        },
{
    match read {
        CacheRead::NotRequested => Ok(Vec::new()),
        CacheRead::Missing => Ok(Vec::new()),
        CacheRead::Loaded(loaded) => Ok(sort_by_id(loaded)),
        CacheRead::Corrupt(e) => Err(HistoryError::CacheCorrupt(e)),
        CacheRead::Unreadable(e) => Err(HistoryError::CacheUnreadable(e)),
    }
}

/// What the history command has to show, and what went wrong on the way
/// without stopping it.
#[derive(Debug, PartialEq, Eq)]
pub struct HistoryReport<E> {
    /// The reconciled entries.
    pub entries: Vec<LogEntry>,
    /// Why the cache file could not be brought up to date, if it could not.
    pub warning: Option<E>,
}

/// Closes a reconciliation. `persisted` tells what came of writing the new
/// cache, `None` where no cache file is kept. A write that failed leaves the
/// entries as they are and becomes a warning.
pub fn conclude<E>(entries: Vec<LogEntry>, persisted: Option<Result<(), E>>) -> (report:
    HistoryReport<E>)
    ensures
        report.entries == entries,
        report.warning == match persisted {
            Some(Err(e)) => Some(e),
            _ => None::<E>,
        },
{
    let warning = match persisted {
        Some(Err(e)) => Some(e),
        _ => None,
    };
    HistoryReport { entries, warning }
}

/// The line that tells the operator that the cache file was not updated.
pub fn persist_warning(file: &str, reason: &str) -> (line: String)
    ensures
        line@ == "cannot update entries file "@ + file@ + ": "@ + reason@,
{
    let mut line = joined("cannot update entries file ", file);
    line.append(": ");
    line.append(reason);
    line
}

/// The entries that are not older than the bound, in their order.
pub fn entries_since(entries: Vec<LogEntry>, bound: i64) -> (shown: Vec<LogEntry>)
    ensures
        shown@ == entries@.filter(not_before(bound)),
{
    let mut shown: Vec<LogEntry> = Vec::new();
    let mut i: usize = 0;
    proof {
        assert(entries@.take(0) =~= Seq::<LogEntry>::empty());
        lemma_filter_nothing(entries@.take(0), not_before(bound));
    }
    while i < entries.len()
        invariant
            i <= entries.len(),
            shown@ == entries@.take(i as int).filter(not_before(bound)),
        decreases entries.len() - i,
    {
        let e = entries[i];
        proof {
            assert(entries@.take(i + 1) =~= entries@.take(i as int).push(e));
            entries@.take(i as int).lemma_filter_push(e, not_before(bound));
        }
        if e.time >= bound {
            shown.push(e);
        }
        i += 1;
    }
    proof {
        assert(entries@.take(i as int) =~= entries@);
    }
    shown
}

/// The entries that the history command displays: all of them where no day
/// is given, else those that are not older than the start of that day on
/// the operator's clock, which is `offset_seconds` ahead of UTC. `None`
/// where the day has no start that can be told in seconds.
pub fn select_entries(
    entries: Vec<LogEntry>,
    since: Option<CalendarDate>,
    offset_seconds: i32,
) -> (shown: Option<Vec<LogEntry>>)
    ensures
        match since {
            None => shown matches Some(s) && s@ == entries@,
            Some(day) => match day.local_midnight(offset_seconds) {
                Some(bound) => shown matches Some(s) && s@ == entries@.filter(not_before(bound)),
                None => shown is None,
            },
        },
{
    match since {
        None => Some(entries),
        Some(day) => match day.begins_at(offset_seconds) {
            Some(bound) => Some(entries_since(entries, bound)),
            None => None,
        },
    }
}

} // verus!
