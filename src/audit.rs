//! The audit of keywords that matched nothing: how often each was searched
//! in vain, and when last.

use vstd::prelude::*;
use crate::keywords::views;

verus! {

/// A keyword that matched nothing, how many times, and when last.
#[derive(Clone, Debug)]
pub struct FailLogEntry {
    pub keyword: String,
    pub count: usize,
    pub timestamp: String,
}

/// An entry as (keyword, count, timestamp).
pub type EntryView = (Seq<char>, nat, Seq<char>);

impl FailLogEntry {
    pub open spec fn view(&self) -> EntryView {
        (self.keyword@, self.count as nat, self.timestamp@)
    }
}

/// No keyword appears twice.
pub open spec fn unique_keywords(s: Seq<EntryView>) -> bool {
    forall|i: int, j: int|
        #![trigger s[i], s[j]]
        0 <= i < s.len() && 0 <= j < s.len() && i != j ==> s[i].0 != s[j].0
}

/// `k` has an entry.
pub open spec fn has_keyword(s: Seq<EntryView>, k: Seq<char>) -> bool {
    exists|i: int| 0 <= i < s.len() && s[i].0 == k
}

/// The entry of `k`, when it has one.
pub open spec fn entry_of(s: Seq<EntryView>, k: Seq<char>) -> EntryView {
    s[choose|i: int| 0 <= i < s.len() && s[i].0 == k]
}

/// How many misses of `k` are on record.
pub open spec fn count_of(s: Seq<EntryView>, k: Seq<char>) -> nat {
    if has_keyword(s, k) {
        s[choose|i: int| 0 <= i < s.len() && s[i].0 == k].1
    } else {
        0
    }
}

/// One more miss, saturating at the largest count.
pub open spec fn bumped(c: nat) -> nat {
    if c < usize::MAX {
        c + 1
    } else {
        c
    }
}

/// `new` is `old` after recording a miss of `k` at time `ts`: an existing
/// entry counts one more and takes the new time, else a new entry counts one.
pub open spec fn recorded(old: Seq<EntryView>, new: Seq<EntryView>, k: Seq<char>, ts: Seq<char>) -> bool {
    if has_keyword(old, k) {
        exists|i: int|
            0 <= i < old.len() && old[i].0 == k && new == old.update(i, (k, bumped(old[i].1), ts))
    } else {
        new == old.push((k, 1nat, ts))
    }
}

/// Relies on chrono's `Utc::now` and its `Display`: the time now, in UTC.
#[verifier::external_body]
fn now_utc() -> (r: String) {
    chrono::Utc::now().to_string()
}

/// The misses on record, one entry per keyword.
pub struct AuditStore {
    entries: Vec<FailLogEntry>,
}

impl AuditStore {
    /// The entries, in the order their keywords were first recorded.
    pub closed spec fn view(&self) -> Seq<EntryView> {
        self.entries@.map_values(|e: FailLogEntry| e.view())
    }

    pub open spec fn wf(&self) -> bool {
        unique_keywords(self.view())
    }

    /// An empty record.
    pub fn new() -> (r: AuditStore)
        ensures
            r.wf(),
            r.view() == Seq::<EntryView>::empty(),
    {
        let r = AuditStore { entries: Vec::new() };
        assert(r.view() =~= Seq::<EntryView>::empty());
        r
    }

    /// Records a miss of `keyword` at time `timestamp`.
    pub fn record_at(&mut self, keyword: &String, timestamp: String)
        requires
            old(self).wf(),
        ensures
            final(self).wf(),
            recorded(old(self).view(), final(self).view(), keyword@, timestamp@),
    {
        let ghost v0 = self.view();
        let mut i: usize = 0;
        while i < self.entries.len()
            invariant
                v0 == self.view(),
                v0 == old(self).view(),
                unique_keywords(v0),
                i <= self.entries.len(),
                forall|j: int| 0 <= j < i ==> v0[j].0 != keyword@,
            decreases self.entries.len() - i,
        {
            if self.entries[i].keyword == *keyword {
                let c: usize = self.entries[i].count;
                let count: usize = if c < usize::MAX {
                    c + 1
                } else {
                    c
                };
                let ghost ts = timestamp@;
                let ghost e0 = self.entries@;
                let entry = FailLogEntry { keyword: keyword.clone(), count, timestamp };
                assert(entry.view() == (keyword@, bumped(v0[i as int].1), ts));
                self.entries.set(i, entry);
                assert(self.entries@ == e0.update(i as int, entry));
                proof {
                    assert(self.view() =~= v0.update(i as int, (keyword@, bumped(v0[i as int].1), ts)));
                    assert(v0[i as int].0 == keyword@);
                    assert(has_keyword(v0, keyword@));
                    assert(self.view() == v0.update(i as int, (keyword@, bumped(v0[i as int].1), ts)));
                    assert(recorded(v0, self.view(), keyword@, ts));
                    assert forall|a: int, b: int|
                        #![trigger self.view()[a], self.view()[b]]
                        0 <= a < self.view().len() && 0 <= b < self.view().len() && a != b
                        implies self.view()[a].0 != self.view()[b].0 by {
                        assert(v0[a].0 != v0[b].0);
                    }
                }
                return;
            }
            i += 1;
        }
        let ghost ts = timestamp@;
        let entry = FailLogEntry { keyword: keyword.clone(), count: 1, timestamp };
        assert(entry.view() == (keyword@, 1nat, ts));
        self.entries.push(entry);
        proof {
            assert(self.view() =~= v0.push((keyword@, 1nat, ts)));
            assert(!has_keyword(v0, keyword@));
            assert forall|a: int, b: int|
                #![trigger self.view()[a], self.view()[b]]
                0 <= a < self.view().len() && 0 <= b < self.view().len() && a != b
                implies self.view()[a].0 != self.view()[b].0 by {
                if a < v0.len() && b < v0.len() {
                    assert(v0[a].0 != v0[b].0);
                }
            }
        }
    }

    /// Records a miss of each keyword in turn, each at the time it is
    /// recorded.
    pub fn record_misses(&mut self, keywords: &Vec<String>)
        requires
            old(self).wf(),
        ensures
            final(self).wf(),
            misses_recorded(old(self).view(), final(self).view(), views(keywords@)),
    {
        let mut i: usize = 0;
        let ghost v0 = self.view();
        let ghost vk = views(keywords@);
        assert(vk.take(0) =~= Seq::<Seq<char>>::empty());
        while i < keywords.len()
            invariant
                self.wf(),
                unique_keywords(v0),
                i <= keywords.len(),
                i == 0 ==> self.view() == v0,
                vk == views(keywords@),
                misses_recorded(v0, self.view(), vk.take(i as int)),
            decreases keywords.len() - i,
        {
            let ghost before = self.view();
            let ts = now_utc();
            self.record_at(&keywords[i], ts);
            proof {
                let kw = keywords@[i as int]@;
                let pre = vk.take(i as int);
                let post = vk.take(i + 1);
                assert(post.drop_last() == pre);
                assert(post.last() == kw);
                lemma_record_counts_one_more(before, self.view(), kw, ts@);
                assert forall|k: Seq<char>|
                    count_of(self.view(), k) == bumped_times(count_of(v0, k), occurrences(post, k))
                        && (has_keyword(self.view(), k) <==> (has_keyword(v0, k) || occurrences(post, k) > 0)) by {
                    if k != kw {
                        lemma_record_other(before, self.view(), kw, ts@, k);
                    }
                }
            }
            i += 1;
        }
        assert(vk.take(keywords.len() as int) == vk);
    }

    /// The entries on record, to be written out.
    pub fn snapshot(&self) -> (r: Vec<FailLogEntry>)
        ensures
            r@.map_values(|e: FailLogEntry| e.view()) == self.view(),
    {
        let mut r: Vec<FailLogEntry> = Vec::new();
        let mut i: usize = 0;
        while i < self.entries.len()
            invariant
                i <= self.entries.len(),
                r@.map_values(|e: FailLogEntry| e.view()) == self.view().take(i as int),
            decreases self.entries.len() - i,
        {
            let e = &self.entries[i];
            let copy = FailLogEntry { keyword: e.keyword.clone(), count: e.count, timestamp: e.timestamp.clone() };
            assert(copy.view() == self.view()[i as int]);
            let ghost r0 = r@;
            r.push(copy);
            assert(r@.map_values(|e: FailLogEntry| e.view()) =~= r0.map_values(|e: FailLogEntry| e.view()).push(copy.view()));
            i += 1;
            assert(r@.map_values(|e: FailLogEntry| e.view()) =~= self.view().take(i as int));
        }
        assert(self.view().take(i as int) =~= self.view());
        r
    }

    /// A record loaded from saved entries; a later entry for the same keyword
    /// replaces an earlier one.
    pub fn from_entries(saved: Vec<FailLogEntry>) -> (r: AuditStore)
        ensures
            r.wf(),
            loaded_from(r.view(), saved@),
    {
        let mut store = AuditStore::new();
        let mut i: usize = 0;
        while i < saved.len()
            invariant
                store.wf(),
                i <= saved.len(),
                forall|k: Seq<char>|
                    has_keyword(store.view(), k) <==> exists|j: int|
                        0 <= j < i && (#[trigger] saved@[j]).keyword@ == k,
                forall|k: Seq<char>|
                    has_keyword(store.view(), k) ==> last_saved(saved@, i as int, k, entry_of(store.view(), k)),
            decreases saved.len() - i,
        {
            let e = &saved[i];
            let ghost before = store.view();
            store.put(e.keyword.clone(), e.count, e.timestamp.clone());
            proof {
                assert forall|k: Seq<char>|
                    has_keyword(store.view(), k) <==> exists|j: int|
                        0 <= j < i + 1 && (#[trigger] saved@[j]).keyword@ == k by {
                    if k == saved@[i as int].keyword@ {
                        assert(saved@[i as int].keyword@ == k);
                    } else {
                        if exists|j: int| 0 <= j < i + 1 && (#[trigger] saved@[j]).keyword@ == k {
                            let j = choose|j: int| 0 <= j < i + 1 && (#[trigger] saved@[j]).keyword@ == k;
                            assert(j < i);
                        }
                    }
                }
                assert forall|k: Seq<char>|
                    has_keyword(store.view(), k) implies last_saved(saved@, i + 1, k, entry_of(store.view(), k)) by {
                    if k == saved@[i as int].keyword@ {
                        assert(saved@[i as int].view() == entry_of(store.view(), k));
                    } else {
                        assert(has_keyword(before, k));
                        let j = choose|j: int|
                            0 <= j < i && saved@[j].keyword@ == k && saved@[j].view() == entry_of(before, k)
                                && forall|j2: int| j < j2 < i ==> saved@[j2].keyword@ != k;
                    }
                }
            }
            i += 1;
        }
        store
    }

    /// Sets the entry of `keyword`, replacing one that is there.
    fn put(&mut self, keyword: String, count: usize, timestamp: String)
        requires
            old(self).wf(),
        ensures
            final(self).wf(),
            forall|k: Seq<char>|
                has_keyword(final(self).view(), k) <==> (has_keyword(old(self).view(), k) || k
                    == keyword@),
            entry_of(final(self).view(), keyword@) == (keyword@, count as nat, timestamp@),
            forall|k: Seq<char>|
                k != keyword@ && has_keyword(old(self).view(), k) ==> entry_of(final(self).view(), k)
                    == entry_of(old(self).view(), k),
    {
        let ghost v0 = self.view();
        let ghost e = (keyword@, count as nat, timestamp@);
        let mut i: usize = 0;
        while i < self.entries.len()
            invariant
                v0 == self.view(),
                v0 == old(self).view(),
                e == (keyword@, count as nat, timestamp@),
                unique_keywords(v0),
                i <= self.entries.len(),
                forall|j: int| 0 <= j < i ==> v0[j].0 != keyword@,
            decreases self.entries.len() - i,
        {
            if self.entries[i].keyword == keyword {
                let ghost e0 = self.entries@;
                let entry = FailLogEntry { keyword, count, timestamp };
                assert(entry.view() == e);
                self.entries.set(i, entry);
                assert(self.entries@ == e0.update(i as int, entry));
                proof {
                    assert(self.view() =~= v0.update(i as int, e));
                    lemma_set_entry(v0, self.view(), i as int, e);
                    assert forall|a: int, b: int|
                        #![trigger self.view()[a], self.view()[b]]
                        0 <= a < self.view().len() && 0 <= b < self.view().len() && a != b
                        implies self.view()[a].0 != self.view()[b].0 by {
                        assert(v0[a].0 != v0[b].0);
                    }
                    assert forall|k: Seq<char>| has_keyword(self.view(), k) <==> (has_keyword(v0, k) || k == keyword@) by {
                        if has_keyword(v0, k) {
                            let j = choose|j: int| 0 <= j < v0.len() && v0[j].0 == k;
                            assert(self.view()[j].0 == k);
                        }
                        if has_keyword(self.view(), k) {
                            let j = choose|j: int| 0 <= j < self.view().len() && self.view()[j].0 == k;
                            if j != i {
                                assert(v0[j].0 == k);
                            }
                        }
                        if k == keyword@ {
                            assert(self.view()[i as int].0 == k);
                        }
                    }
                }
                return;
            }
            i += 1;
        }
        let entry = FailLogEntry { keyword, count, timestamp };
        assert(entry.view() == e);
        self.entries.push(entry);
        proof {
            assert(self.view() =~= v0.push(e));
            assert(!has_keyword(v0, e.0));
            lemma_set_entry(v0, self.view(), v0.len() as int, e);
            assert forall|a: int, b: int|
                #![trigger self.view()[a], self.view()[b]]
                0 <= a < self.view().len() && 0 <= b < self.view().len() && a != b
                implies self.view()[a].0 != self.view()[b].0 by {
                if a < v0.len() && b < v0.len() {
                    assert(v0[a].0 != v0[b].0);
                }
            }
            assert forall|k: Seq<char>| has_keyword(self.view(), k) <==> (has_keyword(v0, k) || k == e.0) by {
                if has_keyword(v0, k) {
                    let j = choose|j: int| 0 <= j < v0.len() && v0[j].0 == k;
                    assert(self.view()[j].0 == k);
                }
                if has_keyword(self.view(), k) {
                    let j = choose|j: int| 0 <= j < self.view().len() && self.view()[j].0 == k;
                    if j < v0.len() {
                        assert(v0[j].0 == k);
                    }
                }
                if k == e.0 {
                    assert(self.view()[v0.len() as int].0 == k);
                }
            }
        }
    }
}

/// The last of the first `n` saved entries with keyword `k` reads `e`.
pub open spec fn last_saved(saved: Seq<FailLogEntry>, n: int, k: Seq<char>, e: EntryView) -> bool {
    exists|j: int|
        0 <= j < n && saved[j].keyword@ == k && saved[j].view() == e && forall|j2: int|
            j < j2 < n ==> saved[j2].keyword@ != k
}

/// `r` holds the keywords of `saved`, each with its last saved entry.
pub open spec fn loaded_from(r: Seq<EntryView>, saved: Seq<FailLogEntry>) -> bool {
    &&& forall|k: Seq<char>|
        has_keyword(r, k) <==> exists|j: int| 0 <= j < saved.len() && (#[trigger] saved[j]).keyword@ == k
    &&& forall|k: Seq<char>|
        has_keyword(r, k) ==> last_saved(saved, saved.len() as int, k, entry_of(r, k))
}

/// How many times `k` occurs in `v`.
pub open spec fn occurrences(v: Seq<Seq<char>>, k: Seq<char>) -> nat
    decreases v.len(),
{
    if v.len() == 0 {
        0
    } else {
        occurrences(v.drop_last(), k) + if v.last() == k {
            1nat
        } else {
            0nat
        }
    }
}

/// `c` bumped `n` times.
pub open spec fn bumped_times(c: nat, n: nat) -> nat
    decreases n,
{
    if n == 0 {
        c
    } else {
        bumped(bumped_times(c, (n - 1) as nat))
    }
}

/// `new` is `old` after recording one miss for each of `keywords`: each
/// keyword's count went up once per occurrence (up to the largest count), and
/// exactly the keywords seen before or now have entries, and the entries of
/// the others are untouched.
pub open spec fn misses_recorded(old: Seq<EntryView>, new: Seq<EntryView>, keywords: Seq<Seq<char>>) -> bool {
    forall|k: Seq<char>|
        count_of(new, k) == bumped_times(count_of(old, k), occurrences(keywords, k)) && (has_keyword(
            new,
            k,
        ) <==> (has_keyword(old, k) || occurrences(keywords, k) > 0)) && (occurrences(keywords, k)
            == 0 && has_keyword(old, k) ==> entry_of(new, k) == entry_of(old, k))
}

/// Setting the entry at `i` (an update of `e`'s keyword, or a new last entry
/// for a keyword not there) gives `e` its place and leaves every other
/// keyword's entry alone.
proof fn lemma_set_entry(old: Seq<EntryView>, new: Seq<EntryView>, i: int, e: EntryView)
    requires
        unique_keywords(old),
        0 <= i <= old.len(),
        i < old.len() ==> old[i].0 == e.0 && new == old.update(i, e),
        i == old.len() ==> !has_keyword(old, e.0) && new == old.push(e),
    ensures
        unique_keywords(new),
        has_keyword(new, e.0),
        entry_of(new, e.0) == e,
        forall|k: Seq<char>|
            k != e.0 ==> (has_keyword(new, k) == has_keyword(old, k)) && (has_keyword(old, k)
                ==> entry_of(new, k) == entry_of(old, k)),
{
    assert forall|a: int, b: int|
        #![trigger new[a], new[b]]
        0 <= a < new.len() && 0 <= b < new.len() && a != b implies new[a].0 != new[b].0 by {
        if a != i && b != i {
            assert(old[a].0 != old[b].0);
        } else if a == i {
            if i < old.len() {
                assert(old[a].0 != old[b].0);
            } else {
                assert(old[b].0 == new[b].0);
            }
        } else {
            if i < old.len() {
                assert(old[a].0 != old[b].0);
            } else {
                assert(old[a].0 == new[a].0);
            }
        }
    }
    assert(new[i].0 == e.0);
    let d = choose|j: int| 0 <= j < new.len() && new[j].0 == e.0;
    assert(d == i);
    assert forall|k: Seq<char>|
        k != e.0 implies (has_keyword(new, k) == has_keyword(old, k)) && (has_keyword(old, k)
            ==> entry_of(new, k) == entry_of(old, k)) by {
        if has_keyword(old, k) {
            let x = choose|j: int| 0 <= j < old.len() && old[j].0 == k;
            assert(new[x] == old[x]);
            let y = choose|j: int| 0 <= j < new.len() && new[j].0 == k;
            assert(y != i);
            assert(old[y] == new[y]);
            assert(x == y);
        }
        if has_keyword(new, k) {
            let y = choose|j: int| 0 <= j < new.len() && new[j].0 == k;
            assert(y != i);
            assert(old[y].0 == k);
        }
    }
}

/// Recording a miss of one keyword leaves the entry of every other alone.
proof fn lemma_record_other(old: Seq<EntryView>, new: Seq<EntryView>, k: Seq<char>, ts: Seq<char>, other: Seq<char>)
    requires
        unique_keywords(old),
        recorded(old, new, k, ts),
        other != k,
    ensures
        count_of(new, other) == count_of(old, other),
        has_keyword(new, other) == has_keyword(old, other),
        has_keyword(old, other) ==> entry_of(new, other) == entry_of(old, other),
{
    if has_keyword(old, k) {
        let i = choose|i: int|
            0 <= i < old.len() && old[i].0 == k && new == old.update(i, (k, bumped(old[i].1), ts));
        lemma_set_entry(old, new, i, (k, bumped(old[i].1), ts));
    } else {
        lemma_set_entry(old, new, old.len() as int, (k, 1nat, ts));
    }
}

/// Recording a miss of `k` counts one more miss of `k` (up to the largest
/// count) and keeps keywords unique.
pub proof fn lemma_record_counts_one_more(old: Seq<EntryView>, new: Seq<EntryView>, k: Seq<char>, ts: Seq<char>)
    requires
        unique_keywords(old),
        recorded(old, new, k, ts),
    ensures
        unique_keywords(new),
        count_of(new, k) == bumped(count_of(old, k)),
        has_keyword(new, k),
{
    if has_keyword(old, k) {
        let i = choose|i: int|
            0 <= i < old.len() && old[i].0 == k && new == old.update(i, (k, bumped(old[i].1), ts));
        assert forall|a: int, b: int|
            #![trigger new[a], new[b]]
            0 <= a < new.len() && 0 <= b < new.len() && a != b implies new[a].0 != new[b].0 by {
            assert(old[a].0 != old[b].0);
        }
        let c = choose|j: int| 0 <= j < old.len() && old[j].0 == k;
        assert(c == i);
        assert(new[i].0 == k);
        let d = choose|j: int| 0 <= j < new.len() && new[j].0 == k;
        assert(d == i);
    } else {
        assert forall|a: int, b: int|
            #![trigger new[a], new[b]]
            0 <= a < new.len() && 0 <= b < new.len() && a != b implies new[a].0 != new[b].0 by {
            if a < old.len() && b < old.len() {
                assert(old[a].0 != old[b].0);
            }
        }
        assert(new[old.len() as int].0 == k);
        let d = choose|j: int| 0 <= j < new.len() && new[j].0 == k;
        assert(d == old.len());
    }
}

/// Recording a miss of the same keyword `n` times, starting with none on
/// record, leaves a count of `n`.
pub proof fn lemma_replayed_misses(stores: Seq<Seq<EntryView>>, k: Seq<char>, times: Seq<Seq<char>>, n: int)
    requires
        0 <= n <= usize::MAX,
        stores.len() == n + 1,
        times.len() == n,
        unique_keywords(stores[0]),
        !has_keyword(stores[0], k),
        forall|i: int| #![trigger stores[i]] 0 <= i < n ==> recorded(stores[i], stores[i + 1], k, times[i]),
    ensures
        count_of(stores[n], k) == n,
        unique_keywords(stores[n]),
    decreases n,
{
    if n > 0 {
        lemma_replayed_misses(stores.take(n), k, times.take(n - 1), n - 1);
        assert(stores.take(n)[n - 1] == stores[n - 1]);
        assert(recorded(stores[n - 1], stores[n], k, times[n - 1]));
        lemma_record_counts_one_more(stores[n - 1], stores[n], k, times[n - 1]);
    }
}

/// Saving the entries of a record and loading them back gives a record with
/// the same keywords, each with the same count and time.
pub proof fn lemma_save_then_load(kept: Seq<EntryView>, saved: Seq<FailLogEntry>, loaded: Seq<EntryView>)
    requires
        unique_keywords(kept),
        saved.map_values(|e: FailLogEntry| e.view()) == kept,
        loaded_from(loaded, saved),
    ensures
        forall|k: Seq<char>|
            has_keyword(loaded, k) == has_keyword(kept, k) && (has_keyword(kept, k) ==> entry_of(
                loaded,
                k,
            ) == entry_of(kept, k)),
{
    assert forall|k: Seq<char>|
        has_keyword(loaded, k) == has_keyword(kept, k) && (has_keyword(kept, k) ==> entry_of(
            loaded,
            k,
        ) == entry_of(kept, k)) by {
        if has_keyword(kept, k) {
            let x = choose|j: int| 0 <= j < kept.len() && kept[j].0 == k;
            assert(saved[x].view() == kept[x]);
            assert(saved.len() == kept.len());
            assert(saved[x].keyword@ == k);
            assert(has_keyword(loaded, k));
            assert(last_saved(saved, saved.len() as int, k, entry_of(loaded, k)));
            let j = choose|j: int|
                0 <= j < saved.len() && saved[j].keyword@ == k && saved[j].view() == entry_of(loaded, k)
                    && forall|j2: int| j < j2 < saved.len() ==> saved[j2].keyword@ != k;
            assert(kept[j] == saved[j].view());
            assert(j == x);
        }
        if has_keyword(loaded, k) {
            assert(saved.len() == kept.len());
            let j = choose|j: int| 0 <= j < saved.len() && (#[trigger] saved[j]).keyword@ == k;
            assert(kept[j] == saved[j].view());
        }
    }
}

} // verus!
