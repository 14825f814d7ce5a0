//! The query-support cache of the analysis database: which loaded files hold
//! query support, when each was last used, and the budget that caps how many
//! may hold it at once. Over budget, the least recently used support goes
//! first.

use vstd::prelude::*;

use crate::changes::{file_ids, sorted_file_ids, strictly_ascending};
use crate::workspace::FileId;

verus! {

/// A loaded file and, when it holds query support, the ticket of its last use.
pub struct QuerySupportEntry {
    pub file_id: FileId,
    pub ticket: Option<u64>,
}

/// The query-support state of the loaded files.
pub struct QuerySupportCache {
    budget: Option<usize>,
    entries: Vec<QuerySupportEntry>,
    next_ticket: u64,
}

/// The model of an entry: its file id and its ticket.
pub open spec fn entry_view(e: QuerySupportEntry) -> (u32, Option<u64>) {
    (e.file_id.0, e.ticket)
}

/// The models of a list of entries.
pub open spec fn entry_views(es: Seq<QuerySupportEntry>) -> Seq<(u32, Option<u64>)> {
    Seq::new(es.len(), |i: int| entry_view(es[i]))
}

/// How many entries hold query support.
pub open spec fn cached_count(es: Seq<(u32, Option<u64>)>) -> nat
    decreases es.len(),
{
    if es.len() == 0 {
        0
    } else {
        cached_count(es.drop_last()) + if es.last().1 is Some {
            1nat
        } else {
            0nat
        }
    }
}

/// Whether the entries name distinct files, carry distinct tickets, and no
/// ticket is above `next`.
pub open spec fn entries_wf(es: Seq<(u32, Option<u64>)>, next: nat) -> bool {
    &&& forall|i: int, j: int| 0 <= i < j < es.len() ==> #[trigger] es[i].0 != #[trigger] es[j].0
    &&& forall|i: int, j: int|
        0 <= i < j < es.len() && es[i].1 is Some && es[j].1 is Some ==> #[trigger] es[i].1 != #[trigger] es[j].1
    &&& forall|i: int| 0 <= i < es.len() && #[trigger] es[i].1 is Some ==> es[i].1->0 <= next
}

/// The position of the entry for file `f`, or -1.
pub open spec fn entry_index(es: Seq<(u32, Option<u64>)>, f: u32) -> int {
    if exists|i: int| 0 <= i < es.len() && #[trigger] es[i].0 == f {
        choose|i: int| 0 <= i < es.len() && #[trigger] es[i].0 == f
    } else {
        -1
    }
}

/// What enforcing the budget does: with no budget or no more cached files
/// than it allows, nothing; otherwise the support of just enough files goes
/// that the budget holds, every one of them used less recently than every
/// file that keeps its support. `evicted` lists those files ascending.
pub open spec fn enforce_rel(
    old_es: Seq<(u32, Option<u64>)>,
    new_es: Seq<(u32, Option<u64>)>,
    budget: Option<usize>,
    evicted: Seq<u32>,
) -> bool {
    &&& new_es.len() == old_es.len()
    &&& forall|i: int| 0 <= i < new_es.len() ==> (#[trigger] new_es[i]).0 == old_es[i].0
    &&& forall|i: int|
        0 <= i < new_es.len() ==> (#[trigger] new_es[i]).1 == old_es[i].1 || (new_es[i].1 is None
            && old_es[i].1 is Some)
    &&& forall|i: int|
        0 <= i < new_es.len() ==> ((old_es[i].1 is Some && (#[trigger] new_es[i]).1 is None)
            <==> evicted.contains(old_es[i].0))
    &&& forall|i: int, j: int|
        0 <= i < new_es.len() && 0 <= j < new_es.len() && old_es[i].1 is Some && (#[trigger] new_es[i]).1 is None
            && (#[trigger] new_es[j]).1 is Some ==> old_es[i].1->0 < new_es[j].1->0
    &&& strictly_ascending(evicted)
    &&& forall|x: int| #![trigger evicted[x]] 0 <= x < evicted.len() ==> exists|i: int| 0 <= i < old_es.len() && #[trigger] old_es[i].0 == evicted[x]
    &&& match budget {
        None => new_es == old_es,
        Some(b) => if cached_count(old_es) <= b {
            new_es == old_es
        } else {
            cached_count(new_es) == b
        },
    }
}

/// What giving file `f` query support does to the entries and the last
/// ticket: a loaded file without support gets the next ticket.
pub open spec fn ensure_step(es: Seq<(u32, Option<u64>)>, next: nat, f: u32) -> (Seq<(u32, Option<u64>)>, nat) {
    let i = entry_index(es, f);
    if i >= 0 && es[i].1 is None {
        (es.update(i, (f, Some((next + 1) as u64))), next + 1)
    } else {
        (es, next)
    }
}

/// Giving each of the files, in order, query support.
pub open spec fn ensure_steps(es: Seq<(u32, Option<u64>)>, next: nat, fs: Seq<u32>) -> (Seq<(u32, Option<u64>)>, nat)
    decreases fs.len(),
{
    if fs.len() == 0 {
        (es, next)
    } else {
        let before = ensure_steps(es, next, fs.drop_last());
        ensure_step(before.0, before.1, fs.last())
    }
}

proof fn lemma_cached_count_update(es: Seq<(u32, Option<u64>)>, i: int, v: (u32, Option<u64>))
    requires
        0 <= i < es.len(),
    ensures
        cached_count(es.update(i, v)) + (if es[i].1 is Some {
            1int
        } else {
            0int
        }) == cached_count(es) + (if v.1 is Some {
            1int
        } else {
            0int
        }),
    decreases es.len(),
{
    if i < es.len() - 1 {
        lemma_cached_count_update(es.drop_last(), i, v);
        assert(es.update(i, v).drop_last() =~= es.drop_last().update(i, v));
    } else {
        assert(es.update(i, v).drop_last() =~= es.drop_last());
    }
}

proof fn lemma_cached_count_bound(es: Seq<(u32, Option<u64>)>)
    ensures
        cached_count(es) <= es.len(),
        cached_count(es) > 0 ==> exists|i: int| 0 <= i < es.len() && #[trigger] es[i].1 is Some,
    decreases es.len(),
{
    if es.len() > 0 {
        lemma_cached_count_bound(es.drop_last());
        if cached_count(es.drop_last()) > 0 {
            let i = choose|i: int| 0 <= i < es.drop_last().len() && #[trigger] es.drop_last()[i].1 is Some;
            assert(es[i].1 is Some);
        }
        if es.last().1 is Some {
            assert(es[es.len() - 1].1 is Some);
        }
    }
}

proof fn lemma_cached_count_remove(es: Seq<(u32, Option<u64>)>, i: int)
    requires
        0 <= i < es.len(),
    ensures
        cached_count(es.remove(i)) + (if es[i].1 is Some {
            1int
        } else {
            0int
        }) == cached_count(es),
    decreases es.len(),
{
    if i < es.len() - 1 {
        lemma_cached_count_remove(es.drop_last(), i);
        assert(es.remove(i).drop_last() =~= es.drop_last().remove(i));
    } else {
        assert(es.remove(i) =~= es.drop_last());
    }
}

impl QuerySupportCache {
    /// The models of the entries: each loaded file and its ticket.
    pub closed spec fn entries_view(&self) -> Seq<(u32, Option<u64>)> {
        entry_views(self.entries@)
    }

    /// The budget, if any.
    pub closed spec fn budget_view(&self) -> Option<usize> {
        self.budget
    }

    /// The last ticket handed out.
    pub closed spec fn last_ticket(&self) -> nat {
        self.next_ticket as nat
    }

    /// Whether the cache is well formed.
    pub closed spec fn wf(&self) -> bool {
        entries_wf(self.entries_view(), self.last_ticket())
    }

    /// An empty cache with no budget.
    pub fn new() -> (r: Self)
        ensures
            r.wf(),
            r.entries_view() == Seq::<(u32, Option<u64>)>::empty(),
            r.budget_view() is None,
            r.last_ticket() == 0,
    {
        let r = QuerySupportCache { budget: None, entries: Vec::new(), next_ticket: 0 };
        assert(r.entries_view() =~= Seq::<(u32, Option<u64>)>::empty());
        r
    }

    /// The budget on files with query support, if any.
    pub fn query_support_budget(&self) -> (r: Option<usize>)
        ensures
            r == self.budget_view(),
    {
        self.budget
    }

    fn find(&self, file_id: FileId) -> (r: Option<usize>)
        requires
            self.wf(),
        ensures
            match r {
                Some(i) => i < self.entries_view().len() && self.entries_view()[i as int].0 == file_id.0
                    && entry_index(self.entries_view(), file_id.0) == i,
                None => entry_index(self.entries_view(), file_id.0) == -1,
            },
    {
        let ghost es = self.entries_view();
        let mut i: usize = 0;
        while i < self.entries.len()
            invariant
                0 <= i <= self.entries.len(),
                es == self.entries_view(),
                self.wf(),
                forall|j: int| 0 <= j < i ==> es[j].0 != file_id.0,
            decreases self.entries.len() - i,
        {
            if self.entries[i].file_id.0 == file_id.0 {
                assert(es[i as int].0 == file_id.0);
                let ghost c = entry_index(es, file_id.0);
                assert(0 <= c < es.len() && es[c].0 == file_id.0);
                assert(c == i) by {
                    if c != i {
                        if c < i {
                            assert(es[c].0 != file_id.0);
                        } else {
                            assert(es[i as int].0 != es[c].0);
                        }
                    }
                }
                return Some(i);
            }
            i += 1;
        }
        None
    }

    /// Whether the file is loaded and holds query support.
    pub fn has_query_support(&self, file_id: FileId) -> (r: bool)
        requires
            self.wf(),
        ensures
            r == (entry_index(self.entries_view(), file_id.0) >= 0 && self.entries_view()[entry_index(
                self.entries_view(),
                file_id.0,
            )].1 is Some),
    {
        match self.find(file_id) {
            Some(i) => self.entries[i].ticket.is_some(),
            None => false,
        }
    }

    /// Records a freshly analysed file: it is loaded without query support.
    pub fn load_file(&mut self, file_id: FileId)
        requires
            old(self).wf(),
        ensures
            final(self).wf(),
            final(self).budget_view() == old(self).budget_view(),
            final(self).last_ticket() == old(self).last_ticket(),
            entry_index(old(self).entries_view(), file_id.0) >= 0 ==> final(self).entries_view() == old(
                self,
            ).entries_view().update(entry_index(old(self).entries_view(), file_id.0), (file_id.0, None)),
            entry_index(old(self).entries_view(), file_id.0) < 0 ==> final(self).entries_view() == old(
                self,
            ).entries_view().push((file_id.0, None)),
    {
        let ghost es = self.entries_view();
        match self.find(file_id) {
            Some(i) => {
                self.entries.set(i, QuerySupportEntry { file_id, ticket: None });
                assert(self.entries_view() =~= es.update(i as int, (file_id.0, None)));
            },
            None => {
                self.entries.push(QuerySupportEntry { file_id, ticket: None });
                assert(self.entries_view() =~= es.push((file_id.0, None)));
                assert forall|i: int, j: int| 0 <= i < j < self.entries_view().len() implies #[trigger] self.entries_view()[i].0
                    != #[trigger] self.entries_view()[j].0 by {
                    if j == es.len() {
                        assert(es[i].0 != file_id.0);
                    }
                }
            },
        }
    }

    /// Forgets a file that left the workspace.
    pub fn remove_file(&mut self, file_id: FileId)
        requires
            old(self).wf(),
        ensures
            final(self).wf(),
            final(self).budget_view() == old(self).budget_view(),
            final(self).last_ticket() == old(self).last_ticket(),
            entry_index(old(self).entries_view(), file_id.0) >= 0 ==> final(self).entries_view() == old(
                self,
            ).entries_view().remove(entry_index(old(self).entries_view(), file_id.0)),
            entry_index(old(self).entries_view(), file_id.0) < 0 ==> final(self).entries_view() == old(
                self,
            ).entries_view(),
    {
        let ghost es = self.entries_view();
        if let Some(i) = self.find(file_id) {
            self.entries.remove(i);
            let ghost rs = es.remove(i as int);
            assert(self.entries_view() =~= rs);
            assert forall|a: int, b: int| 0 <= a < b < rs.len() implies #[trigger] rs[a].0 != #[trigger] rs[b].0 by {
                let a2 = if a < i { a } else { a + 1 };
                let b2 = if b < i { b } else { b + 1 };
                assert(rs[a] == es[a2] && rs[b] == es[b2]);
            }
            assert forall|a: int, b: int|
                0 <= a < b < rs.len() && rs[a].1 is Some && rs[b].1 is Some implies #[trigger] rs[a].1 != #[trigger] rs[b].1 by {
                let a2 = if a < i { a } else { a + 1 };
                let b2 = if b < i { b } else { b + 1 };
                assert(rs[a] == es[a2] && rs[b] == es[b2]);
            }
            assert forall|a: int| 0 <= a < rs.len() && #[trigger] rs[a].1 is Some implies rs[a].1->0 <= self.last_ticket() by {
                let a2 = if a < i { a } else { a + 1 };
                assert(rs[a] == es[a2]);
            }
        }
    }

    /// Gives a loaded file without query support its support, stamped with a
    /// fresh ticket. Says whether it did.
    pub fn ensure_query_support(&mut self, file_id: FileId) -> (r: bool)
        requires
            old(self).wf(),
            old(self).last_ticket() < u64::MAX,
        ensures
            final(self).wf(),
            final(self).budget_view() == old(self).budget_view(),
            r == (entry_index(old(self).entries_view(), file_id.0) >= 0 && old(self).entries_view()[entry_index(
                old(self).entries_view(),
                file_id.0,
            )].1 is None),
            r ==> final(self).last_ticket() == old(self).last_ticket() + 1 && final(self).entries_view() == old(
                self,
            ).entries_view().update(
                entry_index(old(self).entries_view(), file_id.0),
                (file_id.0, Some((old(self).last_ticket() + 1) as u64)),
            ),
            !r ==> final(self).last_ticket() == old(self).last_ticket() && final(self).entries_view() == old(
                self,
            ).entries_view(),
    {
        let ghost es = self.entries_view();
        match self.find(file_id) {
            Some(i) => {
                if self.entries[i].ticket.is_some() {
                    return false;
                }
                self.next_ticket = self.next_ticket + 1;
                let ticket = self.next_ticket;
                self.entries.set(i, QuerySupportEntry { file_id, ticket: Some(ticket) });
                let ghost ns = es.update(i as int, (file_id.0, Some(ticket)));
                assert(self.entries_view() =~= ns);
                assert forall|a: int, b: int| 0 <= a < b < ns.len() implies #[trigger] ns[a].0 != #[trigger] ns[b].0 by {
                    assert(es[a].0 == ns[a].0 && es[b].0 == ns[b].0);
                }
                assert forall|a: int, b: int|
                    0 <= a < b < ns.len() && ns[a].1 is Some && ns[b].1 is Some implies #[trigger] ns[a].1 != #[trigger] ns[b].1 by {
                    if a == i {
                        assert(es[b].1->0 < ticket);
                    } else if b == i {
                        assert(es[a].1->0 < ticket);
                    }
                }
                true
            },
            None => false,
        }
    }

    /// Drops a file's query support. Says whether it had any.
    pub fn evict_query_support(&mut self, file_id: FileId) -> (r: bool)
        requires
            old(self).wf(),
        ensures
            final(self).wf(),
            final(self).budget_view() == old(self).budget_view(),
            final(self).last_ticket() == old(self).last_ticket(),
            r == (entry_index(old(self).entries_view(), file_id.0) >= 0 && old(self).entries_view()[entry_index(
                old(self).entries_view(),
                file_id.0,
            )].1 is Some),
            r ==> final(self).entries_view() == old(self).entries_view().update(
                entry_index(old(self).entries_view(), file_id.0),
                (file_id.0, None),
            ),
            !r ==> final(self).entries_view() == old(self).entries_view(),
    {
        let ghost es = self.entries_view();
        match self.find(file_id) {
            Some(i) => {
                if self.entries[i].ticket.is_none() {
                    return false;
                }
                self.entries.set(i, QuerySupportEntry { file_id, ticket: None });
                assert(self.entries_view() =~= es.update(i as int, (file_id.0, None)));
                true
            },
            None => false,
        }
    }

    /// Drops the query support of the least recently used files until the
    /// budget holds, as `enforce_rel` states; returns their ids ascending.
    pub fn enforce_query_support_budget(&mut self) -> (r: Vec<FileId>)
        requires
            old(self).wf(),
        ensures
            final(self).wf(),
            final(self).budget_view() == old(self).budget_view(),
            final(self).last_ticket() == old(self).last_ticket(),
            enforce_rel(old(self).entries_view(), final(self).entries_view(), old(self).budget_view(), file_ids(r@)),
    {
        let ghost es = self.entries_view();
        let ghost next = self.last_ticket();
        let budget = match self.budget {
            Some(b) => b,
            None => {
                let r: Vec<FileId> = Vec::new();
                assert(file_ids(r@) =~= Seq::<u32>::empty());
                return r;
            },
        };
        let mut count: usize = 0;
        let mut i: usize = 0;
        proof {
            lemma_cached_count_bound(es);
        }
        while i < self.entries.len()
            invariant
                0 <= i <= self.entries.len(),
                es == self.entries_view(),
                count == cached_count(es.take(i as int)),
                cached_count(es) <= es.len(),
            decreases self.entries.len() - i,
        {
            proof {
                assert(es.take(i + 1).drop_last() =~= es.take(i as int));
                lemma_cached_count_bound(es.take(i + 1));
            }
            if self.entries[i].ticket.is_some() {
                count += 1;
            }
            i += 1;
        }
        assert(es.take(i as int) =~= es);
        if count <= budget {
            let r: Vec<FileId> = Vec::new();
            assert(file_ids(r@) =~= Seq::<u32>::empty());
            return r;
        }
        let excess = count - budget;
        let mut evicted: Vec<FileId> = Vec::new();
        let mut n: usize = 0;
        let ghost mut bound: int = -1;
        while n < excess
            invariant
                0 <= n <= excess,
                excess == count - budget,
                count == cached_count(es),
                self.budget == Some(budget),
                self.next_ticket as nat == next,
                self.entries_view().len() == es.len(),
                entries_wf(self.entries_view(), next),
                cached_count(self.entries_view()) + n == count,
                forall|k: int| 0 <= k < es.len() ==> (#[trigger] self.entries_view()[k]).0 == es[k].0,
                forall|k: int|
                    0 <= k < es.len() ==> (#[trigger] self.entries_view()[k]).1 == es[k].1 || (
                    self.entries_view()[k].1 is None && es[k].1 is Some),
                forall|k: int|
                    0 <= k < es.len() ==> ((es[k].1 is Some && (#[trigger] self.entries_view()[k]).1 is None)
                        <==> file_ids(evicted@).contains(es[k].0)),
                forall|k: int|
                    0 <= k < es.len() && es[k].1 is Some && (#[trigger] self.entries_view()[k]).1 is None
                        ==> es[k].1->0 <= bound,
                forall|k: int|
                    0 <= k < es.len() && (#[trigger] self.entries_view()[k]).1 is Some ==> self.entries_view()[k].1->0
                        > bound,
                forall|x: int| #![trigger file_ids(evicted@)[x]] 0 <= x < evicted.len() ==> exists|k: int| 0 <= k < es.len() && #[trigger] es[k].0 == file_ids(evicted@)[x],
            decreases excess - n,
        {
            let ghost cur = self.entries_view();
            proof {
                lemma_cached_count_bound(cur);
            }
            let mut best: usize = self.entries.len();
            let mut best_ticket: u64 = 0;
            let mut j: usize = 0;
            while j < self.entries.len()
                invariant
                    0 <= j <= self.entries.len(),
                    cur == self.entries_view(),
                    best == self.entries.len() || (best < j && cur[best as int].1 == Some(best_ticket)),
                    best == self.entries.len() ==> forall|k: int| 0 <= k < j ==> cur[k].1 is None,
                    best < self.entries.len() ==> forall|k: int|
                        0 <= k < j && (#[trigger] cur[k]).1 is Some ==> best_ticket <= cur[k].1->0,
                decreases self.entries.len() - j,
            {
                if let Some(t) = self.entries[j].ticket {
                    if best == self.entries.len() || t < best_ticket {
                        best = j;
                        best_ticket = t;
                    }
                }
                j += 1;
            }
            assert(best < self.entries.len()) by {
                if best == self.entries.len() {
                    let k = choose|k: int| 0 <= k < cur.len() && #[trigger] cur[k].1 is Some;
                }
            }
            let id = self.entries[best].file_id;
            let ghost before_ev = file_ids(evicted@);
            proof {
                assert(!before_ev.contains(id.0)) by {
                    if before_ev.contains(id.0) {
                        assert(cur[best as int].0 == es[best as int].0);
                    }
                }
                lemma_cached_count_update(cur, best as int, (id.0, None));
            }
            self.entries.set(best, QuerySupportEntry { file_id: id, ticket: None });
            evicted.push(id);
            let ghost ns = self.entries_view();
            assert(ns =~= cur.update(best as int, (id.0, None)));
            assert(file_ids(evicted@) =~= before_ev.push(id.0));
            proof {
                assert forall|k: int|
                    0 <= k < es.len() implies ((es[k].1 is Some && (#[trigger] ns[k]).1 is None) <==> file_ids(
                    evicted@,
                ).contains(es[k].0)) by {
                    if k == best {
                        assert(file_ids(evicted@)[before_ev.len() as int] == id.0);
                    } else {
                        if file_ids(evicted@).contains(es[k].0) && !before_ev.contains(es[k].0) {
                            let x = choose|x: int| 0 <= x < file_ids(evicted@).len() && file_ids(evicted@)[x] == es[k].0;
                            assert(x == before_ev.len());
                            assert(es[k].0 == es[best as int].0);
                        }
                        if before_ev.contains(es[k].0) {
                            let x = choose|x: int| 0 <= x < before_ev.len() && before_ev[x] == es[k].0;
                            assert(file_ids(evicted@)[x] == es[k].0);
                        }
                    }
                }
                assert forall|x: int| #![trigger file_ids(evicted@)[x]] 0 <= x < evicted.len() implies exists|k: int| 0 <= k < es.len() && #[trigger] es[k].0 == file_ids(evicted@)[x] by {
                    if x == before_ev.len() {
                        assert(es[best as int].0 == file_ids(evicted@)[x]);
                    } else {
                        assert(file_ids(evicted@)[x] == before_ev[x]);
                    }
                }
                assert forall|a: int, b: int|
                    0 <= a < b < ns.len() && ns[a].1 is Some && ns[b].1 is Some implies #[trigger] ns[a].1 != #[trigger] ns[b].1 by {
                    assert(cur[a] == ns[a] && cur[b] == ns[b]);
                }
                assert forall|a: int, b: int| 0 <= a < b < ns.len() implies #[trigger] ns[a].0 != #[trigger] ns[b].0 by {
                    assert(cur[a].0 == ns[a].0 && cur[b].0 == ns[b].0);
                }
                assert forall|k: int| 0 <= k < es.len() && (#[trigger] ns[k]).1 is Some implies ns[k].1->0 > best_ticket by {
                    assert(ns[k] == cur[k]);
                    assert(best_ticket <= cur[k].1->0);
                    assert(cur[k].1 != cur[best as int].1);
                }
                assert forall|k: int|
                    0 <= k < es.len() && es[k].1 is Some && (#[trigger] ns[k]).1 is None implies es[k].1->0 <= best_ticket by {
                    if k != best {
                        assert(ns[k] == cur[k]);
                    }
                }
                bound = best_ticket as int;
            }
            n += 1;
        }
        let r = sorted_file_ids(evicted);
        proof {
            let nv = self.entries_view();
            assert forall|k: int|
                0 <= k < nv.len() implies ((es[k].1 is Some && (#[trigger] nv[k]).1 is None) <==> file_ids(r@).contains(es[k].0)) by {
                assert(file_ids(evicted@).contains(es[k].0) <==> file_ids(r@).contains(es[k].0));
            }
            assert forall|x: int| #![trigger file_ids(r@)[x]] 0 <= x < r.len() implies exists|i: int| 0 <= i < es.len() && #[trigger] es[i].0 == file_ids(r@)[x] by {
                assert(file_ids(r@).contains(file_ids(r@)[x]));
                assert(file_ids(evicted@).contains(file_ids(r@)[x]));
                let y = choose|y: int| 0 <= y < file_ids(evicted@).len() && file_ids(evicted@)[y] == file_ids(r@)[x];
            }
            assert forall|a: int, b: int|
                0 <= a < nv.len() && 0 <= b < nv.len() && es[a].1 is Some && (#[trigger] nv[a]).1 is None
                    && (#[trigger] nv[b]).1 is Some implies es[a].1->0 < nv[b].1->0 by {
            }
        }
        r
    }

    /// Sets the budget on files with query support, then enforces it;
    /// returns the files whose support went, ascending.
    pub fn set_query_support_budget(&mut self, budget: Option<usize>) -> (r: Vec<FileId>)
        requires
            old(self).wf(),
        ensures
            final(self).wf(),
            final(self).budget_view() == budget,
            final(self).last_ticket() == old(self).last_ticket(),
            enforce_rel(old(self).entries_view(), final(self).entries_view(), budget, file_ids(r@)),
    {
        self.budget = budget;
        self.enforce_query_support_budget()
    }

    /// Gives each listed file query support where it has none, then enforces
    /// the budget; returns how many files gained support.
    pub fn warm_query_support(&mut self, file_ids_in: &[FileId]) -> (r: usize)
        requires
            old(self).wf(),
            old(self).last_ticket() + file_ids_in@.len() < u64::MAX,
        ensures
            final(self).wf(),
            final(self).budget_view() == old(self).budget_view(),
            final(self).last_ticket() == ensure_steps(old(self).entries_view(), old(self).last_ticket(), file_ids(file_ids_in@)).1,
            r == final(self).last_ticket() - old(self).last_ticket(),
            exists|evicted: Seq<u32>|
                enforce_rel(
                    ensure_steps(old(self).entries_view(), old(self).last_ticket(), file_ids(file_ids_in@)).0,
                    final(self).entries_view(),
                    old(self).budget_view(),
                    evicted,
                ),
    {
        let ghost es0 = self.entries_view();
        let ghost n0 = self.last_ticket();
        let ghost fs = file_ids(file_ids_in@);
        let mut warmed: usize = 0;
        let mut i: usize = 0;
        while i < file_ids_in.len()
            invariant
                0 <= i <= file_ids_in.len(),
                self.wf(),
                warmed <= i,
                fs == file_ids(file_ids_in@),
                self.budget_view() == old(self).budget_view(),
                self.last_ticket() == n0 + warmed,
                n0 + file_ids_in@.len() < u64::MAX,
                (self.entries_view(), self.last_ticket()) == ensure_steps(es0, n0, fs.take(i as int)),
            decreases file_ids_in.len() - i,
        {
            proof {
                assert(fs.take(i + 1).drop_last() =~= fs.take(i as int));
                assert(fs.take(i + 1).last() == file_ids_in@[i as int].0);
            }
            if self.ensure_query_support(file_ids_in[i]) {
                warmed += 1;
            }
            i += 1;
        }
        assert(fs.take(i as int) =~= fs);
        let ghost mid = self.entries_view();
        let evicted = self.enforce_query_support_budget();
        assert(mid == ensure_steps(es0, n0, fs).0);
        assert(enforce_rel(ensure_steps(es0, n0, fs).0, self.entries_view(), old(self).budget_view(), file_ids(evicted@)));
        warmed
    }

    /// Warms every loaded file, in ascending order of file; returns how many
    /// files gained query support, which is how many lacked it. With no
    /// budget every file holds support afterwards.
    pub fn warm_workspace_queries(&mut self) -> (r: usize)
        requires
            old(self).wf(),
            old(self).last_ticket() + old(self).entries_view().len() < u64::MAX,
        ensures
            final(self).wf(),
            final(self).budget_view() == old(self).budget_view(),
            r == old(self).entries_view().len() - cached_count(old(self).entries_view()),
            final(self).entries_view().len() == old(self).entries_view().len(),
            final(self).budget_view() is None ==> forall|i: int|
                0 <= i < final(self).entries_view().len() ==> (#[trigger] final(self).entries_view()[i]).1 is Some,
    {
        let ghost es0 = self.entries_view();
        let ghost n0 = self.last_ticket();
        let mut ids: Vec<FileId> = Vec::new();
        let mut i: usize = 0;
        while i < self.entries.len()
            invariant
                0 <= i <= self.entries.len(),
                es0 == self.entries_view(),
                ids@.len() == i,
                forall|j: int| 0 <= j < i ==> (#[trigger] ids@[j]).0 == es0[j].0,
            decreases self.entries.len() - i,
        {
            ids.push(self.entries[i].file_id);
            i += 1;
        }
        let ghost all = file_ids(ids@);
        let sorted = sorted_file_ids(ids);
        proof {
            broadcast use vstd::set::group_set_axioms, vstd::seq_lib::seq_to_set_is_finite;
            let sv = file_ids(sorted@);
            assert(sv.no_duplicates()) by {
                assert forall|a: int, b: int| 0 <= a < sv.len() && 0 <= b < sv.len() && a != b implies sv[a] != sv[b] by {
                    if a < b {
                        assert(sv[a] < sv[b]);
                    } else {
                        assert(sv[b] < sv[a]);
                    }
                }
            }
            sv.unique_seq_to_set();
            all.lemma_cardinality_of_set();
            assert(sv.to_set().subset_of(all.to_set()));
            vstd::set_lib::lemma_len_subset(sv.to_set(), all.to_set());
            assert(all.len() == es0.len());
            assert forall|j: int| 0 <= j < es0.len() implies sv.contains(#[trigger] es0[j].0) by {
                assert(all[j] == es0[j].0);
                assert(all.contains(es0[j].0));
            }
            assert(sv.len() <= es0.len());
            law_warming_every_file(es0, n0, sv, Seq::empty());
        }
        let r = self.warm_query_support(sorted.as_slice());
        proof {
            let sv = file_ids(sorted@);
            if self.budget_view() is None {
                let ev = choose|evicted: Seq<u32>| enforce_rel(ensure_steps(es0, n0, sv).0, self.entries_view(), old(self).budget_view(), evicted);
            }
        }
        r
    }
}

proof fn lemma_all_cached_count(es: Seq<(u32, Option<u64>)>)
    requires
        forall|i: int| 0 <= i < es.len() ==> (#[trigger] es[i]).1 is Some,
    ensures
        cached_count(es) == es.len(),
    decreases es.len(),
{
    if es.len() > 0 {
        assert forall|i: int| 0 <= i < es.drop_last().len() implies (#[trigger] es.drop_last()[i]).1 is Some by {
            assert(es.drop_last()[i] == es[i]);
        }
        lemma_all_cached_count(es.drop_last());
        assert(es[es.len() - 1].1 is Some);
    }
}

proof fn lemma_entry_index_of(es: Seq<(u32, Option<u64>)>, next: nat, i: int)
    requires
        entries_wf(es, next),
        0 <= i < es.len(),
    ensures
        entry_index(es, es[i].0) == i,
{
    let c = choose|c: int| 0 <= c < es.len() && #[trigger] es[c].0 == es[i].0;
    if c < i {
        assert(es[c].0 != es[i].0);
    } else if c > i {
        assert(es[i].0 != es[c].0);
    }
}

proof fn lemma_warm_steps(es: Seq<(u32, Option<u64>)>, next: nat, fs: Seq<u32>)
    requires
        entries_wf(es, next),
        next + fs.len() < u64::MAX,
    ensures
        ensure_steps(es, next, fs).0.len() == es.len(),
        forall|i: int| 0 <= i < es.len() ==> (#[trigger] ensure_steps(es, next, fs).0[i]).0 == es[i].0,
        forall|i: int| 0 <= i < es.len() && es[i].1 is Some ==> (#[trigger] ensure_steps(es, next, fs).0[i]).1 is Some,
        forall|i: int| 0 <= i < es.len() && fs.contains(es[i].0) ==> (#[trigger] ensure_steps(es, next, fs).0[i]).1 is Some,
        cached_count(ensure_steps(es, next, fs).0) + next == cached_count(es) + ensure_steps(es, next, fs).1,
        entries_wf(ensure_steps(es, next, fs).0, ensure_steps(es, next, fs).1),
        next <= ensure_steps(es, next, fs).1 <= next + fs.len(),
    decreases fs.len(),
{
    if fs.len() > 0 {
        let t = fs.drop_last();
        let f = fs.last();
        lemma_warm_steps(es, next, t);
        let b = ensure_steps(es, next, t);
        let k = entry_index(b.0, f);
        let r = ensure_steps(es, next, fs);
        if k >= 0 && b.0[k].1 is None {
            lemma_cached_count_update(b.0, k, (f, Some((b.1 + 1) as u64)));
            assert(b.0[k].0 == f);
            assert(r.0 == b.0.update(k, (f, Some((b.1 + 1) as u64))));
        }
        assert forall|i: int| 0 <= i < es.len() && fs.contains(es[i].0) implies (#[trigger] r.0[i]).1 is Some by {
            if es[i].0 == f {
                lemma_entry_index_of(b.0, b.1, i);
            } else {
                let j = choose|j: int| 0 <= j < fs.len() && fs[j] == es[i].0;
                assert(t[j] == es[i].0);
                assert(t.contains(es[i].0));
            }
        }
        assert(entries_wf(r.0, r.1)) by {
            if k >= 0 && b.0[k].1 is None {
                assert forall|i: int, j: int| 0 <= i < j < r.0.len() && r.0[i].1 is Some && r.0[j].1 is Some implies #[trigger] r.0[i].1
                    != #[trigger] r.0[j].1 by {
                    if i != k && j != k {
                        assert(r.0[i] == b.0[i] && r.0[j] == b.0[j]);
                    } else if i == k {
                        assert(r.0[j] == b.0[j]);
                        assert(b.0[j].1->0 <= b.1);
                    } else {
                        assert(r.0[i] == b.0[i]);
                        assert(b.0[i].1->0 <= b.1);
                    }
                }
            }
        }
    }
}

/// Warming every loaded file gives query support to each file that lacked
/// it, one new ticket each, so it reports the number of files that lacked
/// support; afterwards every file holds support, and warming again gives
/// no file support.
pub proof fn law_warming_every_file(es: Seq<(u32, Option<u64>)>, next: nat, fs: Seq<u32>, again: Seq<u32>)
    requires
        entries_wf(es, next),
        next + fs.len() + again.len() < u64::MAX,
        forall|i: int| 0 <= i < es.len() ==> fs.contains(#[trigger] es[i].0),
    ensures
        ensure_steps(es, next, fs).1 == next + es.len() - cached_count(es),
        ensure_steps(es, next, fs).0.len() == es.len(),
        forall|i: int| 0 <= i < es.len() ==> (#[trigger] ensure_steps(es, next, fs).0[i]).1 is Some,
        ensure_steps(ensure_steps(es, next, fs).0, ensure_steps(es, next, fs).1, again).1 == ensure_steps(es, next, fs).1,
{
    lemma_warm_steps(es, next, fs);
    let r = ensure_steps(es, next, fs);
    assert forall|i: int| 0 <= i < r.0.len() implies (#[trigger] r.0[i]).1 is Some by {
        assert(fs.contains(es[i].0));
    }
    lemma_all_cached_count(r.0);
    lemma_warm_steps(r.0, r.1, again);
    lemma_cached_count_bound(ensure_steps(r.0, r.1, again).0);
}

/// Once the budget is enforced, no more files hold query support than the
/// budget allows.
pub proof fn law_enforced_budget_holds(
    old_es: Seq<(u32, Option<u64>)>,
    new_es: Seq<(u32, Option<u64>)>,
    budget: usize,
    evicted: Seq<u32>,
)
    requires
        enforce_rel(old_es, new_es, Some(budget), evicted),
    ensures
        cached_count(new_es) <= budget,
{
}

/// A file that has just gained query support keeps it when the budget is
/// then enforced, as long as the budget allows at least one file: the least
/// recently used support goes first.
pub proof fn law_fresh_support_survives_enforcement(
    es: Seq<(u32, Option<u64>)>,
    next: nat,
    f: u32,
    new_es: Seq<(u32, Option<u64>)>,
    budget: usize,
    evicted: Seq<u32>,
)
    requires
        entries_wf(es, next),
        entry_index(es, f) >= 0,
        es[entry_index(es, f)].1 is None,
        next < u64::MAX,
        budget >= 1,
        enforce_rel(ensure_step(es, next, f).0, new_es, Some(budget), evicted),
    ensures
        new_es[entry_index(es, f)].1 is Some,
{
    let i = entry_index(es, f);
    let mid = ensure_step(es, next, f).0;
    assert(mid[i].1 == Some((next + 1) as u64));
    if new_es[i].1 is None {
        assert(cached_count(mid) > budget);
        lemma_cached_count_bound(new_es);
        let j = choose|j: int| 0 <= j < new_es.len() && #[trigger] new_es[j].1 is Some;
        assert(new_es[j].1 == mid[j].1);
        assert(j != i);
        assert(mid[j] == es[j]);
        assert(es[j].1->0 <= next);
        assert(mid[i].1->0 < new_es[j].1->0);
    }
}

} // verus!
