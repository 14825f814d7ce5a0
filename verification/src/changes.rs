//! What a change to the workspace touches: sorted file sets and the files
//! whose analysis depends on the files that changed.

use vstd::prelude::*;

use crate::workspace::FileId;

verus! {

/// The ids of a list of files.
pub open spec fn file_ids(fs: Seq<FileId>) -> Seq<u32> {
    Seq::new(fs.len(), |i: int| fs[i].0)
}

/// Whether the ids strictly increase.
pub open spec fn strictly_ascending(s: Seq<u32>) -> bool {
    forall|i: int, j: int| 0 <= i < j < s.len() ==> s[i] < s[j]
}

/// Inserts `x` into a strictly ascending list, unless it is there already.
fn insert_id(sorted: &mut Vec<FileId>, x: FileId)
    requires
        strictly_ascending(file_ids(old(sorted)@)),
    ensures
        strictly_ascending(file_ids(final(sorted)@)),
        forall|v: u32| #[trigger] file_ids(final(sorted)@).contains(v) <==> (file_ids(old(sorted)@).contains(v) || v == x.0),
{
    let ghost s = file_ids(sorted@);
    let mut p: usize = 0;
    while p < sorted.len() && sorted[p].0 < x.0
        invariant
            0 <= p <= sorted.len(),
            s == file_ids(sorted@),
            forall|j: int| 0 <= j < p ==> s[j] < x.0,
        decreases sorted.len() - p,
    {
        p += 1;
    }
    if p < sorted.len() && sorted[p].0 == x.0 {
        assert(s[p as int] == x.0);
        assert forall|v: u32| #[trigger] s.contains(v) <==> (s.contains(v) || v == x.0) by {
            if v == x.0 {
                assert(s[p as int] == v);
            }
        }
        return;
    }
    sorted.insert(p, x);
    let ghost t = file_ids(sorted@);
    assert(t =~= s.insert(p as int, x.0));
    assert forall|i: int, j: int| 0 <= i < j < t.len() implies t[i] < t[j] by {
        if j < p {
        } else if j == p {
        } else if i < p {
            assert(t[j] == s[j - 1]);
            assert(s[j - 1] > x.0) by {
                if p < s.len() {
                    assert(s[p as int] > x.0);
                }
            }
        } else if i == p {
            assert(s[j - 1] >= s[p as int]);
        } else {
            assert(t[i] == s[i - 1] && t[j] == s[j - 1]);
        }
    }
    assert forall|v: u32| #[trigger] t.contains(v) <==> (s.contains(v) || v == x.0) by {
        if t.contains(v) {
            let k = choose|k: int| 0 <= k < t.len() && t[k] == v;
            if k < p {
                assert(s[k] == v);
            } else if k > p {
                assert(s[k - 1] == v);
            }
        }
        if s.contains(v) {
            let k = choose|k: int| 0 <= k < s.len() && s[k] == v;
            if k < p {
                assert(t[k] == v);
            } else {
                assert(t[k + 1] == v);
            }
        }
        if v == x.0 {
            assert(t[p as int] == v);
        }
    }
}

/// Sorts file ids ascending and drops repeats.
pub fn sorted_file_ids(file_ids_in: Vec<FileId>) -> (r: Vec<FileId>)
    ensures
        strictly_ascending(file_ids(r@)),
        forall|v: u32| #[trigger] file_ids(r@).contains(v) <==> file_ids(file_ids_in@).contains(v),
{
    let ghost input = file_ids(file_ids_in@);
    let mut sorted: Vec<FileId> = Vec::new();
    let mut i: usize = 0;
    while i < file_ids_in.len()
        invariant
            0 <= i <= file_ids_in.len(),
            input == file_ids(file_ids_in@),
            strictly_ascending(file_ids(sorted@)),
            forall|v: u32| #[trigger] file_ids(sorted@).contains(v) <==> input.take(i as int).contains(v),
        decreases file_ids_in.len() - i,
    {
        insert_id(&mut sorted, file_ids_in[i]);
        let ghost t0 = input.take(i as int);
        let ghost t1 = input.take(i + 1);
        assert forall|v: u32| #[trigger] t1.contains(v) <==> (t0.contains(v) || v == file_ids_in@[i as int].0) by {
            if t1.contains(v) {
                let k = choose|k: int| 0 <= k < t1.len() && t1[k] == v;
                if k < i {
                    assert(t0[k] == v);
                }
            }
            if t0.contains(v) {
                let k = choose|k: int| 0 <= k < t0.len() && t0[k] == v;
                assert(t1[k] == v);
            }
            if v == file_ids_in@[i as int].0 {
                assert(t1[i as int] == v);
            }
        }
        i += 1;
    }
    assert(input.take(i as int) =~= input);
    sorted
}

/// The files that depend on one file.
pub struct FileDependents {
    pub file_id: FileId,
    pub dependents: Vec<FileId>,
}

/// A file that a change removed, with its normalized path.
pub struct RemovedFileImpact {
    pub file_id: FileId,
    pub normalized_path: String,
}

/// The ids of the files that depend on file `f`: those listed by the first
/// entry for `f`, or none.
pub open spec fn dependents_of(g: Seq<FileDependents>, f: u32) -> Seq<u32>
    decreases g.len(),
{
    if g.len() == 0 {
        Seq::empty()
    } else if g[0].file_id.0 == f {
        file_ids(g[0].dependents@)
    } else {
        dependents_of(g.drop_first(), f)
    }
}

/// The ids of the removed files.
pub open spec fn removed_ids(rs: Seq<RemovedFileImpact>) -> Seq<u32> {
    Seq::new(rs.len(), |i: int| rs[i].file_id.0)
}

/// Whether file `d` depended on file `f` before or after the change.
pub open spec fn depends_on(previous: Seq<FileDependents>, current: Seq<FileDependents>, f: u32, d: u32) -> bool {
    dependents_of(previous, f).contains(d) || dependents_of(current, f).contains(d)
}

/// Whether file `d` depended, before or after the change, on one of the
/// first `n` rebuilt files.
pub open spec fn hit_by_rebuilt(
    previous: Seq<FileDependents>,
    current: Seq<FileDependents>,
    rebuilt: Seq<u32>,
    n: int,
    d: u32,
) -> bool {
    exists|k: int| 0 <= k < n && #[trigger] depends_on(previous, current, rebuilt[k], d)
}

/// Whether file `d` depended, before the change, on one of the first `n`
/// removed files.
pub open spec fn hit_by_removed(previous: Seq<FileDependents>, removed: Seq<u32>, n: int, d: u32) -> bool {
    exists|k: int| 0 <= k < n && #[trigger] dependents_of(previous, removed[k]).contains(d)
}

/// Whether file `d` is affected by a change that rebuilt and removed the
/// given files: it depended, before or after the change, on a rebuilt file,
/// or it depended before the change on a removed file, and it was itself
/// neither rebuilt nor removed.
pub open spec fn is_affected(
    previous: Seq<FileDependents>,
    current: Seq<FileDependents>,
    removed: Seq<u32>,
    rebuilt: Seq<u32>,
    d: u32,
) -> bool {
    &&& hit_by_rebuilt(previous, current, rebuilt, rebuilt.len() as int, d) || hit_by_removed(
        previous,
        removed,
        removed.len() as int,
        d,
    )
    &&& !rebuilt.contains(d)
    &&& !removed.contains(d)
}

/// The dependents of file `f`, as `dependents_of` states.
fn dependents_list(g: &Vec<FileDependents>, f: FileId) -> (r: Vec<FileId>)
    ensures
        file_ids(r@) == dependents_of(g@, f.0),
{
    let mut i: usize = 0;
    assert(g@.skip(0) =~= g@);
    while i < g.len()
        invariant
            0 <= i <= g.len(),
            dependents_of(g@.skip(i as int), f.0) == dependents_of(g@, f.0),
        decreases g.len() - i,
    {
        assert(g@.skip(i as int).drop_first() =~= g@.skip(i + 1));
        assert(g@.skip(i as int)[0] == g@[i as int]);
        if g[i].file_id.0 == f.0 {
            let mut out: Vec<FileId> = Vec::new();
            let mut j: usize = 0;
            while j < g[i].dependents.len()
                invariant
                    0 <= j <= g@[i as int].dependents.len(),
                    i < g.len(),
                    file_ids(out@) == file_ids(g@[i as int].dependents@).take(j as int),
                decreases g@[i as int].dependents.len() - j,
            {
                let ghost before = file_ids(out@);
                out.push(g[i].dependents[j]);
                assert(file_ids(out@) =~= before.push(g@[i as int].dependents@[j as int].0));
                assert(file_ids(out@) =~= file_ids(g@[i as int].dependents@).take(j + 1));
                j += 1;
            }
            assert(file_ids(out@) =~= file_ids(g@[i as int].dependents@));
            return out;
        }
        i += 1;
    }
    assert(g@.skip(i as int).len() == 0);
    Vec::new()
}

/// Appends every id of `more` to `all`.
fn append_ids(all: &mut Vec<FileId>, more: Vec<FileId>)
    ensures
        file_ids(final(all)@) == file_ids(old(all)@) + file_ids(more@),
{
    let ghost start = file_ids(all@);
    let mut j: usize = 0;
    while j < more.len()
        invariant
            0 <= j <= more.len(),
            file_ids(all@) == start + file_ids(more@).take(j as int),
        decreases more.len() - j,
    {
        let ghost before = file_ids(all@);
        all.push(more[j]);
        assert(file_ids(all@) =~= before.push(more@[j as int].0));
        assert(file_ids(all@) =~= start + file_ids(more@).take(j + 1));
        j += 1;
    }
    assert(file_ids(more@).take(j as int) =~= file_ids(more@));
}

fn listed(ids: &[FileId], x: u32) -> (r: bool)
    ensures
        r == file_ids(ids@).contains(x),
{
    let mut i: usize = 0;
    while i < ids.len()
        invariant
            0 <= i <= ids.len(),
            forall|j: int| 0 <= j < i ==> ids@[j].0 != x,
        decreases ids.len() - i,
    {
        if ids[i].0 == x {
            assert(file_ids(ids@)[i as int] == x);
            return true;
        }
        i += 1;
    }
    false
}

fn listed_removed(rs: &[RemovedFileImpact], x: u32) -> (r: bool)
    ensures
        r == removed_ids(rs@).contains(x),
{
    let mut i: usize = 0;
    while i < rs.len()
        invariant
            0 <= i <= rs.len(),
            forall|j: int| 0 <= j < i ==> rs@[j].file_id.0 != x,
        decreases rs.len() - i,
    {
        if rs[i].file_id.0 == x {
            assert(removed_ids(rs@)[i as int] == x);
            return true;
        }
        i += 1;
    }
    false
}

/// The files, ascending, whose analysis a change may have affected through
/// their dependencies, as `is_affected` states.
#[verifier::loop_isolation(false)]
pub fn collect_dependency_affected_files(
    previous_dependents: &Vec<FileDependents>,
    current_dependents: &Vec<FileDependents>,
    removed_files: &[RemovedFileImpact],
    rebuilt_files: &[FileId],
) -> (r: Vec<FileId>)
    ensures
        strictly_ascending(file_ids(r@)),
        forall|d: u32|
            #[trigger] file_ids(r@).contains(d) <==> is_affected(
                previous_dependents@,
                current_dependents@,
                removed_ids(removed_files@),
                file_ids(rebuilt_files@),
                d,
            ),
{
    let ghost prev = previous_dependents@;
    let ghost cur = current_dependents@;
    let ghost rb = file_ids(rebuilt_files@);
    let ghost rm = removed_ids(removed_files@);
    let mut all: Vec<FileId> = Vec::new();
    let mut i: usize = 0;
    while i < rebuilt_files.len()
        invariant
            0 <= i <= rebuilt_files.len(),
            rb == file_ids(rebuilt_files@),
            forall|d: u32| #[trigger] file_ids(all@).contains(d) <==> hit_by_rebuilt(prev, cur, rb, i as int, d),
        decreases rebuilt_files.len() - i,
    {
        let ghost before = file_ids(all@);
        let a = dependents_list(previous_dependents, rebuilt_files[i]);
        let b = dependents_list(current_dependents, rebuilt_files[i]);
        let ghost av = file_ids(a@);
        let ghost bv = file_ids(b@);
        assert(rb[i as int] == rebuilt_files@[i as int].0);
        assert(av == dependents_of(prev, rb[i as int]));
        assert(bv == dependents_of(cur, rb[i as int]));
        append_ids(&mut all, a);
        append_ids(&mut all, b);
        assert(file_ids(all@) == before + av + bv);
        assert forall|d: u32| #[trigger] file_ids(all@).contains(d) <==> hit_by_rebuilt(prev, cur, rb, i + 1, d) by {
            let s = file_ids(all@);
            if s.contains(d) {
                let x = choose|x: int| 0 <= x < s.len() && s[x] == d;
                if x < before.len() {
                    assert(before[x] == d);
                    assert(before.contains(d));
                    let k = choose|k: int| 0 <= k < i && #[trigger] depends_on(prev, cur, rb[k], d);
                    assert(depends_on(prev, cur, rb[k], d));
                } else if x < before.len() + av.len() {
                    assert(av[x - before.len()] == d);
                    assert(av.contains(d));
                    assert(depends_on(prev, cur, rb[i as int], d));
                } else {
                    assert(bv[x - before.len() - av.len()] == d);
                    assert(bv.contains(d));
                    assert(depends_on(prev, cur, rb[i as int], d));
                }
            }
            if hit_by_rebuilt(prev, cur, rb, i + 1, d) {
                let k = choose|k: int| 0 <= k < i + 1 && #[trigger] depends_on(prev, cur, rb[k], d);
                if k < i {
                    assert(hit_by_rebuilt(prev, cur, rb, i as int, d));
                    assert(before.contains(d));
                    let x = choose|x: int| 0 <= x < before.len() && before[x] == d;
                    assert(s[x] == d);
                } else if av.contains(d) {
                    let x = choose|x: int| 0 <= x < av.len() && av[x] == d;
                    assert(s[before.len() + x] == d);
                } else {
                    assert(bv.contains(d));
                    let x = choose|x: int| 0 <= x < bv.len() && bv[x] == d;
                    assert(s[before.len() + av.len() + x] == d);
                }
            }
        }
        i += 1;
    }
    let ghost from_rebuilt = file_ids(all@);
    let mut j: usize = 0;
    while j < removed_files.len()
        invariant
            0 <= j <= removed_files.len(),
            rm == removed_ids(removed_files@),
            forall|d: u32|
                #[trigger] file_ids(all@).contains(d) <==> (from_rebuilt.contains(d) || hit_by_removed(
                    prev,
                    rm,
                    j as int,
                    d,
                )),
        decreases removed_files.len() - j,
    {
        let ghost before = file_ids(all@);
        let a = dependents_list(previous_dependents, removed_files[j].file_id);
        let ghost av = file_ids(a@);
        assert(rm[j as int] == removed_files@[j as int].file_id.0);
        assert(av == dependents_of(prev, rm[j as int]));
        append_ids(&mut all, a);
        assert forall|d: u32| #[trigger] file_ids(all@).contains(d) <==> (from_rebuilt.contains(d) || hit_by_removed(
            prev,
            rm,
            j + 1,
            d,
        )) by {
            let s = file_ids(all@);
            if s.contains(d) {
                let x = choose|x: int| 0 <= x < s.len() && s[x] == d;
                if x < before.len() {
                    assert(before[x] == d);
                    assert(before.contains(d));
                    if !from_rebuilt.contains(d) {
                        let k = choose|k: int| 0 <= k < j && #[trigger] dependents_of(prev, rm[k]).contains(d);
                        assert(dependents_of(prev, rm[k]).contains(d));
                    }
                } else {
                    assert(av[x - before.len()] == d);
                    assert(av.contains(d));
                    assert(dependents_of(prev, rm[j as int]).contains(d));
                }
            }
            if from_rebuilt.contains(d) {
                assert(before.contains(d));
                let x = choose|x: int| 0 <= x < before.len() && before[x] == d;
                assert(s[x] == d);
            }
            if hit_by_removed(prev, rm, j + 1, d) {
                let k = choose|k: int| 0 <= k < j + 1 && #[trigger] dependents_of(prev, rm[k]).contains(d);
                if k < j {
                    assert(hit_by_removed(prev, rm, j as int, d));
                    assert(before.contains(d));
                    let x = choose|x: int| 0 <= x < before.len() && before[x] == d;
                    assert(s[x] == d);
                } else {
                    assert(av.contains(d));
                    let x = choose|x: int| 0 <= x < av.len() && av[x] == d;
                    assert(s[before.len() + x] == d);
                }
            }
        }
        j += 1;
    }
    let sorted = sorted_file_ids(all);
    let ghost sv = file_ids(sorted@);
    let mut out: Vec<FileId> = Vec::new();
    let mut k: usize = 0;
    while k < sorted.len()
        invariant
            0 <= k <= sorted.len(),
            sv == file_ids(sorted@),
            strictly_ascending(sv),
            strictly_ascending(file_ids(out@)),
            forall|x: int, y: int| 0 <= x < out.len() && k <= y < sv.len() ==> #[trigger] file_ids(out@)[x] < #[trigger] sv[y],
            forall|d: u32|
                #[trigger] file_ids(out@).contains(d) <==> (sv.take(k as int).contains(d) && !rb.contains(d)
                    && !rm.contains(d)),
        decreases sorted.len() - k,
    {
        let id = sorted[k];
        let keep = !listed(rebuilt_files, id.0) && !listed_removed(removed_files, id.0);
        let ghost before = file_ids(out@);
        if keep {
            out.push(id);
            assert(file_ids(out@) =~= before.push(sv[k as int]));
            assert forall|a: int, b: int| 0 <= a < b < file_ids(out@).len() implies file_ids(out@)[a] < file_ids(out@)[b] by {
                if b == before.len() {
                    assert(before[a] < sv[k as int]);
                }
            }
            assert forall|x: int, y: int| 0 <= x < out.len() && k + 1 <= y < sv.len() implies #[trigger] file_ids(out@)[x] < #[trigger] sv[y] by {
                if x < before.len() {
                    assert(before[x] < sv[y]);
                }
            }
        }
        let ghost t0 = sv.take(k as int);
        let ghost t1 = sv.take(k + 1);
        assert forall|d: u32| #[trigger] file_ids(out@).contains(d) <==> (t1.contains(d) && !rb.contains(d)
            && !rm.contains(d)) by {
            let s = file_ids(out@);
            if t1.contains(d) {
                let y = choose|y: int| 0 <= y < t1.len() && t1[y] == d;
                if y < k {
                    assert(t0[y] == d);
                }
            }
            if t0.contains(d) {
                let y = choose|y: int| 0 <= y < t0.len() && t0[y] == d;
                assert(t1[y] == d);
            }
            if keep && d == sv[k as int] {
                assert(s[before.len() as int] == d);
                assert(t1[k as int] == d);
            }
            if s.contains(d) && keep {
                let x = choose|x: int| 0 <= x < s.len() && s[x] == d;
                if x < before.len() {
                    assert(before[x] == d);
                    assert(before.contains(d));
                }
            }
            if before.contains(d) {
                let x = choose|x: int| 0 <= x < before.len() && before[x] == d;
                if keep {
                    assert(s[x] == d);
                }
            }
        }
        k += 1;
    }
    assert(sv.take(k as int) =~= sv);
    out
}

} // verus!

verus! {

/// The version of an open document, as the editor numbers it.
#[derive(Debug, Clone, Copy, PartialEq, Eq, Hash)]
pub struct DocumentVersion(pub i32);

/// A new text for a file, at a document version. Its path is normalized.
pub struct FileChange {
    pub path: String,
    pub text: String,
    pub version: DocumentVersion,
}

/// The text and version of a document the workspace holds.
pub struct OpenDocument {
    pub text: String,
    pub version: DocumentVersion,
}

/// The model of a change: path, text and version.
pub open spec fn change_view(c: FileChange) -> (Seq<char>, Seq<char>, i32) {
    (c.path@, c.text@, c.version.0)
}

/// The models of a list of changes.
pub open spec fn change_views(cs: Seq<FileChange>) -> Seq<(Seq<char>, Seq<char>, i32)> {
    Seq::new(cs.len(), |i: int| change_view(cs[i]))
}

/// Whether a change of the given text and version replaces what is held:
/// a later version does, and so does the same version with another text.
pub open spec fn supersedes(text: Seq<char>, version: i32, held_text: Seq<char>, held_version: i32) -> bool {
    version > held_version || (version == held_version && text != held_text)
}

/// The change that stands for each path after the given changes, in order:
/// the first change of a path stands until one that supersedes it comes.
pub open spec fn coalesced(cs: Seq<(Seq<char>, Seq<char>, i32)>) -> Map<Seq<char>, (Seq<char>, i32)>
    decreases cs.len(),
{
    if cs.len() == 0 {
        Map::empty()
    } else {
        let m = coalesced(cs.drop_last());
        let c = cs.last();
        if !m.contains_key(c.0) || supersedes(c.1, c.2, m[c.0].0, m[c.0].1) {
            m.insert(c.0, (c.1, c.2))
        } else {
            m
        }
    }
}

/// The position of the first change of path `p` in a list, or -1.
pub open spec fn path_position(l: Seq<(Seq<char>, Seq<char>, i32)>, p: Seq<char>) -> int
    decreases l.len(),
{
    if l.len() == 0 {
        -1
    } else if l[0].0 == p {
        0
    } else {
        let r = path_position(l.drop_first(), p);
        if r < 0 {
            -1
        } else {
            r + 1
        }
    }
}

/// The changes that stand after the given ones, one per path, in the order
/// in which their paths first came: a change of a new path is added at the
/// end; one that supersedes the change held for its path takes its place.
pub open spec fn coalesced_list(cs: Seq<(Seq<char>, Seq<char>, i32)>) -> Seq<(Seq<char>, Seq<char>, i32)>
    decreases cs.len(),
{
    if cs.len() == 0 {
        Seq::empty()
    } else {
        let l = coalesced_list(cs.drop_last());
        let c = cs.last();
        let k = path_position(l, c.0);
        if k < 0 {
            l.push(c)
        } else if supersedes(c.1, c.2, l[k].1, l[k].2) {
            l.update(k, c)
        } else {
            l
        }
    }
}

proof fn lemma_path_position(l: Seq<(Seq<char>, Seq<char>, i32)>, p: Seq<char>, k: int)
    requires
        0 <= k <= l.len(),
        forall|a: int| 0 <= a < k ==> (#[trigger] l[a]).0 != p,
        k < l.len() ==> l[k].0 == p,
    ensures
        path_position(l, p) == if k < l.len() {
            k
        } else {
            -1
        },
    decreases l.len(),
{
    if l.len() > 0 && k > 0 {
        assert forall|a: int| 0 <= a < k - 1 implies (#[trigger] l.drop_first()[a]).0 != p by {
            assert(l.drop_first()[a] == l[a + 1]);
        }
        assert(l[0].0 != p);
        lemma_path_position(l.drop_first(), p, k - 1);
    }
}

/// Inserts a change into a list after every change whose path does not come
/// after its path.
pub open spec fn insert_by_path(s: Seq<(Seq<char>, Seq<char>, i32)>, x: (Seq<char>, Seq<char>, i32)) -> Seq<
    (Seq<char>, Seq<char>, i32),
>
    decreases s.len(),
{
    if s.len() > 0 && crate::paths::path_precedes(x.0, s.last().0) {
        insert_by_path(s.drop_last(), x).push(s.last())
    } else {
        s.push(x)
    }
}

/// The changes sorted by path, keeping the given order among paths that
/// neither order puts first.
pub open spec fn sorted_by_path(s: Seq<(Seq<char>, Seq<char>, i32)>) -> Seq<(Seq<char>, Seq<char>, i32)>
    decreases s.len(),
{
    if s.len() == 0 {
        s
    } else {
        insert_by_path(sorted_by_path(s.drop_last()), s.last())
    }
}

proof fn lemma_insert_by_path_at(s: Seq<(Seq<char>, Seq<char>, i32)>, x: (Seq<char>, Seq<char>, i32), p: int)
    requires
        0 <= p <= s.len(),
        forall|j: int| p <= j < s.len() ==> crate::paths::path_precedes(x.0, #[trigger] s[j].0),
        p == 0 || !crate::paths::path_precedes(x.0, s[p - 1].0),
    ensures
        insert_by_path(s, x) == s.insert(p, x),
    decreases s.len(),
{
    if p < s.len() {
        assert(crate::paths::path_precedes(x.0, s[s.len() - 1].0));
        let t = s.drop_last();
        assert(p == 0 || !crate::paths::path_precedes(x.0, t[p - 1].0));
        lemma_insert_by_path_at(t, x, p);
        assert(insert_by_path(s, x) =~= s.insert(p, x));
    } else if s.len() > 0 {
        assert(s[s.len() - 1] == s.last());
        assert(insert_by_path(s, x) =~= s.insert(p, x));
    } else {
        assert(insert_by_path(s, x) =~= s.insert(p, x));
    }
}

proof fn lemma_insert_by_path_keeps(s: Seq<(Seq<char>, Seq<char>, i32)>, x: (Seq<char>, Seq<char>, i32))
    ensures
        forall|v| #[trigger] insert_by_path(s, x).contains(v) <==> (s.contains(v) || v == x),
        insert_by_path(s, x).len() == s.len() + 1,
    decreases s.len(),
{
    let r = insert_by_path(s, x);
    if s.len() > 0 && crate::paths::path_precedes(x.0, s.last().0) {
        let t = s.drop_last();
        lemma_insert_by_path_keeps(t, x);
        let u = insert_by_path(t, x);
        assert forall|v| #[trigger] r.contains(v) <==> (s.contains(v) || v == x) by {
            if r.contains(v) {
                let k = choose|k: int| 0 <= k < r.len() && r[k] == v;
                if k < r.len() - 1 {
                    assert(u[k] == v);
                    assert(u.contains(v));
                    if v != x {
                        let m = choose|m: int| 0 <= m < t.len() && t[m] == v;
                        assert(s[m] == v);
                    }
                } else {
                    assert(s[s.len() - 1] == v);
                }
            }
            if s.contains(v) {
                let m = choose|m: int| 0 <= m < s.len() && s[m] == v;
                if m < s.len() - 1 {
                    assert(t[m] == v);
                    assert(u.contains(v));
                    let k = choose|k: int| 0 <= k < u.len() && u[k] == v;
                    assert(r[k] == v);
                } else {
                    assert(r[r.len() - 1] == v);
                }
            }
            if v == x {
                assert(u.contains(x));
                let k = choose|k: int| 0 <= k < u.len() && u[k] == x;
                assert(r[k] == x);
            }
        }
    } else {
        assert forall|v| #[trigger] r.contains(v) <==> (s.contains(v) || v == x) by {
            if r.contains(v) {
                let k = choose|k: int| 0 <= k < r.len() && r[k] == v;
                if k < s.len() {
                    assert(s[k] == v);
                }
            }
            if s.contains(v) {
                let m = choose|m: int| 0 <= m < s.len() && s[m] == v;
                assert(r[m] == v);
            }
            if v == x {
                assert(r[s.len() as int] == x);
            }
        }
    }
}

fn clone_change(c: &FileChange) -> (r: FileChange)
    ensures
        change_view(r) == change_view(*c),
{
    FileChange { path: c.path.clone(), text: c.text.clone(), version: c.version }
}

/// The changes that stand after a batch: for each path the change that
/// `coalesced` keeps, one per path, sorted by path as `sorted_by_path`
/// states of them in the order their paths first came (`coalesced_list`).
/// The paths are taken as given, already normalized.
pub fn coalesce_file_changes(changes: Vec<FileChange>) -> (r: Vec<FileChange>)
    ensures
        forall|i: int, j: int| 0 <= i < j < r@.len() ==> #[trigger] r@[i].path@ != #[trigger] r@[j].path@,
        forall|i: int|
            0 <= i < r@.len() ==> coalesced(change_views(changes@)).contains_key(#[trigger] r@[i].path@)
                && coalesced(change_views(changes@))[r@[i].path@] == (r@[i].text@, r@[i].version.0),
        forall|p: Seq<char>|
            #[trigger] coalesced(change_views(changes@)).contains_key(p) ==> exists|i: int|
                0 <= i < r@.len() && #[trigger] r@[i].path@ == p,
        change_views(r@) == sorted_by_path(coalesced_list(change_views(changes@))),
{
    let ghost cv = change_views(changes@);
    let mut by_path: Vec<FileChange> = Vec::new();
    let mut i: usize = 0;
    while i < changes.len()
        invariant
            0 <= i <= changes.len(),
            cv == change_views(changes@),
            forall|a: int, b: int| 0 <= a < b < by_path@.len() ==> #[trigger] by_path@[a].path@ != #[trigger] by_path@[b].path@,
            forall|a: int|
                0 <= a < by_path@.len() ==> coalesced(cv.take(i as int)).contains_key(#[trigger] by_path@[a].path@)
                    && coalesced(cv.take(i as int))[by_path@[a].path@] == (by_path@[a].text@, by_path@[a].version.0),
            forall|p: Seq<char>|
                #[trigger] coalesced(cv.take(i as int)).contains_key(p) ==> exists|a: int|
                    0 <= a < by_path@.len() && #[trigger] by_path@[a].path@ == p,
            change_views(by_path@) == coalesced_list(cv.take(i as int)),
        decreases changes.len() - i,
    {
        let ghost m = coalesced(cv.take(i as int));
        let ghost c = cv[i as int];
        proof {
            assert(cv.take(i + 1).drop_last() =~= cv.take(i as int));
            assert(cv.take(i + 1).last() == c);
        }
        let mut k: usize = 0;
        let mut found = false;
        while k < by_path.len() && !found
            invariant
                0 <= k <= by_path.len(),
                i < changes.len(),
                c == change_view(changes@[i as int]),
                found ==> k < by_path.len() && by_path@[k as int].path@ == c.0,
                forall|a: int| 0 <= a < k ==> by_path@[a].path@ != c.0,
            decreases by_path.len() - k + if found {
                0int
            } else {
                1int
            },
        {
            if crate::generics::str_eq(by_path[k].path.as_str(), changes[i].path.as_str()) {
                found = true;
            } else {
                k += 1;
            }
        }
        let ghost old_by = by_path@;
        proof {
            let l = change_views(old_by);
            assert forall|a: int| 0 <= a < k implies (#[trigger] l[a]).0 != c.0 by {
                assert(l[a] == change_view(old_by[a]));
            }
            lemma_path_position(l, c.0, k as int);
        }
        if k == by_path.len() {
            assert(!m.contains_key(c.0)) by {
                if m.contains_key(c.0) {
                    let a = choose|a: int| 0 <= a < by_path@.len() && #[trigger] by_path@[a].path@ == c.0;
                }
            }
            by_path.push(clone_change(&changes[i]));
            assert(change_views(by_path@) =~= change_views(old_by).push(c));
            assert forall|a: int, b: int| 0 <= a < b < by_path@.len() implies #[trigger] by_path@[a].path@ != #[trigger] by_path@[b].path@ by {
                if b == old_by.len() {
                    assert(old_by[a].path@ != c.0);
                } else {
                    assert(by_path@[a] == old_by[a] && by_path@[b] == old_by[b]);
                }
            }
            assert forall|p: Seq<char>| #[trigger] coalesced(cv.take(i + 1)).contains_key(p) implies exists|a: int|
                0 <= a < by_path@.len() && #[trigger] by_path@[a].path@ == p by {
                if p == c.0 {
                    assert(by_path@[old_by.len() as int].path@ == p);
                } else {
                    assert(m.contains_key(p));
                    let a = choose|a: int| 0 <= a < old_by.len() && #[trigger] old_by[a].path@ == p;
                    assert(by_path@[a].path@ == p);
                }
            }
            assert forall|a: int| 0 <= a < by_path@.len() implies coalesced(cv.take(i + 1)).contains_key(#[trigger] by_path@[a].path@)
                && coalesced(cv.take(i + 1))[by_path@[a].path@] == (by_path@[a].text@, by_path@[a].version.0) by {
                if a < old_by.len() {
                    assert(by_path@[a] == old_by[a]);
                    assert(old_by[a].path@ != c.0);
                }
            }
        } else {
            assert(by_path@[k as int].path@ == c.0);
            let replace = changes[i].version.0 > by_path[k].version.0 || (changes[i].version.0 == by_path[k].version.0
                && !crate::generics::str_eq(changes[i].text.as_str(), by_path[k].text.as_str()));
            if replace {
                by_path.set(k, clone_change(&changes[i]));
                assert(change_views(by_path@) =~= change_views(old_by).update(k as int, c));
            }
            assert forall|a: int, b: int| 0 <= a < b < by_path@.len() implies #[trigger] by_path@[a].path@ != #[trigger] by_path@[b].path@ by {
                assert(by_path@[a].path@ == old_by[a].path@ && by_path@[b].path@ == old_by[b].path@);
            }
            assert forall|p: Seq<char>| #[trigger] coalesced(cv.take(i + 1)).contains_key(p) implies exists|a: int|
                0 <= a < by_path@.len() && #[trigger] by_path@[a].path@ == p by {
                assert(m.contains_key(p));
                let a = choose|a: int| 0 <= a < old_by.len() && #[trigger] old_by[a].path@ == p;
                assert(by_path@[a].path@ == p);
            }
            assert forall|a: int| 0 <= a < by_path@.len() implies coalesced(cv.take(i + 1)).contains_key(#[trigger] by_path@[a].path@)
                && coalesced(cv.take(i + 1))[by_path@[a].path@] == (by_path@[a].text@, by_path@[a].version.0) by {
                if a != k {
                    assert(by_path@[a] == old_by[a]);
                    assert(old_by[a].path@ != old_by[k as int].path@);
                }
            }
        }
        i += 1;
    }
    assert(cv.take(i as int) =~= cv);
    let ghost firsts = change_views(by_path@);
    assert(firsts == coalesced_list(cv));
    let mut sorted: Vec<FileChange> = Vec::new();
    let mut x: usize = 0;
    assert(change_views(sorted@) =~= sorted_by_path(firsts.take(0)));
    while x < by_path.len()
        invariant
            0 <= x <= by_path.len(),
            firsts == change_views(by_path@),
            change_views(sorted@) == sorted_by_path(firsts.take(x as int)),
            forall|v| #[trigger] change_views(sorted@).contains(v) <==> firsts.take(x as int).contains(v),
            sorted@.len() == x,
            forall|a: int, b: int| 0 <= a < b < by_path@.len() ==> #[trigger] by_path@[a].path@ != #[trigger] by_path@[b].path@,
            forall|a: int, b: int| 0 <= a < b < sorted@.len() ==> #[trigger] sorted@[a].path@ != #[trigger] sorted@[b].path@,
        decreases by_path.len() - x,
    {
        let ghost s = change_views(sorted@);
        let ghost item = firsts[x as int];
        let mut p: usize = sorted.len();
        while p > 0 && crate::paths::path_less(by_path[x].path.as_str(), sorted[p - 1].path.as_str())
            invariant
                p <= sorted.len(),
                x < by_path.len(),
                s == change_views(sorted@),
                item == change_view(by_path@[x as int]),
                forall|j: int| p <= j < sorted.len() ==> crate::paths::path_precedes(item.0, #[trigger] s[j].0),
            decreases p,
        {
            p -= 1;
        }
        proof {
            lemma_insert_by_path_at(s, item, p as int);
            lemma_insert_by_path_keeps(s, item);
            assert(firsts.take(x + 1).drop_last() =~= firsts.take(x as int));
            assert(firsts.take(x + 1).last() == item);
        }
        let ghost old_sorted = sorted@;
        sorted.insert(p, clone_change(&by_path[x]));
        assert(change_views(sorted@) =~= s.insert(p as int, item));
        assert forall|a: int| 0 <= a < old_sorted.len() implies #[trigger] old_sorted[a].path@ != item.0 by {
            assert(s[a] == change_view(old_sorted[a]));
            assert(s.contains(s[a]));
            assert(firsts.take(x as int).contains(s[a]));
            let b = choose|b: int| 0 <= b < x && firsts.take(x as int)[b] == s[a];
            assert(firsts[b] == change_view(by_path@[b]));
            assert(by_path@[b].path@ != by_path@[x as int].path@);
        }
        assert forall|a: int, b: int| 0 <= a < b < sorted@.len() implies #[trigger] sorted@[a].path@ != #[trigger] sorted@[b].path@ by {
            let a2 = if a < p { a } else { a - 1 };
            let b2 = if b < p { b } else { b - 1 };
            if a == p {
                assert(sorted@[b] == old_sorted[b2]);
            } else if b == p {
                assert(sorted@[a] == old_sorted[a2]);
            } else {
                assert(sorted@[a] == old_sorted[a2] && sorted@[b] == old_sorted[b2]);
            }
        }
        assert forall|v| #[trigger] change_views(sorted@).contains(v) <==> firsts.take(x + 1).contains(v) by {
            let t1 = firsts.take(x + 1);
            let t0 = firsts.take(x as int);
            if t1.contains(v) {
                let k = choose|k: int| 0 <= k < t1.len() && t1[k] == v;
                if k < x {
                    assert(t0[k] == v);
                }
            }
            if t0.contains(v) {
                let k = choose|k: int| 0 <= k < t0.len() && t0[k] == v;
                assert(t1[k] == v);
            }
            if v == item {
                assert(t1[x as int] == v);
            }
        }
        x += 1;
    }
    assert(firsts.take(x as int) =~= firsts);
    proof {
        let sv = change_views(sorted@);
        let m = coalesced(cv);
        assert forall|a: int| 0 <= a < sorted@.len() implies m.contains_key(#[trigger] sorted@[a].path@)
            && m[sorted@[a].path@] == (sorted@[a].text@, sorted@[a].version.0) by {
            assert(sv[a] == change_view(sorted@[a]));
            assert(sv.contains(sv[a]));
            assert(firsts.contains(sv[a]));
            let b = choose|b: int| 0 <= b < firsts.len() && firsts[b] == sv[a];
            assert(change_view(by_path@[b]) == change_view(sorted@[a]));
            assert(m.contains_key(by_path@[b].path@));
        }
        assert forall|q: Seq<char>| #[trigger] m.contains_key(q) implies exists|a: int|
            0 <= a < sorted@.len() && #[trigger] sorted@[a].path@ == q by {
            let b = choose|b: int| 0 <= b < by_path@.len() && #[trigger] by_path@[b].path@ == q;
            assert(firsts[b] == change_view(by_path@[b]));
            assert(firsts.contains(firsts[b]));
            assert(sv.contains(firsts[b]));
            let a = choose|a: int| 0 <= a < sv.len() && sv[a] == firsts[b];
            assert(sv[a] == change_view(sorted@[a]));
            assert(sorted@[a].path@ == q);
        }
    }
    sorted
}

/// Whether a change should be applied to the workspace: always for a file
/// it does not hold; otherwise unless the change is older, or of the same
/// version and text.
pub open spec fn should_apply(change: (Seq<char>, Seq<char>, i32), current: Option<(Seq<char>, i32)>) -> bool {
    match current {
        None => true,
        Some((text, version)) => !(change.2 < version) && !(change.2 == version && change.1 == text),
    }
}

/// Whether a change should be applied, given the document the workspace
/// holds at its path, as `should_apply` states.
pub fn should_apply_file_change(change: &FileChange, current: Option<&OpenDocument>) -> (r: bool)
    ensures
        r == should_apply(
            change_view(*change),
            match current {
                Some(d) => Some((d.text@, d.version.0)),
                None => None,
            },
        ),
{
    let current = match current {
        Some(d) => d,
        None => {
            return true;
        },
    };
    if change.version.0 < current.version.0 {
        return false;
    }
    !(change.version.0 == current.version.0 && crate::generics::str_eq(change.text.as_str(), current.text.as_str()))
}

/// Whether `std::path::Path`'s order is a strict total order on the given
/// paths: no two of them precede each other, it is transitive, and of two
/// different paths one precedes the other (no two of them spell one path
/// in two ways).
pub open spec fn path_order_strict_total_on(ps: Set<Seq<char>>) -> bool {
    &&& forall|a: Seq<char>, b: Seq<char>|
        ps.contains(a) && ps.contains(b) && #[trigger] crate::paths::path_precedes(a, b) ==> !crate::paths::path_precedes(b, a)
    &&& forall|a: Seq<char>, b: Seq<char>, c: Seq<char>|
        ps.contains(a) && ps.contains(b) && ps.contains(c) && #[trigger] crate::paths::path_precedes(a, b)
            && #[trigger] crate::paths::path_precedes(b, c) ==> crate::paths::path_precedes(a, c)
    &&& forall|a: Seq<char>, b: Seq<char>|
        ps.contains(a) && ps.contains(b) && a != b ==> #[trigger] crate::paths::path_precedes(a, b)
            || crate::paths::path_precedes(b, a)
}

/// Whether each change's path comes strictly before the next ones'.
pub open spec fn paths_increase(s: Seq<(Seq<char>, Seq<char>, i32)>) -> bool {
    forall|i: int, j: int| 0 <= i < j < s.len() ==> crate::paths::path_precedes(#[trigger] s[i].0, #[trigger] s[j].0)
}

proof fn lemma_path_position_found(l: Seq<(Seq<char>, Seq<char>, i32)>, p: Seq<char>)
    ensures
        path_position(l, p) < l.len(),
        path_position(l, p) >= 0 ==> l[path_position(l, p)].0 == p,
        path_position(l, p) < 0 ==> forall|a: int| 0 <= a < l.len() ==> (#[trigger] l[a]).0 != p,
    decreases l.len(),
{
    if l.len() > 0 && l[0].0 != p {
        let t = l.drop_first();
        lemma_path_position_found(t, p);
        if path_position(t, p) < 0 {
            assert forall|a: int| 0 <= a < l.len() implies (#[trigger] l[a]).0 != p by {
                if a > 0 {
                    assert(l[a] == t[a - 1]);
                }
            }
        } else {
            assert(l[path_position(t, p) + 1] == t[path_position(t, p)]);
        }
    }
}

proof fn lemma_coalesced_list_paths(cs: Seq<(Seq<char>, Seq<char>, i32)>, ps: Set<Seq<char>>)
    requires
        forall|k: int| 0 <= k < cs.len() ==> ps.contains(#[trigger] cs[k].0),
    ensures
        forall|a: int| 0 <= a < coalesced_list(cs).len() ==> ps.contains(#[trigger] coalesced_list(cs)[a].0),
        forall|a: int, b: int|
            0 <= a < b < coalesced_list(cs).len() ==> #[trigger] coalesced_list(cs)[a].0 != #[trigger] coalesced_list(cs)[b].0,
    decreases cs.len(),
{
    if cs.len() > 0 {
        let t = cs.drop_last();
        assert forall|k: int| 0 <= k < t.len() implies ps.contains(#[trigger] t[k].0) by {
            assert(t[k] == cs[k]);
        }
        lemma_coalesced_list_paths(t, ps);
        let l = coalesced_list(t);
        let c = cs.last();
        assert(ps.contains(cs[cs.len() - 1].0));
        lemma_path_position_found(l, c.0);
        let r = coalesced_list(cs);
        assert forall|a: int| 0 <= a < r.len() implies ps.contains(#[trigger] r[a].0) by {
            if a < l.len() && r[a] != l[a] {
                assert(r[a] == c);
            }
        }
        assert forall|a: int, b: int| 0 <= a < b < r.len() implies #[trigger] r[a].0 != #[trigger] r[b].0 by {
            if b < l.len() {
                assert(r[a].0 == l[a].0 && r[b].0 == l[b].0);
            } else {
                assert(r[b] == c);
                assert(r[a] == l[a]);
            }
        }
    }
}

proof fn lemma_insert_by_path_increases(s: Seq<(Seq<char>, Seq<char>, i32)>, x: (Seq<char>, Seq<char>, i32), ps: Set<Seq<char>>)
    requires
        paths_increase(s),
        path_order_strict_total_on(ps),
        ps.contains(x.0),
        forall|i: int| 0 <= i < s.len() ==> ps.contains(#[trigger] s[i].0) && s[i].0 != x.0,
    ensures
        paths_increase(insert_by_path(s, x)),
    decreases s.len(),
{
    let r = insert_by_path(s, x);
    lemma_insert_by_path_keeps(s, x);
    if s.len() > 0 && crate::paths::path_precedes(x.0, s.last().0) {
        let t = s.drop_last();
        let l = s.last();
        assert(l == s[s.len() - 1]);
        assert forall|i: int, j: int| 0 <= i < j < t.len() implies crate::paths::path_precedes(#[trigger] t[i].0, #[trigger] t[j].0) by {
            assert(t[i] == s[i] && t[j] == s[j]);
        }
        assert forall|i: int| 0 <= i < t.len() implies ps.contains(#[trigger] t[i].0) && t[i].0 != x.0 by {
            assert(t[i] == s[i]);
        }
        lemma_insert_by_path_increases(t, x, ps);
        let u = insert_by_path(t, x);
        lemma_insert_by_path_keeps(t, x);
        assert forall|i: int, j: int| 0 <= i < j < r.len() implies crate::paths::path_precedes(#[trigger] r[i].0, #[trigger] r[j].0) by {
            if j == r.len() - 1 {
                assert(r[j] == l);
                assert(r[i] == u[i]);
                assert(u.contains(u[i]));
                if u[i] != x {
                    let k = choose|k: int| 0 <= k < t.len() && t[k] == u[i];
                    assert(s[k] == t[k]);
                    assert(crate::paths::path_precedes(s[k].0, s[s.len() - 1].0));
                }
            } else {
                assert(r[i] == u[i] && r[j] == u[j]);
            }
        }
    } else {
        assert forall|i: int, j: int| 0 <= i < j < r.len() implies crate::paths::path_precedes(#[trigger] r[i].0, #[trigger] r[j].0) by {
            if j == r.len() - 1 {
                assert(r[j] == x);
                assert(r[i] == s[i]);
                let l = s[s.len() - 1];
                assert(ps.contains(l.0) && l.0 != x.0);
                assert(!crate::paths::path_precedes(x.0, l.0));
                assert(crate::paths::path_precedes(l.0, x.0));
                if i < s.len() - 1 {
                    assert(crate::paths::path_precedes(s[i].0, l.0));
                    assert(ps.contains(s[i].0));
                }
            } else {
                assert(r[i] == s[i] && r[j] == s[j]);
            }
        }
    }
}

proof fn lemma_sorted_by_path_increases(l: Seq<(Seq<char>, Seq<char>, i32)>, ps: Set<Seq<char>>)
    requires
        path_order_strict_total_on(ps),
        forall|a: int| 0 <= a < l.len() ==> ps.contains(#[trigger] l[a].0),
        forall|a: int, b: int| 0 <= a < b < l.len() ==> #[trigger] l[a].0 != #[trigger] l[b].0,
    ensures
        paths_increase(sorted_by_path(l)),
        forall|v| #[trigger] sorted_by_path(l).contains(v) ==> l.contains(v),
    decreases l.len(),
{
    if l.len() > 0 {
        let t = l.drop_last();
        let x = l.last();
        assert(x == l[l.len() - 1]);
        assert forall|a: int| 0 <= a < t.len() implies ps.contains(#[trigger] t[a].0) by {
            assert(t[a] == l[a]);
        }
        assert forall|a: int, b: int| 0 <= a < b < t.len() implies #[trigger] t[a].0 != #[trigger] t[b].0 by {
            assert(t[a] == l[a] && t[b] == l[b]);
        }
        lemma_sorted_by_path_increases(t, ps);
        let s = sorted_by_path(t);
        assert forall|i: int| 0 <= i < s.len() implies ps.contains(#[trigger] s[i].0) && s[i].0 != x.0 by {
            assert(s.contains(s[i]));
            let k = choose|k: int| 0 <= k < t.len() && t[k] == s[i];
            assert(l[k] == t[k]);
        }
        lemma_insert_by_path_increases(s, x, ps);
        lemma_insert_by_path_keeps(s, x);
        assert forall|v| #[trigger] sorted_by_path(l).contains(v) implies l.contains(v) by {
            if v != x {
                assert(s.contains(v));
                let k = choose|k: int| 0 <= k < t.len() && t[k] == v;
                assert(l[k] == v);
            }
        }
    }
}

/// Where `std::path::Path`'s order is a strict total order on a batch's
/// paths (as it is unless two of them spell one path in two ways), the
/// changes kept for the batch come in strictly increasing path order.
pub proof fn law_coalesced_paths_increase(cs: Seq<(Seq<char>, Seq<char>, i32)>, ps: Set<Seq<char>>)
    requires
        forall|k: int| 0 <= k < cs.len() ==> ps.contains(#[trigger] cs[k].0),
        path_order_strict_total_on(ps),
    ensures
        paths_increase(sorted_by_path(coalesced_list(cs))),
{
    lemma_coalesced_list_paths(cs, ps);
    lemma_sorted_by_path_increases(coalesced_list(cs), ps);
}

/// Of a batch of changes, the one kept for a path has the latest version
/// among the batch's changes to that path, and every path of the batch keeps
/// one.
pub proof fn law_coalesced_change_is_latest(cs: Seq<(Seq<char>, Seq<char>, i32)>)
    ensures
        forall|i: int|
            0 <= i < cs.len() ==> #[trigger] coalesced(cs).contains_key(cs[i].0) && coalesced(cs)[cs[i].0].1
                >= cs[i].2,
    decreases cs.len(),
{
    if cs.len() > 0 {
        let t = cs.drop_last();
        law_coalesced_change_is_latest(t);
        let m = coalesced(t);
        let c = cs.last();
        assert forall|i: int| 0 <= i < cs.len() implies #[trigger] coalesced(cs).contains_key(cs[i].0)
            && coalesced(cs)[cs[i].0].1 >= cs[i].2 by {
            if i < cs.len() - 1 {
                assert(cs[i] == t[i]);
                assert(m.contains_key(t[i].0) && m[t[i].0].1 >= t[i].2);
            } else {
                assert(cs[i] == c);
            }
        }
    }
}

/// A change that is older than the document the workspace holds, or that
/// Whether change `i` is the last one of its path with version `v`.
pub open spec fn last_of_version(cs: Seq<(Seq<char>, Seq<char>, i32)>, i: int, v: i32) -> bool {
    &&& 0 <= i < cs.len()
    &&& cs[i].2 == v
    &&& forall|j: int| i < j < cs.len() && (#[trigger] cs[j]).0 == cs[i].0 ==> cs[j].2 != v
}

/// The change kept for a path is the one of the highest version that came
/// for it, with the text of the last change of that version; a path is kept
/// exactly when a change came for it.
pub proof fn law_coalesced_change_is_newest(cs: Seq<(Seq<char>, Seq<char>, i32)>)
    ensures
        forall|p: Seq<char>|
            #[trigger] coalesced(cs).contains_key(p) <==> exists|i: int| 0 <= i < cs.len() && cs[i].0 == p,
        forall|i: int|
            0 <= i < cs.len() ==> #[trigger] cs[i].2 <= coalesced(cs)[cs[i].0].1,
        forall|p: Seq<char>|
            #[trigger] coalesced(cs).contains_key(p) ==> exists|i: int|
                0 <= i < cs.len() && cs[i].0 == p && cs[i].2 == coalesced(cs)[p].1,
        forall|i: int|
            0 <= i < cs.len() && #[trigger] last_of_version(cs, i, coalesced(cs)[cs[i].0].1) ==> cs[i].1 == coalesced(
                cs,
            )[cs[i].0].0,
    decreases cs.len(),
{
    if cs.len() > 0 {
        let t = cs.drop_last();
        let c = cs.last();
        let n = cs.len() - 1;
        law_coalesced_change_is_newest(t);
        let m = coalesced(t);
        let r = coalesced(cs);
        assert(cs[n] == c);
        assert forall|k: int| 0 <= k < t.len() implies #[trigger] cs[k] == t[k] by {}
        assert forall|p: Seq<char>| #[trigger] r.contains_key(p) <==> exists|i: int| 0 <= i < cs.len() && cs[i].0 == p by {
            if m.contains_key(p) {
                let i = choose|i: int| 0 <= i < t.len() && t[i].0 == p;
                assert(cs[i] == t[i]);
            }
            if exists|i: int| 0 <= i < cs.len() && cs[i].0 == p {
                let i = choose|i: int| 0 <= i < cs.len() && cs[i].0 == p;
                if i < n {
                    assert(cs[i] == t[i]);
                    assert(m.contains_key(p));
                }
            }
        }
        assert forall|i: int| 0 <= i < cs.len() implies #[trigger] cs[i].2 <= r[cs[i].0].1 by {
            if i < n {
                assert(cs[i] == t[i]);
                assert(t[i].2 <= m[t[i].0].1);
                assert(m.contains_key(t[i].0)) by {
                    assert(exists|k: int| 0 <= k < t.len() && t[k].0 == t[i].0);
                }
            }
        }
        assert forall|p: Seq<char>| #[trigger] r.contains_key(p) implies exists|i: int|
            0 <= i < cs.len() && cs[i].0 == p && cs[i].2 == r[p].1 by {
            if p == c.0 && r[p] == (c.1, c.2) {
                assert(cs[n].0 == p && cs[n].2 == r[p].1);
            } else {
                assert(m.contains_key(p) && r[p] == m[p]);
                let i = choose|i: int| 0 <= i < t.len() && t[i].0 == p && t[i].2 == m[p].1;
                assert(cs[i] == t[i]);
            }
        }
        assert forall|i: int|
            0 <= i < cs.len() && #[trigger] last_of_version(cs, i, r[cs[i].0].1) implies cs[i].1 == r[cs[i].0].0 by {
            let p = cs[i].0;
            if i == n {
                if m.contains_key(p) && !supersedes(c.1, c.2, m[p].0, m[p].1) {
                    assert(r[p] == m[p]);
                }
            } else {
                assert(cs[i] == t[i]);
                if p == c.0 && r[p] == (c.1, c.2) {
                    assert(cs[n].0 == p && cs[n].2 == r[p].1);
                    assert(false);
                } else {
                    assert(m.contains_key(p)) by {
                        assert(exists|k: int| 0 <= k < t.len() && t[k].0 == p);
                    }
                    assert(r[p] == m[p]);
                    assert(last_of_version(t, i, m[t[i].0].1)) by {
                        assert forall|j: int| i < j < t.len() && (#[trigger] t[j]).0 == t[i].0 implies t[j].2 != m[p].1 by {
                            assert(cs[j] == t[j]);
                        }
                    }
                }
            }
        }
    }
}

/// repeats its version and text, is not applied.
pub proof fn law_stale_or_identical_changes_are_skipped(change: (Seq<char>, Seq<char>, i32), text: Seq<char>, version: i32)
    requires
        change.2 < version || (change.2 == version && change.1 == text),
    ensures
        !should_apply(change, Some((text, version))),
{
}

/// Why a file's analysis was rebuilt.
#[derive(Debug, Clone, Copy, PartialEq, Eq, Hash)]
pub enum InvalidationReason {
    InitialLoad,
    TextChanged,
    ProjectChanged,
}

/// A document the workspace holds, under its normalized path.
pub struct KnownDocument {
    pub path: String,
    pub text: String,
    pub version: DocumentVersion,
}

/// A change that will be applied, and why the file's analysis is rebuilt.
pub struct PlannedChange {
    pub change: FileChange,
    pub reason: InvalidationReason,
}

/// The text and version of the first document held at path `p`, if any.
pub open spec fn document_at(docs: Seq<KnownDocument>, p: Seq<char>) -> Option<(Seq<char>, i32)>
    decreases docs.len(),
{
    if docs.len() == 0 {
        None
    } else if docs[0].path@ == p {
        Some((docs[0].text@, docs[0].version.0))
    } else {
        document_at(docs.drop_first(), p)
    }
}

/// The changes, in order, that are applied, each with the reason its file
/// is rebuilt: a change is applied as `should_apply` states against the
/// document at its path, and rebuilds a file the workspace held for its
/// text and any other for its first load.
pub open spec fn planned_changes(cs: Seq<(Seq<char>, Seq<char>, i32)>, docs: Seq<KnownDocument>) -> Seq<
    ((Seq<char>, Seq<char>, i32), InvalidationReason),
>
    decreases cs.len(),
{
    if cs.len() == 0 {
        Seq::empty()
    } else {
        let before = planned_changes(cs.drop_last(), docs);
        let c = cs.last();
        if should_apply(c, document_at(docs, c.0)) {
            before.push(
                (
                    c,
                    if document_at(docs, c.0) is Some {
                        InvalidationReason::TextChanged
                    } else {
                        InvalidationReason::InitialLoad
                    },
                ),
            )
        } else {
            before
        }
    }
}

/// The models of planned changes.
pub open spec fn planned_views(ps: Seq<PlannedChange>) -> Seq<((Seq<char>, Seq<char>, i32), InvalidationReason)> {
    Seq::new(ps.len(), |i: int| (change_view(ps[i].change), ps[i].reason))
}

/// The document held at a path, as `document_at` states.
fn find_document<'a>(documents: &'a [KnownDocument], path: &str) -> (r: Option<&'a KnownDocument>)
    ensures
        match r {
            Some(d) => document_at(documents@, path@) == Some((d.text@, d.version.0)),
            None => document_at(documents@, path@) is None,
        },
{
    let mut i: usize = 0;
    assert(documents@.skip(0) =~= documents@);
    while i < documents.len()
        invariant
            0 <= i <= documents.len(),
            document_at(documents@.skip(i as int), path@) == document_at(documents@, path@),
        decreases documents.len() - i,
    {
        assert(documents@.skip(i as int).drop_first() =~= documents@.skip(i + 1));
        assert(documents@.skip(i as int)[0] == documents@[i as int]);
        if crate::generics::str_eq(documents[i].path.as_str(), path) {
            return Some(&documents[i]);
        }
        i += 1;
    }
    assert(documents@.skip(i as int).len() == 0);
    None
}

/// Picks, in order, the changes of a coalesced batch that are applied, with
/// the reason each file is rebuilt, as `planned_changes` states.
pub fn select_file_changes(changes: Vec<FileChange>, documents: &[KnownDocument]) -> (r: Vec<PlannedChange>)
    ensures
        planned_views(r@) == planned_changes(change_views(changes@), documents@),
{
    let ghost cv = change_views(changes@);
    let mut out: Vec<PlannedChange> = Vec::new();
    let mut i: usize = 0;
    assert(planned_views(out@) =~= planned_changes(cv.take(0), documents@));
    while i < changes.len()
        invariant
            0 <= i <= changes.len(),
            cv == change_views(changes@),
            planned_views(out@) == planned_changes(cv.take(i as int), documents@),
        decreases changes.len() - i,
    {
        proof {
            assert(cv.take(i + 1).drop_last() =~= cv.take(i as int));
            assert(cv.take(i + 1).last() == cv[i as int]);
        }
        let current = find_document(documents, changes[i].path.as_str());
        let open = match current {
            Some(d) => Some(OpenDocument { text: d.text.clone(), version: d.version }),
            None => None,
        };
        let apply = should_apply_file_change(&changes[i], match &open {
            Some(d) => Some(d),
            None => None,
        });
        if apply {
            let reason = if current.is_some() {
                InvalidationReason::TextChanged
            } else {
                InvalidationReason::InitialLoad
            };
            let ghost before = planned_views(out@);
            out.push(PlannedChange { change: clone_change(&changes[i]), reason });
            assert(planned_views(out@) =~= before.push((cv[i as int], reason)));
        }
        i += 1;
    }
    assert(cv.take(i as int) =~= cv);
    out
}

/// The revision after a batch of changes: one more when it removed or
/// changed a file or changed the project, else the same.
pub open spec fn revision_after(revision: int, removed_files: int, changed_files: int, project_changed: bool) -> int {
    if removed_files > 0 || changed_files > 0 || project_changed {
        revision + 1
    } else {
        revision
    }
}

/// The revision after a sequence of batches, each given by how many files
/// it removed, how many it changed, and whether it changed the project.
pub open spec fn revision_after_batches(revision: int, batches: Seq<(nat, nat, bool)>) -> int
    decreases batches.len(),
{
    if batches.len() == 0 {
        revision
    } else {
        let b = batches.last();
        revision_after(revision_after_batches(revision, batches.drop_last()), b.0 as int, b.1 as int, b.2)
    }
}

/// How many of the batches removed or changed a file or changed the project.
pub open spec fn effective_batches(batches: Seq<(nat, nat, bool)>) -> int
    decreases batches.len(),
{
    if batches.len() == 0 {
        0
    } else {
        let b = batches.last();
        effective_batches(batches.drop_last()) + if b.0 > 0 || b.1 > 0 || b.2 {
            1int
        } else {
            0int
        }
    }
}

/// The revision counts the batches that changed something: after any
/// sequence of batches it has grown by exactly their number, so it never
/// goes back, and batches that change nothing leave it as it was.
pub proof fn law_revision_counts_effective_batches(revision: int, batches: Seq<(nat, nat, bool)>)
    ensures
        revision_after_batches(revision, batches) == revision + effective_batches(batches),
        revision_after_batches(revision, batches) >= revision,
    decreases batches.len(),
{
    if batches.len() > 0 {
        law_revision_counts_effective_batches(revision, batches.drop_last());
    }
}

/// Whether one of a batch's changes applies against the documents the
/// workspace holds: its path is new, its version newer, or its version the
/// same with other text.
pub open spec fn batch_changes_a_file(changes: Seq<(Seq<char>, Seq<char>, i32)>, docs: Seq<KnownDocument>) -> bool {
    exists|k: int| 0 <= k < changes.len() && #[trigger] should_apply(changes[k], document_at(docs, changes[k].0))
}

proof fn lemma_planned_changes_nonempty(changes: Seq<(Seq<char>, Seq<char>, i32)>, docs: Seq<KnownDocument>)
    ensures
        planned_changes(changes, docs).len() > 0 <==> batch_changes_a_file(changes, docs),
    decreases changes.len(),
{
    if changes.len() > 0 {
        let t = changes.drop_last();
        lemma_planned_changes_nonempty(t, docs);
        if batch_changes_a_file(t, docs) {
            let k = choose|k: int| 0 <= k < t.len() && #[trigger] should_apply(t[k], document_at(docs, t[k].0));
            assert(changes[k] == t[k]);
            assert(should_apply(changes[k], document_at(docs, changes[k].0)));
        }
        if batch_changes_a_file(changes, docs) && !should_apply(changes.last(), document_at(docs, changes.last().0)) {
            let k = choose|k: int| 0 <= k < changes.len() && #[trigger] should_apply(changes[k], document_at(docs, changes[k].0));
            assert(k != changes.len() - 1);
            assert(t[k] == changes[k]);
            assert(should_apply(t[k], document_at(docs, t[k].0)));
        }
        if should_apply(changes.last(), document_at(docs, changes.last().0)) {
            assert(should_apply(changes[changes.len() - 1], document_at(docs, changes[changes.len() - 1].0)));
        }
    }
}

/// A batch advances the revision by exactly one when it removed a loaded
/// file, when one of its changes applies against the documents the
/// workspace holds (`select_file_changes` then plans it, and
/// `apply_change_step` counts it), or when it changed the project; any
/// other batch leaves the revision as it was.
pub proof fn law_batch_advances_revision_iff_effective(
    revision: int,
    changes: Seq<(Seq<char>, Seq<char>, i32)>,
    docs: Seq<KnownDocument>,
    removed_files: nat,
    project_changed: bool,
)
    ensures
        revision_after(revision, removed_files as int, planned_changes(changes, docs).len() as int, project_changed) == if removed_files
            > 0 || batch_changes_a_file(changes, docs) || project_changed {
            revision + 1
        } else {
            revision
        },
{
    lemma_planned_changes_nonempty(changes, docs);
}

/// The project revision after a batch: one more when the batch changed the
/// project, else the same.
pub fn next_project_revision(project_revision: u64, project_changed: bool) -> (r: u64)
    requires
        project_changed ==> project_revision < u64::MAX,
    ensures
        r == if project_changed {
            project_revision + 1
        } else {
            project_revision as int
        },
{
    if project_changed {
        project_revision + 1
    } else {
        project_revision
    }
}

/// The revision after a change: one more when it removed or changed a file
/// or changed the project, else the same.
pub fn next_revision(revision: u64, removed_files: usize, changed_files: usize, project_changed: bool) -> (r: u64)
    requires
        removed_files > 0 || changed_files > 0 || project_changed ==> revision < u64::MAX,
    ensures
        r == revision_after(revision as int, removed_files as int, changed_files as int, project_changed),
{
    if removed_files > 0 || changed_files > 0 || project_changed {
        revision + 1
    } else {
        revision
    }
}

/// Whether `r` lists the ids of `s` ascending, each once.
pub open spec fn sorted_ids_of(r: Seq<FileId>, s: Seq<FileId>) -> bool {
    &&& strictly_ascending(file_ids(r))
    &&& forall|v: u32| #[trigger] file_ids(r).contains(v) <==> file_ids(s).contains(v)
}

/// What applying a batch of changes did.
pub struct ChangeImpact {
    pub revision: u64,
    pub project_revision: u64,
    pub project_changed: bool,
    pub changed_files: Vec<FileId>,
    pub rebuilt_files: Vec<FileId>,
    pub removed_files: Vec<RemovedFileImpact>,
    pub dependency_affected_files: Vec<FileId>,
    pub evicted_query_support_files: Vec<FileId>,
}

/// The report of a batch of changes. After a project change every analyzed
/// file was rebuilt and counts as affected, and the changed files are those
/// the batch changed; otherwise the changed and rebuilt files are the files
/// rebuilt, and the affected files are as given. File lists come ascending,
/// each file once.
pub fn change_impact(
    revision: u64,
    project_revision: u64,
    project_changed: bool,
    changed_files: Vec<FileId>,
    rebuilt_files: Vec<FileId>,
    analyzed_files: Vec<FileId>,
    removed_files: Vec<RemovedFileImpact>,
    dependency_affected_files: Vec<FileId>,
    evicted_query_support_files: Vec<FileId>,
) -> (r: ChangeImpact)
    ensures
        r.revision == revision,
        r.project_revision == project_revision,
        r.project_changed == project_changed,
        r.removed_files@ == removed_files@,
        r.evicted_query_support_files@ == evicted_query_support_files@,
        project_changed ==> {
            &&& sorted_ids_of(r.changed_files@, changed_files@)
            &&& sorted_ids_of(r.rebuilt_files@, analyzed_files@)
            &&& sorted_ids_of(r.dependency_affected_files@, analyzed_files@)
        },
        !project_changed ==> {
            &&& sorted_ids_of(r.changed_files@, rebuilt_files@)
            &&& sorted_ids_of(r.rebuilt_files@, rebuilt_files@)
            &&& r.dependency_affected_files@ == dependency_affected_files@
        },
{
    if project_changed {
        let mut again: Vec<FileId> = Vec::new();
        let mut i: usize = 0;
        while i < analyzed_files.len()
            invariant
                0 <= i <= analyzed_files.len(),
                again@ == analyzed_files@.take(i as int),
            decreases analyzed_files.len() - i,
        {
            again.push(analyzed_files[i]);
            assert(again@ =~= analyzed_files@.take(i + 1));
            i += 1;
        }
        assert(again@ =~= analyzed_files@);
        ChangeImpact {
            revision,
            project_revision,
            project_changed,
            changed_files: sorted_file_ids(changed_files),
            rebuilt_files: sorted_file_ids(analyzed_files),
            removed_files,
            dependency_affected_files: sorted_file_ids(again),
            evicted_query_support_files,
        }
    } else {
        let mut again: Vec<FileId> = Vec::new();
        let mut i: usize = 0;
        while i < rebuilt_files.len()
            invariant
                0 <= i <= rebuilt_files.len(),
                again@ == rebuilt_files@.take(i as int),
            decreases rebuilt_files.len() - i,
        {
            again.push(rebuilt_files[i]);
            assert(again@ =~= rebuilt_files@.take(i + 1));
            i += 1;
        }
        assert(again@ =~= rebuilt_files@);
        ChangeImpact {
            revision,
            project_revision,
            project_changed,
            changed_files: sorted_file_ids(again),
            rebuilt_files: sorted_file_ids(rebuilt_files),
            removed_files,
            dependency_affected_files,
            evicted_query_support_files,
        }
    }
}

/// What a file's parse was built from: its path and document version.
pub struct ParseInputSlot {
    pub normalized_path: String,
    pub document_version: DocumentVersion,
}

/// What a file's lowering was built from: the parse's analysis revision and
/// the project revision.
pub struct HirInputSlot {
    pub parse_revision: u64,
    pub project_revision: u64,
}

/// What a file's indexes were built from: the lowering's analysis revision
/// and the project revision.
pub struct IndexInputSlot {
    pub hir_revision: u64,
    pub project_revision: u64,
}

/// The inputs a file's cached analysis was built from.
pub struct FileAnalysisDependencies {
    pub file_id: FileId,
    pub normalized_path: String,
    pub document_version: DocumentVersion,
    pub source_root: Option<usize>,
    pub is_workspace_file: bool,
    pub parse: ParseInputSlot,
    pub hir: HirInputSlot,
    pub index: IndexInputSlot,
    pub last_invalidation: InvalidationReason,
}

/// The dependencies recorded when a file's analysis is rebuilt, and the
/// next analysis revision: the rebuild takes the current analysis revision
/// for its parse, lowering and indexes, and the next rebuild gets one more;
/// the file belongs to the workspace when there are no source roots or one
/// of them holds it.
pub fn plan_file_rebuild(
    next_analysis_revision: u64,
    project_revision: u64,
    file_id: FileId,
    normalized_path: String,
    document_version: DocumentVersion,
    source_root: Option<usize>,
    source_root_count: usize,
    reason: InvalidationReason,
) -> (r: (FileAnalysisDependencies, u64))
    requires
        next_analysis_revision < u64::MAX,
    ensures
        r.1 == next_analysis_revision + 1,
        r.0.file_id == file_id,
        r.0.normalized_path@ == normalized_path@,
        r.0.document_version == document_version,
        r.0.source_root == source_root,
        r.0.is_workspace_file == (source_root_count == 0 || source_root is Some),
        r.0.parse.normalized_path@ == normalized_path@,
        r.0.parse.document_version == document_version,
        r.0.hir.parse_revision == next_analysis_revision,
        r.0.hir.project_revision == project_revision,
        r.0.index.hir_revision == next_analysis_revision,
        r.0.index.project_revision == project_revision,
        r.0.last_invalidation == reason,
{
    let analysis_revision = next_analysis_revision;
    let deps = FileAnalysisDependencies {
        file_id,
        normalized_path: normalized_path.clone(),
        document_version,
        source_root,
        is_workspace_file: source_root_count == 0 || source_root.is_some(),
        parse: ParseInputSlot { normalized_path, document_version },
        hir: HirInputSlot { parse_revision: analysis_revision, project_revision },
        index: IndexInputSlot { hir_revision: analysis_revision, project_revision },
        last_invalidation: reason,
    };
    (deps, next_analysis_revision + 1)
}

/// The revisions the database keeps.
#[derive(Debug, Clone, Copy, PartialEq, Eq)]
pub struct DatabaseRevisions {
    pub revision: u64,
    pub project_revision: u64,
}

/// What the database does with a batch once its changes are applied to
/// the file store.
#[derive(Debug, Clone, Copy, PartialEq, Eq)]
pub enum RebuildAction {
    /// Drop every analysis, rebuild all files for the new project, and rerun
    /// the workspace inference.
    RebuildEverything,
    /// Rebuild the changed files, drop the removed ones, and rerun the
    /// workspace inference.
    RebuildChanged,
    /// Nothing changed; keep every analysis.
    KeepAll,
}

/// One step of applying a batch: the revisions after it and what to
/// rebuild. A project change moves both revisions and rebuilds everything;
/// a batch that removed or changed a file moves the revision and rebuilds
/// those files; any other batch changes nothing.
pub fn apply_change_step(
    revisions: DatabaseRevisions,
    removed_files: usize,
    changed_files: usize,
    project_changed: bool,
) -> (r: (DatabaseRevisions, RebuildAction))
    requires
        removed_files > 0 || changed_files > 0 || project_changed ==> revisions.revision < u64::MAX,
        project_changed ==> revisions.project_revision < u64::MAX,
    ensures
        r.0.revision == revision_after(revisions.revision as int, removed_files as int, changed_files as int, project_changed),
        r.0.project_revision == if project_changed {
            revisions.project_revision + 1
        } else {
            revisions.project_revision as int
        },
        r.1 == if project_changed {
            RebuildAction::RebuildEverything
        } else if removed_files > 0 || changed_files > 0 {
            RebuildAction::RebuildChanged
        } else {
            RebuildAction::KeepAll
        },
{
    let revision = next_revision(revisions.revision, removed_files, changed_files, project_changed);
    let project_revision = next_project_revision(revisions.project_revision, project_changed);
    let action = if project_changed {
        RebuildAction::RebuildEverything
    } else if removed_files > 0 || changed_files > 0 {
        RebuildAction::RebuildChanged
    } else {
        RebuildAction::KeepAll
    };
    (DatabaseRevisions { revision, project_revision }, action)
}

} // verus!
