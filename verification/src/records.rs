//! File records and fingerprint groups: sorting the records by path and
//! partitioning them into groups of equal fingerprint.

use vstd::prelude::*;
use crate::bytes::{lex_le, lex_le_bytes, bytes_eq, views_of};

verus! {

/// A discovered file: its full path and the fingerprint of its content.
#[derive(Debug, PartialEq, Eq, Clone)]
pub struct FileRecord {
    pub path: Vec<u8>,
    pub fingerprint: Vec<u8>,
}

/// The mathematical view of a file record.
pub ghost struct RecordModel {
    pub path: Seq<u8>,
    pub fingerprint: Seq<u8>,
}

impl View for FileRecord {
    type V = RecordModel;

    open spec fn view(&self) -> RecordModel {
        RecordModel { path: self.path@, fingerprint: self.fingerprint@ }
    }
}

/// The views of a sequence of file records.
pub open spec fn rec_views(s: Seq<FileRecord>) -> Seq<RecordModel> {
    Seq::new(s.len(), |i: int| s[i]@)
}

/// A copy of a byte vector.
pub fn copy_bytes(a: &Vec<u8>) -> (r: Vec<u8>)
    ensures
        r@ == a@,
{
    let mut r: Vec<u8> = Vec::new();
    let n = a.len();
    let mut i: usize = 0;
    while i < n
        invariant
            n == a@.len(),
            0 <= i <= n,
            r@ == a@.take(i as int),
        decreases n - i,
    {
        r.push(a[i]);
        assert(r@ =~= a@.take(i + 1));
        i += 1;
    }
    assert(r@ =~= a@);
    r
}

/// Insertion of a record into a path-sorted sequence, before the first
/// element whose path does not come earlier.
pub open spec fn insert_by_path(x: RecordModel, s: Seq<RecordModel>) -> Seq<RecordModel>
    decreases s.len(),
{
    if s.len() == 0 {
        seq![x]
    } else if lex_le(x.path, s[0].path) {
        seq![x] + s
    } else {
        seq![s[0]] + insert_by_path(x, s.drop_first())
    }
}

/// The records sorted by path, byte-lexicographically: each record inserted
/// in turn into the sorted rest.
pub open spec fn sort_by_path(s: Seq<RecordModel>) -> Seq<RecordModel>
    decreases s.len(),
{
    if s.len() == 0 {
        Seq::empty()
    } else {
        insert_by_path(s.last(), sort_by_path(s.drop_last()))
    }
}

proof fn lemma_insert_by_path_at(x: RecordModel, s: Seq<RecordModel>, i: int)
    requires
        0 <= i <= s.len(),
        forall|j: int| 0 <= j < i ==> !lex_le(x.path, s[j].path),
        i < s.len() ==> lex_le(x.path, s[i as int].path),
    ensures
        insert_by_path(x, s) == s.take(i) + seq![x] + s.skip(i),
    decreases i,
{
    if i == 0 {
        if s.len() == 0 {
            assert(insert_by_path(x, s) =~= s.take(0) + seq![x] + s.skip(0));
        } else {
            assert(seq![x] + s =~= s.take(0) + seq![x] + s.skip(0));
        }
    } else {
        let rest = s.drop_first();
        assert(forall|j: int| 0 <= j < i - 1 ==> rest[j] == s[j + 1]);
        lemma_insert_by_path_at(x, rest, i - 1);
        assert(seq![s[0]] + (rest.take(i - 1) + seq![x] + rest.skip(i - 1)) =~= s.take(i)
            + seq![x] + s.skip(i));
    }
}

/// Insert one record into a path-sorted vector.
fn insert_record(v: &mut Vec<FileRecord>, x: FileRecord)
    ensures
        rec_views(final(v)@) == insert_by_path(x@, rec_views(old(v)@)),
{
    let n = v.len();
    let mut i: usize = 0;
    let mut found: bool = false;
    while i < n && !found
        invariant
            n == v@.len(),
            0 <= i <= n,
            forall|j: int| 0 <= j < i ==> !lex_le(x@.path, rec_views(v@)[j].path),
            found ==> i < n && lex_le(x@.path, rec_views(v@)[i as int].path),
        decreases n - i + (if found { 0int } else { 1int }),
    {
        if lex_le_bytes(&x.path, &v[i].path) {
            found = true;
        } else {
            assert(!lex_le(x@.path, rec_views(v@)[i as int].path));
            i += 1;
        }
    }
    proof {
        lemma_insert_by_path_at(x@, rec_views(v@), i as int);
    }
    let ghost old_views = rec_views(v@);
    let ghost xm = x@;
    v.insert(i, x);
    proof {
        assert(rec_views(v@) =~= old_views.take(i as int) + seq![xm] + old_views.skip(
            i as int,
        ));
    }
}

/// Sort the records by path, byte-lexicographically. The order decides which
/// file of a duplicate group becomes its representative, so it must not
/// depend on the order in which the files were discovered or fingerprinted.
pub fn sort_records(records: Vec<FileRecord>) -> (r: Vec<FileRecord>)
    ensures
        rec_views(r@) == sort_by_path(rec_views(records@)),
{
    let mut v = records;
    let mut r: Vec<FileRecord> = Vec::new();
    let ghost all = rec_views(v@);
    let mut i: usize = 0;
    let n = v.len();
    assert(all.take(0) =~= Seq::<RecordModel>::empty());
    while i < n
        invariant
            n == all.len(),
            0 <= i <= n,
            rec_views(v@) == all.skip(i as int),
            rec_views(r@) == sort_by_path(all.take(i as int)),
        decreases n - i,
    {
        proof {
            assert(rec_views(v@).len() == all.skip(i as int).len());
            assert(v@.len() == n - i);
        }
        let ghost prev = v@;
        let x = v.remove(0);
        proof {
            assert(rec_views(prev)[0] == all.skip(i as int)[0]);
            assert(x@ == all[i as int]);
            assert(v@ =~= prev.skip(1));
            assert forall|j: int| 0 <= j < rec_views(v@).len() implies rec_views(v@)[j]
                == all.skip(i + 1)[j] by {
                assert(v@[j] == prev[j + 1]);
                assert(rec_views(prev)[j + 1] == all.skip(i as int)[j + 1]);
            }
            assert(rec_views(v@) =~= all.skip(i + 1));
            let t = all.take(i + 1);
            assert(t.drop_last() =~= all.take(i as int));
            assert(t.last() == all[i as int]);
        }
        insert_record(&mut r, x);
        i += 1;
    }
    assert(all.take(n as int) =~= all);
    r
}

/// A fingerprint group: every discovered file whose content has this
/// fingerprint, in the order the records were given.
#[derive(Debug, PartialEq, Eq)]
pub struct Group {
    pub fingerprint: Vec<u8>,
    pub paths: Vec<Vec<u8>>,
}

/// The mathematical view of a group.
pub ghost struct GroupModel {
    pub fingerprint: Seq<u8>,
    pub paths: Seq<Seq<u8>>,
}

impl View for Group {
    type V = GroupModel;

    open spec fn view(&self) -> GroupModel {
        GroupModel { fingerprint: self.fingerprint@, paths: views_of(self.paths@) }
    }
}

/// The views of a sequence of groups.
pub open spec fn group_views(s: Seq<Group>) -> Seq<GroupModel> {
    Seq::new(s.len(), |i: int| s[i]@)
}

/// The paths of the records that carry the given fingerprint, in record
/// order.
pub open spec fn paths_with(rs: Seq<RecordModel>, fp: Seq<u8>) -> Seq<Seq<u8>>
    decreases rs.len(),
{
    if rs.len() == 0 {
        Seq::empty()
    } else if rs.last().fingerprint == fp {
        paths_with(rs.drop_last(), fp) + seq![rs.last().path]
    } else {
        paths_with(rs.drop_last(), fp)
    }
}

/// The distinct fingerprints of the records, in order of first occurrence.
pub open spec fn distinct_fps(rs: Seq<RecordModel>) -> Seq<Seq<u8>>
    decreases rs.len(),
{
    if rs.len() == 0 {
        Seq::empty()
    } else {
        let d = distinct_fps(rs.drop_last());
        if d.contains(rs.last().fingerprint) {
            d
        } else {
            d + seq![rs.last().fingerprint]
        }
    }
}

/// The records partitioned by fingerprint: one group per distinct
/// fingerprint, in order of first occurrence, each holding the paths of all
/// records with that fingerprint.
pub open spec fn group_records(rs: Seq<RecordModel>) -> Seq<GroupModel> {
    Seq::new(
        distinct_fps(rs).len(),
        |i: int|
            GroupModel {
                fingerprint: distinct_fps(rs)[i],
                paths: paths_with(rs, distinct_fps(rs)[i]),
            },
    )
}

/// No fingerprint occurs twice among the distinct fingerprints.
pub proof fn lemma_distinct_fps_no_dup(rs: Seq<RecordModel>)
    ensures
        forall|i: int, j: int|
            0 <= i < j < distinct_fps(rs).len() ==> distinct_fps(rs)[i] != distinct_fps(rs)[j],
    decreases rs.len(),
{
    if rs.len() > 0 {
        lemma_distinct_fps_no_dup(rs.drop_last());
        let d = distinct_fps(rs.drop_last());
        let fp = rs.last().fingerprint;
        if !d.contains(fp) {
            assert forall|i: int, j: int|
                0 <= i < j < distinct_fps(rs).len() implies distinct_fps(rs)[i] != distinct_fps(
                rs,
            )[j] by {
                if j == d.len() as int {
                    assert(d[i] == distinct_fps(rs)[i]);
                    if d[i] == fp {
                        assert(d.contains(fp));
                    }
                }
            }
        }
    }
}

/// Every record's fingerprint appears among the distinct fingerprints.
pub proof fn lemma_distinct_fps_complete(rs: Seq<RecordModel>, i: int)
    requires
        0 <= i < rs.len(),
    ensures
        distinct_fps(rs).contains(rs[i].fingerprint),
    decreases rs.len(),
{
    let d = distinct_fps(rs.drop_last());
    let fp = rs.last().fingerprint;
    if i == rs.len() - 1 {
        if d.contains(fp) {
        } else {
            assert(distinct_fps(rs)[d.len() as int] == fp);
        }
    } else {
        lemma_distinct_fps_complete(rs.drop_last(), i);
        assert(rs.drop_last()[i] == rs[i]);
        let k = choose|k: int| 0 <= k < d.len() && d[k] == rs[i].fingerprint;
        if d.contains(fp) {
            assert(distinct_fps(rs)[k] == rs[i].fingerprint);
        } else {
            assert(distinct_fps(rs)[k] == rs[i].fingerprint);
        }
    }
}

/// A fingerprint that never occurs has no paths.
proof fn lemma_paths_with_absent(rs: Seq<RecordModel>, fp: Seq<u8>)
    requires
        !distinct_fps(rs).contains(fp),
    ensures
        paths_with(rs, fp) == Seq::<Seq<u8>>::empty(),
    decreases rs.len(),
{
    if rs.len() > 0 {
        let d = distinct_fps(rs.drop_last());
        let lfp = rs.last().fingerprint;
        assert(distinct_fps(rs).contains(lfp)) by {
            lemma_distinct_fps_complete(rs, rs.len() - 1);
        }
        assert(fp != lfp);
        assert(!d.contains(fp)) by {
            if d.contains(fp) {
                let k = choose|k: int| 0 <= k < d.len() && d[k] == fp;
                assert(distinct_fps(rs)[k] == fp);
            }
        }
        lemma_paths_with_absent(rs.drop_last(), fp);
    }
}

/// The path of every record with the given fingerprint is in its group's
/// paths.
pub proof fn lemma_paths_with_contains(rs: Seq<RecordModel>, fp: Seq<u8>, i: int)
    requires
        0 <= i < rs.len(),
        rs[i].fingerprint == fp,
    ensures
        paths_with(rs, fp).contains(rs[i].path),
    decreases rs.len(),
{
    let pw = paths_with(rs.drop_last(), fp);
    if i == rs.len() - 1 {
        assert(paths_with(rs, fp)[pw.len() as int] == rs.last().path);
    } else {
        assert(rs.drop_last()[i] == rs[i]);
        lemma_paths_with_contains(rs.drop_last(), fp, i);
        let k = choose|k: int| 0 <= k < pw.len() && pw[k] == rs[i].path;
        assert(paths_with(rs, fp)[k] == rs[i].path);
    }
}

/// Partition the records into fingerprint groups: one group per distinct
/// fingerprint, in order of first occurrence, each holding the paths of all
/// records that carry it.
pub fn group_by_fingerprint(records: Vec<FileRecord>) -> (r: Vec<Group>)
    ensures
        group_views(r@) == group_records(rec_views(records@)),
{
    let mut v = records;
    let mut groups: Vec<Group> = Vec::new();
    let ghost all = rec_views(v@);
    let n = v.len();
    let mut i: usize = 0;
    assert(all.take(0) =~= Seq::<RecordModel>::empty());
    assert(group_views(groups@) =~= group_records(all.take(0)));
    while i < n
        invariant
            n == all.len(),
            0 <= i <= n,
            rec_views(v@) == all.skip(i as int),
            group_views(groups@) == group_records(all.take(i as int)),
        decreases n - i,
    {
        proof {
            assert(rec_views(v@).len() == all.skip(i as int).len());
            assert(v@.len() == n - i);
        }
        let ghost prev = v@;
        let x = v.remove(0);
        proof {
            assert(rec_views(prev)[0] == all.skip(i as int)[0]);
            assert(x@ == all[i as int]);
            assert(v@ =~= prev.skip(1));
            assert forall|j: int| 0 <= j < rec_views(v@).len() implies rec_views(v@)[j]
                == all.skip(i + 1)[j] by {
                assert(v@[j] == prev[j + 1]);
                assert(rec_views(prev)[j + 1] == all.skip(i as int)[j + 1]);
            }
            assert(rec_views(v@) =~= all.skip(i + 1));
        }
        let ghost pt = all.take(i as int);
        let ghost t = all.take(i + 1);
        let ghost xm = all[i as int];
        let ghost d = distinct_fps(pt);
        proof {
            assert(t.drop_last() =~= pt);
            assert(t.last() == xm);
            lemma_distinct_fps_no_dup(pt);
        }
        let m = groups.len();
        let mut k: usize = 0;
        let mut found: bool = false;
        while k < m && !found
            invariant
                m == groups@.len(),
                0 <= k <= m,
                group_views(groups@) == group_records(pt),
                d == distinct_fps(pt),
                xm == all[i as int],
                x@ == xm,
                forall|j: int| 0 <= j < k ==> d[j] != xm.fingerprint,
                found ==> k < m && d[k as int] == xm.fingerprint,
            decreases m - k + (if found { 0int } else { 1int }),
        {
            let same = bytes_eq(&groups[k].fingerprint, &x.fingerprint);
            proof {
                assert(group_views(groups@).len() == m);
                assert(group_records(pt).len() == distinct_fps(pt).len());
                assert(k < d.len());
                assert(group_views(groups@)[k as int] == group_records(pt)[k as int]);
                assert(group_views(groups@)[k as int] == groups@[k as int]@);
                assert(group_records(pt)[k as int].fingerprint == d[k as int]);
                assert(groups@[k as int]@.fingerprint == groups@[k as int].fingerprint@);
                assert(d[k as int] == groups@[k as int].fingerprint@);
            }
            if same {
                found = true;
            } else {
                k += 1;
            }
        }
        proof {
            assert(group_views(groups@).len() == groups@.len());
            assert(group_records(pt).len() == distinct_fps(pt).len());
            assert(m == d.len());
        }
        if found {
            let ghost gprev = groups@;
            let mut g = groups.remove(k);
            let ghost gold = g;
            let ghost xpv = x.path;
            g.paths.push(x.path);
            let ghost gm = g@;
            groups.insert(k, g);
            proof {
                assert(d.contains(xm.fingerprint)) by {
                    assert(d[k as int] == xm.fingerprint);
                }
                assert(distinct_fps(t) == d);
                assert(groups@ =~= gprev.update(k as int, groups@[k as int]));
                assert(gold == gprev[k as int]);
                assert(gold@ == group_views(gprev)[k as int]);
                assert(group_views(gprev)[k as int] == group_records(pt)[k as int]);
                assert(gm.fingerprint == d[k as int]);
                crate::bytes::lemma_views_of_push(gold.paths@, xpv);
                assert(xpv@ == xm.path);
                assert(gm.paths =~= group_views(gprev)[k as int].paths + seq![xm.path]);
                assert forall|j: int| 0 <= j < distinct_fps(t).len() implies group_views(groups@)[j]
                    == group_records(t)[j] by {
                    if j == k as int {
                        assert(paths_with(t, d[j]) =~= paths_with(pt, d[j]) + seq![xm.path]);
                        assert(group_views(groups@)[j].paths =~= paths_with(t, d[j]));
                    } else {
                        assert(d[j] != xm.fingerprint);
                        assert(paths_with(t, d[j]) =~= paths_with(pt, d[j]));
                        assert(groups@[j] == gprev[j]);
                        assert(group_views(groups@)[j] == group_views(gprev)[j]);
                    }
                }
                assert(group_views(groups@) =~= group_records(t));
            }
        } else {
            let ghost gprev = groups@;
            let mut new_paths: Vec<Vec<u8>> = Vec::new();
            new_paths.push(x.path);
            let g = Group { fingerprint: x.fingerprint, paths: new_paths };
            let ghost gm = g@;
            groups.push(g);
            proof {
                assert(!d.contains(xm.fingerprint)) by {
                    if d.contains(xm.fingerprint) {
                        let w = choose|w: int| 0 <= w < d.len() && d[w] == xm.fingerprint;
                        assert(d[w] == xm.fingerprint);
                    }
                }
                assert(distinct_fps(t) == d + seq![xm.fingerprint]);
                lemma_paths_with_absent(pt, xm.fingerprint);
                assert(gm.paths =~= seq![xm.path]);
                assert forall|j: int| 0 <= j < distinct_fps(t).len() implies group_views(groups@)[j]
                    == group_records(t)[j] by {
                    if j == d.len() as int {
                        assert(distinct_fps(t)[j] == xm.fingerprint);
                        assert(paths_with(t, xm.fingerprint) =~= Seq::<Seq<u8>>::empty()
                            + seq![xm.path]);
                        assert(group_views(groups@)[j] == gm);
                        assert(gm.paths =~= paths_with(t, xm.fingerprint));
                    } else {
                        assert(distinct_fps(t)[j] == d[j]);
                        assert(d[j] != xm.fingerprint);
                        assert(paths_with(t, d[j]) =~= paths_with(pt, d[j]));
                        assert(groups@[j] == gprev[j]);
                        assert(group_views(groups@)[j] == group_views(gprev)[j]);
                    }
                }
                assert(group_views(groups@) =~= group_records(t));
            }
        }
        i += 1;
    }
    assert(all.take(n as int) =~= all);
    groups
}

/// The total number of paths across a sequence of groups.
pub open spec fn total_group_size(gs: Seq<GroupModel>) -> int
    decreases gs.len(),
{
    if gs.len() == 0 {
        0
    } else {
        total_group_size(gs.drop_last()) + gs.last().paths.len()
    }
}

proof fn lemma_total_size_congruent(a: Seq<GroupModel>, b: Seq<GroupModel>)
    requires
        a.len() == b.len(),
        forall|j: int| 0 <= j < a.len() ==> a[j].paths.len() == b[j].paths.len(),
    ensures
        total_group_size(a) == total_group_size(b),
    decreases a.len(),
{
    if a.len() > 0 {
        assert(forall|j: int| 0 <= j < a.len() - 1 ==> a.drop_last()[j] == a[j]);
        assert(forall|j: int| 0 <= j < b.len() - 1 ==> b.drop_last()[j] == b[j]);
        lemma_total_size_congruent(a.drop_last(), b.drop_last());
    }
}

proof fn lemma_total_size_bump(a: Seq<GroupModel>, b: Seq<GroupModel>, idx: int)
    requires
        a.len() == b.len(),
        0 <= idx < a.len(),
        a[idx].paths.len() == b[idx].paths.len() + 1,
        forall|j: int| 0 <= j < a.len() && j != idx ==> a[j].paths.len() == b[j].paths.len(),
    ensures
        total_group_size(a) == total_group_size(b) + 1,
    decreases a.len(),
{
    assert(forall|j: int| 0 <= j < a.len() - 1 ==> a.drop_last()[j] == a[j]);
    assert(forall|j: int| 0 <= j < b.len() - 1 ==> b.drop_last()[j] == b[j]);
    if idx == a.len() - 1 {
        lemma_total_size_congruent(a.drop_last(), b.drop_last());
    } else {
        lemma_total_size_bump(a.drop_last(), b.drop_last(), idx);
    }
}

proof fn lemma_distinct_fps_sound(rs: Seq<RecordModel>, k: int)
    requires
        0 <= k < distinct_fps(rs).len(),
    ensures
        exists|i: int| 0 <= i < rs.len() && rs[i].fingerprint == distinct_fps(rs)[k],
    decreases rs.len(),
{
    let d = distinct_fps(rs.drop_last());
    let fp = rs.last().fingerprint;
    if !d.contains(fp) && k == d.len() as int {
        assert(rs[rs.len() - 1].fingerprint == distinct_fps(rs)[k]);
    } else {
        lemma_distinct_fps_sound(rs.drop_last(), k);
        let i = choose|i: int|
            0 <= i < rs.drop_last().len() && rs.drop_last()[i].fingerprint == d[k];
        assert(rs[i].fingerprint == distinct_fps(rs)[k]);
    }
}

/// Every record lands in exactly one fingerprint group: the group sizes add
/// up to the number of records, no group is empty, and no two groups share a
/// fingerprint — no file skipped, none double-counted.
pub proof fn lemma_groups_partition(rs: Seq<RecordModel>)
    ensures
        total_group_size(group_records(rs)) == rs.len(),
        forall|i: int, j: int|
            0 <= i < j < group_records(rs).len() ==> group_records(rs)[i].fingerprint
                != group_records(rs)[j].fingerprint,
        forall|k: int| 0 <= k < group_records(rs).len() ==> group_records(rs)[k].paths.len() > 0,
    decreases rs.len(),
{
    lemma_distinct_fps_no_dup(rs);
    let ga = group_records(rs);
    assert forall|k: int| 0 <= k < ga.len() implies ga[k].paths.len() > 0 by {
        lemma_distinct_fps_sound(rs, k);
        let i = choose|i: int| 0 <= i < rs.len() && rs[i].fingerprint == distinct_fps(rs)[k];
        lemma_paths_with_contains(rs, distinct_fps(rs)[k], i);
    }
    if rs.len() == 0 {
        assert(distinct_fps(rs).len() == 0);
        assert(total_group_size(ga) == 0);
    } else {
        let prev = rs.drop_last();
        lemma_groups_partition(prev);
        lemma_distinct_fps_no_dup(prev);
        let d = distinct_fps(prev);
        let fp = rs.last().fingerprint;
        let gb = group_records(prev);
        assert(rs.drop_last() =~= prev);
        if d.contains(fp) {
            let idx = choose|k: int| 0 <= k < d.len() && d[k] == fp;
            assert(distinct_fps(rs) == d);
            assert forall|j: int| 0 <= j < ga.len() && j != idx implies ga[j].paths.len()
                == gb[j].paths.len() by {
                assert(d[j] != fp);
                assert(paths_with(rs, d[j]) =~= paths_with(prev, d[j]));
            }
            assert(paths_with(rs, d[idx]) =~= paths_with(prev, d[idx]) + seq![rs.last().path]);
            assert(ga[idx].paths.len() == gb[idx].paths.len() + 1);
            lemma_total_size_bump(ga, gb, idx);
        } else {
            assert(distinct_fps(rs) == d + seq![fp]);
            assert(ga.len() == gb.len() + 1);
            assert forall|j: int| 0 <= j < gb.len() implies ga.drop_last()[j].paths.len()
                == gb[j].paths.len() by {
                assert(distinct_fps(rs)[j] == d[j]);
                assert(d.contains(d[j]));
                assert(d[j] != fp);
                assert(paths_with(rs, d[j]) =~= paths_with(prev, d[j]));
                assert(ga.drop_last()[j] == ga[j]);
            }
            lemma_total_size_congruent(ga.drop_last(), gb);
            lemma_paths_with_absent(prev, fp);
            assert(ga.last().paths =~= paths_with(prev, fp) + seq![rs.last().path]);
            assert(ga.last().paths.len() == 1);
            assert(total_group_size(ga) == total_group_size(ga.drop_last())
                + ga.last().paths.len());
        }
    }
}

proof fn lemma_insert_by_path_len(x: RecordModel, s: Seq<RecordModel>)
    ensures
        insert_by_path(x, s).len() == s.len() + 1,
    decreases s.len(),
{
    if s.len() > 0 && !lex_le(x.path, s[0].path) {
        lemma_insert_by_path_len(x, s.drop_first());
    }
}

/// Sorting keeps the number of records.
pub proof fn lemma_sort_by_path_len(s: Seq<RecordModel>)
    ensures
        sort_by_path(s).len() == s.len(),
    decreases s.len(),
{
    if s.len() > 0 {
        lemma_sort_by_path_len(s.drop_last());
        lemma_insert_by_path_len(s.last(), sort_by_path(s.drop_last()));
    }
}

proof fn lemma_cons_contains(a: RecordModel, s: Seq<RecordModel>, y: RecordModel)
    ensures
        (seq![a] + s).contains(y) <==> (y == a || s.contains(y)),
{
    let c = seq![a] + s;
    if c.contains(y) {
        let i = choose|i: int| 0 <= i < c.len() && c[i] == y;
        if i == 0 {
            assert(y == a);
        } else {
            assert(s[i - 1] == y);
            assert(s.contains(y));
        }
    }
    if y == a {
        assert(c[0] == y);
        assert(c.contains(y));
    }
    if s.contains(y) {
        let i = choose|i: int| 0 <= i < s.len() && s[i] == y;
        assert(c[i + 1] == y);
        assert(c.contains(y));
    }
}

proof fn lemma_insert_by_path_contains(x: RecordModel, s: Seq<RecordModel>, y: RecordModel)
    ensures
        insert_by_path(x, s).contains(y) <==> (y == x || s.contains(y)),
    decreases s.len(),
{
    if s.len() == 0 {
        assert(insert_by_path(x, s) =~= seq![x]);
        if insert_by_path(x, s).contains(y) {
            let i = choose|i: int| 0 <= i < 1 && insert_by_path(x, s)[i] == y;
            assert(y == x);
        }
        if y == x {
            assert(insert_by_path(x, s)[0] == y);
        }
        assert(!s.contains(y)) by {
            if s.contains(y) {
                let i = choose|i: int| 0 <= i < s.len() && s[i] == y;
            }
        }
    } else if lex_le(x.path, s[0].path) {
        lemma_cons_contains(x, s, y);
    } else {
        lemma_cons_contains(s[0], insert_by_path(x, s.drop_first()), y);
        lemma_insert_by_path_contains(x, s.drop_first(), y);
        lemma_cons_contains(s[0], s.drop_first(), y);
        assert(s =~= seq![s[0]] + s.drop_first());
    }
}

/// Sorting neither loses nor invents records.
pub proof fn lemma_sort_by_path_contains(s: Seq<RecordModel>, y: RecordModel)
    ensures
        sort_by_path(s).contains(y) <==> s.contains(y),
    decreases s.len(),
{
    if s.len() == 0 {
        if s.contains(y) {
            let i = choose|i: int| 0 <= i < s.len() && s[i] == y;
        }
        if sort_by_path(s).contains(y) {
            let i = choose|i: int| 0 <= i < sort_by_path(s).len() && sort_by_path(s)[i] == y;
        }
    } else {
        let prev = s.drop_last();
        lemma_sort_by_path_contains(prev, y);
        lemma_insert_by_path_contains(s.last(), sort_by_path(prev), y);
        if s.contains(y) {
            let i = choose|i: int| 0 <= i < s.len() && s[i] == y;
            if i == s.len() - 1 {
                assert(y == s.last());
            } else {
                assert(prev[i] == y);
                assert(prev.contains(y));
            }
        }
        if y == s.last() {
            assert(s[s.len() - 1] == y);
            assert(s.contains(y));
        }
        if prev.contains(y) {
            let i = choose|i: int| 0 <= i < prev.len() && prev[i] == y;
            assert(s[i] == y);
            assert(s.contains(y));
        }
    }
}

/// Every path in a fingerprint's group is the path of a record that carries
/// that fingerprint.
pub proof fn lemma_paths_with_sound(rs: Seq<RecordModel>, fp: Seq<u8>, j: int)
    requires
        0 <= j < paths_with(rs, fp).len(),
    ensures
        exists|i: int|
            0 <= i < rs.len() && rs[i].path == paths_with(rs, fp)[j] && rs[i].fingerprint == fp,
    decreases rs.len(),
{
    let prev = paths_with(rs.drop_last(), fp);
    if rs.last().fingerprint == fp && j == prev.len() {
        assert(rs[rs.len() - 1].path == paths_with(rs, fp)[j] && rs[rs.len() - 1].fingerprint
            == fp);
    } else {
        lemma_paths_with_sound(rs.drop_last(), fp, j);
        let i = choose|i: int|
            0 <= i < rs.drop_last().len() && rs.drop_last()[i].path == prev[j]
                && rs.drop_last()[i].fingerprint == fp;
        assert(paths_with(rs, fp)[j] == prev[j]);
        assert(rs[i].path == paths_with(rs, fp)[j] && rs[i].fingerprint == fp);
    }
}

/// Two records with the same fingerprint land in the same group, which
/// carries that fingerprint and both paths. Fingerprints are a function of
/// content alone, so two files with identical bytes always share one.
pub proof fn lemma_same_fingerprint_same_group(rs: Seq<RecordModel>, i: int, j: int)
    requires
        0 <= i < rs.len(),
        0 <= j < rs.len(),
        rs[i].fingerprint == rs[j].fingerprint,
    ensures
        exists|k: int|
            0 <= k < group_records(rs).len() && group_records(rs)[k].fingerprint
                == rs[i].fingerprint && group_records(rs)[k].paths.contains(rs[i].path)
                && group_records(rs)[k].paths.contains(rs[j].path),
{
    lemma_distinct_fps_complete(rs, i);
    let k = choose|k: int|
        0 <= k < distinct_fps(rs).len() && distinct_fps(rs)[k] == rs[i].fingerprint;
    lemma_paths_with_contains(rs, rs[i].fingerprint, i);
    lemma_paths_with_contains(rs, rs[j].fingerprint, j);
    assert(group_records(rs)[k].fingerprint == rs[i].fingerprint);
    assert(group_records(rs)[k].paths.contains(rs[i].path));
    assert(group_records(rs)[k].paths.contains(rs[j].path));
}

} // verus!
