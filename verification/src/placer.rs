//! Duplicate classification and output placement.
//!
//! Given the fingerprinted records, the run is decided here: each fingerprint
//! group either has no working file (ignored), or a working file duplicates a
//! file outside the working directory (every working file is reported against
//! that external file and nothing is copied), or the lexicographically first
//! working file is copied into the output directory and the other working
//! files are reported against the output name it received.
//!
//! Output names collide only across groups; when renaming is off and a
//! wanted name is already present — in the output directory before the run,
//! or claimed by an earlier group of this run — the name is re-tagged with
//! the group's fingerprint and a notice is recorded. Groups are handled in
//! the order of their first (lexicographically least) path, so the whole
//! outcome is a function of the inputs alone.

use vstd::prelude::*;
use crate::bytes::{lex_le, views_of, lex_le_bytes, contains_bytes, append_bytes,
    lemma_views_of_push};
use crate::paths::{is_under, strictly_under, rel_to, basename_of, is_under_dir, rel_to_dir,
    basename};
use crate::hex::{hex_of, hex_lower};
use crate::records::{FileRecord, RecordModel, rec_views, GroupModel, Group, group_views,
    sort_by_path, group_records, sort_records, group_by_fingerprint, copy_bytes, paths_with,
    distinct_fps};

verus! {

/// The configuration of one run: the root of the scan, the working
/// directory whose files are candidates for placement, and whether output
/// names always carry the fingerprint tag.
#[derive(Debug)]
pub struct Config {
    pub root: Vec<u8>,
    pub work_dir: Vec<u8>,
    pub rename: bool,
}

/// The mathematical view of a configuration.
pub ghost struct ConfigModel {
    pub root: Seq<u8>,
    pub work_dir: Seq<u8>,
    pub rename: bool,
}

impl View for Config {
    type V = ConfigModel;

    open spec fn view(&self) -> ConfigModel {
        ConfigModel { root: self.root@, work_dir: self.work_dir@, rename: self.rename }
    }
}

/// One planned copy: the source path and the base name it receives in the
/// output directory.
#[derive(Debug, PartialEq, Eq)]
pub struct CopyItem {
    pub src: Vec<u8>,
    pub dest_name: Vec<u8>,
}

/// The mathematical view of a planned copy.
pub ghost struct CopyModel {
    pub src: Seq<u8>,
    pub dest_name: Seq<u8>,
}

impl View for CopyItem {
    type V = CopyModel;

    open spec fn view(&self) -> CopyModel {
        CopyModel { src: self.src@, dest_name: self.dest_name@ }
    }
}

/// The views of a sequence of planned copies.
pub open spec fn copy_views(s: Seq<CopyItem>) -> Seq<CopyModel> {
    Seq::new(s.len(), |i: int| s[i]@)
}

/// The outcome of a run: the copies to perform, the sorted duplicate
/// report, and the renaming notices.
#[derive(Debug, PartialEq, Eq)]
pub struct RunPlan {
    pub copies: Vec<CopyItem>,
    pub report: Vec<Vec<u8>>,
    pub notices: Vec<Vec<u8>>,
}

/// The mathematical view of a run plan.
pub ghost struct RunPlanModel {
    pub copies: Seq<CopyModel>,
    pub report: Seq<Seq<u8>>,
    pub notices: Seq<Seq<u8>>,
}

impl View for RunPlan {
    type V = RunPlanModel;

    open spec fn view(&self) -> RunPlanModel {
        RunPlanModel {
            copies: copy_views(self.copies@),
            report: views_of(self.report@),
            notices: views_of(self.notices@),
        }
    }
}

/// The separator of a report line: `" = "`.
pub open spec fn eq_sep() -> Seq<u8> {
    seq![32u8, 61u8, 32u8]
}

/// One line of the duplicate report: `suppressed = identifier`.
pub open spec fn report_line(suppressed: Seq<u8>, identifier: Seq<u8>) -> Seq<u8> {
    suppressed + eq_sep() + identifier
}

/// The separator of a renaming notice: `" -> "`.
pub open spec fn notice_sep() -> Seq<u8> {
    seq![32u8, 45u8, 62u8, 32u8]
}

/// One renaming notice: `working-file -> name actually used`.
pub open spec fn notice_line(rel_path: Seq<u8>, used_name: Seq<u8>) -> Seq<u8> {
    rel_path + notice_sep() + used_name
}

/// An output name tagged with the fingerprint: `{hex}_{base}`.
pub open spec fn tagged_name(fp: Seq<u8>, base: Seq<u8>) -> Seq<u8> {
    hex_of(fp) + seq![95u8] + base
}

/// The paths of a group that lie in the working directory, in group order.
pub open spec fn working_of(paths: Seq<Seq<u8>>, wd: Seq<u8>) -> Seq<Seq<u8>>
    decreases paths.len(),
{
    if paths.len() == 0 {
        Seq::empty()
    } else if is_under(paths.last(), wd) {
        working_of(paths.drop_last(), wd) + seq![paths.last()]
    } else {
        working_of(paths.drop_last(), wd)
    }
}

/// The first path of a group that lies outside the working directory, if
/// any.
pub open spec fn first_external(paths: Seq<Seq<u8>>, wd: Seq<u8>) -> Option<Seq<u8>>
    decreases paths.len(),
{
    if paths.len() == 0 {
        Option::None
    } else if !is_under(paths.first(), wd) {
        Option::Some(paths.first())
    } else {
        first_external(paths.drop_first(), wd)
    }
}

/// The report lines for a run of suppressed working files, all pointing at
/// the same identifier.
pub open spec fn dup_lines(ws: Seq<Seq<u8>>, wd: Seq<u8>, identifier: Seq<u8>) -> Seq<Seq<u8>>
    decreases ws.len(),
{
    if ws.len() == 0 {
        Seq::empty()
    } else {
        dup_lines(ws.drop_last(), wd, identifier) + seq![
            report_line(rel_to(ws.last(), wd), identifier),
        ]
    }
}

/// What one group contributes to the run: copies, unsorted report lines,
/// notices, and the output names it claims.
pub ghost struct GroupPlanModel {
    pub copies: Seq<CopyModel>,
    pub report: Seq<Seq<u8>>,
    pub notices: Seq<Seq<u8>>,
    pub names: Seq<Seq<u8>>,
}

/// The empty contribution.
pub open spec fn empty_group_plan() -> GroupPlanModel {
    GroupPlanModel {
        copies: Seq::empty(),
        report: Seq::empty(),
        notices: Seq::empty(),
        names: Seq::empty(),
    }
}

/// The three-way outcome for one fingerprint group, given the output names
/// already taken.
pub open spec fn place_group(g: GroupModel, cfg: ConfigModel, taken: Seq<Seq<u8>>)
    -> GroupPlanModel {
    let w = working_of(g.paths, cfg.work_dir);
    if w.len() == 0 {
        empty_group_plan()
    } else if first_external(g.paths, cfg.work_dir) is Some {
        let e = first_external(g.paths, cfg.work_dir).unwrap();
        GroupPlanModel {
            copies: Seq::empty(),
            report: dup_lines(w, cfg.work_dir, rel_to(e, cfg.root)),
            notices: Seq::empty(),
            names: Seq::empty(),
        }
    } else {
        let rep = w.first();
        let base = basename_of(rep);
        let tagged = tagged_name(g.fingerprint, base);
        let retag = !cfg.rename && taken.contains(base);
        let used = if cfg.rename || retag {
            tagged
        } else {
            base
        };
        GroupPlanModel {
            copies: seq![CopyModel { src: rep, dest_name: used }],
            report: dup_lines(w.drop_first(), cfg.work_dir, used),
            notices: if retag {
                seq![notice_line(rel_to(rep, cfg.work_dir), used)]
            } else {
                Seq::empty()
            },
            names: seq![used],
        }
    }
}

/// The contributions of all groups in order, each seeing the names taken by
/// the output directory's prior contents and by every earlier group.
pub open spec fn place_groups(gs: Seq<GroupModel>, cfg: ConfigModel, taken: Seq<Seq<u8>>)
    -> GroupPlanModel
    decreases gs.len(),
{
    if gs.len() == 0 {
        empty_group_plan()
    } else {
        let one = place_group(gs.first(), cfg, taken);
        let rest = place_groups(gs.drop_first(), cfg, taken + one.names);
        GroupPlanModel {
            copies: one.copies + rest.copies,
            report: one.report + rest.report,
            notices: one.notices + rest.notices,
            names: one.names + rest.names,
        }
    }
}

/// Insertion of a line into a sorted sequence of lines.
pub open spec fn insert_line(x: Seq<u8>, s: Seq<Seq<u8>>) -> Seq<Seq<u8>>
    decreases s.len(),
{
    if s.len() == 0 {
        seq![x]
    } else if lex_le(x, s.first()) {
        seq![x] + s
    } else {
        seq![s.first()] + insert_line(x, s.drop_first())
    }
}

/// The lines sorted byte-lexicographically.
pub open spec fn sort_lines(s: Seq<Seq<u8>>) -> Seq<Seq<u8>>
    decreases s.len(),
{
    if s.len() == 0 {
        Seq::empty()
    } else {
        insert_line(s.last(), sort_lines(s.drop_last()))
    }
}

/// The fingerprint groups a run works on: the records sorted by path, then
/// partitioned by fingerprint.
pub open spec fn run_groups(records: Seq<RecordModel>) -> Seq<GroupModel> {
    group_records(sort_by_path(records))
}

/// The whole run as a function of its inputs: records are sorted by path,
/// grouped by fingerprint, each group placed in turn, and the report sorted.
pub open spec fn run_model(records: Seq<RecordModel>, cfg: ConfigModel, existing: Seq<Seq<u8>>)
    -> RunPlanModel {
    let groups = run_groups(records);
    let placed = place_groups(groups, cfg, existing);
    RunPlanModel {
        copies: placed.copies,
        report: sort_lines(placed.report),
        notices: placed.notices,
    }
}

fn sep_eq_vec() -> (r: Vec<u8>)
    ensures
        r@ == eq_sep(),
{
    let mut r: Vec<u8> = Vec::new();
    r.push(32);
    r.push(61);
    r.push(32);
    assert(r@ =~= eq_sep());
    r
}

fn sep_notice_vec() -> (r: Vec<u8>)
    ensures
        r@ == notice_sep(),
{
    let mut r: Vec<u8> = Vec::new();
    r.push(32);
    r.push(45);
    r.push(62);
    r.push(32);
    assert(r@ =~= notice_sep());
    r
}

fn make_report_line(suppressed: &Vec<u8>, identifier: &Vec<u8>) -> (r: Vec<u8>)
    ensures
        r@ == report_line(suppressed@, identifier@),
{
    let s = sep_eq_vec();
    let left = append_bytes(suppressed, &s);
    let r = append_bytes(&left, identifier);
    assert(r@ =~= suppressed@ + eq_sep() + identifier@);
    r
}

fn make_notice_line(rel_path: &Vec<u8>, used_name: &Vec<u8>) -> (r: Vec<u8>)
    ensures
        r@ == notice_line(rel_path@, used_name@),
{
    let s = sep_notice_vec();
    let left = append_bytes(rel_path, &s);
    let r = append_bytes(&left, used_name);
    assert(r@ =~= rel_path@ + notice_sep() + used_name@);
    r
}

fn make_tagged(fp: &Vec<u8>, base: &Vec<u8>) -> (r: Vec<u8>)
    ensures
        r@ == tagged_name(fp@, base@),
{
    let mut hx = hex_lower(fp);
    hx.push(95);
    let r = append_bytes(&hx, base);
    assert(hx@ =~= hex_of(fp@) + seq![95u8]);
    assert(r@ =~= hex_of(fp@) + seq![95u8] + base@);
    r
}

proof fn lemma_first_external_at(paths: Seq<Seq<u8>>, wd: Seq<u8>, k: int)
    requires
        0 <= k <= paths.len(),
        forall|j: int| 0 <= j < k ==> is_under(#[trigger] paths[j], wd),
        k < paths.len() ==> !is_under(paths[k], wd),
    ensures
        k < paths.len() ==> first_external(paths, wd) == Option::Some(paths[k]),
        k == paths.len() ==> first_external(paths, wd) is None,
    decreases k,
{
    if k == 0 {
    } else {
        assert(is_under(paths[0], wd));
        let rest = paths.drop_first();
        assert(forall|j: int| 0 <= j < k - 1 ==> rest[j] == paths[j + 1]);
        lemma_first_external_at(rest, wd, k - 1);
        if k < paths.len() {
            assert(rest[k - 1] == paths[k]);
        }
    }
}

/// Every working path of a group is one of the group's paths and lies in
/// the working directory.
pub proof fn lemma_working_of_mem(paths: Seq<Seq<u8>>, wd: Seq<u8>, i: int)
    requires
        0 <= i < working_of(paths, wd).len(),
    ensures
        paths.contains(working_of(paths, wd)[i]),
        is_under(working_of(paths, wd)[i], wd),
    decreases paths.len(),
{
    let wprev = working_of(paths.drop_last(), wd);
    if is_under(paths.last(), wd) && i == wprev.len() {
        assert(working_of(paths, wd)[i] == paths.last());
        assert(paths[paths.len() - 1] == paths.last());
    } else {
        lemma_working_of_mem(paths.drop_last(), wd, i);
        let x = wprev[i];
        let k = choose|k: int| 0 <= k < paths.drop_last().len() && paths.drop_last()[k] == x;
        assert(paths[k] == x);
        assert(working_of(paths, wd)[i] == x);
    }
}

/// Place one fingerprint group: append its copies, report lines, notices
/// and claimed output names.
fn place_one_group(
    g: Group,
    cfg: &Config,
    taken: &mut Vec<Vec<u8>>,
    copies: &mut Vec<CopyItem>,
    report: &mut Vec<Vec<u8>>,
    notices: &mut Vec<Vec<u8>>,
)
    requires
        forall|i: int| 0 <= i < g@.paths.len() ==> strictly_under(#[trigger] g@.paths[i], cfg@.root),
        forall|i: int|
            0 <= i < g@.paths.len() ==> (is_under(#[trigger] g@.paths[i], cfg@.work_dir)
                ==> strictly_under(g@.paths[i], cfg@.work_dir)),
    ensures
        views_of(final(taken)@) == views_of(old(taken)@) + place_group(
            g@,
            cfg@,
            views_of(old(taken)@),
        ).names,
        copy_views(final(copies)@) == copy_views(old(copies)@) + place_group(
            g@,
            cfg@,
            views_of(old(taken)@),
        ).copies,
        views_of(final(report)@) == views_of(old(report)@) + place_group(
            g@,
            cfg@,
            views_of(old(taken)@),
        ).report,
        views_of(final(notices)@) == views_of(old(notices)@) + place_group(
            g@,
            cfg@,
            views_of(old(taken)@),
        ).notices,
{
    let ghost gm = g@;
    let ghost cfgm = cfg@;
    let ghost taken0 = views_of(taken@);
    let ghost pmodel = place_group(gm, cfgm, taken0);
    let ghost rep0 = views_of(report@);

    let mut working: Vec<Vec<u8>> = Vec::new();
    let np = g.paths.len();
    let mut i: usize = 0;
    proof {
        assert(views_of(g.paths@).take(0) =~= Seq::<Seq<u8>>::empty());
        assert(views_of(working@) =~= working_of(views_of(g.paths@).take(0), cfgm.work_dir));
    }
    while i < np
        invariant
            np == g.paths@.len(),
            0 <= i <= np,
            gm == g@,
            cfgm == cfg@,
            views_of(working@) == working_of(views_of(g.paths@).take(i as int), cfgm.work_dir),
        decreases np - i,
    {
        let under = is_under_dir(&g.paths[i], &cfg.work_dir);
        proof {
            let pv = views_of(g.paths@);
            let t = pv.take(i + 1);
            assert(t.drop_last() =~= pv.take(i as int));
            assert(t.last() == pv[i as int]);
            assert(pv[i as int] == g.paths@[i as int]@);
        }
        if under {
            let c = copy_bytes(&g.paths[i]);
            let ghost cv = c;
            let ghost wprev = working@;
            working.push(c);
            proof {
                lemma_views_of_push(wprev, cv);
                assert(views_of(working@) =~= working_of(
                    views_of(g.paths@).take(i + 1),
                    cfgm.work_dir,
                ));
            }
        }
        i += 1;
    }
    proof {
        assert(views_of(g.paths@).take(np as int) =~= views_of(g.paths@));
        assert(gm.paths == views_of(g.paths@));
    }
    let ghost w = working_of(gm.paths, cfgm.work_dir);
    assert(views_of(working@) == w);

    let mut k: usize = 0;
    let mut ext_found: bool = false;
    while k < np && !ext_found
        invariant
            np == g.paths@.len(),
            gm == g@,
            cfgm == cfg@,
            0 <= k <= np,
            forall|j: int| 0 <= j < k ==> is_under(#[trigger] gm.paths[j], cfgm.work_dir),
            ext_found ==> k < np && !is_under(gm.paths[k as int], cfgm.work_dir),
        decreases np - k + (if ext_found { 0int } else { 1int }),
    {
        let under = is_under_dir(&g.paths[k], &cfg.work_dir);
        proof {
            assert(gm.paths[k as int] == g.paths@[k as int]@);
        }
        if !under {
            ext_found = true;
        } else {
            k += 1;
        }
    }
    proof {
        lemma_first_external_at(gm.paths, cfgm.work_dir, k as int);
    }

    if working.len() == 0 {
        proof {
            assert(w.len() == 0);
            assert(pmodel == empty_group_plan());
            assert(views_of(taken@) =~= taken0 + pmodel.names);
            assert(copy_views(copies@) =~= copy_views(copies@) + pmodel.copies);
            assert(views_of(report@) =~= rep0 + pmodel.report);
            assert(views_of(notices@) =~= views_of(notices@) + pmodel.notices);
        }
        return ;
    }

    if ext_found {
        let ghost e = gm.paths[k as int];
        proof {
            assert(first_external(gm.paths, cfgm.work_dir) == Option::Some(e));
            assert(strictly_under(e, cfgm.root));
        }
        let ext_rel = rel_to_dir(&g.paths[k], &cfg.root);
        let nw = working.len();
        let mut t: usize = 0;
        proof {
            assert(w.take(0) =~= Seq::<Seq<u8>>::empty());
            assert(views_of(report@) =~= rep0 + dup_lines(w.take(0), cfgm.work_dir, rel_to(
                e,
                cfgm.root,
            )));
        }
        while t < nw
            invariant
                nw == working@.len(),
                0 <= t <= nw,
                gm == g@,
                cfgm == cfg@,
                w == working_of(gm.paths, cfgm.work_dir),
                views_of(working@) == w,
                ext_rel@ == rel_to(e, cfgm.root),
                forall|i2: int|
                    0 <= i2 < gm.paths.len() ==> (is_under(#[trigger] gm.paths[i2], cfgm.work_dir)
                        ==> strictly_under(gm.paths[i2], cfgm.work_dir)),
                views_of(report@) == rep0 + dup_lines(w.take(t as int), cfgm.work_dir, rel_to(
                    e,
                    cfgm.root,
                )),
            decreases nw - t,
        {
            proof {
                lemma_working_of_mem(gm.paths, cfgm.work_dir, t as int);
                let x = w[t as int];
                let kk = choose|kk: int| 0 <= kk < gm.paths.len() && gm.paths[kk] == x;
                assert(strictly_under(x, cfgm.work_dir));
                assert(working@[t as int]@ == x);
            }
            let rl = rel_to_dir(&working[t], &cfg.work_dir);
            let line = make_report_line(&rl, &ext_rel);
            let ghost lv = line;
            let ghost rprev = report@;
            report.push(line);
            proof {
                lemma_views_of_push(rprev, lv);
                let tt = w.take(t + 1);
                assert(tt.drop_last() =~= w.take(t as int));
                assert(tt.last() == w[t as int]);
                assert(views_of(report@) =~= rep0 + dup_lines(w.take(t + 1), cfgm.work_dir, rel_to(
                    e,
                    cfgm.root,
                )));
            }
            t += 1;
        }
        proof {
            assert(w.take(nw as int) =~= w);
            assert(pmodel.report == dup_lines(w, cfgm.work_dir, rel_to(e, cfgm.root)));
            assert(views_of(report@) == rep0 + pmodel.report);
            assert(views_of(taken@) =~= taken0 + pmodel.names);
            assert(copy_views(copies@) =~= copy_views(copies@) + pmodel.copies);
            assert(views_of(notices@) =~= views_of(notices@) + pmodel.notices);
        }
        return ;
    }

    proof {
        assert(k == np);
        assert(first_external(gm.paths, cfgm.work_dir) is None);
        lemma_working_of_mem(gm.paths, cfgm.work_dir, 0);
        let x = w[0];
        let kk = choose|kk: int| 0 <= kk < gm.paths.len() && gm.paths[kk] == x;
        assert(strictly_under(x, cfgm.work_dir));
        assert(working@[0]@ == x);
    }
    let base = basename(&working[0]);
    let rel_rep = rel_to_dir(&working[0], &cfg.work_dir);
    let mut retagged: bool = false;
    let used: Vec<u8> = if cfg.rename {
        make_tagged(&g.fingerprint, &base)
    } else if contains_bytes(taken, &base) {
        retagged = true;
        make_tagged(&g.fingerprint, &base)
    } else {
        base
    };
    proof {
        assert(gm.fingerprint == g.fingerprint@);
        assert(basename_of(w.first()) == basename_of(working@[0]@));
        assert(used@ == (if cfgm.rename || (!cfgm.rename && taken0.contains(
            basename_of(w.first()),
        )) {
            tagged_name(gm.fingerprint, basename_of(w.first()))
        } else {
            basename_of(w.first())
        }));
        assert(retagged == (!cfgm.rename && taken0.contains(basename_of(w.first()))));
    }
    if retagged {
        let nl = make_notice_line(&rel_rep, &used);
        let ghost nv = nl;
        let ghost nprev = notices@;
        notices.push(nl);
        proof {
            lemma_views_of_push(nprev, nv);
            assert(views_of(notices@) =~= views_of(nprev) + pmodel.notices);
        }
    } else {
        proof {
            assert(views_of(notices@) =~= views_of(notices@) + pmodel.notices);
        }
    }
    let src_copy = copy_bytes(&working[0]);
    let dest_copy = copy_bytes(&used);
    let item = CopyItem { src: src_copy, dest_name: dest_copy };
    let ghost iv = item;
    let ghost cprev = copies@;
    copies.push(item);
    proof {
        assert forall|j: int| 0 <= j < cprev.len() + 1 implies copy_views(cprev.push(iv))[j]
            == (copy_views(cprev) + seq![iv@])[j] by {
            if j < cprev.len() {
                assert(cprev.push(iv)[j] == cprev[j]);
            } else {
                assert(cprev.push(iv)[j] == iv);
            }
        }
        assert(copy_views(copies@) =~= copy_views(cprev) + seq![iv@]);
        assert(iv@ == pmodel.copies[0]);
        assert(copy_views(copies@) =~= copy_views(cprev) + pmodel.copies);
    }
    let name_copy = copy_bytes(&used);
    let ghost ncv = name_copy;
    let ghost tprev = taken@;
    taken.push(name_copy);
    proof {
        lemma_views_of_push(tprev, ncv);
        assert(views_of(taken@) =~= taken0 + pmodel.names);
    }
    let nw = working.len();
    let mut t: usize = 1;
    let ghost usedv = used@;
    proof {
        assert(w.drop_first().take(0) =~= Seq::<Seq<u8>>::empty());
        assert(views_of(report@) =~= rep0 + dup_lines(
            w.drop_first().take(0),
            cfgm.work_dir,
            usedv,
        ));
    }
    while t < nw
        invariant
            nw == working@.len(),
            1 <= t <= nw,
            gm == g@,
            cfgm == cfg@,
            w == working_of(gm.paths, cfgm.work_dir),
            views_of(working@) == w,
            usedv == used@,
            forall|i2: int|
                0 <= i2 < gm.paths.len() ==> (is_under(#[trigger] gm.paths[i2], cfgm.work_dir)
                    ==> strictly_under(gm.paths[i2], cfgm.work_dir)),
            views_of(report@) == rep0 + dup_lines(
                w.drop_first().take(t - 1),
                cfgm.work_dir,
                usedv,
            ),
        decreases nw - t,
    {
        proof {
            lemma_working_of_mem(gm.paths, cfgm.work_dir, t as int);
            let x = w[t as int];
            let kk = choose|kk: int| 0 <= kk < gm.paths.len() && gm.paths[kk] == x;
            assert(strictly_under(x, cfgm.work_dir));
            assert(working@[t as int]@ == x);
        }
        let rl = rel_to_dir(&working[t], &cfg.work_dir);
        let line = make_report_line(&rl, &used);
        let ghost lv = line;
        let ghost rprev = report@;
        report.push(line);
        proof {
            lemma_views_of_push(rprev, lv);
            let tt = w.drop_first().take(t as int);
            assert(tt.drop_last() =~= w.drop_first().take(t - 1));
            assert(tt.last() == w.drop_first()[t - 1]);
            assert(w.drop_first()[t - 1] == w[t as int]);
            assert(views_of(report@) =~= rep0 + dup_lines(
                w.drop_first().take(t as int),
                cfgm.work_dir,
                usedv,
            ));
        }
        t += 1;
    }
    proof {
        assert(w.drop_first().take(nw - 1) =~= w.drop_first());
        assert(views_of(report@) == rep0 + pmodel.report);
    }
}

proof fn lemma_insert_line_at(x: Seq<u8>, s: Seq<Seq<u8>>, i: int)
    requires
        0 <= i <= s.len(),
        forall|j: int| 0 <= j < i ==> !lex_le(x, #[trigger] s[j]),
        i < s.len() ==> lex_le(x, s[i]),
    ensures
        insert_line(x, s) == s.take(i) + seq![x] + s.skip(i),
    decreases i,
{
    if i == 0 {
        if s.len() == 0 {
            assert(insert_line(x, s) =~= s.take(0) + seq![x] + s.skip(0));
        } else {
            assert(seq![x] + s =~= s.take(0) + seq![x] + s.skip(0));
        }
    } else {
        let rest = s.drop_first();
        assert(forall|j: int| 0 <= j < i - 1 ==> rest[j] == s[j + 1]);
        lemma_insert_line_at(x, rest, i - 1);
        assert(seq![s[0]] + (rest.take(i - 1) + seq![x] + rest.skip(i - 1)) =~= s.take(i) + seq![x]
            + s.skip(i));
    }
}

fn insert_line_vec(v: &mut Vec<Vec<u8>>, x: Vec<u8>)
    ensures
        views_of(final(v)@) == insert_line(x@, views_of(old(v)@)),
{
    let n = v.len();
    let mut i: usize = 0;
    let mut found: bool = false;
    while i < n && !found
        invariant
            n == v@.len(),
            0 <= i <= n,
            forall|j: int| 0 <= j < i ==> !lex_le(x@, views_of(v@)[j]),
            found ==> i < n && lex_le(x@, views_of(v@)[i as int]),
        decreases n - i + (if found { 0int } else { 1int }),
    {
        if lex_le_bytes(&x, &v[i]) {
            assert(views_of(v@)[i as int] == v@[i as int]@);
            found = true;
        } else {
            assert(views_of(v@)[i as int] == v@[i as int]@);
            i += 1;
        }
    }
    proof {
        lemma_insert_line_at(x@, views_of(v@), i as int);
    }
    let ghost old_views = views_of(v@);
    let ghost xv = x@;
    v.insert(i, x);
    proof {
        assert forall|j: int| 0 <= j < old_views.len() + 1 implies views_of(v@)[j] == (
        old_views.take(i as int) + seq![xv] + old_views.skip(i as int))[j] by {
            if j < i as int {
                assert(v@[j] == old(v)@[j]);
            } else if j == i as int {
                assert(v@[j]@ == xv);
            } else {
                assert(v@[j] == old(v)@[j - 1]);
            }
        }
        assert(views_of(v@) =~= old_views.take(i as int) + seq![xv] + old_views.skip(i as int));
    }
}

/// Sort the report lines byte-lexicographically, so the duplicate report is
/// deterministic.
pub fn sort_report(lines: Vec<Vec<u8>>) -> (r: Vec<Vec<u8>>)
    ensures
        views_of(r@) == sort_lines(views_of(lines@)),
{
    let mut v = lines;
    let mut r: Vec<Vec<u8>> = Vec::new();
    let ghost all = views_of(v@);
    let mut i: usize = 0;
    let n = v.len();
    assert(all.take(0) =~= Seq::<Seq<u8>>::empty());
    while i < n
        invariant
            n == all.len(),
            0 <= i <= n,
            views_of(v@) == all.skip(i as int),
            views_of(r@) == sort_lines(all.take(i as int)),
        decreases n - i,
    {
        proof {
            assert(views_of(v@).len() == all.skip(i as int).len());
            assert(v@.len() == n - i);
        }
        let ghost prev = v@;
        let x = v.remove(0);
        proof {
            assert(views_of(prev)[0] == all.skip(i as int)[0]);
            assert(x@ == all[i as int]);
            assert(v@ =~= prev.skip(1));
            assert forall|j: int| 0 <= j < views_of(v@).len() implies views_of(v@)[j] == all.skip(
                i + 1,
            )[j] by {
                assert(v@[j] == prev[j + 1]);
                assert(views_of(prev)[j + 1] == all.skip(i as int)[j + 1]);
            }
            assert(views_of(v@) =~= all.skip(i + 1));
            let t = all.take(i + 1);
            assert(t.drop_last() =~= all.take(i as int));
            assert(t.last() == all[i as int]);
        }
        insert_line_vec(&mut r, x);
        i += 1;
    }
    assert(all.take(n as int) =~= all);
    r
}

/// Decide the whole run: which working files are duplicates of what, which
/// are copied under which output names, and what the sorted report says.
///
/// The result is a function of the records, the configuration and the names
/// already present in the output directory — nothing else — so two runs on
/// the same inputs decide the same.
pub fn plan_run(records: Vec<FileRecord>, cfg: &Config, existing: Vec<Vec<u8>>) -> (r: RunPlan)
    requires
        forall|i: int|
            0 <= i < rec_views(records@).len() ==> strictly_under(
                (#[trigger] rec_views(records@)[i]).path,
                cfg@.root,
            ),
        forall|i: int|
            0 <= i < rec_views(records@).len() ==> (is_under(
                (#[trigger] rec_views(records@)[i]).path,
                cfg@.work_dir,
            ) ==> strictly_under(rec_views(records@)[i].path, cfg@.work_dir)),
    ensures
        r@ == run_model(rec_views(records@), cfg@, views_of(existing@)),
{
    let ghost recm = rec_views(records@);
    let ghost cfgm = cfg@;
    let ghost ex0 = views_of(existing@);
    let sorted = sort_records(records);
    let mut groups = group_by_fingerprint(sorted);
    let ghost gmodels = group_views(groups@);
    let ghost sortedm = sort_by_path(recm);
    proof {
        assert(gmodels == group_records(sortedm));
        assert forall|k: int, j: int|
            0 <= k < gmodels.len() && 0 <= j < gmodels[k].paths.len() implies strictly_under(
            #[trigger] gmodels[k].paths[j],
            cfgm.root,
        ) && (is_under(gmodels[k].paths[j], cfgm.work_dir) ==> strictly_under(
            gmodels[k].paths[j],
            cfgm.work_dir,
        )) by {
            let fp = distinct_fps(sortedm)[k];
            assert(gmodels[k].paths == paths_with(sortedm, fp));
            crate::records::lemma_paths_with_sound(sortedm, fp, j);
            let i = choose|i: int|
                0 <= i < sortedm.len() && sortedm[i].path == paths_with(sortedm, fp)[j]
                    && sortedm[i].fingerprint == fp;
            assert(sortedm.contains(sortedm[i]));
            crate::records::lemma_sort_by_path_contains(recm, sortedm[i]);
            let i2 = choose|i2: int| 0 <= i2 < recm.len() && recm[i2] == sortedm[i];
            assert(strictly_under(recm[i2].path, cfgm.root));
            assert(is_under(recm[i2].path, cfgm.work_dir) ==> strictly_under(
                recm[i2].path,
                cfgm.work_dir,
            ));
        }
    }
    let mut taken = existing;
    let mut copies: Vec<CopyItem> = Vec::new();
    let mut report: Vec<Vec<u8>> = Vec::new();
    let mut notices: Vec<Vec<u8>> = Vec::new();
    let ghost target = place_groups(gmodels, cfgm, ex0);
    let ng = groups.len();
    let mut i: usize = 0;
    proof {
        assert(gmodels.skip(0) =~= gmodels);
        assert(copy_views(copies@) =~= Seq::<CopyModel>::empty());
        assert(views_of(report@) =~= Seq::<Seq<u8>>::empty());
        assert(views_of(notices@) =~= Seq::<Seq<u8>>::empty());
        assert(target.copies =~= copy_views(copies@) + place_groups(
            gmodels.skip(0),
            cfgm,
            views_of(taken@),
        ).copies);
        assert(target.report =~= views_of(report@) + place_groups(
            gmodels.skip(0),
            cfgm,
            views_of(taken@),
        ).report);
        assert(target.notices =~= views_of(notices@) + place_groups(
            gmodels.skip(0),
            cfgm,
            views_of(taken@),
        ).notices);
    }
    while i < ng
        invariant
            ng == gmodels.len(),
            0 <= i <= ng,
            cfgm == cfg@,
            group_views(groups@) == gmodels.skip(i as int),
            forall|k: int, j: int|
                0 <= k < gmodels.len() && 0 <= j < gmodels[k].paths.len() ==> strictly_under(
                    #[trigger] gmodels[k].paths[j],
                    cfgm.root,
                ) && (is_under(gmodels[k].paths[j], cfgm.work_dir) ==> strictly_under(
                    gmodels[k].paths[j],
                    cfgm.work_dir,
                )),
            target == place_groups(gmodels, cfgm, ex0),
            target.copies == copy_views(copies@) + place_groups(
                gmodels.skip(i as int),
                cfgm,
                views_of(taken@),
            ).copies,
            target.report == views_of(report@) + place_groups(
                gmodels.skip(i as int),
                cfgm,
                views_of(taken@),
            ).report,
            target.notices == views_of(notices@) + place_groups(
                gmodels.skip(i as int),
                cfgm,
                views_of(taken@),
            ).notices,
        decreases ng - i,
    {
        proof {
            assert(group_views(groups@).len() == gmodels.skip(i as int).len());
            assert(groups@.len() == ng - i);
        }
        let ghost gprev = groups@;
        let g = groups.remove(0);
        proof {
            assert(group_views(gprev)[0] == gmodels.skip(i as int)[0]);
            assert(g@ == gmodels[i as int]);
            assert(groups@ =~= gprev.skip(1));
            assert forall|j: int| 0 <= j < group_views(groups@).len() implies group_views(groups@)[j]
                == gmodels.skip(i + 1)[j] by {
                assert(groups@[j] == gprev[j + 1]);
                assert(group_views(gprev)[j + 1] == gmodels.skip(i as int)[j + 1]);
            }
            assert(group_views(groups@) =~= gmodels.skip(i + 1));
        }
        let ghost taken_before = views_of(taken@);
        let ghost copies_before = copy_views(copies@);
        let ghost report_before = views_of(report@);
        let ghost notices_before = views_of(notices@);
        place_one_group(g, cfg, &mut taken, &mut copies, &mut report, &mut notices);
        proof {
            let rem = gmodels.skip(i as int);
            let one = place_group(gmodels[i as int], cfgm, taken_before);
            assert(rem.first() == gmodels[i as int]);
            assert(rem.drop_first() =~= gmodels.skip(i + 1));
            assert(place_groups(rem, cfgm, taken_before).copies == one.copies + place_groups(
                gmodels.skip(i + 1),
                cfgm,
                taken_before + one.names,
            ).copies);
            assert(views_of(taken@) == taken_before + one.names);
            assert(copy_views(copies@) == copies_before + one.copies);
            assert(views_of(report@) == report_before + one.report);
            assert(views_of(notices@) == notices_before + one.notices);
            assert(target.copies =~= copy_views(copies@) + place_groups(
                gmodels.skip(i + 1),
                cfgm,
                views_of(taken@),
            ).copies);
            assert(target.report =~= views_of(report@) + place_groups(
                gmodels.skip(i + 1),
                cfgm,
                views_of(taken@),
            ).report);
            assert(target.notices =~= views_of(notices@) + place_groups(
                gmodels.skip(i + 1),
                cfgm,
                views_of(taken@),
            ).notices);
        }
        i += 1;
    }
    proof {
        assert(gmodels.skip(ng as int).len() == 0);
        assert(place_groups(gmodels.skip(ng as int), cfgm, views_of(taken@))
            == empty_group_plan());
        assert(target.copies =~= copy_views(copies@));
        assert(target.report =~= views_of(report@));
        assert(target.notices =~= views_of(notices@));
    }
    let sorted_report = sort_report(report);
    let r = RunPlan { copies, report: sorted_report, notices };
    proof {
        assert(r@.copies == run_model(recm, cfgm, ex0).copies);
        assert(r@.report == run_model(recm, cfgm, ex0).report);
        assert(r@.notices == run_model(recm, cfgm, ex0).notices);
    }
    r
}

proof fn lemma_concat_contains<T>(a: Seq<T>, b: Seq<T>, y: T)
    ensures
        (a + b).contains(y) <==> (a.contains(y) || b.contains(y)),
{
    if (a + b).contains(y) {
        let i = choose|i: int| 0 <= i < (a + b).len() && (a + b)[i] == y;
        if i < a.len() {
            assert(a[i] == y);
        } else {
            assert(b[i - a.len()] == y);
        }
    }
    if a.contains(y) {
        let i = choose|i: int| 0 <= i < a.len() && a[i] == y;
        assert((a + b)[i] == y);
    }
    if b.contains(y) {
        let i = choose|i: int| 0 <= i < b.len() && b[i] == y;
        assert((a + b)[a.len() + i] == y);
    }
}

proof fn lemma_singleton_contains<T>(x: T, y: T)
    ensures
        seq![x].contains(y) <==> y == x,
{
    if seq![x].contains(y) {
        let i = choose|i: int| 0 <= i < 1 && seq![x][i] == y;
        assert(y == x);
    }
    if y == x {
        assert(seq![x][0] == y);
    }
}

proof fn lemma_insert_line_contains(x: Seq<u8>, s: Seq<Seq<u8>>, y: Seq<u8>)
    ensures
        insert_line(x, s).contains(y) <==> (y == x || s.contains(y)),
    decreases s.len(),
{
    if s.len() == 0 {
        lemma_singleton_contains(x, y);
        if s.contains(y) {
            let i = choose|i: int| 0 <= i < s.len() && s[i] == y;
        }
    } else if lex_le(x, s.first()) {
        lemma_concat_contains(seq![x], s, y);
        lemma_singleton_contains(x, y);
    } else {
        lemma_concat_contains(seq![s[0]], insert_line(x, s.drop_first()), y);
        lemma_singleton_contains(s[0], y);
        lemma_insert_line_contains(x, s.drop_first(), y);
        lemma_concat_contains(seq![s[0]], s.drop_first(), y);
        assert(s =~= seq![s[0]] + s.drop_first());
    }
}

/// Sorting the report neither loses nor invents lines.
pub proof fn lemma_sort_lines_contains(s: Seq<Seq<u8>>, y: Seq<u8>)
    ensures
        sort_lines(s).contains(y) <==> s.contains(y),
    decreases s.len(),
{
    if s.len() == 0 {
        if s.contains(y) {
            let i = choose|i: int| 0 <= i < s.len() && s[i] == y;
        }
        if sort_lines(s).contains(y) {
            let i = choose|i: int| 0 <= i < sort_lines(s).len() && sort_lines(s)[i] == y;
        }
    } else {
        let prev = s.drop_last();
        lemma_sort_lines_contains(prev, y);
        lemma_insert_line_contains(s.last(), sort_lines(prev), y);
        if s.contains(y) {
            let i = choose|i: int| 0 <= i < s.len() && s[i] == y;
            if i == s.len() - 1 {
                assert(y == s.last());
            } else {
                assert(prev[i] == y);
                assert(prev.contains(y));
            }
        }
        if y == s.last() {
            assert(s[s.len() - 1] == y);
            assert(s.contains(y));
        }
        if prev.contains(y) {
            let i = choose|i: int| 0 <= i < prev.len() && prev[i] == y;
            assert(s[i] == y);
            assert(s.contains(y));
        }
    }
}

proof fn lemma_dup_lines_index(ws: Seq<Seq<u8>>, wd: Seq<u8>, identifier: Seq<u8>)
    ensures
        dup_lines(ws, wd, identifier).len() == ws.len(),
        forall|i: int|
            0 <= i < ws.len() ==> dup_lines(ws, wd, identifier)[i] == report_line(
                rel_to(#[trigger] ws[i], wd),
                identifier,
            ),
    decreases ws.len(),
{
    if ws.len() > 0 {
        lemma_dup_lines_index(ws.drop_last(), wd, identifier);
        assert(forall|i: int| 0 <= i < ws.len() - 1 ==> ws.drop_last()[i] == ws[i]);
    }
}

/// Everything the run copies is the representative — the lexicographically
/// first working path — of a group none of whose paths lies outside the
/// working directory.
pub proof fn lemma_copies_are_representatives(
    gs: Seq<GroupModel>,
    cfg: ConfigModel,
    taken: Seq<Seq<u8>>,
    c: CopyModel,
)
    requires
        place_groups(gs, cfg, taken).copies.contains(c),
    ensures
        exists|k: int|
            0 <= k < gs.len() && working_of(#[trigger] gs[k].paths, cfg.work_dir).len() > 0
                && first_external(gs[k].paths, cfg.work_dir) is None && c.src == working_of(
                gs[k].paths,
                cfg.work_dir,
            ).first(),
    decreases gs.len(),
{
    if gs.len() == 0 {
        let i = choose|i: int|
            0 <= i < place_groups(gs, cfg, taken).copies.len() && place_groups(
                gs,
                cfg,
                taken,
            ).copies[i] == c;
        assert(false);
    } else {
        let one = place_group(gs.first(), cfg, taken);
        let rest = place_groups(gs.drop_first(), cfg, taken + one.names);
        lemma_concat_contains(one.copies, rest.copies, c);
        if one.copies.contains(c) {
            let i = choose|i: int| 0 <= i < one.copies.len() && one.copies[i] == c;
            let w = working_of(gs.first().paths, cfg.work_dir);
            assert(w.len() > 0 && first_external(gs.first().paths, cfg.work_dir) is None);
            assert(c == one.copies[0]);
            assert(c.src == w.first());
            assert(gs[0] == gs.first());
            assert(0 <= 0 < gs.len() && working_of(gs[0].paths, cfg.work_dir).len() > 0
                && first_external(gs[0].paths, cfg.work_dir) is None && c.src == working_of(
                gs[0].paths,
                cfg.work_dir,
            ).first());
        } else {
            lemma_copies_are_representatives(gs.drop_first(), cfg, taken + one.names, c);
            let k = choose|k: int|
                0 <= k < gs.drop_first().len() && working_of(
                    #[trigger] gs.drop_first()[k].paths,
                    cfg.work_dir,
                ).len() > 0 && first_external(gs.drop_first()[k].paths, cfg.work_dir) is None
                    && c.src == working_of(gs.drop_first()[k].paths, cfg.work_dir).first();
            assert(gs.drop_first()[k] == gs[k + 1]);
            assert(0 <= k + 1 < gs.len() && working_of(gs[k + 1].paths, cfg.work_dir).len() > 0
                && first_external(gs[k + 1].paths, cfg.work_dir) is None && c.src == working_of(
                gs[k + 1].paths,
                cfg.work_dir,
            ).first());
        }
    }
}

proof fn lemma_place_groups_external_report(
    gs: Seq<GroupModel>,
    cfg: ConfigModel,
    taken: Seq<Seq<u8>>,
    k: int,
    wi: int,
)
    requires
        0 <= k < gs.len(),
        first_external(gs[k].paths, cfg.work_dir) is Some,
        0 <= wi < working_of(gs[k].paths, cfg.work_dir).len(),
    ensures
        place_groups(gs, cfg, taken).report.contains(
            report_line(
                rel_to(working_of(gs[k].paths, cfg.work_dir)[wi], cfg.work_dir),
                rel_to(first_external(gs[k].paths, cfg.work_dir).unwrap(), cfg.root),
            ),
        ),
    decreases gs.len(),
{
    let one = place_group(gs.first(), cfg, taken);
    let rest = place_groups(gs.drop_first(), cfg, taken + one.names);
    if k == 0 {
        let w = working_of(gs[0].paths, cfg.work_dir);
        let e = first_external(gs[0].paths, cfg.work_dir).unwrap();
        assert(gs.first() == gs[0]);
        lemma_dup_lines_index(w, cfg.work_dir, rel_to(e, cfg.root));
        let line = report_line(rel_to(w[wi], cfg.work_dir), rel_to(e, cfg.root));
        assert(one.report[wi] == line);
        assert(one.report.contains(line));
        lemma_concat_contains(one.report, rest.report, line);
    } else {
        assert(gs.drop_first()[k - 1] == gs[k]);
        lemma_place_groups_external_report(gs.drop_first(), cfg, taken + one.names, k - 1, wi);
        let line = report_line(
            rel_to(working_of(gs[k].paths, cfg.work_dir)[wi], cfg.work_dir),
            rel_to(first_external(gs[k].paths, cfg.work_dir).unwrap(), cfg.root),
        );
        lemma_concat_contains(one.report, rest.report, line);
    }
}

/// The output names taken once the first `k` groups have been placed: the
/// names present before the run plus every name an earlier group claimed.
pub open spec fn taken_after(gs: Seq<GroupModel>, cfg: ConfigModel, taken: Seq<Seq<u8>>, k: int)
    -> Seq<Seq<u8>>
    decreases k,
{
    if k <= 0 || gs.len() == 0 {
        taken
    } else {
        taken_after(
            gs.drop_first(),
            cfg,
            taken + place_group(gs.first(), cfg, taken).names,
            k - 1,
        )
    }
}

/// The output name group `k` uses for its representative.
pub open spec fn group_used_name(
    gs: Seq<GroupModel>,
    cfg: ConfigModel,
    taken: Seq<Seq<u8>>,
    k: int,
) -> Seq<u8> {
    place_group(gs[k], cfg, taken_after(gs, cfg, taken, k)).copies.first().dest_name
}

/// When working files share a content that occurs nowhere outside the
/// working directory, the lexicographically first of them is copied under
/// the group's output name, and every other working file of the group is
/// reported against exactly that name. Together with
/// `lemma_copies_are_representatives` — nothing but such representatives is
/// ever copied — exactly one file of such a group is materialized.
pub proof fn lemma_unique_group_copied(
    gs: Seq<GroupModel>,
    cfg: ConfigModel,
    taken: Seq<Seq<u8>>,
    k: int,
)
    requires
        0 <= k < gs.len(),
        working_of(gs[k].paths, cfg.work_dir).len() > 0,
        first_external(gs[k].paths, cfg.work_dir) is None,
    ensures
        place_groups(gs, cfg, taken).copies.contains(
            CopyModel {
                src: working_of(gs[k].paths, cfg.work_dir).first(),
                dest_name: group_used_name(gs, cfg, taken, k),
            },
        ),
        forall|wi: int|
            #![trigger working_of(gs[k].paths, cfg.work_dir)[wi]]
            1 <= wi < working_of(gs[k].paths, cfg.work_dir).len() ==> place_groups(
                gs,
                cfg,
                taken,
            ).report.contains(
                report_line(
                    rel_to(working_of(gs[k].paths, cfg.work_dir)[wi], cfg.work_dir),
                    group_used_name(gs, cfg, taken, k),
                ),
            ),
    decreases gs.len(),
{
    let one = place_group(gs.first(), cfg, taken);
    let rest = place_groups(gs.drop_first(), cfg, taken + one.names);
    let whole = place_groups(gs, cfg, taken);
    let used = group_used_name(gs, cfg, taken, k);
    if k == 0 {
        assert(gs.first() == gs[0]);
        let w = working_of(gs[0].paths, cfg.work_dir);
        assert(taken_after(gs, cfg, taken, 0) == taken);
        let item = CopyModel { src: w.first(), dest_name: used };
        assert(one.copies[0] == item);
        assert(one.copies.contains(item));
        lemma_concat_contains(one.copies, rest.copies, item);
        assert(whole.copies.contains(item));
        lemma_dup_lines_index(w.drop_first(), cfg.work_dir, used);
        assert forall|wi: int|
            #![trigger working_of(gs[k].paths, cfg.work_dir)[wi]]
            1 <= wi < w.len() implies whole.report.contains(
            report_line(rel_to(w[wi], cfg.work_dir), used),
        ) by {
            assert(w.drop_first()[wi - 1] == w[wi]);
            let line = report_line(rel_to(w[wi], cfg.work_dir), used);
            assert(one.report[wi - 1] == line);
            assert(one.report.contains(line));
            lemma_concat_contains(one.report, rest.report, line);
        }
    } else {
        assert(gs.drop_first()[k - 1] == gs[k]);
        lemma_unique_group_copied(gs.drop_first(), cfg, taken + one.names, k - 1);
        let w = working_of(gs[k].paths, cfg.work_dir);
        assert(taken_after(gs, cfg, taken, k) == taken_after(
            gs.drop_first(),
            cfg,
            taken + one.names,
            k - 1,
        ));
        assert(group_used_name(gs.drop_first(), cfg, taken + one.names, k - 1) == used);
        let item = CopyModel { src: w.first(), dest_name: used };
        assert(rest.copies.contains(item));
        lemma_concat_contains(one.copies, rest.copies, item);
        assert(whole.copies.contains(item));
        assert forall|wi: int|
            #![trigger working_of(gs[k].paths, cfg.work_dir)[wi]]
            1 <= wi < w.len() implies whole.report.contains(
            report_line(rel_to(w[wi], cfg.work_dir), used),
        ) by {
            assert(working_of(gs.drop_first()[k - 1].paths, cfg.work_dir)[wi] == w[wi]);
            let line = report_line(rel_to(w[wi], cfg.work_dir), used);
            assert(rest.report.contains(line));
            lemma_concat_contains(one.report, rest.report, line);
        }
    }
}

/// A working file whose content also occurs outside the working directory
/// is never copied, and its report line points at its group's first
/// external path, relative to the root. The hypothesis that one path never
/// carries two fingerprints holds of any real scan, where each path's
/// fingerprint is computed from its content.
pub proof fn lemma_external_duplicate_suppressed(
    records: Seq<RecordModel>,
    cfg: ConfigModel,
    existing: Seq<Seq<u8>>,
    k: int,
    wi: int,
)
    requires
        forall|i: int, j: int|
            0 <= i < records.len() && 0 <= j < records.len() && (#[trigger] records[i]).path == (
            #[trigger] records[j]).path ==> records[i].fingerprint == records[j].fingerprint,
        0 <= k < run_groups(records).len(),
        first_external(run_groups(records)[k].paths, cfg.work_dir) is Some,
        0 <= wi < working_of(run_groups(records)[k].paths, cfg.work_dir).len(),
    ensures
        forall|c: CopyModel|
            #![trigger run_model(records, cfg, existing).copies.contains(c)]
            run_model(records, cfg, existing).copies.contains(c) ==> c.src != working_of(
                run_groups(records)[k].paths,
                cfg.work_dir,
            )[wi],
        run_model(records, cfg, existing).report.contains(
            report_line(
                rel_to(working_of(run_groups(records)[k].paths, cfg.work_dir)[wi], cfg.work_dir),
                rel_to(first_external(run_groups(records)[k].paths, cfg.work_dir).unwrap(), cfg.root),
            ),
        ),
{
    let gs = run_groups(records);
    let sortedm = sort_by_path(records);
    let wd = cfg.work_dir;
    let wpath = working_of(gs[k].paths, wd)[wi];
    lemma_place_groups_external_report(gs, cfg, existing, k, wi);
    let line = report_line(
        rel_to(wpath, wd),
        rel_to(first_external(gs[k].paths, wd).unwrap(), cfg.root),
    );
    lemma_sort_lines_contains(place_groups(gs, cfg, existing).report, line);
    lemma_working_of_mem(gs[k].paths, wd, wi);
    crate::records::lemma_distinct_fps_no_dup(sortedm);
    assert forall|c: CopyModel|
        #![trigger run_model(records, cfg, existing).copies.contains(c)]
        run_model(records, cfg, existing).copies.contains(c) implies c.src != wpath by {
        lemma_copies_are_representatives(gs, cfg, existing, c);
        let k2 = choose|k2: int|
            0 <= k2 < gs.len() && working_of(#[trigger] gs[k2].paths, wd).len() > 0
                && first_external(gs[k2].paths, wd) is None && c.src == working_of(
                gs[k2].paths,
                wd,
            ).first();
        assert(k2 != k);
        lemma_working_of_mem(gs[k2].paths, wd, 0);
        if c.src == wpath {
            let fpk = distinct_fps(sortedm)[k];
            let fpk2 = distinct_fps(sortedm)[k2];
            assert(fpk != fpk2);
            assert(gs[k].paths == paths_with(sortedm, fpk));
            assert(gs[k2].paths == paths_with(sortedm, fpk2));
            let a = choose|a: int| 0 <= a < gs[k].paths.len() && gs[k].paths[a] == wpath;
            crate::records::lemma_paths_with_sound(sortedm, fpk, a);
            let ia = choose|ia: int|
                0 <= ia < sortedm.len() && sortedm[ia].path == paths_with(sortedm, fpk)[a]
                    && sortedm[ia].fingerprint == fpk;
            let b = choose|b: int| 0 <= b < gs[k2].paths.len() && gs[k2].paths[b] == c.src;
            crate::records::lemma_paths_with_sound(sortedm, fpk2, b);
            let ib = choose|ib: int|
                0 <= ib < sortedm.len() && sortedm[ib].path == paths_with(sortedm, fpk2)[b]
                    && sortedm[ib].fingerprint == fpk2;
            assert(sortedm.contains(sortedm[ia]));
            assert(sortedm.contains(sortedm[ib]));
            crate::records::lemma_sort_by_path_contains(records, sortedm[ia]);
            crate::records::lemma_sort_by_path_contains(records, sortedm[ib]);
            let ra = choose|ra: int| 0 <= ra < records.len() && records[ra] == sortedm[ia];
            let rb = choose|rb: int| 0 <= rb < records.len() && records[rb] == sortedm[ib];
            assert(records[ra].path == records[rb].path);
            assert(records[ra].fingerprint == records[rb].fingerprint);
            assert(false);
        }
    }
}

/// Every discovered file lands in exactly one of the run's fingerprint
/// groups: the group sizes add up to the number of records, no group is
/// empty, and no two groups share a fingerprint.
pub proof fn lemma_run_groups_partition(records: Seq<RecordModel>)
    ensures
        crate::records::total_group_size(run_groups(records)) == records.len(),
        forall|i: int, j: int|
            0 <= i < j < run_groups(records).len() ==> run_groups(records)[i].fingerprint
                != run_groups(records)[j].fingerprint,
        forall|k: int| 0 <= k < run_groups(records).len() ==> run_groups(records)[k].paths.len() > 0,
{
    crate::records::lemma_sort_by_path_len(records);
    crate::records::lemma_groups_partition(sort_by_path(records));
}

/// Two records with the same fingerprint land in the same group of the run,
/// which carries that fingerprint and both paths. Fingerprints are a
/// function of content alone, so two files with identical bytes always
/// share one.
pub proof fn lemma_same_fingerprint_same_run_group(records: Seq<RecordModel>, i: int, j: int)
    requires
        0 <= i < records.len(),
        0 <= j < records.len(),
        records[i].fingerprint == records[j].fingerprint,
    ensures
        exists|k: int|
            0 <= k < run_groups(records).len() && run_groups(records)[k].fingerprint
                == records[i].fingerprint && run_groups(records)[k].paths.contains(records[i].path)
                && run_groups(records)[k].paths.contains(records[j].path),
{
    let sortedm = sort_by_path(records);
    assert(records.contains(records[i]));
    assert(records.contains(records[j]));
    crate::records::lemma_sort_by_path_contains(records, records[i]);
    crate::records::lemma_sort_by_path_contains(records, records[j]);
    let si = choose|si: int| 0 <= si < sortedm.len() && sortedm[si] == records[i];
    let sj = choose|sj: int| 0 <= sj < sortedm.len() && sortedm[sj] == records[j];
    crate::records::lemma_same_fingerprint_same_group(sortedm, si, sj);
    let gk = choose|k: int|
        0 <= k < group_records(sortedm).len() && group_records(sortedm)[k].fingerprint
            == sortedm[si].fingerprint && group_records(sortedm)[k].paths.contains(
            sortedm[si].path,
        ) && group_records(sortedm)[k].paths.contains(sortedm[sj].path);
    assert(run_groups(records) == group_records(sortedm));
    assert(0 <= gk < run_groups(records).len() && run_groups(records)[gk].fingerprint
        == records[i].fingerprint && run_groups(records)[gk].paths.contains(records[i].path)
        && run_groups(records)[gk].paths.contains(records[j].path));
}

/// The order is transitive.
proof fn lemma_lex_le_trans(a: Seq<u8>, b: Seq<u8>, c: Seq<u8>)
    requires
        lex_le(a, b),
        lex_le(b, c),
    ensures
        lex_le(a, c),
    decreases a.len(),
{
    if a.len() > 0 {
        if a[0] == b[0] && b[0] == c[0] {
            lemma_lex_le_trans(a.drop_first(), b.drop_first(), c.drop_first());
        }
    }
}

proof fn lemma_insert_line_keeps_sorted(x: Seq<u8>, s: Seq<Seq<u8>>)
    requires
        forall|i: int, j: int| 0 <= i <= j < s.len() ==> lex_le(#[trigger] s[i], #[trigger] s[j]),
    ensures
        forall|i: int, j: int|
            0 <= i <= j < insert_line(x, s).len() ==> lex_le(
                #[trigger] insert_line(x, s)[i],
                #[trigger] insert_line(x, s)[j],
            ),
    decreases s.len(),
{
    let r = insert_line(x, s);
    if s.len() == 0 {
        assert forall|i: int, j: int| 0 <= i <= j < r.len() implies lex_le(r[i], r[j]) by {
            crate::bytes::lemma_lex_le_total(x, x);
        }
    } else if lex_le(x, s.first()) {
        assert forall|i: int, j: int| 0 <= i <= j < r.len() implies lex_le(r[i], r[j]) by {
            crate::bytes::lemma_lex_le_total(x, x);
            if i == 0 && j > 0 {
                assert(r[j] == s[j - 1]);
                lemma_lex_le_trans(x, s[0], s[j - 1]);
            }
            if i > 0 {
                assert(r[i] == s[i - 1] && r[j] == s[j - 1]);
            }
        }
    } else {
        crate::bytes::lemma_lex_le_total(x, s.first());
        assert(lex_le(s[0], x));
        let rest = s.drop_first();
        assert(forall|i: int| 0 <= i < rest.len() ==> rest[i] == s[i + 1]);
        lemma_insert_line_keeps_sorted(x, rest);
        let ri = insert_line(x, rest);
        assert forall|i: int, j: int| 0 <= i <= j < r.len() implies lex_le(r[i], r[j]) by {
            crate::bytes::lemma_lex_le_total(s[0], s[0]);
            if i == 0 && j > 0 {
                assert(r[j] == ri[j - 1]);
                lemma_insert_line_contains(x, rest, ri[j - 1]);
                assert(ri.contains(ri[j - 1]));
                if ri[j - 1] == x {
                } else {
                    let jj = choose|jj: int| 0 <= jj < rest.len() && rest[jj] == ri[j - 1];
                    assert(lex_le(s[0], s[jj + 1]));
                }
            }
            if i > 0 {
                assert(r[i] == ri[i - 1] && r[j] == ri[j - 1]);
            }
        }
    }
}

/// The duplicate report is emitted in byte-lexicographic order.
pub proof fn lemma_sort_lines_sorted(s: Seq<Seq<u8>>)
    ensures
        forall|i: int, j: int|
            0 <= i <= j < sort_lines(s).len() ==> lex_le(
                #[trigger] sort_lines(s)[i],
                #[trigger] sort_lines(s)[j],
            ),
    decreases s.len(),
{
    if s.len() > 0 {
        lemma_sort_lines_sorted(s.drop_last());
        lemma_insert_line_keeps_sorted(s.last(), sort_lines(s.drop_last()));
    }
}

/// Idempotence: the run's outcome is a function of the records, the
/// configuration and the output directory's prior contents alone, so two
/// runs on the same inputs plan the same copies, the same sorted report and
/// the same notices.
pub proof fn lemma_run_deterministic(
    records: Seq<RecordModel>,
    cfg: ConfigModel,
    existing: Seq<Seq<u8>>,
    r1: RunPlanModel,
    r2: RunPlanModel,
)
    requires
        r1 == run_model(records, cfg, existing),
        r2 == run_model(records, cfg, existing),
    ensures
        r1 == r2,
{
}

} // verus!
