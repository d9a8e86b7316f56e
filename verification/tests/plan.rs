use uniqfiles::digest::fingerprint_chunks;
use uniqfiles::hex::hex_lower;
use uniqfiles::placer::{plan_run, Config, CopyItem};
use uniqfiles::records::{group_by_fingerprint, FileRecord};

fn rec(path: &str, content: &[u8]) -> FileRecord {
    FileRecord {
        path: path.as_bytes().to_vec(),
        fingerprint: fingerprint_chunks(&vec![content.to_vec()]),
    }
}

fn cfg(rename: bool) -> Config {
    Config { root: b"/r".to_vec(), work_dir: b"/r/w".to_vec(), rename }
}

fn hex_of_content(content: &[u8]) -> String {
    String::from_utf8(hex_lower(&fingerprint_chunks(&vec![content.to_vec()]))).unwrap()
}

#[test]
fn working_duplicates_of_external_file_are_reported_not_copied() {
    let records = vec![
        rec("/r/w/a.txt", b"x"),
        rec("/r/w/b.txt", b"x"),
        rec("/r/other/c.txt", b"x"),
    ];
    let plan = plan_run(records, &cfg(false), vec![]);
    assert!(plan.copies.is_empty());
    assert_eq!(
        plan.report,
        vec![b"a.txt = other/c.txt".to_vec(), b"b.txt = other/c.txt".to_vec()]
    );
    assert!(plan.notices.is_empty());
}

#[test]
fn lexicographically_first_working_file_is_copied() {
    let records = vec![rec("/r/w/b.txt", b"x"), rec("/r/w/a.txt", b"x")];
    let plan = plan_run(records, &cfg(false), vec![]);
    assert_eq!(
        plan.copies,
        vec![CopyItem { src: b"/r/w/a.txt".to_vec(), dest_name: b"a.txt".to_vec() }]
    );
    assert_eq!(plan.report, vec![b"b.txt = a.txt".to_vec()]);
    assert!(plan.notices.is_empty());
}

#[test]
fn rename_mode_tags_output_names_with_the_fingerprint() {
    let records = vec![rec("/r/w/b.txt", b"x"), rec("/r/w/a.txt", b"x")];
    let plan = plan_run(records, &cfg(true), vec![]);
    let tagged = format!("{}_a.txt", hex_of_content(b"x"));
    assert_eq!(
        plan.copies,
        vec![CopyItem { src: b"/r/w/a.txt".to_vec(), dest_name: tagged.as_bytes().to_vec() }]
    );
    assert_eq!(plan.report, vec![format!("b.txt = {tagged}").into_bytes()]);
    assert!(plan.notices.is_empty());
}

#[test]
fn existing_output_name_forces_a_tagged_name_and_a_notice() {
    let records = vec![rec("/r/w/a.txt", b"x")];
    let plan = plan_run(records, &cfg(false), vec![b"a.txt".to_vec()]);
    let tagged = format!("{}_a.txt", hex_of_content(b"x"));
    assert_eq!(
        plan.copies,
        vec![CopyItem { src: b"/r/w/a.txt".to_vec(), dest_name: tagged.as_bytes().to_vec() }]
    );
    assert!(plan.report.is_empty());
    assert_eq!(plan.notices, vec![format!("a.txt -> {tagged}").into_bytes()]);
}

#[test]
fn colliding_base_names_across_groups_retag_the_later_group() {
    let records = vec![rec("/r/w/x/a.txt", b"x"), rec("/r/w/y/a.txt", b"y")];
    let plan = plan_run(records, &cfg(false), vec![]);
    let tagged = format!("{}_a.txt", hex_of_content(b"y"));
    assert_eq!(
        plan.copies,
        vec![
            CopyItem { src: b"/r/w/x/a.txt".to_vec(), dest_name: b"a.txt".to_vec() },
            CopyItem { src: b"/r/w/y/a.txt".to_vec(), dest_name: tagged.as_bytes().to_vec() },
        ]
    );
    assert!(plan.report.is_empty());
    assert_eq!(plan.notices, vec![format!("y/a.txt -> {tagged}").into_bytes()]);
}

#[test]
fn groups_without_working_files_are_ignored() {
    let records = vec![rec("/r/other/c.txt", b"x"), rec("/r/other/d.txt", b"x")];
    let plan = plan_run(records, &cfg(false), vec![]);
    assert!(plan.copies.is_empty());
    assert!(plan.report.is_empty());
    assert!(plan.notices.is_empty());
}

#[test]
fn report_is_sorted_lexicographically() {
    let records = vec![
        rec("/r/w/z.txt", b"x"),
        rec("/r/w/a.txt", b"x"),
        rec("/r/other/c.txt", b"x"),
        rec("/r/w/m.txt", b"y"),
        rec("/r/w/b.txt", b"y"),
        rec("/r/other/e.txt", b"y"),
    ];
    let plan = plan_run(records, &cfg(false), vec![]);
    assert_eq!(
        plan.report,
        vec![
            b"a.txt = other/c.txt".to_vec(),
            b"b.txt = other/e.txt".to_vec(),
            b"m.txt = other/e.txt".to_vec(),
            b"z.txt = other/c.txt".to_vec(),
        ]
    );
}

#[test]
fn same_inputs_plan_the_same_run() {
    let make = || {
        vec![
            rec("/r/w/z.txt", b"x"),
            rec("/r/w/a.txt", b"x"),
            rec("/r/w/sub/n.txt", b"z"),
            rec("/r/other/c.txt", b"x"),
            rec("/r/w/b.txt", b"y"),
        ]
    };
    let plan1 = plan_run(make(), &cfg(false), vec![]);
    let plan2 = plan_run(make(), &cfg(false), vec![]);
    assert_eq!(plan1, plan2);
}

#[test]
fn discovery_order_does_not_change_the_outcome() {
    let mut records = vec![
        rec("/r/w/z.txt", b"x"),
        rec("/r/w/a.txt", b"x"),
        rec("/r/other/c.txt", b"x"),
        rec("/r/w/b.txt", b"y"),
    ];
    let plan1 = plan_run(records.clone(), &cfg(false), vec![]);
    records.reverse();
    let plan2 = plan_run(records, &cfg(false), vec![]);
    assert_eq!(plan1, plan2);
}

#[test]
fn every_record_lands_in_exactly_one_group() {
    let records = vec![
        rec("/r/w/a.txt", b"x"),
        rec("/r/w/b.txt", b"y"),
        rec("/r/w/c.txt", b"x"),
        rec("/r/other/d.txt", b"z"),
    ];
    let groups = group_by_fingerprint(records);
    assert_eq!(groups.len(), 3);
    let total: usize = groups.iter().map(|g| g.paths.len()).sum();
    assert_eq!(total, 4);
    for g in &groups {
        for other in &groups {
            if g.fingerprint != other.fingerprint {
                for p in &g.paths {
                    assert!(!other.paths.contains(p));
                }
            }
        }
    }
}

#[test]
fn identical_content_shares_a_group_and_differing_content_does_not() {
    let records = vec![
        rec("/r/w/a.txt", b"same"),
        rec("/r/other/b.txt", b"same"),
        rec("/r/w/c.txt", b"different"),
    ];
    let groups = group_by_fingerprint(records);
    assert_eq!(groups.len(), 2);
    let same_group = groups
        .iter()
        .find(|g| g.paths.contains(&b"/r/w/a.txt".to_vec()))
        .unwrap();
    assert!(same_group.paths.contains(&b"/r/other/b.txt".to_vec()));
    assert!(!same_group.paths.contains(&b"/r/w/c.txt".to_vec()));
}

#[test]
fn working_directory_equal_to_root_treats_every_file_as_working() {
    let records = vec![
        FileRecord {
            path: b"/r/a.txt".to_vec(),
            fingerprint: fingerprint_chunks(&vec![b"x".to_vec()]),
        },
        FileRecord {
            path: b"/r/b.txt".to_vec(),
            fingerprint: fingerprint_chunks(&vec![b"x".to_vec()]),
        },
    ];
    let config = Config { root: b"/r".to_vec(), work_dir: b"/r".to_vec(), rename: false };
    let plan = plan_run(records, &config, vec![]);
    assert_eq!(
        plan.copies,
        vec![CopyItem { src: b"/r/a.txt".to_vec(), dest_name: b"a.txt".to_vec() }]
    );
    assert_eq!(plan.report, vec![b"b.txt = a.txt".to_vec()]);
}

#[test]
fn empty_record_set_plans_nothing() {
    let plan = plan_run(vec![], &cfg(false), vec![]);
    assert!(plan.copies.is_empty());
    assert!(plan.report.is_empty());
    assert!(plan.notices.is_empty());
}
