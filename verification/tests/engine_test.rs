use similar_files::engine::{
    DirListing, EntryKind, FingerprintOutcome, ModifiedTime, RawEntry, ScanStep, SimilarImages,
};

fn file_entry(name: &str, size: u64, mtime: ModifiedTime) -> RawEntry {
    RawEntry { name: Some(name.to_string()), kind: EntryKind::Regular, size, modified: mtime }
}

fn dir_entry(name: &str) -> RawEntry {
    RawEntry {
        name: Some(name.to_string()),
        kind: EntryKind::Folder,
        size: 0,
        modified: ModifiedTime::At(0),
    }
}

fn expect_read_dir(engine: &mut SimilarImages) -> String {
    match engine.scan_step(None) {
        ScanStep::ReadDir(d) => d,
        ScanStep::WalkDone => panic!("walk ended early"),
        ScanStep::Stopped => panic!("walk stopped unexpectedly"),
    }
}

fn expect_walk_done(engine: &mut SimilarImages) {
    match engine.scan_step(None) {
        ScanStep::WalkDone => (),
        ScanStep::ReadDir(d) => panic!("unexpected directory handed out: {}", d),
        ScanStep::Stopped => panic!("walk stopped unexpectedly"),
    }
}

fn feed_all_fingerprints(engine: &mut SimilarImages, key_of: &dyn Fn(&str) -> Vec<u8>) {
    while let Some(path) = engine.next_hash_target() {
        let key = key_of(&path);
        engine.feed_fingerprint(FingerprintOutcome::Key(key));
    }
}

#[test]
fn one_group_across_distinct_sizes_at_radius_zero() {
    // Three files, two sharing a size, all with identical fingerprints:
    // at radius zero they form a single group of all three.
    let mut engine = SimilarImages::new();
    engine.set_included_directory("root/".to_string());
    engine.set_minimal_file_size(0);
    engine.set_similarity_radius(0);
    engine.start_scan();
    let dir = expect_read_dir(&mut engine);
    assert_eq!(dir, "root/");
    engine.feed_directory(DirListing::Entries(vec![
        file_entry("a.jpg", 100, ModifiedTime::At(10)),
        file_entry("b.jpg", 100, ModifiedTime::At(11)),
        file_entry("c.jpg", 999, ModifiedTime::At(12)),
    ]));
    expect_walk_done(&mut engine);
    feed_all_fingerprints(&mut engine, &|_p| vec![1, 2, 3, 4]);
    engine.finish_scan();
    let groups = engine.get_similar_groups();
    assert_eq!(groups.len(), 1);
    let mut owners = groups[0].owners.clone();
    owners.sort();
    assert_eq!(owners, vec![0, 1, 2]);
    let entries = engine.get_entries();
    assert_eq!(entries[0].path, "root/a.jpg");
    assert_eq!(entries[1].path, "root/b.jpg");
    assert_eq!(entries[2].path, "root/c.jpg");
    assert!(!engine.get_stopped_search());
}

#[test]
fn excluded_directory_is_never_visited() {
    let mut engine = SimilarImages::new();
    engine.set_excluded_directory("root/sub/".to_string());
    engine.set_included_directory("root/".to_string());
    engine.start_scan();
    let dir = expect_read_dir(&mut engine);
    assert_eq!(dir, "root/");
    engine.feed_directory(DirListing::Entries(vec![dir_entry("sub")]));
    // The excluded subdirectory is neither handed out nor counted.
    expect_walk_done(&mut engine);
    assert_eq!(engine.get_information().number_of_checked_folders, 1);
    feed_all_fingerprints(&mut engine, &|_p| vec![0]);
    engine.finish_scan();
    assert_eq!(engine.get_entries().len(), 0);
    assert_eq!(engine.get_similar_groups().len(), 0);
}

#[test]
fn unreadable_sibling_leaves_one_warning_and_scan_completes() {
    let mut engine = SimilarImages::new();
    engine.set_included_directory("root/".to_string());
    engine.start_scan();
    let root = expect_read_dir(&mut engine);
    assert_eq!(root, "root/");
    engine.feed_directory(DirListing::Entries(vec![
        dir_entry("a"),
        dir_entry("b"),
        dir_entry("c"),
    ]));
    let mut unreadable = 0;
    let mut listings = 0;
    for _ in 0..3 {
        let d = expect_read_dir(&mut engine);
        if d == "root/b/" {
            engine.feed_directory(DirListing::Unreadable);
            unreadable += 1;
        } else {
            engine.feed_directory(DirListing::Entries(vec![file_entry(
                "x.png",
                10,
                ModifiedTime::At(1),
            )]));
            listings += 1;
        }
    }
    expect_walk_done(&mut engine);
    assert_eq!(unreadable, 1);
    assert_eq!(listings, 2);
    let warnings = &engine.get_text_messages().warnings;
    assert_eq!(warnings.len(), 1);
    assert_eq!(warnings[0], "Cannot open dir root/b/");
    assert_eq!(engine.get_entries().len(), 2);
    assert!(!engine.get_stopped_search());
}

#[test]
fn cancellation_before_traversal_leaves_counters_at_zero() {
    let (tx, rx) = crossbeam_channel::unbounded::<()>();
    tx.send(()).unwrap();
    let mut engine = SimilarImages::new();
    engine.set_included_directory("root/".to_string());
    engine.start_scan();
    match engine.scan_step(Some(&rx)) {
        ScanStep::Stopped => (),
        _ => panic!("the fired signal must stop the scan"),
    }
    assert!(engine.get_stopped_search());
    let info = engine.get_information();
    assert_eq!(info.number_of_checked_folders, 0);
    assert_eq!(info.number_of_checked_files, 0);
    assert_eq!(info.number_of_ignored_files, 0);
    assert_eq!(info.number_of_ignored_things, 0);
    assert_eq!(info.number_of_duplicated_files_by_size, 0);
    assert_eq!(info.number_of_groups_by_size, 0);
    assert_eq!(info.lost_space_by_size, 0);
    assert_eq!(engine.get_entries().len(), 0);
    assert_eq!(engine.get_similar_groups().len(), 0);
}

#[test]
fn unfired_channel_does_not_stop_the_scan() {
    let (_tx, rx) = crossbeam_channel::unbounded::<()>();
    let mut engine = SimilarImages::new();
    engine.set_included_directory("root/".to_string());
    engine.start_scan();
    match engine.scan_step(Some(&rx)) {
        ScanStep::ReadDir(d) => assert_eq!(d, "root/"),
        _ => panic!("an unfired signal must not stop the scan"),
    }
}

#[test]
fn excluded_pattern_keeps_file_out_of_groups_and_buckets() {
    let mut engine = SimilarImages::new();
    engine.set_excluded_items("*.tmp".to_string());
    engine.set_included_directory("root/".to_string());
    engine.start_scan();
    let _ = expect_read_dir(&mut engine);
    engine.feed_directory(DirListing::Entries(vec![
        file_entry("keep.dat", 50, ModifiedTime::At(4)),
        file_entry("drop.tmp", 50, ModifiedTime::At(4)),
        file_entry("also.dat", 50, ModifiedTime::At(4)),
    ]));
    expect_walk_done(&mut engine);
    feed_all_fingerprints(&mut engine, &|_p| vec![7]);
    engine.finish_scan();
    let entries = engine.get_entries();
    assert_eq!(entries.len(), 2);
    assert!(entries.iter().all(|e| !e.path.ends_with(".tmp")));
    // Two files of one size survive: one size group, one lost file's worth.
    let info = engine.get_information();
    assert_eq!(info.number_of_groups_by_size, 1);
    assert_eq!(info.number_of_duplicated_files_by_size, 1);
    assert_eq!(info.lost_space_by_size, 50);
    let groups = engine.get_similar_groups();
    assert_eq!(groups.len(), 1);
    assert_eq!(groups[0].owners.len(), 2);
}

#[test]
fn size_bucket_statistics_follow_the_formula() {
    let mut engine = SimilarImages::new();
    engine.set_included_directory("root/".to_string());
    engine.start_scan();
    let _ = expect_read_dir(&mut engine);
    engine.feed_directory(DirListing::Entries(vec![
        file_entry("a", 100, ModifiedTime::At(1)),
        file_entry("b", 100, ModifiedTime::At(1)),
        file_entry("c", 100, ModifiedTime::At(1)),
        file_entry("d", 200, ModifiedTime::At(1)),
        file_entry("e", 200, ModifiedTime::At(1)),
        file_entry("f", 999, ModifiedTime::At(1)),
    ]));
    expect_walk_done(&mut engine);
    let info = engine.get_information();
    // Retained buckets: {100: 3 files}, {200: 2 files}; 999 is a singleton.
    assert_eq!(info.number_of_groups_by_size, 2);
    assert_eq!(info.number_of_duplicated_files_by_size, 3);
    assert_eq!(info.lost_space_by_size, 100 * 2 + 200);
    assert_eq!(info.number_of_checked_files, 6);
}

#[test]
fn extension_filter_is_case_insensitive() {
    let mut engine = SimilarImages::new();
    engine.set_allowed_extensions(vec!["JPG".to_string()]);
    engine.set_included_directory("root/".to_string());
    engine.start_scan();
    let _ = expect_read_dir(&mut engine);
    engine.feed_directory(DirListing::Entries(vec![
        file_entry("photo.jpg", 10, ModifiedTime::At(1)),
        file_entry("PHOTO2.JPG", 10, ModifiedTime::At(1)),
        file_entry("notes.txt", 10, ModifiedTime::At(1)),
    ]));
    expect_walk_done(&mut engine);
    assert_eq!(engine.get_entries().len(), 2);
    assert_eq!(engine.get_information().number_of_ignored_files, 1);
}

#[test]
fn small_files_and_odd_entries_are_ignored() {
    let mut engine = SimilarImages::new();
    engine.set_minimal_file_size(100);
    engine.set_included_directory("root/".to_string());
    engine.start_scan();
    let _ = expect_read_dir(&mut engine);
    engine.feed_directory(DirListing::Entries(vec![
        file_entry("small", 99, ModifiedTime::At(1)),
        file_entry("big", 100, ModifiedTime::At(1)),
        RawEntry {
            name: Some("socket".to_string()),
            kind: EntryKind::Other,
            size: 0,
            modified: ModifiedTime::At(0),
        },
        RawEntry { name: None, kind: EntryKind::Regular, size: 500, modified: ModifiedTime::At(0) },
    ]));
    expect_walk_done(&mut engine);
    let info = engine.get_information();
    assert_eq!(info.number_of_ignored_files, 1);
    assert_eq!(info.number_of_ignored_things, 1);
    assert_eq!(info.number_of_checked_files, 1);
    assert_eq!(engine.get_entries().len(), 1);
    assert_eq!(engine.get_entries()[0].path, "root/big");
}

#[test]
fn timestamp_anomalies_warn_as_specified() {
    let mut engine = SimilarImages::new();
    engine.set_included_directory("root/".to_string());
    engine.start_scan();
    let _ = expect_read_dir(&mut engine);
    engine.feed_directory(DirListing::Entries(vec![
        file_entry("old.bin", 10, ModifiedTime::BeforeEpoch),
        file_entry("gone.bin", 10, ModifiedTime::Unavailable),
    ]));
    expect_walk_done(&mut engine);
    let entries = engine.get_entries();
    // The pre-epoch file stays, with the sentinel timestamp; the one
    // without a readable time is skipped.
    assert_eq!(entries.len(), 1);
    assert_eq!(entries[0].path, "root/old.bin");
    assert_eq!(entries[0].modified_date, 0);
    let warnings = &engine.get_text_messages().warnings;
    assert_eq!(warnings.len(), 2);
    assert_eq!(warnings[0], "File modified before Unix Epoch: root/old.bin");
    assert_eq!(warnings[1], "Unable to get modification date from file root/gone.bin");
}

#[test]
fn recursion_descends_and_non_recursive_does_not() {
    let mut engine = SimilarImages::new();
    engine.set_included_directory("root/".to_string());
    engine.start_scan();
    let _ = expect_read_dir(&mut engine);
    engine.feed_directory(DirListing::Entries(vec![dir_entry("sub")]));
    let sub = expect_read_dir(&mut engine);
    assert_eq!(sub, "root/sub/");
    engine.feed_directory(DirListing::Entries(vec![]));
    expect_walk_done(&mut engine);
    assert_eq!(engine.get_information().number_of_checked_folders, 2);

    let mut flat = SimilarImages::new();
    flat.set_recursive_search(false);
    flat.set_included_directory("root/".to_string());
    flat.start_scan();
    match flat.scan_step(None) {
        ScanStep::ReadDir(d) => assert_eq!(d, "root/"),
        _ => panic!("root must be visited"),
    }
    flat.feed_directory(DirListing::Entries(vec![dir_entry("sub")]));
    expect_walk_done(&mut flat);
    // The subdirectory is counted but never entered.
    assert_eq!(flat.get_information().number_of_checked_folders, 2);
}

#[test]
fn empty_configuration_strings_are_rejected() {
    let mut engine = SimilarImages::new();
    engine.set_included_directory(String::new());
    engine.set_excluded_directory(String::new());
    engine.set_excluded_items(String::new());
    let errors = &engine.get_text_messages().errors;
    assert_eq!(errors.len(), 3);
    assert_eq!(errors[0], "Included directory must not be empty");
}

#[test]
fn failed_fingerprints_warn_and_stay_out_of_groups() {
    let mut engine = SimilarImages::new();
    engine.set_included_directory("root/".to_string());
    engine.start_scan();
    let _ = expect_read_dir(&mut engine);
    engine.feed_directory(DirListing::Entries(vec![
        file_entry("a", 10, ModifiedTime::At(1)),
        file_entry("b", 10, ModifiedTime::At(1)),
        file_entry("c", 10, ModifiedTime::At(1)),
    ]));
    expect_walk_done(&mut engine);
    let mut first = true;
    while let Some(_path) = engine.next_hash_target() {
        if first {
            engine.feed_fingerprint(FingerprintOutcome::Failed);
            first = false;
        } else {
            engine.feed_fingerprint(FingerprintOutcome::Key(vec![9]));
        }
    }
    engine.finish_scan();
    assert_eq!(engine.get_text_messages().warnings.len(), 1);
    assert_eq!(engine.get_text_messages().warnings[0], "Unable to compute fingerprint of file root/a");
    let groups = engine.get_similar_groups();
    assert_eq!(groups.len(), 1);
    let mut owners = groups[0].owners.clone();
    owners.sort();
    assert_eq!(owners, vec![1, 2]);
}

#[test]
fn unreadable_entry_warns_and_siblings_continue() {
    let mut engine = SimilarImages::new();
    engine.set_included_directory("root/".to_string());
    engine.start_scan();
    let _ = expect_read_dir(&mut engine);
    engine.feed_directory(DirListing::Entries(vec![
        file_entry("ok.bin", 10, ModifiedTime::At(1)),
        RawEntry {
            name: None,
            kind: EntryKind::Inaccessible,
            size: 0,
            modified: ModifiedTime::At(0),
        },
        file_entry("ok2.bin", 10, ModifiedTime::At(1)),
    ]));
    expect_walk_done(&mut engine);
    assert_eq!(engine.get_entries().len(), 2);
    let warnings = &engine.get_text_messages().warnings;
    assert_eq!(warnings.len(), 1);
    assert_eq!(warnings[0], "Cannot read entry in dir root/");
}

#[test]
fn included_directories_are_normalized_with_a_separator() {
    let mut engine = SimilarImages::new();
    engine.set_included_directory("root".to_string());
    engine.start_scan();
    match engine.scan_step(None) {
        ScanStep::ReadDir(d) => assert_eq!(d, "root/"),
        _ => panic!("the root must be handed out"),
    }
}

#[test]
fn an_excluded_root_is_never_scanned() {
    let mut engine = SimilarImages::new();
    engine.set_excluded_items("*secret*".to_string());
    engine.set_included_directory("secret/".to_string());
    engine.start_scan();
    expect_walk_done(&mut engine);
    assert_eq!(engine.get_information().number_of_checked_folders, 0);
}

#[test]
fn a_stop_discards_the_groups_of_an_earlier_run() {
    let mut engine = SimilarImages::new();
    engine.set_included_directory("root/".to_string());
    engine.start_scan();
    let _ = expect_read_dir(&mut engine);
    engine.feed_directory(DirListing::Entries(vec![
        file_entry("a", 10, ModifiedTime::At(1)),
        file_entry("b", 10, ModifiedTime::At(1)),
    ]));
    expect_walk_done(&mut engine);
    feed_all_fingerprints(&mut engine, &|_p| vec![3]);
    engine.finish_scan();
    assert_eq!(engine.get_similar_groups().len(), 1);
    // A second scan, cancelled at its first step, leaves no readable
    // result set from the first run.
    let (tx, rx) = crossbeam_channel::unbounded::<()>();
    tx.send(()).unwrap();
    engine.start_scan();
    match engine.scan_step(Some(&rx)) {
        ScanStep::Stopped => (),
        _ => panic!("the fired signal must stop the scan"),
    }
    assert_eq!(engine.get_similar_groups().len(), 0);
}

#[test]
fn a_default_engine_behaves_like_a_fresh_one() {
    let mut engine = SimilarImages::default();
    assert!(!engine.get_stopped_search());
    assert_eq!(engine.get_information().number_of_checked_folders, 0);
    assert_eq!(engine.get_text_messages().warnings.len(), 0);
    assert_eq!(engine.get_text_messages().errors.len(), 0);
    assert_eq!(engine.get_entries().len(), 0);
    assert_eq!(engine.get_similar_groups().len(), 0);
    // Recursion defaults to on, as in a fresh engine.
    engine.set_included_directory("root/".to_string());
    engine.start_scan();
    let _ = match engine.scan_step(None) {
        ScanStep::ReadDir(d) => d,
        _ => panic!("the root must be handed out"),
    };
    engine.feed_directory(DirListing::Entries(vec![dir_entry("sub")]));
    match engine.scan_step(None) {
        ScanStep::ReadDir(d) => assert_eq!(d, "root/sub/"),
        _ => panic!("a default engine must recurse"),
    }
}

#[test]
fn flag_size_and_radius_setters_keep_previous_results() {
    let mut engine = SimilarImages::new();
    engine.set_included_directory("root/".to_string());
    engine.start_scan();
    let _ = expect_read_dir(&mut engine);
    engine.feed_directory(DirListing::Entries(vec![
        file_entry("a", 10, ModifiedTime::At(1)),
        file_entry("b", 10, ModifiedTime::At(1)),
    ]));
    expect_walk_done(&mut engine);
    feed_all_fingerprints(&mut engine, &|_p| vec![3]);
    engine.finish_scan();
    assert_eq!(engine.get_similar_groups().len(), 1);
    // Reconfiguring the flag, the size floor, the radius, the extension
    // filter or the roots touches nothing a finished scan gathered.
    engine.set_recursive_search(false);
    engine.set_minimal_file_size(5);
    engine.set_similarity_radius(2);
    engine.set_allowed_extensions(vec!["jpg".to_string()]);
    engine.set_included_directory("other/".to_string());
    assert_eq!(engine.get_similar_groups().len(), 1);
    assert_eq!(engine.get_entries().len(), 2);
    assert_eq!(engine.get_information().number_of_checked_files, 2);
    // Changing an exclusion invalidates the gathered results.
    engine.set_excluded_items("*.tmp".to_string());
    assert_eq!(engine.get_similar_groups().len(), 0);
    assert_eq!(engine.get_entries().len(), 0);
    // The statistics and messages survive even that.
    assert_eq!(engine.get_information().number_of_checked_files, 2);
    assert_eq!(engine.get_text_messages().warnings.len(), 0);
}
