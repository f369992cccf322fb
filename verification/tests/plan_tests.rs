use photosort::classify::Tree;
use photosort::detect::{SequenceTag, TagEntry};
use photosort::group::{group_files, FileEntry};
use photosort::meta::ExifData;
use photosort::plan::{destination_path, finish_plan, stage_plan, FileStat, PlanEntry, Reason,
    ValidationError};
use photosort::resolve::MetaEntry;
use photosort::time::Timestamp;

fn bv(s: &str) -> Vec<u8> {
    s.as_bytes().to_vec()
}

fn entry(path: &str, name: &str) -> FileEntry {
    FileEntry { path: bv(path), name: bv(name) }
}

fn ts(year: u32, month: u32, day: u32, hour: u32, minute: u32, second: u32) -> Timestamp {
    Timestamp { year, month, day, hour, minute, second }
}

fn ok_stat(mtime: Timestamp) -> FileStat {
    FileStat { readable: true, regular: true, mtime: Some(mtime) }
}

fn meta(key: &str, dto: &str) -> MetaEntry {
    MetaEntry {
        key: bv(key),
        exif: ExifData {
            date_time_original: Some(bv(dto)),
            special_mode: None,
            drive_mode: None,
        },
    }
}

#[test]
fn destination_is_root_tree_date_folder_name() {
    let date = ts(2024, 1, 5, 10, 0, 0);
    let folder = bv("IMG001_HDR");
    let dest = destination_path(b"/out", Tree::Jpeg, &date, Some(&folder), b"IMG001.JPG");
    assert_eq!(dest, bv("/out/JPEG/2024/01/05/IMG001_HDR/IMG001.JPG"));
    let plain = destination_path(b"/out", Tree::Raw, &date, None, b"IMG001.CR2");
    assert_eq!(plain, bv("/out/RAW/2024/01/05/IMG001.CR2"));
}

#[test]
fn destination_is_deterministic() {
    let date = ts(2024, 1, 5, 10, 0, 0);
    let once = destination_path(b"/out", Tree::Raw, &date, None, b"a.CR2");
    let twice = destination_path(b"/out", Tree::Raw, &date, None, b"a.CR2");
    assert_eq!(once, twice);
}

#[test]
fn date_parts_are_zero_padded() {
    let date = ts(995, 2, 3, 0, 0, 0);
    let dest = destination_path(b"", Tree::Raw, &date, None, b"x");
    assert_eq!(dest, bv("/RAW/0995/02/03/x"));
}

#[test]
fn hdr_members_land_in_the_sequence_folder() {
    let units = group_files(&vec![
        entry("/in/IMG001.JPG", "IMG001.JPG"),
        entry("/in/IMG002.JPG", "IMG002.JPG"),
        entry("/in/IMG003.JPG", "IMG003.JPG"),
    ]);
    let cache = vec![
        meta("IMG001", "2024:01:05 10:00:00"),
        meta("IMG002", "2024:01:05 10:00:01"),
        meta("IMG003", "2024:01:05 10:00:02"),
    ];
    let stats = vec![
        vec![ok_stat(ts(2024, 1, 5, 0, 0, 0))],
        vec![ok_stat(ts(2024, 1, 5, 0, 0, 0))],
        vec![ok_stat(ts(2024, 1, 5, 0, 0, 0))],
    ];
    let tags = vec![
        TagEntry { key: bv("IMG001"), tag: SequenceTag::Hdr(bv("IMG001_HDR")) },
        TagEntry { key: bv("IMG002"), tag: SequenceTag::Hdr(bv("IMG001_HDR")) },
        TagEntry { key: bv("IMG003"), tag: SequenceTag::Hdr(bv("IMG001_HDR")) },
    ];
    let (entries, errors) = stage_plan(&units, &stats, &cache, &tags, b"/out", None);
    assert_eq!(errors.len(), 0);
    assert_eq!(entries.len(), 3);
    assert_eq!(entries[0].dest, bv("/out/JPEG/2024/01/05/IMG001_HDR/IMG001.JPG"));
    assert_eq!(entries[1].dest, bv("/out/JPEG/2024/01/05/IMG001_HDR/IMG002.JPG"));
    assert_eq!(entries[2].dest, bv("/out/JPEG/2024/01/05/IMG001_HDR/IMG003.JPG"));
}

#[test]
fn an_untagged_unit_lands_directly_under_the_day() {
    let units = group_files(&vec![entry("/in/IMG010.JPG", "IMG010.JPG")]);
    let cache = vec![meta("IMG010", "2024:01:05 10:00:00")];
    let stats = vec![vec![ok_stat(ts(2024, 1, 5, 0, 0, 0))]];
    let (entries, errors) = stage_plan(&units, &stats, &cache, &Vec::new(), b"/out", None);
    assert_eq!(errors.len(), 0);
    assert_eq!(entries.len(), 1);
    assert_eq!(entries[0].dest, bv("/out/JPEG/2024/01/05/IMG010.JPG"));
}

#[test]
fn a_sidecar_only_unit_follows_its_format_tag_on_filesystem_time() {
    // no photo file in the unit and no metadata: the unit is dated by the
    // filesystem time of its first file, and the sidecar's CR2 tag routes it
    // to the raw tree
    let units = group_files(&vec![entry("/in/IMG020.CR2.xmp", "IMG020.CR2.xmp")]);
    let stats = vec![vec![ok_stat(ts(2026, 10, 9, 8, 0, 0))]];
    let (entries, errors) = stage_plan(&units, &stats, &Vec::new(), &Vec::new(), b"/out", None);
    assert_eq!(errors.len(), 0);
    assert_eq!(entries.len(), 1);
    assert_eq!(entries[0].dest, bv("/out/RAW/2026/10/09/IMG020.CR2.xmp"));
}

#[test]
fn a_sidecar_named_like_a_jpeg_follows_its_format_tag() {
    // the unit holds only `IMG020.CR2.jpg`: its format tag CR2 routes it to
    // the raw tree regardless of its literal `.jpg` extension, and with no
    // metadata it is dated by its modification time
    let units = group_files(&vec![entry("/in/IMG020.CR2.jpg", "IMG020.CR2.jpg")]);
    let stats = vec![vec![ok_stat(ts(2026, 10, 9, 8, 0, 0))]];
    let (entries, errors) = stage_plan(&units, &stats, &Vec::new(), &Vec::new(), b"/out", None);
    assert_eq!(errors.len(), 0);
    assert_eq!(entries.len(), 1);
    assert_eq!(entries[0].dest, bv("/out/RAW/2026/10/09/IMG020.CR2.jpg"));
}

#[test]
fn a_duplicated_destination_fails_the_whole_batch() {
    // two sources in different directories share a name and a date: they map
    // to one destination, which must surface as an error, never a plan
    let staged = vec![
        PlanEntry { source: bv("/in/a/IMG001.CR2"), dest: bv("/out/RAW/2024/01/05/IMG001.CR2") },
        PlanEntry { source: bv("/in/b/IMG001.CR2"), dest: bv("/out/RAW/2024/01/05/IMG001.CR2") },
    ];
    let flags = vec![false, false];
    let r = finish_plan(staged, &flags, Vec::new());
    match r {
        Ok(_) => panic!("a duplicated destination must fail the batch"),
        Err(errors) => {
            assert_eq!(errors.len(), 1);
            assert_eq!(errors[0].file, bv("/in/b/IMG001.CR2"));
            assert_eq!(
                errors[0].reason,
                Reason::DuplicateDestination(bv("/out/RAW/2024/01/05/IMG001.CR2"))
            );
        },
    }
}

#[test]
fn an_occupied_destination_fails_the_whole_batch() {
    let staged = vec![
        PlanEntry { source: bv("/in/IMG030.CR2"), dest: bv("/out/RAW/2024/01/05/IMG030.CR2") },
        PlanEntry { source: bv("/in/IMG031.CR2"), dest: bv("/out/RAW/2024/01/05/IMG031.CR2") },
    ];
    let flags = vec![true, false];
    let r = finish_plan(staged, &flags, Vec::new());
    match r {
        Ok(_) => panic!("an occupied destination must fail the batch"),
        Err(errors) => {
            assert_eq!(errors.len(), 1);
            assert_eq!(errors[0].file, bv("/in/IMG030.CR2"));
            assert_eq!(
                errors[0].reason,
                Reason::DestinationExists(bv("/out/RAW/2024/01/05/IMG030.CR2"))
            );
        },
    }
}

#[test]
fn a_clean_batch_yields_the_plan_sorted_by_source() {
    let staged = vec![
        PlanEntry { source: bv("/in/b.CR2"), dest: bv("/out/RAW/2024/01/05/b.CR2") },
        PlanEntry { source: bv("/in/a.CR2"), dest: bv("/out/RAW/2024/01/05/a.CR2") },
    ];
    let flags = vec![false, false];
    let r = finish_plan(staged, &flags, Vec::new());
    match r {
        Ok(plan) => {
            assert_eq!(plan.len(), 2);
            assert_eq!(plan[0].source, bv("/in/a.CR2"));
            assert_eq!(plan[1].source, bv("/in/b.CR2"));
        },
        Err(_) => panic!("a clean batch must yield a plan"),
    }
}

#[test]
fn staging_errors_block_the_plan() {
    let staged = vec![PlanEntry { source: bv("/in/a.CR2"), dest: bv("/out/a") }];
    let flags = vec![false];
    let stage_errors = vec![ValidationError {
        file: bv("/in/broken.CR2"),
        reason: Reason::SourceMissing,
    }];
    let r = finish_plan(staged, &flags, stage_errors);
    match r {
        Ok(_) => panic!("staging errors must fail the batch"),
        Err(errors) => {
            assert_eq!(errors.len(), 1);
            assert_eq!(errors[0].file, bv("/in/broken.CR2"));
            assert_eq!(errors[0].reason, Reason::SourceMissing);
        },
    }
}

#[test]
fn a_unit_at_or_before_the_cutoff_is_silently_omitted() {
    let units = group_files(&vec![
        entry("/in/OLD1.JPG", "OLD1.JPG"),
        entry("/in/NEW1.JPG", "NEW1.JPG"),
    ]);
    let cache = vec![
        meta("OLD1", "2024:01:05 11:00:00"),
        meta("NEW1", "2024:01:05 13:00:00"),
    ];
    let stats = vec![
        vec![ok_stat(ts(2024, 1, 5, 0, 0, 0))],
        vec![ok_stat(ts(2024, 1, 5, 0, 0, 0))],
    ];
    let cutoff = Some(ts(2024, 1, 5, 12, 0, 0));
    let (entries, errors) = stage_plan(&units, &stats, &cache, &Vec::new(), b"/out", cutoff);
    assert_eq!(errors.len(), 0);
    assert_eq!(entries.len(), 1);
    assert_eq!(entries[0].source, bv("/in/NEW1.JPG"));
}

#[test]
fn a_failed_metadata_query_falls_back_to_filesystem_time() {
    // the unit has a photo but no cache entry: its modification time dates it
    let units = group_files(&vec![entry("/in/IMG040.JPG", "IMG040.JPG")]);
    let stats = vec![vec![ok_stat(ts(2023, 7, 1, 9, 30, 0))]];
    let (entries, errors) = stage_plan(&units, &stats, &Vec::new(), &Vec::new(), b"/out", None);
    assert_eq!(errors.len(), 0);
    assert_eq!(entries.len(), 1);
    assert_eq!(entries[0].dest, bv("/out/JPEG/2023/07/01/IMG040.JPG"));
}

#[test]
fn an_unreadable_date_file_fails_its_whole_unit() {
    let units = group_files(&vec![
        entry("/in/IMG050.JPG", "IMG050.JPG"),
        entry("/in/IMG050.xmp", "IMG050.xmp"),
    ]);
    let stats = vec![vec![
        FileStat { readable: false, regular: false, mtime: None },
        ok_stat(ts(2024, 1, 1, 0, 0, 0)),
    ]];
    let (entries, errors) = stage_plan(&units, &stats, &Vec::new(), &Vec::new(), b"/out", None);
    assert_eq!(entries.len(), 0);
    assert_eq!(errors.len(), 1);
    assert_eq!(errors[0].file, bv("/in/IMG050.JPG"));
    assert_eq!(errors[0].reason, Reason::CannotReadMetadata);
}

#[test]
fn a_date_file_without_modification_time_fails_its_unit() {
    let units = group_files(&vec![entry("/in/IMG051.JPG", "IMG051.JPG")]);
    let stats = vec![vec![FileStat { readable: true, regular: true, mtime: None }]];
    let (entries, errors) = stage_plan(&units, &stats, &Vec::new(), &Vec::new(), b"/out", None);
    assert_eq!(entries.len(), 0);
    assert_eq!(errors.len(), 1);
    assert_eq!(errors[0].reason, Reason::CannotGetMtime);
}

#[test]
fn bad_sources_fail_per_file_not_per_unit() {
    let units = group_files(&vec![
        entry("/in/IMG060.JPG", "IMG060.JPG"),
        entry("/in/IMG060.xmp", "IMG060.xmp"),
        entry("/in/IMG060.dir", "IMG060.dir"),
    ]);
    let cache = vec![meta("IMG060", "2024:01:05 10:00:00")];
    let stats = vec![vec![
        ok_stat(ts(2024, 1, 5, 0, 0, 0)),
        FileStat { readable: false, regular: false, mtime: None },
        FileStat { readable: true, regular: false, mtime: None },
    ]];
    let (entries, errors) = stage_plan(&units, &stats, &cache, &Vec::new(), b"/out", None);
    assert_eq!(entries.len(), 1);
    assert_eq!(entries[0].source, bv("/in/IMG060.JPG"));
    assert_eq!(errors.len(), 2);
    assert_eq!(errors[0].file, bv("/in/IMG060.xmp"));
    assert_eq!(errors[0].reason, Reason::SourceMissing);
    assert_eq!(errors[1].file, bv("/in/IMG060.dir"));
    assert_eq!(errors[1].reason, Reason::SourceNotRegular);
}

#[test]
fn sidecars_inherit_the_unit_date_and_their_own_tree() {
    let units = group_files(&vec![
        entry("/in/IMG070.CR2", "IMG070.CR2"),
        entry("/in/IMG070.CR2.xmp", "IMG070.CR2.xmp"),
        entry("/in/IMG070.txt", "IMG070.txt"),
    ]);
    let cache = vec![meta("IMG070", "2024:03:15 08:00:00")];
    let t = ts(2024, 3, 15, 0, 0, 0);
    let stats = vec![vec![ok_stat(t), ok_stat(t), ok_stat(t)]];
    let (entries, errors) = stage_plan(&units, &stats, &cache, &Vec::new(), b"/out", None);
    assert_eq!(errors.len(), 0);
    assert_eq!(entries.len(), 3);
    assert_eq!(entries[0].dest, bv("/out/RAW/2024/03/15/IMG070.CR2"));
    assert_eq!(entries[1].dest, bv("/out/RAW/2024/03/15/IMG070.CR2.xmp"));
    // a file with no photo extension and no known tag follows the unit's
    // default tree, here the raw tree of its CR2 representative
    assert_eq!(entries[2].dest, bv("/out/RAW/2024/03/15/IMG070.txt"));
}
