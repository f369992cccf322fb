use photosort::detect::{detect_sequences, lookup_tag, sort_units, SequenceTag};
use photosort::group::{group_files, FileEntry};
use photosort::resolve::{representative_index, resolve_units, MetaEntry, ResolvedUnit};
use photosort::meta::ExifData;
use photosort::time::Timestamp;

fn bv(s: &str) -> Vec<u8> {
    s.as_bytes().to_vec()
}

fn entry(path: &str, name: &str) -> FileEntry {
    FileEntry { path: bv(path), name: bv(name) }
}

fn ts(year: u32, month: u32, day: u32, hour: u32, minute: u32, second: u32) -> Timestamp {
    Timestamp { year, month, day, hour, minute, second }
}

fn ru(key: &str, burst: u32, hdr: Option<u32>, time: Timestamp) -> ResolvedUnit {
    ResolvedUnit { key: bv(key), burst, hdr, time }
}

#[test]
fn grouping_bundles_files_by_base_key() {
    let entries = vec![
        entry("/in/IMG001.CR2", "IMG001.CR2"),
        entry("/in/IMG001.CR2.xmp", "IMG001.CR2.xmp"),
        entry("/in/IMG002.JPG", "IMG002.JPG"),
    ];
    let units = group_files(&entries);
    assert_eq!(units.len(), 2);
    assert_eq!(units[0].key, bv("IMG001"));
    assert_eq!(units[0].files.len(), 2);
    assert_eq!(units[0].files[0].name, bv("IMG001.CR2"));
    assert_eq!(units[0].files[1].name, bv("IMG001.CR2.xmp"));
    assert_eq!(units[1].key, bv("IMG002"));
    assert_eq!(units[1].files.len(), 1);
}

#[test]
fn grouping_is_a_partition() {
    let entries = vec![
        entry("/in/a.CR2", "a.CR2"),
        entry("/in/b.JPG", "b.JPG"),
        entry("/in/a.xmp", "a.xmp"),
        entry("/in/c", "c"),
        entry("/in/b.CR2.xmp", "b.CR2.xmp"),
    ];
    let units = group_files(&entries);
    // every input file lands in exactly one unit
    let total: usize = units.iter().map(|u| u.files.len()).sum();
    assert_eq!(total, entries.len());
    for e in &entries {
        let holders = units
            .iter()
            .filter(|u| u.files.iter().any(|f| f.path == e.path))
            .count();
        assert_eq!(holders, 1);
    }
    // unit keys are pairwise distinct and each file carries its unit's key
    for (i, u) in units.iter().enumerate() {
        for v in &units[i + 1..] {
            assert_ne!(u.key, v.key);
        }
        for f in &u.files {
            let dot = f.name.iter().position(|&b| b == b'.').unwrap_or(f.name.len());
            assert_eq!(&f.name[..dot], &u.key[..]);
        }
    }
}

#[test]
fn grouping_of_nothing_is_empty() {
    let units = group_files(&Vec::new());
    assert_eq!(units.len(), 0);
}

#[test]
fn representative_prefers_the_first_jpeg() {
    let files = vec![
        entry("/in/a.CR2", "a.CR2"),
        entry("/in/a.xmp", "a.xmp"),
        entry("/in/a.JPG", "a.JPG"),
    ];
    assert_eq!(representative_index(&files), Some(2));
    let raw_only = vec![entry("/in/a.xmp", "a.xmp"), entry("/in/a.CR2", "a.CR2")];
    assert_eq!(representative_index(&raw_only), Some(1));
    let no_photo = vec![entry("/in/a.xmp", "a.xmp")];
    assert_eq!(representative_index(&no_photo), None);
}

#[test]
fn resolution_takes_ordinals_and_date_from_the_cache() {
    let entries = vec![entry("/in/IMG001.JPG", "IMG001.JPG")];
    let units = group_files(&entries);
    let cache = vec![MetaEntry {
        key: bv("IMG001"),
        exif: ExifData {
            date_time_original: Some(bv("2024:01:05 10:30:00")),
            special_mode: Some(bv("Sequence: 1")),
            drive_mode: Some(bv("AE Auto Bracketing; Electronic shutter; Shot 1")),
        },
    }];
    let now = ts(2026, 10, 9, 0, 0, 0);
    let resolved = resolve_units(&units, &cache, now);
    assert_eq!(resolved.len(), 1);
    assert_eq!(resolved[0].key, bv("IMG001"));
    assert_eq!(resolved[0].burst, 1);
    assert_eq!(resolved[0].hdr, Some(1));
    assert_eq!(resolved[0].time, ts(2024, 1, 5, 10, 30, 0));
}

#[test]
fn resolution_skips_units_without_photo_or_cache_entry() {
    let entries = vec![
        entry("/in/IMG001.xmp", "IMG001.xmp"),
        entry("/in/IMG002.JPG", "IMG002.JPG"),
    ];
    let units = group_files(&entries);
    let resolved = resolve_units(&units, &Vec::new(), ts(2026, 1, 1, 0, 0, 0));
    assert_eq!(resolved.len(), 0);
}

#[test]
fn resolution_falls_back_to_now_without_a_capture_time() {
    let entries = vec![entry("/in/IMG001.JPG", "IMG001.JPG")];
    let units = group_files(&entries);
    let cache = vec![MetaEntry {
        key: bv("IMG001"),
        exif: ExifData { date_time_original: None, special_mode: None, drive_mode: None },
    }];
    let now = ts(2026, 10, 9, 12, 0, 0);
    let resolved = resolve_units(&units, &cache, now);
    assert_eq!(resolved.len(), 1);
    assert_eq!(resolved[0].time, now);
}

#[test]
fn sorting_orders_by_time_then_key() {
    let t1 = ts(2024, 1, 5, 10, 0, 0);
    let t2 = ts(2024, 1, 5, 11, 0, 0);
    let units = vec![ru("B", 0, None, t1), ru("C", 0, None, t2), ru("A", 0, None, t1)];
    let sorted = sort_units(&units);
    assert_eq!(sorted[0].key, bv("A"));
    assert_eq!(sorted[1].key, bv("B"));
    assert_eq!(sorted[2].key, bv("C"));
}

#[test]
fn three_bracketed_units_form_one_hdr_sequence() {
    let t = ts(2024, 1, 5, 10, 0, 0);
    let units = vec![
        ru("IMG001", 0, Some(1), t),
        ru("IMG002", 0, Some(2), t),
        ru("IMG003", 0, Some(3), t),
    ];
    let tags = detect_sequences(&units);
    assert_eq!(tags.len(), 3);
    let expect = SequenceTag::Hdr(bv("IMG001_HDR"));
    assert_eq!(lookup_tag(&tags, b"IMG001"), Some(&expect));
    assert_eq!(lookup_tag(&tags, b"IMG002"), Some(&expect));
    assert_eq!(lookup_tag(&tags, b"IMG003"), Some(&expect));
}

#[test]
fn a_lone_ordinal_one_is_never_tagged() {
    let t = ts(2024, 1, 5, 10, 0, 0);
    let hdr_only = vec![ru("IMG010", 0, Some(1), t)];
    let tags = detect_sequences(&hdr_only);
    assert_eq!(tags.len(), 0);
    let burst_only = vec![ru("IMG010", 1, None, t)];
    let tags = detect_sequences(&burst_only);
    assert_eq!(tags.len(), 0);
    assert_eq!(lookup_tag(&tags, b"IMG010"), None);
}

#[test]
fn consecutive_burst_ordinals_form_a_burst_sequence() {
    let t = ts(2024, 1, 5, 10, 0, 0);
    let units = vec![
        ru("IMG020", 1, None, t),
        ru("IMG021", 2, None, t),
        ru("IMG022", 3, None, t),
        ru("IMG023", 0, None, t),
    ];
    let tags = detect_sequences(&units);
    assert_eq!(tags.len(), 3);
    let expect = SequenceTag::Burst(bv("IMG020_BURST"));
    assert_eq!(lookup_tag(&tags, b"IMG020"), Some(&expect));
    assert_eq!(lookup_tag(&tags, b"IMG022"), Some(&expect));
    assert_eq!(lookup_tag(&tags, b"IMG023"), None);
}

#[test]
fn hdr_wins_over_burst() {
    // both ordinals chain; the HDR pass claims the units first
    let t = ts(2024, 1, 5, 10, 0, 0);
    let units = vec![
        ru("IMG001", 1, Some(1), t),
        ru("IMG002", 2, Some(2), t),
    ];
    let tags = detect_sequences(&units);
    let expect = SequenceTag::Hdr(bv("IMG001_HDR"));
    assert_eq!(lookup_tag(&tags, b"IMG001"), Some(&expect));
    assert_eq!(lookup_tag(&tags, b"IMG002"), Some(&expect));
}

#[test]
fn a_broken_run_keeps_its_good_prefix_and_drops_the_stray() {
    let t = ts(2024, 1, 5, 10, 0, 0);
    let units = vec![
        ru("A", 0, Some(1), t),
        ru("B", 0, Some(2), t),
        ru("C", 0, Some(5), t),
    ];
    let tags = detect_sequences(&units);
    assert_eq!(tags.len(), 2);
    let expect = SequenceTag::Hdr(bv("A_HDR"));
    assert_eq!(lookup_tag(&tags, b"A"), Some(&expect));
    assert_eq!(lookup_tag(&tags, b"B"), Some(&expect));
    assert_eq!(lookup_tag(&tags, b"C"), None);
}

#[test]
fn an_ordinal_one_after_a_break_restarts_a_run() {
    let t = ts(2024, 1, 5, 10, 0, 0);
    let units = vec![
        ru("A", 0, Some(1), t),
        ru("B", 0, Some(2), t),
        ru("C", 0, Some(1), t),
        ru("D", 0, Some(2), t),
    ];
    let tags = detect_sequences(&units);
    assert_eq!(tags.len(), 4);
    assert_eq!(lookup_tag(&tags, b"A"), Some(&SequenceTag::Hdr(bv("A_HDR"))));
    assert_eq!(lookup_tag(&tags, b"B"), Some(&SequenceTag::Hdr(bv("A_HDR"))));
    assert_eq!(lookup_tag(&tags, b"C"), Some(&SequenceTag::Hdr(bv("C_HDR"))));
    assert_eq!(lookup_tag(&tags, b"D"), Some(&SequenceTag::Hdr(bv("C_HDR"))));
}

#[test]
fn detection_does_not_depend_on_input_order() {
    let t1 = ts(2024, 1, 5, 10, 0, 0);
    let t2 = ts(2024, 1, 5, 10, 0, 5);
    let a = ru("IMG001", 0, Some(1), t1);
    let b = ru("IMG002", 0, Some(2), t2);
    let tags_fwd = detect_sequences(&vec![
        ru("IMG001", 0, Some(1), t1),
        ru("IMG002", 0, Some(2), t2),
    ]);
    let tags_rev = detect_sequences(&vec![b, a]);
    assert_eq!(tags_fwd.len(), 2);
    let expect = SequenceTag::Hdr(bv("IMG001_HDR"));
    assert_eq!(lookup_tag(&tags_fwd, b"IMG001"), Some(&expect));
    assert_eq!(lookup_tag(&tags_rev, b"IMG001"), Some(&expect));
    assert_eq!(lookup_tag(&tags_fwd, b"IMG002"), Some(&expect));
    assert_eq!(lookup_tag(&tags_rev, b"IMG002"), Some(&expect));
}

#[test]
fn a_unit_without_capture_time_sorts_by_now_and_does_not_chain_backwards() {
    // the ordinal-2 unit resolved only to `now`, so it sorts after the
    // ordinal-1 unit of the day before yesterday — too late to continue it
    let shot_day = ts(2024, 1, 5, 10, 0, 0);
    let now = ts(2026, 10, 9, 12, 0, 0);
    let units = vec![ru("A", 0, Some(1), shot_day), ru("B", 0, Some(2), now)];
    let sorted = sort_units(&units);
    assert_eq!(sorted[0].key, bv("A"));
    assert_eq!(sorted[1].key, bv("B"));
    // they still chain here because ordinal 2 directly follows ordinal 1;
    // only an interposed unit breaks the run
    let tags = detect_sequences(&units);
    assert_eq!(tags.len(), 2);
    let interposed = vec![
        ru("A", 0, Some(1), shot_day),
        ru("M", 0, None, ts(2024, 1, 6, 0, 0, 0)),
        ru("B", 0, Some(2), now),
    ];
    let tags = detect_sequences(&interposed);
    assert_eq!(tags.len(), 0);
}

#[test]
fn units_with_different_days_do_not_chain_backwards() {
    // the later-dated ordinal 1 sorts after the ordinal 2, so no run forms
    let t1 = ts(2024, 1, 5, 10, 0, 0);
    let t2 = ts(2024, 1, 6, 10, 0, 0);
    let units = vec![ru("B", 0, Some(1), t2), ru("A", 0, Some(2), t1)];
    let tags = detect_sequences(&units);
    assert_eq!(tags.len(), 0);
}
