use zip_rs::process::{
    params_file_bytes, read_params_file, split_nul_strings, wait_step, ParamsError, ProcessPoll,
    WaitAction,
};
use zip_rs::unzip::extractor::{ExtractStep, Extractor, ExtractorOptions};
use zip_rs::error::CompressionLevel;
use zip_rs::zip::builder::ZipBuilderOptions;
use zip_rs::zip::data::{
    apply_key_warnings, basename, dedup_by_file, ensure_dir_suffix, get_zip_data, join_key,
    resolve_path, ZipDataEntry, ZipWarning,
};
use zip_rs::zip::names::{after_last, has_char, has_part, has_prefix, trim_leading};
use zip_rs::zip::writer::ZipWriter;

fn entry(key: &str, file: &str, dir: bool) -> ZipDataEntry {
    ZipDataEntry { key: key.to_string(), file: file.to_string(), dir }
}

#[test]
fn name_helpers() {
    assert!(has_prefix("./a", "./"));
    assert!(!has_prefix(".", "./"));
    assert!(has_prefix("abc", ""));
    assert!(has_part("hello world", "lo w"));
    assert!(has_part("hello", "hello"));
    assert!(has_part("hello", ""));
    assert!(!has_part("hello", "hello!"));
    assert!(!has_part("héllo", "hel"));
    assert!(has_part("日本語", "本"));
    assert!(has_char("a:b", ':'));
    assert!(!has_char("ab", ':'));
    assert_eq!(trim_leading("///a/b", '/'), ("a/b".to_string(), true));
    assert_eq!(trim_leading("a/b", '/'), ("a/b".to_string(), false));
    assert_eq!(trim_leading("//", '/'), (String::new(), true));
    assert_eq!(after_last("a/b/c", '/'), "c");
    assert_eq!(after_last("abc", '/'), "abc");
    assert_eq!(after_last("a/", '/'), "");
}

#[test]
fn path_helpers() {
    assert_eq!(ensure_dir_suffix("a"), "a/");
    assert_eq!(ensure_dir_suffix("a/"), "a/");
    assert_eq!(ensure_dir_suffix(""), "/");
    assert_eq!(basename("a/b/c.txt"), "c.txt");
    assert_eq!(basename("c.txt"), "c.txt");
    assert_eq!(basename("a/b/"), "b");
    assert_eq!(basename("a/b//"), "b");
    assert_eq!(basename("dir/"), "dir");
    assert_eq!(basename("/"), "/");
    assert_eq!(basename("//"), "//");
    assert_eq!(basename(""), "");
    assert_eq!(zip_rs::zip::names::trim_trailing("a//", '/'), "a");
    assert_eq!(zip_rs::zip::names::trim_trailing("a/b", '/'), "a/b");
    assert_eq!(join_key("a", "b/c"), "a/b/c");
    assert_eq!(join_key("a/", "b"), "a/b");
    assert_eq!(resolve_path("/root", "x/y"), "/root/x/y");
    assert_eq!(resolve_path("/root/", "x"), "/root/x");
    assert_eq!(resolve_path("/root", "/abs"), "/abs");
}

#[test]
fn warnings_about_names() {
    let mut entries = vec![
        entry("/abs/file", "f1", false),
        entry("./here", "f2", false),
        entry("../up", "f3", false),
        entry("c:drive", "f4", false),
        entry("plain", "f5", false),
    ];
    let mut warnings = vec![ZipWarning::DirectoriesIgnored];
    apply_key_warnings(&mut entries, &mut warnings);
    assert_eq!(entries[0].key, "abs/file");
    assert_eq!(entries[0].file, "f1");
    assert_eq!(entries[1].key, "./here");
    assert_eq!(
        warnings,
        vec![
            ZipWarning::DirectoriesIgnored,
            ZipWarning::DroppedLeadingSlash,
            ZipWarning::DotSlashPaths,
            ZipWarning::DotDotPaths,
            ZipWarning::ColonPaths,
        ]
    );
    // A warning is given once.
    let mut entries = vec![entry("//./x", "f", true), entry("..\\y", "g", false)];
    let mut warnings = vec![ZipWarning::DotSlashPaths];
    apply_key_warnings(&mut entries, &mut warnings);
    assert_eq!(entries[0].key, "./x");
    assert!(entries[0].dir);
    assert_eq!(
        warnings,
        vec![ZipWarning::DotSlashPaths, ZipWarning::DroppedLeadingSlash, ZipWarning::DotDotPaths]
    );
    let mut entries = vec![entry("fine", "f", false)];
    let mut warnings = Vec::new();
    apply_key_warnings(&mut entries, &mut warnings);
    assert!(warnings.is_empty());
}

#[test]
fn entries_of_one_file_are_kept_once() {
    let entries = vec![
        entry("a", "/x/a", false),
        entry("b", "/x/b", false),
        entry("a2", "/x/a", false),
        entry("c", "/x/c", true),
        entry("b2", "/x/b", true),
    ];
    let kept = dedup_by_file(entries).unwrap();
    let keys: Vec<&str> = kept.iter().map(|e| e.key.as_str()).collect();
    assert_eq!(keys, vec!["a", "b", "c"]);
    assert!(dedup_by_file(Vec::new()).unwrap().is_empty());
}

#[test]
fn zip_data_leaves_directories_out_on_request() {
    let scanned = vec![entry("d/", "/d", true), entry("/d/f", "/d/f", false)];
    let data = get_zip_data(scanned.clone(), true, Vec::new()).unwrap();
    assert_eq!(data.entries.len(), 2);
    assert_eq!(data.entries[1].key, "d/f");
    assert_eq!(data.warnings, vec![ZipWarning::DroppedLeadingSlash]);
    let data = get_zip_data(scanned, false, vec![ZipWarning::DirectoriesIgnored]).unwrap();
    assert_eq!(data.entries.len(), 1);
    assert_eq!(data.entries[0].key, "d/f");
    assert!(!data.entries[0].dir);
    assert_eq!(
        data.warnings,
        vec![ZipWarning::DirectoriesIgnored, ZipWarning::DroppedLeadingSlash]
    );
}

#[test]
fn default_options() {
    let options = ZipBuilderOptions::default();
    assert_eq!(options.compression_level, CompressionLevel::Level6);
    assert!(options.recurse && options.include_directories && !options.append);
    assert_eq!(options.root, ".");
    let options = ExtractorOptions::default();
    assert!(options.overwrite && !options.junk_paths);
    assert_eq!(options.exdir, ".");
    assert!(options.files.is_none());
}

fn sample_archive() -> Vec<u8> {
    let mut writer = ZipWriter::new("s.zip", CompressionLevel::Level6).unwrap();
    writer.add_directory("dir", Some(1_700_000_000), 0o755).unwrap();
    writer.add_file("dir/a.txt", b"alpha", Some(1_700_000_000), 0o640).unwrap();
    writer.add_file("b.txt", b"beta", None, 0o644).unwrap();
    writer.finalize().unwrap();
    writer.into_bytes()
}

#[test]
fn extraction_steps() {
    let bytes = sample_archive();
    let steps = Extractor::new("s.zip").unwrap().exdir("out").extract(&bytes, &[]).unwrap();
    assert_eq!(
        steps,
        vec![
            ExtractStep::Directory { path: "out/dir/".to_string() },
            ExtractStep::File {
                path: "out/dir/a.txt".to_string(),
                data: b"alpha".to_vec(),
                permissions: 0o640,
                timestamp: 1_700_000_000,
            },
            ExtractStep::File {
                path: "out/b.txt".to_string(),
                data: b"beta".to_vec(),
                permissions: 0o644,
                timestamp: 315532800,
            },
        ]
    );
    // The output directory is `.` unless another is set.
    let steps = Extractor::new("s.zip").unwrap().files(&["b.txt".to_string()]).extract(&bytes, &[]).unwrap();
    assert_eq!(steps.len(), 1);
    assert!(matches!(&steps[0], ExtractStep::File { path, .. } if path == "./b.txt"));
}

#[test]
fn extraction_of_chosen_entries_without_paths() {
    let bytes = sample_archive();
    let extractor = Extractor::new("s.zip")
        .unwrap()
        .overwrite(false)
        .junk_paths(true)
        .exdir("out/")
        .files(&["a.txt".to_string(), "nothing".to_string()]);
    assert!(extractor.wanted("dir/a.txt"));
    assert!(extractor.wanted("xa.txt.bak"));
    assert!(!extractor.wanted("b.txt"));
    assert_eq!(extractor.output_path("dir/a.txt"), "out/a.txt");
    let steps = extractor.extract(&bytes, &[]).unwrap();
    assert_eq!(
        steps,
        vec![ExtractStep::File {
            path: "out/a.txt".to_string(),
            data: b"alpha".to_vec(),
            permissions: 0o640,
            timestamp: 1_700_000_000,
        }]
    );
    // A name standing in the name of a directory chooses the directory too.
    let steps = Extractor::new("s.zip").unwrap().files(&["dir".to_string()]).extract(&bytes, &[]).unwrap();
    assert_eq!(steps.len(), 2);
    assert!(matches!(&steps[0], ExtractStep::Directory { path } if path == "./dir/"));
}

#[test]
fn extraction_fails_at_the_first_bad_entry() {
    let mut bytes = sample_archive();
    // Damage the local header of the last entry.
    let offset = bytes.windows(5).position(|w| w == b"b.txt").unwrap() - 30;
    bytes[offset] = 0;
    let err = Extractor::new("s.zip").unwrap().extract(&bytes, &[]).err();
    assert_eq!(
        err,
        Some(zip_rs::error::ZipError::CorruptEntry {
            name: "b.txt".to_string(),
            archive: "s.zip".to_string(),
            reason: "invalid local header signature: 0x04034b00".to_string(),
        })
    );
    // The entry is not wanted: nothing fails.
    let steps = Extractor::new("s.zip").unwrap().files(&["a.txt".to_string()]).extract(&bytes, &[]);
    assert_eq!(steps.unwrap().len(), 1);
    assert!(Extractor::new("s.zip").unwrap().extract(b"no archive", &[]).is_err());
}

#[test]
fn parameter_file_round_trip() {
    let names = vec!["a.txt".to_string(), "dir/b".to_string()];
    let bytes = params_file_bytes(&names).unwrap();
    let mut expected: Vec<u8> = vec![2, 0, 0, 0, 12, 0, 0, 0];
    expected.extend_from_slice(b"a.txt\0dir/b\0");
    expected.extend_from_slice(&[12, 0, 0, 0]);
    expected.extend_from_slice(b"a.txt\0dir/b\0");
    expected.extend_from_slice(&[0, 0]);
    expected.extend_from_slice(&[0; 16]);
    assert_eq!(bytes, expected);
    let parsed = read_params_file(&bytes).unwrap();
    assert_eq!(parsed.keys, names);
    assert_eq!(parsed.filenames, names);
    assert_eq!(parsed.is_directory, vec![false, false]);
    assert_eq!(parsed.mtime_bits, vec![0, 0]);
    assert_eq!(params_file_bytes(&[]).unwrap(), vec![0u8; 12]);
    // Flags and times.
    let mut other = bytes.clone();
    let flags = 8 + 12 + 4 + 12;
    other[flags + 1] = 1;
    other[flags + 2 + 8..flags + 2 + 16].copy_from_slice(&1.5f64.to_le_bytes());
    let parsed = read_params_file(&other).unwrap();
    assert_eq!(parsed.is_directory, vec![false, true]);
    assert_eq!(f64::from_bits(parsed.mtime_bits[1]), 1.5);
    // Failures.
    assert_eq!(read_params_file(&[]).err(), Some(ParamsError::Truncated));
    assert_eq!(read_params_file(&[0xFF; 4]).err(), Some(ParamsError::NegativeCount));
    assert_eq!(read_params_file(&[0, 0, 0, 0, 1]).err(), Some(ParamsError::Truncated));
    assert_eq!(
        read_params_file(&[0, 0, 0, 0, 0, 0, 0, 0x80]).err(),
        Some(ParamsError::NegativeKeysLength)
    );
    assert_eq!(
        read_params_file(&[0, 0, 0, 0, 0, 0, 0, 0, 0, 0, 0, 0x80]).err(),
        Some(ParamsError::NegativeFilenamesLength)
    );
    assert_eq!(read_params_file(&bytes[..bytes.len() - 1]).err(), Some(ParamsError::Truncated));
    // Fewer names than announced: an empty name takes the place of the rest.
    assert_eq!(split_nul_strings(b"a\0b", 3), vec!["a".to_string(), String::new()]);
    assert_eq!(split_nul_strings(b"a\0b\0c\0", 2), vec!["a".to_string(), "b".to_string()]);
    assert!(split_nul_strings(b"a\0", 0).is_empty());
}

#[test]
fn waiting_for_a_process() {
    assert_eq!(wait_step(ProcessPoll::Succeeded, 0, None), WaitAction::Done);
    assert_eq!(wait_step(ProcessPoll::Failed(Some(3)), 0, Some(5)), WaitAction::Exited(3));
    assert_eq!(wait_step(ProcessPoll::Failed(None), 9, Some(5)), WaitAction::Exited(1));
    assert_eq!(wait_step(ProcessPoll::Running, 4, Some(5)), WaitAction::Sleep);
    assert_eq!(wait_step(ProcessPoll::Running, 5, Some(5)), WaitAction::TimedOut);
    assert_eq!(wait_step(ProcessPoll::Running, u64::MAX, None), WaitAction::Sleep);
}

#[test]
fn what_is_there_is_kept_unless_it_is_overwritten() {
    let bytes = sample_archive();
    let paths = Extractor::new("s.zip").unwrap().exdir("out").targets(&bytes).unwrap();
    assert_eq!(paths, vec!["out/dir/", "out/dir/a.txt", "out/b.txt"]);
    let junked = Extractor::new("s.zip").unwrap().junk_paths(true).targets(&bytes).unwrap();
    assert_eq!(junked[1], "./a.txt");
    assert!(Extractor::new("s.zip").unwrap().targets(b"no archive").is_err());

    // Everything is there already and nothing is overwritten: only the
    // directory is made.
    let keep = Extractor::new("s.zip").unwrap().exdir("out").overwrite(false);
    let steps = keep.extract(&bytes, &[true, true, true]).unwrap();
    assert_eq!(steps, vec![ExtractStep::Directory { path: "out/dir/".to_string() }]);
    // Of what is not said to be there a file is written.
    let keep = Extractor::new("s.zip").unwrap().exdir("out").overwrite(false);
    let steps = keep.extract(&bytes, &[false, true]).unwrap();
    assert_eq!(steps.len(), 2);
    assert!(matches!(&steps[1], ExtractStep::File { path, .. } if path == "out/b.txt"));
    // With overwriting what is there does not matter.
    let steps = Extractor::new("s.zip").unwrap().extract(&bytes, &[true, true, true]).unwrap();
    assert_eq!(steps.len(), 3);

    // An entry that is kept is not read: damage to it does not matter.
    let mut damaged = sample_archive();
    let offset = damaged.windows(5).position(|w| w == b"b.txt").unwrap() - 30;
    damaged[offset] = 0;
    let keep = Extractor::new("s.zip").unwrap().overwrite(false);
    assert_eq!(keep.extract(&damaged, &[false, false, true]).unwrap().len(), 2);
    let keep = Extractor::new("s.zip").unwrap().overwrite(false);
    assert!(keep.extract(&damaged, &[false, false, false]).is_err());
}

#[test]
fn entries_of_one_name_have_the_content_of_the_first() {
    let mut writer = ZipWriter::new("d.zip", CompressionLevel::NoCompression).unwrap();
    writer.add_file("same", b"first", Some(1_700_000_000), 0o600).unwrap();
    writer.add_file("other", b"x", None, 0o644).unwrap();
    writer.add_file("same", b"second", Some(1_700_000_002), 0o644).unwrap();
    writer.finalize().unwrap();
    let bytes = writer.into_bytes();
    let steps = Extractor::new("d.zip").unwrap().exdir("o").extract(&bytes, &[]).unwrap();
    assert_eq!(steps.len(), 3);
    let first = ExtractStep::File {
        path: "o/same".to_string(),
        data: b"first".to_vec(),
        permissions: 0o600,
        timestamp: 1_700_000_000,
    };
    assert_eq!(steps[0], first);
    assert_eq!(steps[2], first);
    let archive = zip_rs::unzip::archive::ZipArchive::open("d.zip", bytes).unwrap();
    assert_eq!(archive.locate_file("same").unwrap(), Some(0));
    assert_eq!(archive.extract_to(2).unwrap().data, b"second");
}
