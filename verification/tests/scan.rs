use tectonic::dtf::{encode, read_meta};
use tectonic::error::Error;
use tectonic::files::{metadata_order, InputFile};
use tectonic::plugins::gstorage::{
    copy_files, run_exit_hook, staged_name, upload_file, DirFile, UploadSettings, UploadStep,
};
use tectonic::plugins::{run_plugin_exit_hooks, run_plugins, Plugin, PluginSettings};
use tectonic::scan::{
    entry_path, parse_dtf_entry, scan_files_for_range, total_folder_updates_len, Folder,
    FolderEntry,
};
use tectonic::text::{rank_bytes, rank_text};
use tectonic::order::{insert_unique, Rank};
use tectonic::update::Update;

fn quote(ts: u64, seq: u32) -> Update {
    Update { ts, seq, is_trade: false, is_bid: true, price: 1f32.to_bits(), size: 1f32.to_bits() }
}

fn file(name: &str, symbol: &str, updates: &Vec<Update>) -> FolderEntry {
    FolderEntry::File { name: name.to_string(), data: Some(encode(symbol, updates).unwrap()) }
}

fn every(from: u64, to: u64, step: u64, seq: u32) -> Vec<Update> {
    let mut out = Vec::new();
    let mut ts = from;
    while ts <= to {
        out.push(quote(ts, seq));
        ts += step;
    }
    out
}

fn folder(entries: Vec<FolderEntry>) -> Folder {
    Folder { path: "db".to_string(), entries: Some(entries) }
}

#[test]
fn scanner_window() {
    let one = every(0, 100, 25, 1);
    let two = every(50, 150, 20, 2);
    let three = every(200, 300, 25, 3);
    let f = folder(vec![
        file("3.dtf", "BTC", &three),
        file("1.dtf", "BTC", &one),
        file("2.dtf", "BTC", &two),
    ]);
    let got = scan_files_for_range(&f, "BTC", 75, 225).unwrap();
    let ts_seq: Vec<(u64, u32)> = got.iter().map(|u| (u.ts, u.seq)).collect();
    assert_eq!(
        ts_seq,
        vec![(75, 1), (100, 1), (90, 2), (110, 2), (130, 2), (150, 2), (200, 3), (225, 3)]
    );
}

#[test]
fn scan_passes_over_what_it_cannot_probe_and_other_symbols() {
    let f = folder(vec![
        FolderEntry::Failed,
        FolderEntry::Unnamed,
        FolderEntry::File { name: "gone.dtf".to_string(), data: None },
        FolderEntry::File { name: "notes.txt".to_string(), data: Some(b"hello".to_vec()) },
        file("eth.dtf", "ETH", &every(0, 100, 10, 9)),
        file("late.dtf", "BTC", &every(500, 600, 10, 8)),
        file("btc.dtf", "BTC", &every(0, 100, 50, 1)),
    ]);
    let got = scan_files_for_range(&f, "BTC", 0, 100).unwrap();
    assert_eq!(got, vec![quote(0, 1), quote(50, 1), quote(100, 1)]);
    assert_eq!(scan_files_for_range(&f, "XRP", 0, 1000).unwrap(), vec![]);
    assert_eq!(scan_files_for_range(&folder(vec![]), "BTC", 0, 100).unwrap(), vec![]);
}

#[test]
fn scan_does_not_remove_repeats() {
    let f = folder(vec![
        file("a.dtf", "BTC", &vec![quote(1, 1), quote(5, 2)]),
        file("b.dtf", "BTC", &vec![quote(5, 2), quote(9, 3)]),
    ]);
    assert_eq!(
        scan_files_for_range(&f, "BTC", 0, 10).unwrap(),
        vec![quote(1, 1), quote(5, 2), quote(5, 2), quote(9, 3)]
    );
}

#[test]
fn scan_reports_folder_and_file_failures() {
    let unreadable = Folder { path: "db".to_string(), entries: None };
    assert_eq!(scan_files_for_range(&unreadable, "BTC", 0, 10), Err(Error::IoError));
    assert_eq!(total_folder_updates_len(&unreadable), Err(Error::IoError));
    let mut bytes = encode("BTC", &vec![quote(1, 1), quote(5, 2)]).unwrap();
    bytes.pop();
    let f = folder(vec![FolderEntry::File { name: "cut.dtf".to_string(), data: Some(bytes) }]);
    assert_eq!(scan_files_for_range(&f, "BTC", 0, 10), Err(Error::CorruptFile));
    assert_eq!(scan_files_for_range(&f, "BTC", 6, 10).unwrap(), vec![]);
}

#[test]
fn total_counts_the_probeable_files() {
    let f = folder(vec![
        FolderEntry::Failed,
        FolderEntry::Unnamed,
        FolderEntry::File { name: "gone.dtf".to_string(), data: None },
        FolderEntry::File { name: "notes.txt".to_string(), data: Some(b"hello".to_vec()) },
        file("eth.dtf", "ETH", &every(0, 100, 10, 9)),
        file("btc.dtf", "BTC", &every(0, 100, 50, 1)),
        file("empty.dtf", "BTC", &vec![]),
    ]);
    assert_eq!(total_folder_updates_len(&f), Ok(14));
    assert_eq!(total_folder_updates_len(&folder(vec![])), Ok(0));
}

#[test]
fn total_refuses_counts_beyond_the_machine() {
    let mut huge = encode("BTC", &vec![]).unwrap();
    for b in huge[26..34].iter_mut() {
        *b = 0xff;
    }
    let f = folder(vec![
        FolderEntry::File { name: "a.dtf".to_string(), data: Some(huge.clone()) },
        file("b.dtf", "BTC", &vec![quote(1, 1)]),
    ]);
    assert_eq!(total_folder_updates_len(&f), Err(Error::CorruptFile));
}

#[test]
fn entries_are_probed() {
    let bytes = encode("BTC", &vec![quote(3, 1), quote(8, 2)]).unwrap();
    let meta = read_meta(&bytes).unwrap();
    let entry = FolderEntry::File { name: "a.dtf".to_string(), data: Some(bytes) };
    assert_eq!(
        parse_dtf_entry("db", &entry),
        Ok(Some(InputFile { filename: "db/a.dtf".to_string(), metadata: meta }))
    );
    assert_eq!(parse_dtf_entry("db", &FolderEntry::Unnamed), Ok(None));
    assert_eq!(parse_dtf_entry("db", &FolderEntry::Failed), Err(Error::IoError));
    let gone = FolderEntry::File { name: "a.dtf".to_string(), data: None };
    assert_eq!(parse_dtf_entry("db", &gone), Err(Error::IoError));
    let junk = FolderEntry::File { name: "a.dtf".to_string(), data: Some(vec![1, 2, 3]) };
    assert_eq!(parse_dtf_entry("db", &junk), Err(Error::CorruptFile));
    assert_eq!(entry_path("/var/db", "x.dtf"), "/var/db/x.dtf");
}

fn named(name: &str, symbol: &str, count: u64, min_ts: u64, max_ts: u64) -> InputFile {
    InputFile {
        filename: name.to_string(),
        metadata: tectonic::dtf::Metadata { symbol: symbol.to_string(), count, min_ts, max_ts },
    }
}

#[test]
fn file_order_goes_by_header_then_name_then_place() {
    let files = vec![
        named("z", "BTC", 1, 5, 9),
        named("a", "BTC", 1, 5, 9),
        named("m", "BTC", 1, 2, 9),
        named("b", "BTC", 1, 5, 8),
        named("c", "BTC", 0, 5, 9),
        named("d", "AAA", 1, 5, 9),
        named("a", "BTC", 1, 5, 9),
    ];
    assert_eq!(metadata_order(&files), vec![2, 3, 4, 5, 1, 6, 0]);
    assert_eq!(metadata_order(&vec![]), Vec::<usize>::new());
}

#[test]
fn texts_are_ordered_byte_by_byte() {
    assert_eq!(rank_text("", ""), Rank::Equal);
    assert_eq!(rank_text("", "a"), Rank::Less);
    assert_eq!(rank_text("ab", "a"), Rank::Greater);
    assert_eq!(rank_text("abc", "abd"), Rank::Less);
    assert_eq!(rank_text("b", "abd"), Rank::Greater);
    assert_eq!(rank_text("BTC", "BTC"), Rank::Equal);
    assert_eq!(rank_text("Z", "a"), Rank::Less);
    assert_eq!(rank_text("z", "é"), Rank::Less);
    assert_eq!(rank_bytes(&[1, 2, 255], &[1, 3]), Rank::Less);
}

#[test]
fn insert_unique_keeps_the_vector_ascending() {
    let mut v: Vec<String> = Vec::new();
    for s in ["m", "a", "z", "m", "b", "a"] {
        insert_unique(&mut v, s.to_string());
    }
    assert_eq!(v, vec!["a", "b", "m", "z"]);
    assert!(!insert_unique(&mut v, "b".to_string()));
    assert!(insert_unique(&mut v, "c".to_string()));
    assert_eq!(v, vec!["a", "b", "c", "m", "z"]);
}

#[test]
fn plugins_start_in_order() {
    let none = PluginSettings { gcs: false, autoflusher: false };
    let all = PluginSettings { gcs: true, autoflusher: true };
    assert_eq!(run_plugins(&none), vec![Plugin::History]);
    assert_eq!(run_plugins(&all), vec![Plugin::History, Plugin::GStorage, Plugin::Autoflusher]);
    assert_eq!(
        run_plugins(&PluginSettings { gcs: false, autoflusher: true }),
        vec![Plugin::History, Plugin::Autoflusher]
    );
    assert_eq!(run_plugin_exit_hooks(&none), vec![]);
    assert_eq!(run_plugin_exit_hooks(&all), vec![Plugin::GStorage]);
}

#[test]
fn files_are_staged_by_size() {
    let files = vec![
        DirFile { name: "a.dtf".to_string(), size: Some(10) },
        DirFile { name: "b.dtf".to_string(), size: None },
        DirFile { name: "c.dtf".to_string(), size: Some(100) },
        DirFile { name: "d.dtf".to_string(), size: Some(0) },
    ];
    assert_eq!(copy_files(&files, Some(10)), vec![0, 2]);
    assert_eq!(copy_files(&files, Some(11)), vec![2]);
    assert_eq!(copy_files(&files, Some(0)), vec![0, 2, 3]);
    assert_eq!(copy_files(&files, None), vec![0, 2, 3]);
    assert_eq!(run_exit_hook(&files), vec![0, 2, 3]);
    assert_eq!(staged_name("1b4e28ba", "a.dtf"), "1b4e28ba-a.dtf");
}

fn run(settings: &UploadSettings, fails_at: Option<UploadStep>) -> Vec<UploadStep> {
    let mut steps = Vec::new();
    let mut done = None;
    while let Some(step) = upload_file(settings, done) {
        steps.push(step);
        done = Some((step, Some(step) != fails_at));
    }
    steps
}

#[test]
fn upload_goes_step_by_step() {
    let (name, prepare, upload, announce, remove) = (
        UploadStep::Name,
        UploadStep::Prepare,
        UploadStep::Upload,
        UploadStep::Announce,
        UploadStep::Remove,
    );
    let both = UploadSettings { announce: true, remove: true };
    let keep = UploadSettings { announce: true, remove: false };
    let quiet = UploadSettings { announce: false, remove: true };
    assert_eq!(run(&both, None), vec![name, prepare, upload, announce, remove]);
    assert_eq!(run(&both, Some(name)), vec![name]);
    assert_eq!(run(&both, Some(prepare)), vec![name, prepare]);
    assert_eq!(run(&both, Some(upload)), vec![name, prepare, upload, remove]);
    assert_eq!(run(&both, Some(announce)), vec![name, prepare, upload, announce, remove]);
    assert_eq!(run(&keep, None), vec![name, prepare, upload, announce]);
    assert_eq!(run(&keep, Some(upload)), vec![name, prepare, upload]);
    assert_eq!(run(&quiet, None), vec![name, prepare, upload, remove]);
}

#[test]
fn workers_go_round() {
    use_autoflusher();
    let schedule = tectonic::plugins::gstorage::Schedule { upload_interval_secs: 60, min_file_size: 1024 };
    let sleep = tectonic::plugins::gstorage::Step::Sleep { secs: 60 };
    let stage = tectonic::plugins::gstorage::Step::Stage { min_file_size_bytes: 1024 };
    let upload = tectonic::plugins::gstorage::Step::UploadAll;
    assert_eq!(tectonic::plugins::gstorage::run(&schedule, None), sleep);
    assert_eq!(tectonic::plugins::gstorage::run(&schedule, Some(sleep)), stage);
    assert_eq!(tectonic::plugins::gstorage::run(&schedule, Some(stage)), upload);
    assert_eq!(tectonic::plugins::gstorage::run(&schedule, Some(upload)), sleep);
}

fn use_autoflusher() {
    let sleep = tectonic::plugins::autoflusher::Step::Sleep { secs: 21600 };
    let flush = tectonic::plugins::autoflusher::Step::Flush;
    assert_eq!(tectonic::plugins::autoflusher::run(21600, None), sleep);
    assert_eq!(tectonic::plugins::autoflusher::run(21600, Some(sleep)), flush);
    assert_eq!(tectonic::plugins::autoflusher::run(21600, Some(flush)), sleep);
}

#[test]
fn selected_files_come_in_file_order() {
    let f = folder(vec![
        FolderEntry::Failed,
        file("3.dtf", "BTC", &every(200, 300, 25, 3)),
        file("eth.dtf", "ETH", &every(0, 100, 10, 9)),
        file("1.dtf", "BTC", &every(0, 100, 25, 1)),
        file("late.dtf", "BTC", &every(500, 600, 10, 8)),
        file("2.dtf", "BTC", &every(50, 150, 20, 2)),
    ]);
    let picked = tectonic::scan::select_files(&f, "BTC", 75, 225).unwrap();
    let names: Vec<&str> = picked.iter().map(|p| p.filename.as_str()).collect();
    assert_eq!(names, vec!["db/1.dtf", "db/2.dtf", "db/3.dtf"]);
    assert_eq!(picked[1].metadata.min_ts, 50);
    let unreadable = Folder { path: "db".to_string(), entries: None };
    assert_eq!(tectonic::scan::select_files(&unreadable, "BTC", 0, 1), Err(Error::IoError));
}

#[test]
fn scan_needs_the_bodies_of_the_selected_files_only() {
    let whole = vec![
        file("1.dtf", "BTC", &every(0, 100, 25, 1)),
        file("late.dtf", "BTC", &every(500, 600, 10, 8)),
        file("eth.dtf", "ETH", &every(0, 100, 10, 9)),
    ];
    let heads: Vec<FolderEntry> = whole
        .iter()
        .enumerate()
        .map(|(i, e)| match e {
            FolderEntry::File { name, data: Some(bytes) } if i > 0 => {
                FolderEntry::File { name: name.clone(), data: Some(bytes[..50].to_vec()) }
            }
            FolderEntry::File { name, data } => {
                FolderEntry::File { name: name.clone(), data: data.clone() }
            }
            _ => FolderEntry::Failed,
        })
        .collect();
    assert_eq!(
        scan_files_for_range(&folder(heads), "BTC", 20, 80),
        scan_files_for_range(&folder(whole), "BTC", 20, 80)
    );
}

#[test]
fn fresh_names_end_in_the_file_name_and_differ() {
    let one = tectonic::plugins::gstorage::fresh_staged_name("a.dtf");
    let two = tectonic::plugins::gstorage::fresh_staged_name("a.dtf");
    assert!(one.ends_with("-a.dtf"));
    assert!(two.ends_with("-a.dtf"));
    assert_eq!(one.len(), 36 + "-a.dtf".len());
    for at in [8, 13, 18, 23, 36] {
        assert_eq!(one.as_bytes()[at], b'-');
    }
    assert_ne!(one, two);
}

#[test]
fn total_is_the_length_of_a_scan_over_all_time() {
    let f = folder(vec![
        FolderEntry::Failed,
        file("3.dtf", "BTC", &every(200, 300, 25, 3)),
        FolderEntry::File { name: "notes.txt".to_string(), data: Some(b"hello".to_vec()) },
        file("1.dtf", "BTC", &every(0, 100, 25, 1)),
        file("empty.dtf", "BTC", &vec![]),
        file("2.dtf", "BTC", &every(50, 150, 20, 2)),
    ]);
    let all = scan_files_for_range(&f, "BTC", 0, u64::MAX).unwrap();
    assert_eq!(all.len(), 16);
    assert_eq!(total_folder_updates_len(&f), Ok(all.len()));
}
