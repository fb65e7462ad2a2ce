use tectonic::dtf::{decode, encode, read_meta};
use tectonic::error::Error;
use tectonic::files::InputFile;
use tectonic::merge::{combine_files, files_are_continuous, merge_updates, observed_symbols, sorted_union};
use tectonic::update::Update;

fn quote(ts: u64, seq: u32, price: f32, size: f32) -> Update {
    Update { ts, seq, is_trade: false, is_bid: true, price: price.to_bits(), size: size.to_bits() }
}

fn updates_from(timestamps: &[u64], seq_offset: usize) -> Vec<Update> {
    let mut last_timestamp = 0;
    let mut out = Vec::new();
    for (i, ts) in timestamps.iter().enumerate() {
        let price = *ts as f32 + if last_timestamp == *ts { 1. } else { 0. };
        out.push(quote(*ts, i as u32 + seq_offset as u32, price, *ts as f32));
        last_timestamp = *ts;
    }
    out
}

fn input(name: &str, bytes: &[u8]) -> InputFile {
    InputFile { filename: name.to_string(), metadata: read_meta(bytes).unwrap() }
}

fn file_of(name: &str, symbol: &str, updates: &Vec<Update>) -> (InputFile, Vec<u8>) {
    let bytes = encode(symbol, updates).unwrap();
    (input(name, &bytes), bytes)
}

fn span(symbol: &str, name: &str, min_ts: u64, max_ts: u64) -> (InputFile, Vec<u8>) {
    file_of(name, symbol, &vec![quote(min_ts, 0, 1.0, 1.0), quote(max_ts, 1, 1.0, 1.0)])
}

#[test]
fn dtf_merging() {
    let mut update_timestamps_1: Vec<u64> = (0..1000).collect();
    update_timestamps_1.append(&mut vec![1001, 1002, 1003, 1004, 1004, 1007, 1008, 1009, 1009, 1010]);
    let update_timestamps_2: &[u64] = &[1008, 1009, 1009, 1010, 1010, 1011, 1012];

    let updates1 = updates_from(&update_timestamps_1, 0);
    let updates2 = updates_from(update_timestamps_2, 1006);

    let filename1 = "test/test-data/dtfconcat1.dtf";
    let filename2 = "test/test-data/dtfconcat2.dtf";

    let bytes1 = encode("test", &updates1).unwrap();
    let bytes2 = encode("test", &updates2).unwrap();

    let metadata1 = read_meta(&bytes1).unwrap();
    let metadata2 = read_meta(&bytes2).unwrap();

    let expected_ts_price: &[(u64, f32)] = &[
        (1001, 1001.),
        (1002, 1002.),
        (1003, 1003.),
        (1004, 1004.),
        (1004, 1005.),
        (1007, 1007.),
        (1008, 1008.),
        (1009, 1009.),
        (1009, 1010.),
        (1010, 1010.),
        (1010, 1011.),
        (1011, 1011.),
        (1012, 1012.),
    ];

    let input_files = vec![
        InputFile { filename: filename1.to_string(), metadata: metadata1 },
        InputFile { filename: filename2.to_string(), metadata: metadata2 },
    ];
    let merged = combine_files(&input_files, &vec![bytes1, bytes2], 0).unwrap();
    let merged_updates: Vec<Update> = decode(&merged, None).unwrap();

    let actual_ts_price: Vec<(u64, f32)> = merged_updates
        .into_iter()
        .skip(1000)
        .map(|u| (u.ts, f32::from_bits(u.price)))
        .collect();

    assert_eq!(expected_ts_price, actual_ts_price.as_slice());
}

#[test]
fn overlapping_tail_keeps_the_records_before_it() {
    let a = updates_from(&[1001, 1002, 1003, 1004, 1004, 1007, 1008, 1009, 1009, 1010], 0);
    // the overlap holds the same records in both files
    let b = updates_from(&[1008, 1009, 1009, 1010, 1010, 1011, 1012], 6);
    let (fa, ba) = file_of("a.dtf", "test", &a);
    let (fb, bb) = file_of("b.dtf", "test", &b);
    let out = decode(&combine_files(&vec![fa, fb], &vec![ba, bb], 0).unwrap(), None).unwrap();
    let got: Vec<(u64, f32)> = out.iter().map(|u| (u.ts, f32::from_bits(u.price))).collect();
    assert_eq!(
        got,
        vec![
            (1001, 1001.),
            (1002, 1002.),
            (1003, 1003.),
            (1004, 1004.),
            (1004, 1005.),
            (1007, 1007.),
            (1008, 1008.),
            (1009, 1009.),
            (1009, 1010.),
            (1010, 1010.),
            (1010, 1011.),
            (1011, 1011.),
            (1012, 1012.),
        ]
    );
}

#[test]
fn exact_duplicate_in_overlap_is_kept_once() {
    let dup = quote(500, 7, 1.0, 1.0);
    let a = vec![quote(400, 1, 1.0, 1.0), dup];
    let b = vec![dup, quote(600, 9, 1.0, 1.0)];
    let (fa, ba) = file_of("a.dtf", "BTC", &a);
    let (fb, bb) = file_of("b.dtf", "BTC", &b);
    let out = decode(&combine_files(&vec![fa, fb], &vec![ba, bb], 0).unwrap(), None).unwrap();
    assert_eq!(out, vec![quote(400, 1, 1.0, 1.0), dup, quote(600, 9, 1.0, 1.0)]);
    assert_eq!(out.iter().filter(|u| **u == dup).count(), 1);
}

#[test]
fn same_ts_and_seq_with_different_price_both_survive() {
    let one = quote(500, 7, 1.0, 1.0);
    let two = quote(500, 7, 2.0, 1.0);
    let (fa, ba) = file_of("a.dtf", "BTC", &vec![quote(400, 1, 1.0, 1.0), two]);
    let (fb, bb) = file_of("b.dtf", "BTC", &vec![one, quote(600, 9, 1.0, 1.0)]);
    let out = decode(&combine_files(&vec![fa, fb], &vec![ba, bb], 0).unwrap(), None).unwrap();
    assert_eq!(out, vec![quote(400, 1, 1.0, 1.0), one, two, quote(600, 9, 1.0, 1.0)]);
}

#[test]
fn gap_wider_than_tolerance_is_discontinuous() {
    let (fa, ba) = span("BTC", "a.dtf", 10, 100);
    let (fb, bb) = span("BTC", "b.dtf", 200, 300);
    let files = vec![fa, fb];
    let contents = vec![ba, bb];
    assert_eq!(
        combine_files(&files, &contents, 50),
        Err(Error::Discontinuous {
            before: "a.dtf".to_string(),
            after: "b.dtf".to_string(),
            gap: 100
        })
    );
    assert!(!files_are_continuous(&files, 50));
    assert!(!files_are_continuous(&files, 99));
    assert!(files_are_continuous(&files, 100));
    let out = combine_files(&files, &contents, 100).unwrap();
    assert_eq!(decode(&out, None).unwrap().len(), 4);
}

#[test]
fn zero_tolerance_accepts_abutting_files() {
    let (fa, ba) = span("BTC", "a.dtf", 10, 100);
    let (fb, bb) = span("BTC", "b.dtf", 100, 300);
    assert!(combine_files(&vec![fa, fb], &vec![ba, bb], 0).is_ok());
    let (fa, ba) = span("BTC", "a.dtf", 10, 100);
    let (fc, bc) = span("BTC", "c.dtf", 101, 300);
    assert_eq!(
        combine_files(&vec![fa, fc], &vec![ba, bc], 0),
        Err(Error::Discontinuous { before: "a.dtf".to_string(), after: "c.dtf".to_string(), gap: 1 })
    );
}

#[test]
fn different_symbols_are_a_mismatch() {
    let (fa, ba) = span("BTC", "a.dtf", 10, 100);
    let (fb, bb) = span("BTC", "b.dtf", 100, 200);
    let (fc, bc) = span("ETH", "c.dtf", 200, 300);
    let files = vec![fa, fb, fc];
    assert_eq!(observed_symbols(&files), vec!["BTC".to_string(), "ETH".to_string()]);
    assert_eq!(
        combine_files(&files, &vec![ba, bb, bc], 0),
        Err(Error::SymbolMismatch { observed: vec!["BTC".to_string(), "ETH".to_string()] })
    );
}

#[test]
fn observed_symbols_are_sorted_whatever_the_order_of_the_files() {
    let (fa, _) = span("ETH", "a.dtf", 10, 100);
    let (fb, _) = span("BTC", "b.dtf", 100, 200);
    let (fc, _) = span("ETH", "c.dtf", 200, 300);
    assert_eq!(observed_symbols(&vec![fa, fb, fc]), vec!["BTC".to_string(), "ETH".to_string()]);
}

#[test]
fn fewer_than_two_inputs_are_invalid() {
    let (fa, ba) = span("BTC", "a.dtf", 10, 100);
    assert_eq!(combine_files(&vec![], &vec![], 0), Err(Error::InvalidArgs));
    assert_eq!(combine_files(&vec![fa.clone()], &vec![ba.clone()], 0), Err(Error::InvalidArgs));
    assert_eq!(combine_files(&vec![fa.clone(), fa], &vec![ba], 0), Err(Error::InvalidArgs));
}

#[test]
fn corrupt_input_aborts_the_merge() {
    let (fa, ba) = span("BTC", "a.dtf", 10, 100);
    let (fb, mut bb) = span("BTC", "b.dtf", 100, 200);
    bb.pop();
    assert_eq!(combine_files(&vec![fa, fb], &vec![ba, bb], 0), Err(Error::CorruptFile));
}

fn in_order(files: &Vec<InputFile>, contents: &Vec<Vec<u8>>) -> (Vec<InputFile>, Vec<Vec<u8>>) {
    let order = tectonic::files::order_for_merge(files);
    (
        order.iter().map(|&i| files[i].clone()).collect(),
        order.iter().map(|&i| contents[i].clone()).collect(),
    )
}

#[test]
fn inputs_put_in_order_first_merge_as_if_given_in_order() {
    let (fa, ba) = span("BTC", "a.dtf", 10, 100);
    let (fb, bb) = span("BTC", "b.dtf", 100, 200);
    let sorted = combine_files(&vec![fa.clone(), fb.clone()], &vec![ba.clone(), bb.clone()], 0);
    let (files, contents) = in_order(&vec![fb, fa], &vec![bb, ba]);
    assert!(sorted.is_ok());
    assert_eq!(sorted, combine_files(&files, &contents, 0));
}

#[test]
fn merging_a_file_with_itself_gives_the_file() {
    let body = vec![quote(5, 0, 1.0, 1.0), quote(5, 1, 1.0, 1.0), quote(9, 2, 3.0, 1.0)];
    let (f, _) = file_of("a.dtf", "BTC", &body);
    assert_eq!(merge_updates(&vec![f.clone(), f], &vec![body.clone(), body.clone()]), body);
}

#[test]
fn merging_a_file_that_starts_at_zero_with_itself_repeats_the_start() {
    let body = vec![quote(0, 0, 1.0, 1.0), quote(9, 2, 3.0, 1.0)];
    let (f, _) = file_of("a.dtf", "BTC", &body);
    assert_eq!(
        merge_updates(&vec![f.clone(), f], &vec![body.clone(), body.clone()]),
        vec![quote(0, 0, 1.0, 1.0), quote(0, 0, 1.0, 1.0), quote(9, 2, 3.0, 1.0)]
    );
}

#[test]
fn disjoint_files_merge_to_their_concatenation() {
    let a = vec![quote(5, 0, 1.0, 1.0), quote(5, 0, 1.0, 1.0), quote(7, 1, 1.0, 1.0)];
    let b = vec![quote(8, 0, 1.0, 1.0), quote(20, 1, 1.0, 1.0)];
    let c = vec![quote(30, 0, 1.0, 1.0)];
    let (fa, _) = file_of("a.dtf", "BTC", &a);
    let (fb, _) = file_of("b.dtf", "BTC", &b);
    let (fc, _) = file_of("c.dtf", "BTC", &c);
    let mut all = a.clone();
    all.extend(b.clone());
    all.extend(c.clone());
    assert_eq!(merge_updates(&vec![fa, fb, fc], &vec![a, b, c]), all);
}

#[test]
fn merged_output_is_strictly_ascending() {
    let a = vec![quote(1, 0, 1.0, 1.0), quote(4, 1, 1.0, 1.0), quote(6, 2, 1.0, 1.0)];
    let b = vec![quote(4, 1, 1.0, 1.0), quote(5, 7, 1.0, 1.0), quote(6, 2, 1.0, 1.0), quote(8, 3, 1.0, 1.0)];
    let c = vec![quote(7, 0, 1.0, 1.0), quote(8, 3, 1.0, 1.0), quote(9, 0, 1.0, 1.0)];
    let (fa, _) = file_of("a.dtf", "BTC", &a);
    let (fb, _) = file_of("b.dtf", "BTC", &b);
    let (fc, _) = file_of("c.dtf", "BTC", &c);
    let out = merge_updates(&vec![fa, fb, fc], &vec![a, b, c]);
    let ts_seq: Vec<(u64, u32)> = out.iter().map(|u| (u.ts, u.seq)).collect();
    assert_eq!(ts_seq, vec![(1, 0), (4, 1), (5, 7), (6, 2), (7, 0), (8, 3), (9, 0)]);
    for pair in out.windows(2) {
        assert!(pair[0].precedes(&pair[1]));
    }
}

#[test]
fn file_inside_the_previous_file_flows_through_the_union() {
    let a = vec![quote(1, 0, 1.0, 1.0), quote(5, 1, 1.0, 1.0), quote(9, 2, 1.0, 1.0)];
    let b = vec![quote(4, 0, 1.0, 1.0), quote(5, 1, 1.0, 1.0)];
    let (fa, _) = file_of("a.dtf", "BTC", &a);
    let (fb, _) = file_of("b.dtf", "BTC", &b);
    let out = merge_updates(&vec![fa, fb], &vec![a, b]);
    let ts_seq: Vec<(u64, u32)> = out.iter().map(|u| (u.ts, u.seq)).collect();
    assert_eq!(ts_seq, vec![(1, 0), (4, 0), (5, 1), (9, 2)]);
}

#[test]
fn empty_file_is_passed_over() {
    let a = vec![quote(1, 0, 1.0, 1.0), quote(5, 1, 1.0, 1.0)];
    let (fe, _) = file_of("e.dtf", "BTC", &vec![]);
    let (fa, _) = file_of("a.dtf", "BTC", &a);
    assert_eq!(merge_updates(&vec![fe, fa], &vec![vec![], a.clone()]), a);
}

#[test]
fn sorted_union_sorts_and_drops_repeats() {
    let a = vec![quote(3, 0, 1.0, 1.0), quote(1, 0, 1.0, 1.0)];
    let b = vec![quote(2, 0, 1.0, 1.0), quote(3, 0, 1.0, 1.0), quote(3, 0, 2.0, 1.0)];
    assert_eq!(
        sorted_union(&a, &b),
        vec![quote(1, 0, 1.0, 1.0), quote(2, 0, 1.0, 1.0), quote(3, 0, 1.0, 1.0), quote(3, 0, 2.0, 1.0)]
    );
}

#[test]
fn boundary_timestamp_is_an_overlap() {
    let shared = quote(100, 5, 1.0, 1.0);
    let a = vec![quote(90, 1, 1.0, 1.0), shared];
    let b = vec![quote(100, 4, 1.0, 1.0), shared, quote(110, 6, 1.0, 1.0)];
    let (fa, _) = file_of("a.dtf", "BTC", &a);
    let (fb, _) = file_of("b.dtf", "BTC", &b);
    assert_eq!(
        merge_updates(&vec![fa, fb], &vec![a, b]),
        vec![quote(90, 1, 1.0, 1.0), quote(100, 4, 1.0, 1.0), shared, quote(110, 6, 1.0, 1.0)]
    );
}

#[test]
fn repeats_within_one_file_outside_any_overlap_survive() {
    let a = vec![quote(5, 1, 1.0, 1.0), quote(5, 1, 1.0, 1.0), quote(7, 2, 1.0, 1.0)];
    let b = vec![quote(7, 2, 1.0, 1.0), quote(7, 2, 1.0, 1.0), quote(9, 3, 1.0, 1.0)];
    let (fa, _) = file_of("a.dtf", "BTC", &a);
    let (fb, _) = file_of("b.dtf", "BTC", &b);
    let out = merge_updates(&vec![fa, fb], &vec![a, b]);
    let ts: Vec<u64> = out.iter().map(|u| u.ts).collect();
    assert_eq!(ts, vec![5, 5, 7, 9]);
}

#[test]
fn three_files_with_one_moment_in_all_repeat_it() {
    let x = quote(10, 1, 1.0, 1.0);
    let a = vec![quote(1, 0, 1.0, 1.0), x, quote(20, 2, 1.0, 1.0)];
    let b = vec![quote(5, 0, 1.0, 1.0), x, quote(12, 2, 1.0, 1.0)];
    let c = vec![x, quote(30, 2, 1.0, 1.0)];
    let (fa, _) = file_of("a.dtf", "BTC", &a);
    let (fb, _) = file_of("b.dtf", "BTC", &b);
    let (fc, _) = file_of("c.dtf", "BTC", &c);
    let out = merge_updates(&vec![fa, fb, fc], &vec![a, b, c]);
    assert_eq!(out.iter().filter(|u| **u == x).count(), 2);
}

#[test]
fn merged_file_names_its_range() {
    let (fa, ba) = span("BTC", "a.dtf", 10, 100);
    let (fb, bb) = span("BTC", "b.dtf", 90, 300);
    let out = combine_files(&vec![fa, fb], &vec![ba, bb], 0).unwrap();
    let meta = read_meta(&out).unwrap();
    assert_eq!((meta.symbol.as_str(), meta.count, meta.min_ts, meta.max_ts), ("BTC", 4, 10, 300));
}

fn next(state: &mut u64) -> u64 {
    *state = state.wrapping_mul(6364136223846793005).wrapping_add(1442695040888963407);
    *state >> 33
}

fn by_total_order(mut updates: Vec<Update>) -> Vec<Update> {
    updates.sort_by(|a, b| {
        if a.precedes(b) {
            std::cmp::Ordering::Less
        } else if b.precedes(a) {
            std::cmp::Ordering::Greater
        } else {
            std::cmp::Ordering::Equal
        }
    });
    updates.dedup();
    updates
}

#[test]
fn overlapping_neighbours_merge_to_their_sorted_union() {
    let mut state = 7u64;
    for round in 0..50u64 {
        // a pool of updates in ascending order, cut into files that overlap their neighbours
        let mut pool = Vec::new();
        let mut ts = 1 + next(&mut state) % 5;
        for seq in 0..(20 + next(&mut state) % 40) {
            pool.push(quote(ts, seq as u32, (next(&mut state) % 3) as f32, 1.0));
            ts += next(&mut state) % 4;
        }
        let pool = by_total_order(pool);
        let mut files = Vec::new();
        let mut bodies = Vec::new();
        let mut start = 0usize;
        let mut previous_end_ts = 0u64;
        while start < pool.len() {
            let len = 3 + (next(&mut state) % 8) as usize;
            let end = (start + len).min(pool.len());
            let mut from = start;
            // reach back into the file before, but not beyond what the one before that held
            let back = (next(&mut state) % 3) as usize;
            while from > 0 && start - from < back && pool[from - 1].ts > previous_end_ts {
                from -= 1;
            }
            if start > 0 {
                previous_end_ts = pool[start - 1].ts;
            }
            let body: Vec<Update> = pool[from..end].to_vec();
            let (file, _) = file_of(&format!("{}-{}.dtf", round, files.len()), "BTC", &body);
            files.push(file);
            bodies.push(body);
            start = end;
        }
        let merged = merge_updates(&files, &bodies);
        let mut all: Vec<Update> = Vec::new();
        for body in &bodies {
            all.extend(body.iter().copied());
        }
        assert_eq!(merged, by_total_order(all), "round {}", round);
    }
}

fn headed(name: &str, min_ts: u64, max_ts: u64) -> (InputFile, Vec<u8>) {
    span("BTC", name, min_ts, max_ts)
}

#[test]
fn tied_starts_keep_the_order_given_and_the_gap_is_found() {
    let (a, ba) = headed("a.dtf", 0, 100);
    let (b, bb) = headed("b.dtf", 0, 5);
    let (c, bc) = headed("c.dtf", 60, 70);
    let files = vec![a, b, c];
    let contents = vec![ba, bb, bc];
    assert_eq!(
        combine_files(&files, &contents, 50),
        Err(Error::Discontinuous { before: "b.dtf".to_string(), after: "c.dtf".to_string(), gap: 55 })
    );
    assert!(combine_files(&files, &contents, 55).is_ok());
}

#[test]
fn tied_starts_keep_the_order_given_whatever_the_names() {
    let (z, bz) = headed("z.dtf", 0, 100);
    let (b, bb) = headed("b.dtf", 0, 5);
    let (c, bc) = headed("c.dtf", 60, 70);
    assert_eq!(
        combine_files(&vec![z, b, c], &vec![bz, bb, bc], 50),
        Err(Error::Discontinuous { before: "b.dtf".to_string(), after: "c.dtf".to_string(), gap: 55 })
    );
}

#[test]
fn a_list_out_of_order_is_taken_by_start_then_name_then_place() {
    let (c, _) = headed("c.dtf", 60, 70);
    let (z, _) = headed("z.dtf", 0, 100);
    let (b, _) = headed("b.dtf", 0, 5);
    let (b2, _) = headed("b.dtf", 0, 9);
    assert_eq!(tectonic::files::order_for_merge(&vec![c.clone(), z.clone(), b.clone(), b2.clone()]), vec![2, 3, 1, 0]);
    assert_eq!(tectonic::files::order_for_merge(&vec![z, b, b2, c]), vec![0, 1, 2, 3]);
    assert_eq!(tectonic::files::order_for_merge(&vec![]), Vec::<usize>::new());
}

#[test]
fn a_gap_between_neighbours_as_given_is_refused_also_out_of_order() {
    let (first, b1) = headed("1.dtf", 0, 100);
    let (second, b2) = headed("2.dtf", 200, 300);
    let (third, b3) = headed("3.dtf", 50, 250);
    let files = vec![first, second, third];
    let contents = vec![b1, b2, b3];
    assert_eq!(
        combine_files(&files, &contents, 0),
        Err(Error::Discontinuous { before: "1.dtf".to_string(), after: "2.dtf".to_string(), gap: 100 })
    );
    assert!(!files_are_continuous(&files, 0));
    // put in order, no file is followed by a gap
    let (files, contents) = in_order(&files, &contents);
    let names: Vec<&str> = files.iter().map(|f| f.filename.as_str()).collect();
    assert_eq!(names, vec!["1.dtf", "3.dtf", "2.dtf"]);
    assert!(combine_files(&files, &contents, 0).is_ok());
}

#[test]
fn a_list_out_of_order_without_a_gap_is_merged_as_given() {
    let a = vec![quote(10, 0, 1.0, 1.0), quote(20, 1, 1.0, 1.0)];
    let b = vec![quote(30, 0, 1.0, 1.0), quote(40, 1, 1.0, 1.0)];
    let (fa, ba) = file_of("a.dtf", "BTC", &a);
    let (fb, bb) = file_of("b.dtf", "BTC", &b);
    let files = vec![fb, fa];
    let bodies = vec![b, a];
    let out = decode(&combine_files(&files, &vec![bb, ba], 0).unwrap(), None).unwrap();
    assert_eq!(out, merge_updates(&files, &bodies));
}

#[test]
fn a_header_that_names_another_range_than_the_body_holds_is_not_refused() {
    let (a, ba) = headed("a.dtf", 10, 100);
    let (b, bb) = headed("b.dtf", 100, 200);
    let right = combine_files(&vec![a.clone(), b.clone()], &vec![ba.clone(), bb.clone()], 0);
    assert!(right.is_ok());
    let mut other = b.clone();
    other.metadata.max_ts = 150;
    assert_eq!(combine_files(&vec![a.clone(), other], &vec![ba.clone(), bb.clone()], 0), right);
    let mut other = b;
    other.metadata.min_ts = 90;
    assert_eq!(combine_files(&vec![a, other], &vec![ba, bb], 0), right);
}

#[test]
fn where_header_and_body_disagree_the_body_is_trusted() {
    let (a, ba) = headed("a.dtf", 10, 100);
    let (_, mut bb) = headed("b.dtf", 100, 200);
    // the header now names 100..250, the last update is at 200
    bb[42] = 250;
    let b = input("b.dtf", &bb);
    assert_eq!(b.metadata.max_ts, 250);
    let late = vec![quote(220, 0, 1.0, 1.0), quote(230, 1, 1.0, 1.0), quote(230, 1, 1.0, 1.0), quote(300, 2, 1.0, 1.0)];
    let (c, bc) = file_of("c.dtf", "BTC", &late);
    let out = decode(
        &combine_files(&vec![a.clone(), b.clone(), c], &vec![ba.clone(), bb.clone(), bc], 0).unwrap(),
        None,
    )
    .unwrap();
    // by the header, c up to 250 would be shared with b and lose its repeat
    let ts: Vec<u64> = out.iter().map(|u| u.ts).collect();
    assert_eq!(ts, vec![10, 100, 100, 200, 220, 230, 230, 300]);
    // gaps are looked for between the headers as given
    let (d, bd) = headed("d.dtf", 400, 500);
    assert_eq!(
        combine_files(&vec![a, b, d], &vec![ba, bb, bd], 0),
        Err(Error::Discontinuous { before: "b.dtf".to_string(), after: "d.dtf".to_string(), gap: 150 })
    );
}

#[test]
fn repeated_updates_in_ordered_files_come_out_in_order() {
    let a = vec![quote(5, 1, 1.0, 1.0), quote(5, 1, 1.0, 1.0), quote(7, 2, 1.0, 1.0), quote(9, 3, 1.0, 1.0)];
    let b = vec![quote(9, 3, 1.0, 1.0), quote(9, 3, 1.0, 1.0), quote(12, 4, 1.0, 1.0), quote(12, 4, 1.0, 1.0)];
    let (fa, ba) = file_of("a.dtf", "BTC", &a);
    let (fb, bb) = file_of("b.dtf", "BTC", &b);
    let out = decode(&combine_files(&vec![fa, fb], &vec![ba, bb], 0).unwrap(), None).unwrap();
    let ts: Vec<u64> = out.iter().map(|u| u.ts).collect();
    assert_eq!(ts, vec![5, 5, 7, 9, 12, 12]);
    assert!(tectonic::update::is_sorted(&out));
}
