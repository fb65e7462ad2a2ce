use tectonic::dtf::{decode, encode, read_meta};
use tectonic::error::Error;
use tectonic::split::{chunks, piece_filename, split, stream, Piece};
use tectonic::update::Update;

fn quote(ts: u64) -> Update {
    Update { ts, seq: ts as u32, is_trade: false, is_bid: true, price: 0, size: 0 }
}

fn run_of(n: u64) -> Vec<Update> {
    (1..=n).map(quote).collect()
}

fn lengths(batches: &Vec<Vec<Update>>) -> Vec<usize> {
    batches.iter().map(|b| b.len()).collect()
}

#[test]
fn stream_cuts_batches_of_equal_size() {
    let bytes = encode("BTC", &run_of(7)).unwrap();
    let batches = stream(&bytes, 3).unwrap();
    assert_eq!(lengths(&batches), vec![3, 3, 1]);
    assert_eq!(batches.concat(), run_of(7));
    assert_eq!(lengths(&stream(&bytes, 7).unwrap()), vec![7]);
    assert_eq!(lengths(&stream(&bytes, 8).unwrap()), vec![7]);
    assert_eq!(lengths(&stream(&bytes, 1).unwrap()), vec![1; 7]);
    let empty = encode("BTC", &vec![]).unwrap();
    assert_eq!(stream(&empty, 3).unwrap(), Vec::<Vec<Update>>::new());
}

#[test]
fn stream_refuses_a_batch_size_of_zero_and_corrupt_files() {
    let bytes = encode("BTC", &run_of(7)).unwrap();
    assert_eq!(stream(&bytes, 0), Err(Error::InvalidArgs));
    assert_eq!(stream(&bytes[..60], 0), Err(Error::InvalidArgs));
    assert_eq!(stream(&bytes[..60], 2), Err(Error::CorruptFile));
}

#[test]
fn chunks_regroup_by_bytes() {
    let batches = vec![run_of(7)[..4].to_vec(), run_of(7)[4..].to_vec()];
    assert_eq!(lengths(&chunks(&batches, 44)), vec![2, 2, 2, 1]);
    assert_eq!(lengths(&chunks(&batches, 65)), vec![2, 2, 2, 1]);
    assert_eq!(lengths(&chunks(&batches, 66)), vec![3, 3, 1]);
    assert_eq!(lengths(&chunks(&batches, 0)), vec![1; 7]);
    assert_eq!(lengths(&chunks(&batches, 21)), vec![1; 7]);
    assert_eq!(lengths(&chunks(&batches, u64::MAX)), vec![7]);
    assert_eq!(chunks(&batches, 50).concat(), run_of(7));
    assert_eq!(chunks(&vec![], 50), Vec::<Vec<Update>>::new());
}

#[test]
fn pieces_are_named_by_stem_and_index() {
    assert_eq!(piece_filename("test", 0), "test-0.dtf");
    assert_eq!(piece_filename("test", 7), "test-7.dtf");
    assert_eq!(piece_filename("test", 10), "test-10.dtf");
    assert_eq!(piece_filename("a.b", 1234567890), "a.b-1234567890.dtf");
    assert_eq!(piece_filename("", 109), "-109.dtf");
}

#[test]
fn split_by_count_keeps_order_and_symbol() {
    let all = run_of(5);
    let bytes = encode("ETH", &all).unwrap();
    let pieces = split(&bytes, "big", Some(2), None).unwrap();
    let names: Vec<&str> = pieces.iter().map(|p| p.filename.as_str()).collect();
    assert_eq!(names, vec!["big-0.dtf", "big-1.dtf", "big-2.dtf"]);
    let mut read = Vec::new();
    for piece in &pieces {
        assert_eq!(read_meta(&piece.bytes).unwrap().symbol, "ETH");
        read.extend(decode(&piece.bytes, None).unwrap());
    }
    assert_eq!(read, all);
    assert_eq!(
        pieces[2],
        Piece { filename: "big-2.dtf".to_string(), bytes: encode("ETH", &vec![quote(5)]).unwrap() }
    );
}

#[test]
fn split_by_size_fits_whole_updates() {
    let bytes = encode("ETH", &run_of(5)).unwrap();
    let pieces = split(&bytes, "big", None, Some(70)).unwrap();
    let counts: Vec<u64> = pieces.iter().map(|p| read_meta(&p.bytes).unwrap().count).collect();
    assert_eq!(counts, vec![3, 2]);
    let empty = encode("ETH", &vec![]).unwrap();
    assert_eq!(split(&empty, "big", None, Some(70)).unwrap(), vec![]);
}

#[test]
fn split_needs_just_one_size() {
    let bytes = encode("ETH", &run_of(5)).unwrap();
    assert_eq!(split(&bytes, "big", None, None), Err(Error::InvalidArgs));
    assert_eq!(split(&bytes, "big", Some(2), Some(70)), Err(Error::InvalidArgs));
    assert_eq!(split(&bytes, "big", Some(0), None), Err(Error::InvalidArgs));
    assert_eq!(split(&bytes, "big", None, Some(0)), Err(Error::InvalidArgs));
    assert_eq!(split(&bytes[..51], "big", None, None), Err(Error::InvalidArgs));
    assert_eq!(split(&bytes[..51], "big", Some(2), None), Err(Error::CorruptFile));
}

#[test]
fn split_refuses_a_symbol_that_cannot_be_written() {
    let mut bytes = encode("ETH", &run_of(5)).unwrap();
    bytes[6] = 0x07;
    assert_eq!(split(&bytes, "big", Some(2), None), Err(Error::InvalidSymbol));
}
