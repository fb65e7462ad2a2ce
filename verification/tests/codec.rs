use tectonic::dtf::{
    decode, encode, get_range_in_file, is_valid_symbol, read_meta, within_range, Metadata,
    HEADER_SIZE,
};
use tectonic::endian::{get_u32, get_u64, put_u32, put_u64};
use tectonic::error::Error;
use tectonic::order::Rank;
use tectonic::update::{select, Update, RECORD_SIZE};

fn quote(ts: u64, seq: u32, price: f32, size: f32) -> Update {
    Update { ts, seq, is_trade: false, is_bid: true, price: price.to_bits(), size: size.to_bits() }
}

fn sample() -> Vec<Update> {
    vec![
        quote(100, 1, 1.5, 2.0),
        Update { ts: 100, seq: 2, is_trade: true, is_bid: false, price: 3f32.to_bits(), size: 0 },
        quote(250, 3, -1.0, 2.0),
    ]
}

#[test]
fn little_endian_integers_read_and_write() {
    let mut out = vec![0xaau8];
    put_u32(&mut out, 0x0102_0304);
    put_u64(&mut out, 0x1122_3344_5566_7788);
    assert_eq!(
        out,
        vec![0xaa, 0x04, 0x03, 0x02, 0x01, 0x88, 0x77, 0x66, 0x55, 0x44, 0x33, 0x22, 0x11]
    );
    assert_eq!(get_u32(&out, 1), 0x0102_0304);
    assert_eq!(get_u64(&out, 5), 0x1122_3344_5566_7788);
    assert_eq!(get_u32(&[1, 0, 0, 0, 9], 0), 1);
    assert_eq!(get_u64(&[0, 1, 0, 0, 0, 0, 0, 0, 0], 1), 1);
}

#[test]
fn canonical_form_packs_the_six_fields() {
    let u = Update {
        ts: 0x0102_0304_0506_0708,
        seq: 0x0a0b_0c0d,
        is_trade: true,
        is_bid: false,
        price: 1.0f32.to_bits(),
        size: 2.0f32.to_bits(),
    };
    let bytes = u.to_bytes();
    assert_eq!(bytes.len(), RECORD_SIZE);
    assert_eq!(
        bytes,
        vec![
            0x08, 0x07, 0x06, 0x05, 0x04, 0x03, 0x02, 0x01, 0x0d, 0x0c, 0x0b, 0x0a, 1, 0, 0x00,
            0x00, 0x80, 0x3f, 0x00, 0x00, 0x00, 0x40
        ]
    );
    assert_eq!(Update::from_bytes(&bytes), Some(u));
}

#[test]
fn ill_formed_records_are_not_read() {
    let mut bytes = quote(1, 2, 3.0, 4.0).to_bytes();
    assert_eq!(Update::from_bytes(&bytes[..21]), None);
    bytes[12] = 2;
    assert_eq!(Update::from_bytes(&bytes), None);
    bytes[12] = 0;
    bytes[13] = 0xff;
    assert_eq!(Update::from_bytes(&bytes), None);
}

#[test]
fn total_order_goes_field_by_field() {
    let base = quote(5, 5, 1.0, 1.0);
    assert_eq!(base.compare(&base), Rank::Equal);
    assert!(quote(4, 9, 9.0, 9.0).precedes(&base));
    assert!(quote(5, 4, 9.0, 9.0).precedes(&base));
    let mut trade = base;
    trade.is_trade = true;
    assert!(base.precedes(&trade));
    let mut ask = base;
    ask.is_bid = false;
    assert!(ask.precedes(&base));
    assert!(base.precedes(&quote(5, 5, 2.0, 0.0)));
    assert!(base.precedes(&quote(5, 5, 1.0, 1.5)));
    assert_eq!(quote(5, 5, 2.0, 0.0).compare(&base), Rank::Greater);
    assert_eq!(base.compare(&quote(5, 5, 2.0, 0.0)), Rank::Less);
}

#[test]
fn prices_are_ordered_as_numbers() {
    let at = |p: f32| quote(1, 1, p, 0.0);
    assert!(at(-2.0).precedes(&at(-1.0)));
    assert!(at(-1.0).precedes(&at(-0.0)));
    assert!(at(-0.0).precedes(&at(0.0)));
    assert!(at(0.0).precedes(&at(0.5)));
    assert!(at(0.5).precedes(&at(1.0e30)));
    assert!(at(f32::NEG_INFINITY).precedes(&at(-1.0e30)));
    assert!(at(1.0e30).precedes(&at(f32::INFINITY)));
    assert!(!at(1.0).precedes(&at(1.0)));
}

#[test]
fn header_layout_is_fixed() {
    let bytes = encode("BTC", &sample()).unwrap();
    assert_eq!(bytes.len(), HEADER_SIZE + 3 * RECORD_SIZE);
    let mut header = vec![0x44, 0x54, 0x46, 0x90, 1, 3, b'B', b'T', b'C'];
    header.extend(vec![0u8; 17]);
    header.extend(vec![3, 0, 0, 0, 0, 0, 0, 0]);
    header.extend(vec![100, 0, 0, 0, 0, 0, 0, 0]);
    header.extend(vec![250, 0, 0, 0, 0, 0, 0, 0]);
    assert_eq!(&bytes[..HEADER_SIZE], header.as_slice());
    assert_eq!(&bytes[HEADER_SIZE..HEADER_SIZE + RECORD_SIZE], sample()[0].to_bytes().as_slice());
}

#[test]
fn written_file_reads_back() {
    let updates = sample();
    let bytes = encode("bnc_btc_usdt", &updates).unwrap();
    assert_eq!(decode(&bytes, None).unwrap(), updates);
    assert_eq!(decode(&bytes, Some(2)).unwrap(), updates[..2].to_vec());
    assert_eq!(decode(&bytes, Some(0)).unwrap(), vec![]);
    assert_eq!(decode(&bytes, Some(10)).unwrap(), updates);
    let unsorted = vec![quote(9, 0, 1.0, 1.0), quote(3, 0, 1.0, 1.0)];
    assert_eq!(decode(&encode("x", &unsorted).unwrap(), None).unwrap(), unsorted);
}

#[test]
fn header_agrees_with_the_body() {
    let updates = sample();
    let bytes = encode("ETH", &updates).unwrap();
    let meta = read_meta(&bytes).unwrap();
    let read = decode(&bytes, None).unwrap();
    assert_eq!(
        meta,
        Metadata { symbol: "ETH".to_string(), count: 3, min_ts: 100, max_ts: 250 }
    );
    assert_eq!(meta.count as usize, read.len());
    assert_eq!(meta.min_ts, read.first().unwrap().ts);
    assert_eq!(meta.max_ts, read.last().unwrap().ts);
    assert_eq!(read_meta(&bytes[..HEADER_SIZE]).unwrap(), meta);
}

#[test]
fn empty_file_has_zero_range() {
    let bytes = encode("ETH", &vec![]).unwrap();
    assert_eq!(bytes.len(), HEADER_SIZE);
    assert_eq!(
        read_meta(&bytes).unwrap(),
        Metadata { symbol: "ETH".to_string(), count: 0, min_ts: 0, max_ts: 0 }
    );
    assert_eq!(decode(&bytes, None).unwrap(), vec![]);
}

#[test]
fn sorted_updates_are_read_in_order() {
    let updates = sample();
    let read = decode(&encode("ETH", &updates).unwrap(), None).unwrap();
    for pair in read.windows(2) {
        assert!(pair[0].precedes(&pair[1]));
    }
}

#[test]
fn symbols_are_checked() {
    assert!(is_valid_symbol(""));
    assert!(is_valid_symbol("12345678901234567890"));
    assert!(!is_valid_symbol("123456789012345678901"));
    assert!(!is_valid_symbol("a\tb"));
    assert!(!is_valid_symbol("a\u{7f}"));
    assert!(!is_valid_symbol("a\0"));
    assert!(is_valid_symbol("ÉTH/₿"));
    assert_eq!(encode("123456789012345678901", &sample()), Err(Error::InvalidSymbol));
    assert_eq!(encode("bad\nsymbol", &sample()), Err(Error::InvalidSymbol));
    let bytes = encode("ÉTH/₿", &sample()).unwrap();
    assert_eq!(read_meta(&bytes).unwrap().symbol, "ÉTH/₿");
    assert_eq!(bytes[5], 8);
}

#[test]
fn corrupt_files_are_refused() {
    let good = encode("BTC", &sample()).unwrap();
    assert_eq!(read_meta(&good[..HEADER_SIZE - 1]), Err(Error::CorruptFile));
    assert_eq!(decode(&[], None), Err(Error::CorruptFile));
    let mut bad_magic = good.clone();
    bad_magic[3] = 0x91;
    assert_eq!(read_meta(&bad_magic), Err(Error::CorruptFile));
    assert_eq!(decode(&bad_magic, None), Err(Error::CorruptFile));
    let mut bad_version = good.clone();
    bad_version[4] = 2;
    assert_eq!(read_meta(&bad_version), Err(Error::CorruptFile));
    let mut long_symbol = good.clone();
    long_symbol[5] = 21;
    assert_eq!(read_meta(&long_symbol), Err(Error::CorruptFile));
    let mut bad_text = good.clone();
    bad_text[6] = 0xff;
    assert_eq!(read_meta(&bad_text), Err(Error::CorruptFile));
    let truncated = &good[..good.len() - 1];
    assert!(read_meta(truncated).is_ok());
    assert_eq!(decode(truncated, None), Err(Error::CorruptFile));
    let mut wrong_count = good.clone();
    wrong_count[26] = 2;
    assert_eq!(decode(&wrong_count, None), Err(Error::CorruptFile));
    let mut bad_flag = good.clone();
    bad_flag[HEADER_SIZE + 2 * RECORD_SIZE + 12] = 7;
    assert_eq!(decode(&bad_flag, None), Err(Error::CorruptFile));
    assert_eq!(decode(&bad_flag, Some(2)).unwrap(), sample()[..2].to_vec());
}

#[test]
fn window_overlap_counts_both_ends() {
    assert!(within_range(75, 225, 0, 100));
    assert!(within_range(75, 225, 225, 300));
    assert!(within_range(75, 225, 0, 75));
    assert!(!within_range(75, 225, 226, 300));
    assert!(!within_range(75, 225, 0, 74));
    assert!(within_range(75, 225, 100, 200));
    assert!(within_range(75, 225, 0, 1000));
}

#[test]
fn range_takes_the_updates_in_the_window() {
    let bytes = encode("BTC", &sample()).unwrap();
    assert_eq!(get_range_in_file(&bytes, 0, 1000).unwrap(), sample());
    assert_eq!(get_range_in_file(&bytes, 100, 100).unwrap(), sample()[..2].to_vec());
    assert_eq!(get_range_in_file(&bytes, 101, 250).unwrap(), sample()[2..].to_vec());
    assert_eq!(get_range_in_file(&bytes, 101, 249).unwrap(), vec![]);
    assert_eq!(get_range_in_file(&bytes, 251, 900).unwrap(), vec![]);
    assert_eq!(get_range_in_file(&bytes, 0, 99).unwrap(), vec![]);
}

#[test]
fn range_does_not_read_a_body_that_the_header_rules_out() {
    let mut bytes = encode("BTC", &sample()).unwrap();
    bytes.pop();
    assert_eq!(get_range_in_file(&bytes, 251, 900).unwrap(), vec![]);
    assert_eq!(get_range_in_file(&bytes, 0, 900), Err(Error::CorruptFile));
    assert_eq!(get_range_in_file(&bytes[..10], 0, 900), Err(Error::CorruptFile));
}

#[test]
fn select_keeps_order() {
    let updates = vec![quote(9, 0, 1.0, 1.0), quote(3, 1, 1.0, 1.0), quote(5, 2, 1.0, 1.0)];
    assert_eq!(select(&updates, 4, 9), vec![updates[0], updates[2]]);
    assert_eq!(select(&updates, 10, 4), vec![]);
    assert_eq!(select(&updates, -1, 3), vec![updates[1]]);
}

#[test]
fn written_files_are_well_formed_where_the_updates_are_in_order() {
    let good = encode("BTC", &sample()).unwrap();
    assert!(tectonic::update::is_sorted(&sample()));
    assert!(tectonic::dtf::is_well_formed(&good));
    assert!(tectonic::dtf::is_well_formed(&encode("BTC", &vec![]).unwrap()));
    let unsorted = vec![quote(9, 0, 1.0, 1.0), quote(3, 0, 1.0, 1.0)];
    assert!(!tectonic::update::is_sorted(&unsorted));
    assert!(!tectonic::dtf::is_well_formed(&encode("BTC", &unsorted).unwrap()));
    let repeated = vec![quote(3, 0, 1.0, 1.0), quote(3, 0, 1.0, 1.0)];
    assert!(tectonic::update::is_sorted(&repeated));
    let mut wrong_range = good.clone();
    wrong_range[34] = 99;
    assert!(decode(&wrong_range, None).is_ok());
    assert!(!tectonic::dtf::is_well_formed(&wrong_range));
    assert!(!tectonic::dtf::is_well_formed(&good[..good.len() - 1]));
    assert!(!tectonic::dtf::is_well_formed(&[]));
}
