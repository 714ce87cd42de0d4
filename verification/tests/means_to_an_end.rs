use protohackers::means_to_an_end::{decode_request, encode_mean, PriceLog, Request};

fn message(kind: u8, a: i32, b: i32) -> [u8; 9] {
    let mut m = [0u8; 9];
    m[0] = kind;
    m[1..5].copy_from_slice(&a.to_be_bytes());
    m[5..9].copy_from_slice(&b.to_be_bytes());
    m
}

#[test]
fn decode_example_messages() {
    let insert = [0x49, 0x00, 0x00, 0x30, 0x39, 0x00, 0x00, 0x00, 0x65];
    assert_eq!(decode_request(&insert), Request::Insert { timestamp: 12345, price: 101 });
    let query = [0x51, 0x00, 0x00, 0x03, 0xe8, 0x00, 0x01, 0x86, 0xa0];
    assert_eq!(decode_request(&query), Request::Query { mintime: 1000, maxtime: 100000 });
    let negative = message(b'I', -5, i32::MIN);
    assert_eq!(decode_request(&negative), Request::Insert { timestamp: -5, price: i32::MIN });
    let other = message(b'X', 1, 2);
    assert_eq!(decode_request(&other), Request::Query { mintime: 1, maxtime: 2 });
}

#[test]
fn encode_means() {
    assert_eq!(encode_mean(101), vec![0x00, 0x00, 0x00, 0x65]);
    assert_eq!(encode_mean(-1), vec![0xff, 0xff, 0xff, 0xff]);
    assert_eq!(encode_mean(i32::MIN), i32::MIN.to_be_bytes().to_vec());
}

#[test]
fn example_session() {
    let mut log = PriceLog::new();
    assert_eq!(log.handle(&message(b'I', 12345, 101)), None);
    assert_eq!(log.handle(&message(b'I', 12346, 102)), None);
    assert_eq!(log.handle(&message(b'I', 12347, 100)), None);
    assert_eq!(log.handle(&message(b'I', 40960, 5)), None);
    assert_eq!(log.handle(&message(b'Q', 12288, 16384)), Some(vec![0, 0, 0, 101]));
}

#[test]
fn means_round_toward_zero() {
    let mut log = PriceLog::new();
    log.insert(1, -3);
    log.insert(2, -4);
    assert_eq!(log.mean(0, 10), -3);
    log.insert(3, 8);
    assert_eq!(log.mean(0, 10), 0);
    assert_eq!(log.mean(3, 3), 8);
    assert_eq!(log.mean(2, 3), 2);
}

#[test]
fn empty_and_inverted_windows() {
    let mut log = PriceLog::new();
    assert_eq!(log.mean(0, 100), 0);
    log.insert(50, 7);
    assert_eq!(log.mean(100, 0), 0);
    assert_eq!(log.mean(51, 100), 0);
    assert_eq!(log.mean(50, 50), 7);
}

#[test]
fn extreme_prices() {
    let mut log = PriceLog::new();
    log.insert(1, i32::MAX);
    log.insert(2, i32::MAX);
    log.insert(3, i32::MAX);
    assert_eq!(log.mean(i32::MIN, i32::MAX), i32::MAX);
    let mut low = PriceLog::new();
    low.insert(1, i32::MIN);
    low.insert(2, i32::MIN);
    assert_eq!(low.mean(i32::MIN, i32::MAX), i32::MIN);
}

#[test]
fn encoded_mean_decodes_back() {
    for v in [0i32, 1, -1, 101, i32::MAX, i32::MIN, -123456] {
        let bytes = encode_mean(v);
        let msg = message(b'I', 0, 0);
        let mut m = msg;
        m[5..9].copy_from_slice(&bytes);
        assert_eq!(decode_request(&m), Request::Insert { timestamp: 0, price: v });
    }
}

#[test]
fn mean_lies_between_window_prices() {
    let mut log = PriceLog::new();
    let prices = [17, -40, 99, 3, 58, -7];
    for (t, p) in prices.iter().enumerate() {
        log.insert(t as i32, *p);
    }
    for lo in 0..6 {
        for hi in lo..6 {
            let window = &prices[lo as usize..=hi as usize];
            let m = log.mean(lo, hi);
            assert!(*window.iter().min().unwrap() <= m && m <= *window.iter().max().unwrap());
        }
    }
}
