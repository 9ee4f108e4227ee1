use lob_engine::state::OrderBook;
use lob_engine::fix_parse::parse_market_data;

#[test]
fn snapshot_then_incremental_delete() {
    let mut book = OrderBook::new();
    let snap = b"|35=W|269=0|270=1.10000|271=500|269=1|270=1.10005|271=400|";
    let entries = parse_market_data(snap);
    assert_eq!(entries.len(), 2);
    assert_eq!(entries[0].side, '0');
    assert_eq!(entries[0].action, '1');
    assert_eq!(entries[0].price_key, 110000);
    assert_eq!(entries[0].volume, 500);
    assert_eq!(entries[1].side, '1');
    assert_eq!(entries[1].price_key, 110005);
    assert_eq!(entries[1].volume, 400);
    for e in &entries {
        book.update(e.action, e.side, e.price_key, e.volume);
    }
    assert_eq!(book.get_best_bid(), Some(110000));
    assert_eq!(book.get_best_ask(), Some(110005));
    // mid price in micro units: 1.100025
    assert_eq!(book.get_mid_price(), Some(1100025));
    // imbalance (500 - 400) / 900 in micro units
    assert_eq!(book.get_imbalance(), 111111);

    let incr = b"|35=X|279=2|269=0|270=1.10000|";
    let entries2 = parse_market_data(incr);
    assert_eq!(entries2.len(), 1);
    assert_eq!(entries2[0].action, '2');
    for e in &entries2 {
        book.update(e.action, e.side, e.price_key, e.volume);
    }
    assert_eq!(book.get_best_bid(), None);
    assert_eq!(book.get_mid_price(), None);
}

#[test]
fn best_bid_stays_below_best_ask() {
    let mut book = OrderBook::new();
    let updates: Vec<(char, char, i64, u64)> = vec![
        ('1', '0', 110000, 500),
        ('1', '1', 110005, 400),
        ('1', '0', 110003, 200),
        ('1', '1', 110001, 300), // crosses the standing bids
        ('1', '0', 110010, 100), // crosses the standing asks
        ('2', '0', 110010, 0),
        ('1', '1', 110020, 50),
        ('1', '0', 109000, 75),
        ('0', '0', 109500, 0), // zero volume removes
    ];
    for (a, s, p, v) in updates {
        book.update(a, s, p, v);
        if let (Some(bb), Some(ba)) = (book.get_best_bid(), book.get_best_ask()) {
            assert!(bb < ba, "book crossed: {} >= {}", bb, ba);
        }
    }
}

#[test]
fn level_count_matches_distinct_upserts() {
    let mut book = OrderBook::new();
    let prices_bid = [100000i64, 100010, 100020, 100030];
    let prices_ask = [100100i64, 100110, 100120];
    for p in prices_bid {
        book.update('1', '0', p, 10);
    }
    for p in prices_ask {
        book.update('1', '1', p, 10);
    }
    assert_eq!(book.bids.len() + book.asks.len(), 7);
    // overwriting an existing price adds no level
    book.update('1', '0', 100010, 99);
    assert_eq!(book.bids.len() + book.asks.len(), 7);
}

#[test]
fn imbalance_range_and_zero() {
    let mut book = OrderBook::new();
    assert_eq!(book.get_imbalance(), 0); // both sides empty
    book.update('1', '0', 100000, 300);
    book.update('1', '1', 100100, 300);
    assert_eq!(book.get_imbalance(), 0); // equal volumes
    book.update('1', '1', 100100, 100);
    assert_eq!(book.get_imbalance(), 500000); // (300-100)/400 = 0.5
    book.update('2', '0', 100000, 0);
    assert_eq!(book.get_imbalance(), -1000000); // only an ask left
}

#[test]
fn intensity_and_depth_vector() {
    let mut book = OrderBook::new();
    book.update('1', '0', 100000, 300);
    book.update('1', '0', 99990, 200);
    book.update('1', '1', 100100, 100);
    assert_eq!(book.get_book_intensity(), 600);
    let dv = book.get_depth_vector(3);
    assert_eq!(dv.len(), 3);
    assert_eq!(dv[0], 500000); // (300-100)/400
    assert_eq!(dv[1], 1000000); // bid 200 vs nothing
    assert_eq!(dv[2], 0); // padding
}

#[test]
fn delete_of_absent_level_is_a_no_op() {
    let mut book = OrderBook::new();
    book.update('1', '0', 100000, 300);
    book.update('2', '0', 99999, 0);
    assert_eq!(book.get_best_bid(), Some(100000));
    assert_eq!(book.bids.len(), 1);
}
