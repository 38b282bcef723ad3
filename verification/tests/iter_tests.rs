use std::sync::Arc;

use mini_lsm::concat::{check_sst_valid, SstConcatIterator};
use mini_lsm::table::{Block, BlockIterator, SsTable, SsTableIterator};

fn bytes_of(s: &str) -> Vec<u8> {
    s.as_bytes().to_vec()
}

fn make_block(entries: &[(&str, &str)]) -> Arc<Block> {
    let mut v: Vec<(Vec<u8>, Vec<u8>)> = Vec::new();
    for (k, val) in entries {
        v.push((bytes_of(k), bytes_of(val)));
    }
    Arc::new(Block { entries: v })
}

fn make_table(blocks: &[&[(&str, &str)]]) -> Arc<SsTable> {
    let mut bs: Vec<Arc<Block>> = Vec::new();
    for b in blocks {
        bs.push(make_block(b));
    }
    Arc::new(SsTable { blocks: bs })
}

fn drain(mut it: SsTableIterator) -> Vec<(String, String)> {
    let mut out = Vec::new();
    while it.is_valid() {
        out.push((
            String::from_utf8(it.key().clone()).unwrap(),
            String::from_utf8(it.value().clone()).unwrap(),
        ));
        it.next();
    }
    out
}

fn drain_concat(mut it: SstConcatIterator) -> Vec<(String, String)> {
    let mut out = Vec::new();
    while it.is_valid() {
        out.push((
            String::from_utf8(it.key().clone()).unwrap(),
            String::from_utf8(it.value().clone()).unwrap(),
        ));
        it.next();
    }
    out
}

fn three_tables() -> Vec<Arc<SsTable>> {
    vec![
        make_table(&[&[("a", "1"), ("b", "2")], &[("c", "3")]]),
        make_table(&[&[("d", "4"), ("e", "5"), ("f", "6")]]),
        make_table(&[&[("g", "7")], &[("h", "8"), ("i", "9")]]),
    ]
}

#[test]
fn table_full_scan_is_ordered_and_complete() {
    let t = make_table(&[&[("a", "1"), ("b", "2")], &[("c", "3"), ("d", "4")], &[("e", "5")]]);
    let got = drain(SsTableIterator::create_and_seek_to_first(t));
    let keys: Vec<&str> = got.iter().map(|(k, _)| k.as_str()).collect();
    assert_eq!(keys, vec!["a", "b", "c", "d", "e"]);
    let vals: Vec<&str> = got.iter().map(|(_, v)| v.as_str()).collect();
    assert_eq!(vals, vec!["1", "2", "3", "4", "5"]);
    let mut sorted = keys.clone();
    sorted.sort();
    sorted.dedup();
    assert_eq!(sorted, keys, "keys must be strictly ascending");
}

#[test]
fn table_seek_lands_on_smallest_key_at_least_target() {
    let t = make_table(&[&[("a", "1"), ("c", "3")], &[("e", "5"), ("g", "7")]]);
    // exact hit
    let it = SsTableIterator::create_and_seek_to_key(t.clone(), &bytes_of("c"));
    assert!(it.is_valid());
    assert_eq!(it.key(), &bytes_of("c"));
    // key in the gap between two blocks: must land on the next block's first
    let it = SsTableIterator::create_and_seek_to_key(t.clone(), &bytes_of("d"));
    assert!(it.is_valid());
    assert_eq!(it.key(), &bytes_of("e"));
    // before everything
    let it = SsTableIterator::create_and_seek_to_key(t.clone(), &bytes_of("0"));
    assert!(it.is_valid());
    assert_eq!(it.key(), &bytes_of("a"));
    // past everything
    let it = SsTableIterator::create_and_seek_to_key(t.clone(), &bytes_of("z"));
    assert!(!it.is_valid());
}

#[test]
fn table_seek_then_reseek_in_place() {
    let t = make_table(&[&[("a", "1"), ("b", "2")], &[("c", "3")]]);
    let mut it = SsTableIterator::create_and_seek_to_key(t.clone(), &bytes_of("c"));
    assert_eq!(it.key(), &bytes_of("c"));
    it.seek_to_first();
    assert_eq!(it.key(), &bytes_of("a"));
    it.seek_to_key(&bytes_of("b"));
    assert_eq!(it.key(), &bytes_of("b"));
    assert_eq!(it.value(), &bytes_of("2"));
}

#[test]
fn table_first_and_last_key() {
    let t = make_table(&[&[("b", "1"), ("c", "2")], &[("d", "3"), ("f", "4")]]);
    assert_eq!(t.first_key(), &bytes_of("b"));
    assert_eq!(t.last_key(), &bytes_of("f"));
    assert_eq!(t.num_of_blocks(), 2);
}

#[test]
fn concat_yields_exact_concatenation() {
    let tables = three_tables();
    let got = drain_concat(SstConcatIterator::create_and_seek_to_first(tables));
    let keys: Vec<&str> = got.iter().map(|(k, _)| k.as_str()).collect();
    assert_eq!(keys, vec!["a", "b", "c", "d", "e", "f", "g", "h", "i"]);
    let vals: Vec<&str> = got.iter().map(|(_, v)| v.as_str()).collect();
    assert_eq!(vals, vec!["1", "2", "3", "4", "5", "6", "7", "8", "9"]);
}

#[test]
fn concat_seek_lands_in_middle_table() {
    // three tables with ranges [a,c], [d,f], [g,i]
    let tables = three_tables();
    let it = SstConcatIterator::create_and_seek_to_key(tables, &bytes_of("e"));
    assert!(it.is_valid());
    assert_eq!(it.key(), &bytes_of("e"));
}

#[test]
fn concat_seek_past_all_tables_is_invalid() {
    let tables = three_tables();
    let it = SstConcatIterator::create_and_seek_to_key(tables, &bytes_of("z"));
    assert!(!it.is_valid());
}

#[test]
fn concat_seek_below_all_tables_is_invalid() {
    let tables = three_tables();
    let it = SstConcatIterator::create_and_seek_to_key(tables, &bytes_of("0"));
    assert!(!it.is_valid());
}

#[test]
fn concat_seek_yields_suffix() {
    let tables = three_tables();
    let got = drain_concat(SstConcatIterator::create_and_seek_to_key(tables, &bytes_of("f")));
    let keys: Vec<&str> = got.iter().map(|(k, _)| k.as_str()).collect();
    assert_eq!(keys, vec!["f", "g", "h", "i"]);
}

#[test]
fn concat_seek_into_gap_between_tables() {
    // "cc" is greater than every key of table 0 and below table 1
    let tables = three_tables();
    let it = SstConcatIterator::create_and_seek_to_key(tables, &bytes_of("cc"));
    assert!(it.is_valid());
    assert_eq!(it.key(), &bytes_of("d"));
}

#[test]
fn concat_of_empty_run_is_invalid() {
    let it = SstConcatIterator::create_and_seek_to_first(Vec::new());
    assert!(!it.is_valid());
}

#[test]
fn concat_reports_one_active_iterator_throughout() {
    let tables = three_tables();
    let mut it = SstConcatIterator::create_and_seek_to_first(tables);
    assert_eq!(it.num_active_iterators(), 1);
    while it.is_valid() {
        assert_eq!(it.num_active_iterators(), 1);
        it.next();
    }
    assert_eq!(it.num_active_iterators(), 1);
}

#[test]
fn block_iterator_walks_one_block() {
    let b = make_block(&[("a", "1"), ("b", "2")]);
    let mut it = BlockIterator::create_and_seek_to_first(b.clone());
    assert!(it.is_valid());
    assert_eq!(it.key(), &bytes_of("a"));
    it.next();
    assert_eq!(it.value(), &bytes_of("2"));
    it.next();
    assert!(!it.is_valid());
    let it2 = BlockIterator::create_and_seek_to_key(b, &bytes_of("b"));
    assert_eq!(it2.key(), &bytes_of("b"));
}

#[test]
fn move_until_valid_skips_exhausted_table() {
    let tables = three_tables();
    let exhausted = SsTableIterator::create_and_seek_to_key(tables[0].clone(), &bytes_of("zz"));
    assert!(!exhausted.is_valid());
    let mut it = SstConcatIterator {
        current: Some(exhausted),
        next_sst_idx: 1,
        sstables: tables,
    };
    it.move_until_valid();
    assert!(it.is_valid());
    assert_eq!(it.key(), &bytes_of("d"));
}

#[test]
fn check_sst_valid_accepts_sorted_disjoint_run() {
    let tables = three_tables();
    assert!(check_sst_valid(&tables));
    assert!(check_sst_valid(&Vec::new()));
}

#[test]
fn table_well_formedness_check() {
    assert!(make_table(&[&[("a", "1"), ("b", "2")], &[("c", "3")]]).is_well_formed());
    // no blocks at all
    assert!(!Arc::new(SsTable { blocks: Vec::new() }).is_well_formed());
    // an empty block
    assert!(!make_table(&[&[("a", "1")], &[]]).is_well_formed());
    // keys out of order within a block
    assert!(!make_table(&[&[("b", "1"), ("a", "2")]]).is_well_formed());
    // duplicate key across a block boundary
    assert!(!make_table(&[&[("a", "1"), ("b", "2")], &[("b", "3")]]).is_well_formed());
}

#[test]
fn check_sst_valid_rejects_overlapping_run() {
    let overlapping = vec![
        make_table(&[&[("a", "1"), ("e", "2")]]),
        make_table(&[&[("c", "3"), ("g", "4")]]),
    ];
    assert!(!check_sst_valid(&overlapping));
}
