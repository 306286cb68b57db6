use dary::bit_cache::BitCache;
use dary::builder::{compile, find_base};
use dary::error::Error;
use dary::trie::Trie;

#[test]
fn test_trie_1() {
    let mut trie: Trie<i32> = Trie::new();
    let s = String::from("abc");
    trie.set(&s, 0).unwrap();
    trie.set(&s, 1).unwrap();
    assert_eq!(0, trie.get(&s).unwrap()[0]);
    assert_eq!(1, trie.get(&s).unwrap()[1]);
    let s = String::from("cba");
    assert_eq!(None, trie.get(&s));
}

#[test]
fn test_trie_2() {
    let mut trie: Trie<u32> = Trie::new();
    let s1 = String::from("abc");
    let s2 = String::from("abd");
    let s3 = String::from("zyx");
    let s4 = String::from("zwx");
    trie.set(&s1, 10).unwrap();
    trie.set(&s2, 11).unwrap();
    trie.set(&s3, 12).unwrap();
    trie.set(&s4, 13).unwrap();
    trie.set(&s1, 14).unwrap();
    assert_eq!(10, trie.get(&s1).unwrap()[0]);
    assert_eq!(14, trie.get(&s1).unwrap()[1]);
    assert_eq!(11, trie.get(&s2).unwrap()[0]);
    assert_eq!(12, trie.get(&s3).unwrap()[0]);
    assert_eq!(13, trie.get(&s4).unwrap()[0]);
}

#[test]
fn test_trie_3() {
    let mut trie: Trie<u32> = Trie::new();
    let s1 = String::from("あいうえお");
    let s2 = String::from("あいえうお");
    let s3 = String::from("漢字");
    let s4 = String::from("平仮名");
    let s5 = String::from("片仮名");
    trie.set(&s1, 10).unwrap();
    trie.set(&s2, 11).unwrap();
    trie.set(&s3, 12).unwrap();
    trie.set(&s4, 13).unwrap();
    trie.set(&s5, 14).unwrap();
    assert_eq!(10, trie.get(&s1).unwrap()[0]);
    assert_eq!(11, trie.get(&s2).unwrap()[0]);
    assert_eq!(12, trie.get(&s3).unwrap()[0]);
    assert_eq!(13, trie.get(&s4).unwrap()[0]);
    assert_eq!(14, trie.get(&s5).unwrap()[0]);
}

#[test]
fn test_find_base_1() {
    let keys: Vec<u8> = vec![2, 5, 255];
    let mut bit_cache = BitCache::new();

    // the search starts at 256, the first free slot is 256: 256 - 2 = 254
    assert_eq!(254, find_base(&keys, &bit_cache));

    (256..400).for_each(|i| bit_cache.set(i));
    (500..1000).for_each(|i| bit_cache.set(i));

    // the first free slot from which all three fit is 1000: 1000 - 2 = 998
    assert_eq!(998, find_base(&keys, &bit_cache));

    (1000..1002).for_each(|i| bit_cache.set(i));
    (1003..1005).for_each(|i| bit_cache.set(i));
    (1006..1255).for_each(|i| bit_cache.set(i));

    // 1002, 1005 and 1255 are free: 1002 - 2 = 1000
    assert_eq!(1000, find_base(&keys, &bit_cache));

    (400..500).for_each(|i| bit_cache.set(i));

    // the cursor moves over the full words only and stops at 1002, the
    // lowest free slot; the lowest base that fits stays 1000
    bit_cache.update_start();
    assert_eq!(1002, bit_cache.start());
    assert_eq!(1000, find_base(&keys, &bit_cache));

    // with 1005 taken the next fit is at 1255: 1255 - 2 = 1253
    bit_cache.set(1005);
    assert_eq!(1253, find_base(&keys, &bit_cache));
}

#[test]
fn trie_set_keeps_insertion_order_and_duplicates() {
    let mut trie: Trie<u32> = Trie::new();
    trie.set("k", 7).unwrap();
    trie.set("k", 3).unwrap();
    trie.set("k", 7).unwrap();
    assert_eq!(&[7, 3, 7][..], trie.get("k").unwrap());
    assert_eq!(3, trie.len());
}

#[test]
fn trie_empty_key_is_the_root() {
    let mut trie: Trie<u32> = Trie::new();
    assert_eq!(None, trie.get(""));
    trie.set("", 9).unwrap();
    assert_eq!(&[9][..], trie.get("").unwrap());
    assert_eq!(None, trie.get("a"));
}

#[test]
fn trie_prefix_of_a_key_holds_nothing() {
    let mut trie: Trie<u32> = Trie::new();
    trie.set("abc", 1).unwrap();
    assert_eq!(None, trie.get("ab"));
    assert_eq!(None, trie.get("abcd"));
    assert_eq!(0, Trie::<u32>::new().len());
}

#[test]
fn trie_refuses_the_257th_value() {
    let mut trie: Trie<u32> = Trie::new();
    for i in 0..256u32 {
        trie.set("key", i).unwrap();
    }
    assert!(matches!(trie.set("key", 256), Err(Error::ValueOverflow)));
    assert_eq!(256, trie.get("key").unwrap().len());
    assert_eq!(256, trie.len());
    assert_eq!(255, trie.get("key").unwrap()[255]);
    trie.set("other", 1).unwrap();
    assert_eq!(257, trie.len());
}

#[test]
fn bit_cache_set_get_and_last() {
    let mut cache = BitCache::new();
    assert_eq!(None, cache.last_index_of_one());
    assert_eq!(0, cache.get(0));
    assert_eq!(0, cache.get(1_000_000));
    cache.set(3);
    cache.set(3);
    cache.set(700);
    assert_eq!(1, cache.get(3));
    assert_eq!(0, cache.get(4));
    assert_eq!(1, cache.get(700));
    assert_eq!(0, cache.get(699));
    assert_eq!(0, cache.get(701));
    assert_eq!(Some(700), cache.last_index_of_one());
    cache.set(64);
    assert_eq!(Some(700), cache.last_index_of_one());
    cache.set(767);
    assert_eq!(Some(767), cache.last_index_of_one());
}

#[test]
fn bit_cache_find_empty_idx_skips_taken_slots() {
    let mut cache = BitCache::new();
    assert_eq!(256, cache.start());
    assert_eq!(256, cache.find_empty_idx(0));
    assert_eq!(260, cache.find_empty_idx(4));
    (256..330).for_each(|i| cache.set(i));
    assert_eq!(330, cache.find_empty_idx(0));
    assert_eq!(330, cache.find_empty_idx(10));
    assert_eq!(400, cache.find_empty_idx(144));
    cache.set(331);
    assert_eq!(332, cache.find_empty_idx(75));
    // slots below the cursor are never handed out
    assert_eq!(0, cache.get(100));
    assert_eq!(330, cache.find_empty_idx(0));
}

#[test]
fn bit_cache_update_start_stops_at_the_lowest_free_slot() {
    let mut cache = BitCache::new();
    cache.update_start();
    assert_eq!(256, cache.start());
    (256..320).for_each(|i| cache.set(i));
    cache.update_start();
    assert_eq!(320, cache.start());
    (320..500).for_each(|i| cache.set(i));
    cache.set(501);
    cache.update_start();
    assert_eq!(500, cache.start());
    cache.set(500);
    cache.update_start();
    assert_eq!(502, cache.start());
    assert_eq!(512, cache.find_empty_idx(10));
}

#[test]
fn find_base_puts_the_first_child_on_the_first_free_slot() {
    let cache = BitCache::new();
    assert_eq!(256, find_base(&[0], &cache));
    assert_eq!(1, find_base(&[255], &cache));
    assert_eq!(159, find_base(&[97, 98], &cache));
}

#[test]
fn compile_lays_out_a_small_trie() {
    let mut trie: Trie<u8> = Trie::new();
    trie.set("a", 10).unwrap();
    trie.set("a", 11).unwrap();
    trie.set("b", 20).unwrap();
    let (base, check, data) = compile(&trie).unwrap();
    // the root takes base 159: 'a' at 256, 'b' at 257
    assert_eq!(159, base[1]);
    assert_eq!(1, check[256]);
    assert_eq!(1, check[257]);
    // 'b' is placed first: its value slot is the first free one from 258
    assert_eq!(3, base[257]);
    assert_eq!(257, check[258]);
    assert_eq!(0, base[258]);
    // then 'a': its value slot is 259
    assert_eq!(4, base[256]);
    assert_eq!(256, check[259]);
    assert_eq!(1, base[259]);
    assert_eq!(vec![20, 10, 11], data);
    assert_eq!(259 + 256, base.len());
    assert_eq!(base.len(), check.len());
    assert_eq!(3, check.iter().filter(|&&c| c != 0).count() - 1);
}

#[test]
fn compile_of_an_empty_trie_is_all_zero() {
    let trie: Trie<u8> = Trie::new();
    let (base, check, data) = compile(&trie).unwrap();
    assert_eq!(vec![0u32; 256], base);
    assert_eq!(vec![0u32; 256], check);
    assert!(data.is_empty());
}

#[test]
fn compile_places_the_values_of_the_empty_key() {
    let mut trie: Trie<u8> = Trie::new();
    trie.set("", 5).unwrap();
    let (base, check, data) = compile(&trie).unwrap();
    assert_eq!(1, base[1]);
    assert_eq!(1, check[256]);
    assert_eq!(0, base[256]);
    assert_eq!(vec![5], data);
    assert_eq!(512, base.len());
}
