use dary::double_array::DoubleArray;
use dary::error::{Error, Flaw};
use dary::layout::{pack, parse_header};
use dary::trie::{block_of, Trie};
use dary::utils::to_bytes;

#[derive(Debug, PartialEq)]
struct MorphemeData {
    surface: String,
    cost: i32,
}

impl MorphemeData {
    fn new(surface: &str, cost: i32) -> Self {
        MorphemeData { surface: surface.to_string(), cost }
    }
}

impl serde::Serialize for MorphemeData {
    fn serialize<S: serde::Serializer>(&self, serializer: S) -> Result<S::Ok, S::Error> {
        (&self.surface, &self.cost).serialize(serializer)
    }
}

impl<'de> serde::Deserialize<'de> for MorphemeData {
    fn deserialize<D: serde::Deserializer<'de>>(deserializer: D) -> Result<Self, D::Error> {
        let (surface, cost) = <(String, i32)>::deserialize(deserializer)?;
        Ok(MorphemeData { surface, cost })
    }
}

struct Unencodable;

impl serde::Serialize for Unencodable {
    fn serialize<S: serde::Serializer>(&self, _serializer: S) -> Result<S::Ok, S::Error> {
        Err(<S::Error as serde::ser::Error>::custom("no encoding"))
    }
}

fn sample() -> Trie<u32> {
    let mut trie: Trie<u32> = Trie::new();
    trie.set("abc", 1).unwrap();
    trie.set("abc", 2).unwrap();
    trie.set("ac", 3).unwrap();
    trie.set("b", 4).unwrap();
    trie.set("bd", 5).unwrap();
    trie.set("bdc", 6).unwrap();
    trie
}

fn pseudo_random_keys(n: usize, len: usize) -> Vec<String> {
    let alphabet: Vec<char> =
        "ABCDEFGHIJKLMNOPQRSTUVWXYZabcdefghijklmnopqrstuvwxyz0123456789".chars().collect();
    let mut state: u64 = 0x2545_f491_4f6c_dd1d;
    let mut keys = Vec::new();
    for _ in 0..n {
        let mut key = String::new();
        for _ in 0..len {
            state = state.wrapping_mul(6364136223846793005).wrapping_add(1442695040888963407);
            key.push(alphabet[((state >> 33) % 62) as usize]);
        }
        keys.push(key);
    }
    keys
}

#[test]
fn test_dictionary_set_new() {
    let base_arr: Vec<u32> = vec![1, 2, 3, 4, 5];
    let check_arr: Vec<u32> = vec![10, 20, 30, 40, 50];
    let data_arr: Vec<u8> = vec![100, 110, 120, 130, 140];
    let double_array: DoubleArray<u32> =
        DoubleArray::from_arrays(&base_arr, &check_arr, &data_arr).ok().unwrap();
    let (base_arr, check_arr, data_arr) = double_array.get_arrays();
    assert_eq!([1, 2, 3, 4, 5], base_arr[..]);
    assert_eq!([10, 20, 30, 40, 50], check_arr[..]);
    assert_eq!([100, 110, 120, 130, 140], data_arr);
}

#[test]
fn test_get_1() {
    let mut trie: Trie<u32> = Trie::new();
    let s1 = String::from("abc");
    let s2 = String::from("ac");
    let s3 = String::from("b");
    let s4 = String::from("bd");
    let s5 = String::from("bdc");
    trie.set(&s1, 1).unwrap();
    trie.set(&s1, 2).unwrap();
    trie.set(&s2, 3).unwrap();
    trie.set(&s3, 4).unwrap();
    trie.set(&s4, 5).unwrap();
    trie.set(&s5, 6).unwrap();
    let double_array = trie.to_double_array().ok().unwrap();
    assert_eq!(vec![1, 2], double_array.get(&s1).unwrap().unwrap());
    assert_eq!(vec![3], double_array.get(&s2).unwrap().unwrap());
    assert_eq!(vec![4], double_array.get(&s3).unwrap().unwrap());
    assert_eq!(vec![5], double_array.get(&s4).unwrap().unwrap());
    assert_eq!(vec![6], double_array.get(&s5).unwrap().unwrap());
    assert_eq!(None, double_array.get("ab").unwrap());
}

#[test]
fn test_get_2() {
    let mut trie: Trie<u32> = Trie::new();
    let s1 = String::from("合沢");
    let s2 = String::from("会沢");
    let s3 = String::from("哀澤");
    let s4 = String::from("愛沢");
    let s5 = String::from("會澤");
    trie.set(&s1, 1).unwrap();
    trie.set(&s1, 2).unwrap();
    trie.set(&s2, 3).unwrap();
    trie.set(&s3, 4).unwrap();
    trie.set(&s4, 5).unwrap();
    trie.set(&s5, 6).unwrap();
    let double_array = trie.to_double_array().ok().unwrap();
    assert_eq!(vec![1, 2], double_array.get(&s1).unwrap().unwrap());
    assert_eq!(vec![3], double_array.get(&s2).unwrap().unwrap());
    assert_eq!(vec![4], double_array.get(&s3).unwrap().unwrap());
    assert_eq!(vec![5], double_array.get(&s4).unwrap().unwrap());
    assert_eq!(vec![6], double_array.get(&s5).unwrap().unwrap());
    assert_eq!(None, double_array.get("合い").unwrap());
}

#[test]
fn test_get_3() {
    let mut trie: Trie<MorphemeData> = Trie::new();
    let s1 = String::from("合沢");
    let s2 = String::from("会沢");
    let s3 = String::from("哀澤");
    let s4 = String::from("愛沢");
    let s5 = String::from("會澤");
    trie.set(&s1, MorphemeData::new("合沢", 1)).unwrap();
    trie.set(&s1, MorphemeData::new("合沢", 2)).unwrap();
    trie.set(&s2, MorphemeData::new("会沢", 3)).unwrap();
    trie.set(&s3, MorphemeData::new("哀澤", 4)).unwrap();
    trie.set(&s4, MorphemeData::new("愛沢", 5)).unwrap();
    trie.set(&s5, MorphemeData::new("會澤", 6)).unwrap();
    let double_array = trie.to_double_array().ok().unwrap();
    assert_eq!(
        vec![MorphemeData::new("合沢", 1), MorphemeData::new("合沢", 2)],
        double_array.get(&s1).unwrap().unwrap()
    );
    assert_eq!(vec![MorphemeData::new("会沢", 3)], double_array.get(&s2).unwrap().unwrap());
    assert_eq!(vec![MorphemeData::new("哀澤", 4)], double_array.get(&s3).unwrap().unwrap());
    assert_eq!(vec![MorphemeData::new("愛沢", 5)], double_array.get(&s4).unwrap().unwrap());
    assert_eq!(vec![MorphemeData::new("會澤", 6)], double_array.get(&s5).unwrap().unwrap());
    assert_eq!(None, double_array.get("合い").unwrap());
}

#[test]
fn test_prefix_search_1() {
    let mut trie: Trie<u32> = Trie::new();
    let s1 = String::from("鳴ら");
    let s2 = String::from("鳴らしゃ");
    let s3 = String::from("鳴らし初め");
    let s4 = String::from("鳴らし初めよ");
    trie.set(&s1, 1).unwrap();
    trie.set(&s1, 2).unwrap();
    trie.set(&s2, 3).unwrap();
    trie.set(&s3, 4).unwrap();
    trie.set(&s4, 5).unwrap();
    let double_array = trie.to_double_array().ok().unwrap();
    let key = String::from("鳴らし初めよ");
    let result = double_array.prefix_search(&key).unwrap();
    assert_eq!(("鳴ら", vec![1, 2]), result[0]);
    assert_eq!(("鳴らし初め", vec![4]), result[1]);
    assert_eq!(("鳴らし初めよ", vec![5]), result[2]);
}

#[test]
fn test_prefix_search_2() {
    let mut trie: Trie<u32> = Trie::new();
    let s1 = String::from("鳴ら");
    let s2 = String::from("鳴らしゃ");
    let s3 = String::from("鳴らし初め");
    let s4 = String::from("鳴らし初めよ");
    trie.set(&s1, 1).unwrap();
    trie.set(&s1, 2).unwrap();
    trie.set(&s2, 3).unwrap();
    trie.set(&s3, 4).unwrap();
    trie.set(&s4, 5).unwrap();
    let double_array = trie.to_double_array().ok().unwrap();
    let key = String::from("鳴らし初めよ");
    let mut iter = double_array.prefix_search_iter(&key);
    let mut result: Vec<(&str, Vec<u32>)> = Vec::new();
    while let Some(item) = iter.next() {
        result.push(item.unwrap());
    }
    assert_eq!(("鳴ら", vec![1, 2]), result[0]);
    assert_eq!(("鳴らし初め", vec![4]), result[1]);
    assert_eq!(("鳴らし初めよ", vec![5]), result[2]);
}

#[test]
fn test_to_double_array_1() {
    let mut trie: Trie<u32> = Trie::new();
    let s1 = String::from("abc");
    let s2 = String::from("ac");
    let s3 = String::from("b");
    let s4 = String::from("bd");
    let s5 = String::from("bdc");
    trie.set(&s1, 1).unwrap();
    trie.set(&s1, 2).unwrap();
    trie.set(&s2, 3).unwrap();
    trie.set(&s3, 4).unwrap();
    trie.set(&s4, 5).unwrap();
    trie.set(&s5, 6).unwrap();
    let double_array = trie.to_double_array().ok().unwrap();
    assert_eq!(vec![1, 2], double_array.get(&s1).unwrap().unwrap());
    assert_eq!(vec![3], double_array.get(&s2).unwrap().unwrap());
    assert_eq!(vec![4], double_array.get(&s3).unwrap().unwrap());
    assert_eq!(vec![5], double_array.get(&s4).unwrap().unwrap());
    assert_eq!(vec![6], double_array.get(&s5).unwrap().unwrap());
    assert_eq!(None, double_array.get("ab").unwrap());
}

#[test]
fn test_to_double_array_2() {
    let trie: Trie<u32> = Trie::new();
    let double_array = trie.to_double_array().ok().unwrap();
    assert_eq!(None, double_array.get("abc").unwrap());
}

#[test]
fn test_to_double_array_3() {
    let mut trie: Trie<u32> = Trie::new();
    let s1 = String::from("おすしとビール");
    let s2 = String::from("お寿司とビール");
    let s3 = String::from("🍣🍺");
    trie.set(&s1, 1).unwrap();
    trie.set(&s1, 2).unwrap();
    trie.set(&s2, 3).unwrap();
    trie.set(&s3, 4).unwrap();
    let double_array = trie.to_double_array().ok().unwrap();
    assert_eq!(vec![1, 2], double_array.get(&s1).unwrap().unwrap());
    assert_eq!(vec![3], double_array.get(&s2).unwrap().unwrap());
    assert_eq!(vec![4], double_array.get(&s3).unwrap().unwrap());
    assert_eq!(None, double_array.get("お寿").unwrap());
}

#[test]
fn emoji_key_is_found_whole_only() {
    let mut trie: Trie<u32> = Trie::new();
    trie.set("🍣🍺", 4).unwrap();
    let double_array = trie.to_double_array().unwrap();
    assert_eq!(Some(vec![4]), double_array.get("🍣🍺").unwrap());
    assert_eq!(None, double_array.get("🍣").unwrap());
}

#[test]
fn prefix_search_leaves_out_the_other_branch() {
    let mut trie: Trie<u32> = Trie::new();
    trie.set("鳴ら", 1).unwrap();
    trie.set("鳴ら", 2).unwrap();
    trie.set("鳴らしゃ", 3).unwrap();
    trie.set("鳴らし初め", 4).unwrap();
    trie.set("鳴らし初めよ", 5).unwrap();
    let double_array = trie.to_double_array().unwrap();
    let result = double_array.prefix_search("鳴らし初めよ").unwrap();
    assert_eq!(
        vec![("鳴ら", vec![1, 2]), ("鳴らし初め", vec![4]), ("鳴らし初めよ", vec![5])],
        result
    );
    assert_eq!(
        vec![("鳴ら", vec![1, 2]), ("鳴らしゃ", vec![3])],
        double_array.prefix_search("鳴らしゃべる").unwrap()
    );
    assert!(double_array.prefix_search("鳴").unwrap().is_empty());
    assert!(double_array.prefix_search("").unwrap().is_empty());
}

#[test]
fn prefix_search_never_reports_the_empty_key() {
    let mut trie: Trie<u32> = Trie::new();
    trie.set("", 1).unwrap();
    trie.set("a", 2).unwrap();
    let double_array = trie.to_double_array().unwrap();
    assert_eq!(Some(vec![1]), double_array.get("").unwrap());
    assert_eq!(vec![("a", vec![2])], double_array.prefix_search("ab").unwrap());
}

#[test]
fn iterator_hands_out_what_prefix_search_returns() {
    let double_array = sample().to_double_array().unwrap();
    for key in ["bdc", "abc", "abcd", "b", "x", "", "bdx", "ac"] {
        let all = double_array.prefix_search(key).unwrap();
        let mut iter = double_array.prefix_search_iter(key);
        let mut one_by_one: Vec<(&str, Vec<u32>)> = Vec::new();
        while let Some(item) = iter.next() {
            one_by_one.push(item.unwrap());
        }
        assert_eq!(all, one_by_one);
        // once exhausted it stays exhausted
        assert!(iter.next().is_none());
        assert!(iter.advance().is_none());
    }
    assert_eq!(
        vec![("b", vec![4]), ("bd", vec![5]), ("bdc", vec![6])],
        double_array.prefix_search("bdc").unwrap()
    );
}

#[test]
fn prefix_matches_ascend_in_length() {
    let double_array = sample().to_double_array().unwrap();
    let hits = double_array.prefix_matches("bdcx");
    assert_eq!(vec![1, 2, 3], hits.iter().map(|h| h.0).collect::<Vec<usize>>());
    let mut iter = double_array.prefix_search_iter("bdcx");
    assert_eq!(Some(hits[0]), iter.advance());
    assert_eq!(Some(hits[1]), iter.advance());
    assert_eq!(Some(hits[2]), iter.advance());
    assert_eq!(None, iter.advance());
    // each offset is where the key's block lies
    for (len, off) in hits {
        assert_eq!(Some(off), double_array.find(&"bdcx"[..len]));
    }
}

#[test]
fn find_gives_the_offset_of_the_block() {
    let double_array = sample().to_double_array().unwrap();
    let off = double_array.find("ac").unwrap();
    // a list of one u32: the count in eight bytes, then the value in four
    assert_eq!(&[1, 0, 0, 0, 0, 0, 0, 0, 3, 0, 0, 0][..], &double_array.block(off)[..12]);
    assert_eq!(None, double_array.find("a"));
    assert_eq!(None, double_array.find("zz"));
    assert!(double_array.block(usize::MAX).is_empty());
}

#[test]
fn base_collisions_are_resolved() {
    let mut trie: Trie<u32> = Trie::new();
    trie.set("a", 1).unwrap();
    trie.set("b", 2).unwrap();
    trie.set("ab", 3).unwrap();
    let double_array = trie.to_double_array().unwrap();
    assert_eq!(Some(vec![1]), double_array.get("a").unwrap());
    assert_eq!(Some(vec![2]), double_array.get("b").unwrap());
    assert_eq!(Some(vec![3]), double_array.get("ab").unwrap());
    assert_eq!(None, double_array.get("ba").unwrap());
    let (base, check, _) = double_array.get_arrays();
    // every taken slot is reached from its parent over one byte, and no
    // value slot is shared
    let mut value_slots = Vec::new();
    for i in 0..check.len() {
        if check[i] != 0 {
            let parent = check[i] as usize;
            let byte = i - base[parent] as usize;
            assert!(byte <= 0xff);
            if byte == 0xff {
                assert!(!value_slots.contains(&i));
                value_slots.push(i);
            }
        }
    }
    assert_eq!(3, value_slots.len());
}

#[test]
fn a_thousand_keys_survive_the_blob() {
    let keys = pseudo_random_keys(1000, 10);
    let mut trie: Trie<u32> = Trie::new();
    for (i, key) in keys.iter().enumerate() {
        trie.set(key, i as u32).unwrap();
    }
    let built: DoubleArray<u32> = trie.to_double_array().unwrap();
    let reopened: DoubleArray<u32> = DoubleArray::from_slice(built.as_bytes()).unwrap();
    assert_eq!(built.as_bytes(), reopened.as_bytes());
    for (i, key) in keys.iter().enumerate() {
        assert!(built.get(key).unwrap().unwrap().contains(&(i as u32)));
        assert_eq!(built.get(key).unwrap(), reopened.get(key).unwrap());
    }
    assert_eq!(None, reopened.get("not a key").unwrap());
}

#[test]
fn a_thousand_string_values_survive_the_blob() {
    let keys = pseudo_random_keys(1000, 10);
    let mut trie: Trie<String> = Trie::new();
    for key in keys.iter() {
        trie.set(key, key.to_string()).unwrap();
    }
    let built: DoubleArray<String> = trie.to_double_array().unwrap();
    let reopened: DoubleArray<String> = DoubleArray::from_slice(built.as_bytes()).unwrap();
    for key in keys.iter() {
        assert!(reopened.get(key).unwrap().unwrap().contains(key));
    }
}

#[test]
fn two_builds_give_the_same_blob() {
    let first = sample().to_double_array().unwrap();
    let second = sample().to_double_array().unwrap();
    assert_eq!(first.as_bytes(), second.as_bytes());
}

#[test]
fn blob_starts_with_the_header() {
    let double_array: DoubleArray<u32> = DoubleArray::from_arrays(&[7, 8], &[9], &[1, 2, 3]).unwrap();
    let expected: Vec<u8> = vec![
        40, 0, 0, 0, 0, 0, 0, 0, // BASE starts behind the header
        48, 0, 0, 0, 0, 0, 0, 0, // CHECK behind the two entries of BASE
        52, 0, 0, 0, 0, 0, 0, 0, // DATA behind the one entry of CHECK
        2, 0, 0, 0, 0, 0, 0, 0, 1, 0, 0, 0, 0, 0, 0, 0, // the two lengths
        7, 0, 0, 0, 8, 0, 0, 0, 9, 0, 0, 0, 1, 2, 3,
    ];
    assert_eq!(expected, double_array.as_bytes());
    assert_eq!(expected, pack(&[7, 8], &[9], &[1, 2, 3]).unwrap());
    let header = parse_header(&expected).unwrap();
    assert_eq!(40, header.base_idx);
    assert_eq!(48, header.check_idx);
    assert_eq!(52, header.data_idx);
    assert_eq!(2, header.base_len);
    assert_eq!(1, header.check_len);
}

#[test]
fn to_bytes_is_little_endian() {
    assert_eq!(vec![0x78, 0x56, 0x34, 0x12, 0xff, 0xff, 0xff, 0xff], to_bytes(&[0x1234_5678, u32::MAX]));
    assert!(to_bytes(&[]).is_empty());
}

#[test]
fn malformed_blobs_are_refused() {
    assert!(matches!(DoubleArray::<u32>::from_slice(&[]), Err(Error::MalformedBlob(Flaw::TooShort))));
    assert!(matches!(
        DoubleArray::<u32>::from_slice(&[0u8; 39]),
        Err(Error::MalformedBlob(Flaw::TooShort))
    ));
    assert!(DoubleArray::<u32>::from_slice(&[0u8; 40]).is_ok());
    let good = pack(&[7, 8], &[9], &[1, 2, 3]).unwrap();
    assert!(DoubleArray::<u32>::from_slice(&good).is_ok());
    // DATA beyond the end
    let mut bad = good.clone();
    bad[16] = 56;
    assert!(matches!(DoubleArray::<u32>::from_slice(&bad), Err(Error::MalformedBlob(Flaw::DataIdx))));
    // BASE and CHECK start beyond the end
    let mut bad = good.clone();
    bad[0] = 56;
    bad[8] = 57;
    assert!(matches!(parse_header(&bad), Err(Error::MalformedBlob(Flaw::BaseIdx))));
    bad[0] = 55;
    bad[24] = 0;
    assert!(matches!(parse_header(&bad), Err(Error::MalformedBlob(Flaw::CheckIdx))));
    // BASE runs over the end
    let mut bad = good.clone();
    bad[24] = 4;
    assert!(matches!(DoubleArray::<u32>::from_slice(&bad), Err(Error::MalformedBlob(Flaw::BaseLen))));
    // CHECK runs over the end
    let mut bad = good.clone();
    bad[32] = 2;
    assert!(matches!(parse_header(&bad), Err(Error::MalformedBlob(Flaw::CheckLen))));
    // a length that only fits 64 bits
    let mut bad = good.clone();
    bad[31] = 0x80;
    assert!(matches!(parse_header(&bad), Err(Error::MalformedBlob(Flaw::BaseLen))));
    // DATA may be empty
    let mut edge = good.clone();
    edge[16] = 55;
    assert!(DoubleArray::<u32>::from_slice(&edge).unwrap().get_arrays().2.is_empty());
}

#[test]
fn lookups_in_short_arrays_find_nothing() {
    let double_array: DoubleArray<u32> = DoubleArray::from_arrays(&[], &[], &[]).unwrap();
    assert_eq!(None, double_array.get("").unwrap());
    assert_eq!(None, double_array.get("a").unwrap());
    let double_array: DoubleArray<u32> =
        DoubleArray::from_arrays(&[0, u32::MAX, 0], &[0, 0, 1], &[]).unwrap();
    assert_eq!(None, double_array.get("a").unwrap());
    assert!(double_array.prefix_search("abc").unwrap().is_empty());
}

#[test]
fn a_block_that_does_not_decode_is_reported() {
    // the root's value slot is 256 and points at DATA that is too short
    let mut base = vec![0u32; 512];
    let mut check = vec![0u32; 512];
    base[1] = 1;
    check[256] = 1;
    base[256] = 0;
    let double_array: DoubleArray<u32> = DoubleArray::from_arrays(&base, &check, &[1, 0, 0]).unwrap();
    assert_eq!(Some(0), double_array.find(""));
    assert!(matches!(double_array.get(""), Err(Error::DecodeFailure(0))));
    // an offset beyond DATA is reported too
    base[256] = 9;
    let double_array: DoubleArray<u32> = DoubleArray::from_arrays(&base, &check, &[1, 0, 0]).unwrap();
    assert!(matches!(double_array.get(""), Err(Error::DecodeFailure(9))));
}

#[test]
fn values_in_the_middle_of_a_character_are_refused() {
    // "é" is 0xc3 0xa9; the arrays mark values behind its first byte
    let mut base = vec![0u32; 1024];
    let mut check = vec![0u32; 1024];
    base[1] = 100;
    check[100 + 0xc3] = 1;
    base[100 + 0xc3] = 400;
    check[400 + 0xff] = (100 + 0xc3) as u32;
    base[400 + 0xff] = 0;
    let data: Vec<u8> = vec![1, 0, 0, 0, 0, 0, 0, 0, 7, 0, 0, 0];
    let double_array: DoubleArray<u32> = DoubleArray::from_arrays(&base, &check, &data).unwrap();
    assert_eq!(vec![(1, 0)], double_array.prefix_matches("é"));
    assert!(matches!(
        double_array.prefix_search("é"),
        Err(Error::MalformedBlob(Flaw::SplitCharacter))
    ));
    let mut iter = double_array.prefix_search_iter("é");
    assert!(matches!(iter.next(), Some(Err(Error::MalformedBlob(Flaw::SplitCharacter)))));
    assert!(iter.next().is_none());
}

#[test]
fn values_that_do_not_encode_fail_the_build() {
    let mut trie: Trie<Unencodable> = Trie::new();
    trie.set("a", Unencodable).unwrap();
    assert!(matches!(trie.to_double_array(), Err(Error::EncodeFailure)));
    assert!(matches!(trie_of_unencodable().encode(), Err(Error::EncodeFailure)));
}

fn trie_of_unencodable() -> Trie<Unencodable> {
    let mut trie: Trie<Unencodable> = Trie::new();
    trie.set("", Unencodable).unwrap();
    trie
}

#[test]
fn encode_keeps_the_keys() {
    let blocks = sample().encode().unwrap();
    assert_eq!(&[1, 0, 0, 0, 0, 0, 0, 0, 4, 0, 0, 0][..], blocks.get("b").unwrap());
    assert_eq!(16, blocks.get("abc").unwrap().len());
    assert_eq!(None, blocks.get("ab"));
    assert_eq!(6, blocks.len());
}

#[test]
fn every_taken_slot_is_a_child_or_a_value_slot() {
    let double_array = sample().to_double_array().unwrap();
    let (base, check, _) = double_array.get_arrays();
    assert_eq!(base.len(), check.len());
    assert!(base.len() >= 256);
    let mut nodes = 0;
    let mut value_slots = 0;
    for i in 0..check.len() {
        if check[i] == 0 {
            continue;
        }
        let parent = check[i] as usize;
        // the parent is the root or a taken slot itself, and leads here over one byte
        assert!(parent == 1 || check[parent] != 0);
        let byte = i - base[parent] as usize;
        assert!(byte <= 0xff);
        if byte == 0xff {
            let values: Vec<u32> = bincode::deserialize(double_array.block(base[i] as usize)).unwrap();
            assert!(!values.is_empty());
            value_slots += 1;
        } else {
            assert!(b"abcd".contains(&(byte as u8)));
            nodes += 1;
        }
    }
    // a, ab, abc, ac, b, bd, bdc; and the five keys
    assert_eq!(7, nodes);
    assert_eq!(5, value_slots);
    // the last taken slot lies 256 before the end
    let last = (0..check.len()).rev().find(|&i| check[i] != 0).unwrap();
    assert_eq!(last + 256, check.len());
}

#[test]
fn the_arrays_are_those_of_the_encoded_trie() {
    let trie = sample();
    let blocks = trie.encode().unwrap();
    let (base, check, data) = dary::builder::compile(&blocks).unwrap();
    let double_array = trie.to_double_array().unwrap();
    let arrays = double_array.get_arrays();
    assert_eq!(base, arrays.0);
    assert_eq!(check, arrays.1);
    assert_eq!(data, arrays.2);
    assert_eq!(pack(&base, &check, &data).unwrap(), double_array.as_bytes());
}

#[test]
fn rest_hands_out_what_is_left() {
    let double_array = sample().to_double_array().unwrap();
    let all = double_array.prefix_matches("bdc");
    assert_eq!(3, all.len());
    let mut iter = double_array.prefix_search_iter("bdc");
    assert_eq!(all, iter.rest());
    assert!(iter.rest().is_empty());
    let mut iter = double_array.prefix_search_iter("bdc");
    assert_eq!(Some(all[0]), iter.advance());
    assert_eq!(all[1..].to_vec(), iter.rest());
}

#[test]
fn keys_that_only_share_bytes_with_set_keys_are_not_found() {
    let double_array = sample().to_double_array().unwrap();
    for key in ["", "a", "ab", "abcd", "bc", "c", "ba", "abd", "bdd", "é", "🍣"] {
        assert_eq!(None, double_array.get(key).unwrap());
    }
}

#[test]
fn many_values_of_one_key_come_back_in_order() {
    let mut trie: Trie<u32> = Trie::new();
    for i in 0..256u32 {
        trie.set("k", 1000 - i).unwrap();
    }
    let double_array = trie.to_double_array().unwrap();
    let expected: Vec<u32> = (0..256u32).map(|i| 1000 - i).collect();
    assert_eq!(Some(expected), double_array.get("k").unwrap());
}

#[test]
fn five_thousand_keys_are_all_found() {
    let keys = pseudo_random_keys(5_000, 8);
    let mut trie: Trie<u32> = Trie::new();
    for (i, key) in keys.iter().enumerate() {
        trie.set(key, i as u32).unwrap();
    }
    let double_array: DoubleArray<u32> = trie.to_double_array().unwrap();
    for (i, key) in keys.iter().enumerate() {
        assert!(double_array.get(key).unwrap().unwrap().contains(&(i as u32)));
    }
    let (base, check, _) = double_array.get_arrays();
    assert_eq!(base.len(), check.len());
}

#[test]
fn the_empty_trie_builds_and_encodes() {
    let trie: Trie<u32> = Trie::new();
    let blocks = trie.encode().unwrap();
    assert_eq!(None, blocks.get(""));
    let (base, check, data) = dary::builder::compile(&blocks).unwrap();
    assert_eq!(vec![0u32; 256], base);
    assert_eq!(vec![0u32; 256], check);
    assert!(data.is_empty());
    let double_array = trie.to_double_array().unwrap();
    assert_eq!(40 + 2 * 4 * 256, double_array.as_bytes().len());
    assert_eq!(None, double_array.get("abc").unwrap());
    // a trie without values never asks the codec
    let unencodable: Trie<Unencodable> = Trie::new();
    assert!(unencodable.to_double_array().is_ok());
}

#[test]
fn block_of_refuses_empty_blocks_and_failures() {
    assert_eq!(vec![1u8, 2], block_of(Ok(vec![1, 2])).unwrap());
    assert!(matches!(block_of(Ok(vec![])), Err(Error::EncodeFailure)));
    let failure = bincode::serialize(&Unencodable).unwrap_err();
    assert!(matches!(block_of(Err(failure)), Err(Error::EncodeFailure)));
}
