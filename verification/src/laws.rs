//! What holds of a dictionary across its functions: what is set is found,
//! what was not set is not, and a blob answers as the arrays it was made from.

use vstd::prelude::*;
use crate::builder::compiled;
use crate::codec::encodes_to;
use crate::double_array::DoubleArray;
use crate::filling::{layout, lemma_small_tree_has_layout};
use crate::model::{block_at, Arrays};
use vstd::string::StringSliceAdditionalSpecFns;
use crate::trie::{lemma_str_sentinel_free, sentinel_free, Trie, MAX_VALUES};

verus! {

/// Every key of a compiled trie is found, at an offset where its values lie
/// in the data.
pub proof fn law_key_is_found(trie: &Trie<u8>, arr: Arrays, key: Seq<u8>)
    requires
        trie.wf(),
        compiled(trie, arr),
        trie@.contains_key(key),
    ensures
        arr.find(key) is Some,
        block_at(arr.data, arr.find(key)->Some_0, trie@[key]),
{
    trie.lemma_view_facts(key);
}

/// A key that holds no values in the trie is not found in its arrays.
pub proof fn law_absent_key_is_not_found(trie: &Trie<u8>, arr: Arrays, key: Seq<u8>)
    requires
        compiled(trie, arr),
        sentinel_free(key),
        !trie@.contains_key(key),
    ensures
        arr.find(key) is None,
{
}

/// A string is found in the arrays of a trie exactly where the trie holds
/// values for it: what was set for a key is found under it, and a string for
/// which nothing was set is not found.
pub proof fn law_string_is_found_iff_set<T>(trie: &Trie<T>, arr: Arrays, key: &str)
    requires
        trie.indexed_by(arr),
    ensures
        arr.find(key.spec_bytes()) is Some <==> trie@.contains_key(key.spec_bytes()),
{
    lemma_str_sentinel_free(key);
}

/// A key that begins no key of the trie cannot even be walked.
pub proof fn law_foreign_key_is_not_walked(trie: &Trie<u8>, arr: Arrays, key: Seq<u8>)
    requires
        compiled(trie, arr),
        sentinel_free(key),
        !trie.has_node(key),
    ensures
        arr.walk(key) is None,
        arr.find(key) is None,
{
}

/// A key of the trie, not the empty one, is among the matches of every query
/// that it begins, with the offset of its values; and the matches ascend
/// strictly in prefix length.
pub proof fn law_prefix_is_matched(trie: &Trie<u8>, arr: Arrays, key: Seq<u8>, query: Seq<u8>)
    requires
        trie.wf(),
        compiled(trie, arr),
        trie@.contains_key(key),
        0 < key.len() <= query.len(),
        query.take(key.len() as int) == key,
    ensures
        arr.find(key) is Some,
        block_at(arr.data, arr.find(key)->Some_0, trie@[key]),
        arr.matches(query, query.len()).contains((key.len(), arr.find(key)->Some_0)),
        forall|i: int, j: int|
            0 <= i < j < arr.matches(query, query.len()).len() ==> (#[trigger] arr.matches(
                query,
                query.len(),
            )[i]).0 < (#[trigger] arr.matches(query, query.len())[j]).0,
{
    law_key_is_found(trie, arr, key);
    arr.lemma_matches_holds(query, key.len(), query.len());
    arr.lemma_matches_ascend(query, query.len());
}

/// Every match of a query in the arrays of a compiled trie is a key of the
/// trie that begins the query, with its values at the offset.
pub proof fn law_match_is_a_key(trie: &Trie<u8>, arr: Arrays, query: Seq<u8>, i: int)
    requires
        compiled(trie, arr),
        sentinel_free(query),
        0 <= i < arr.matches(query, query.len()).len(),
    ensures
        ({
            let hit = arr.matches(query, query.len())[i];
            &&& 1 <= hit.0 <= query.len()
            &&& trie@.contains_key(query.take(hit.0 as int))
            &&& block_at(arr.data, hit.1, trie@[query.take(hit.0 as int)])
        }),
{
    arr.lemma_matches_are_found(query, query.len());
    let hit = arr.matches(query, query.len())[i];
    let prefix = query.take(hit.0 as int);
    assert forall|k: int| 0 <= k < prefix.len() implies #[trigger] prefix[k] != crate::trie::SENTINEL by {
        assert(prefix[k] == query[k]);
    }
}

/// Two dictionaries over the same bytes hold the same arrays, and so give
/// the same answers: a blob written out and read back answers as before.
pub proof fn law_same_blob_same_arrays<T, U>(first: &DoubleArray<T>, second: &DoubleArray<U>)
    requires
        first.blob() == second.blob(),
    ensures
        first@ == second@,
{
}

/// A trie in which no key holds more values than a key may still is one
/// after a value is set: the key that gains a value held fewer.
pub proof fn law_set_keeps_the_cap<T>(before: &Trie<T>, after: &Trie<T>, key: Seq<u8>, value: T)
    requires
        forall|k: Seq<u8>| before@.contains_key(k) ==> (#[trigger] before@[k]).len() <= MAX_VALUES,
        before.values(key).len() < MAX_VALUES,
        after@ == before@.insert(key, before.values(key).push(value)),
    ensures
        forall|k: Seq<u8>| after@.contains_key(k) ==> (#[trigger] after@[k]).len() <= MAX_VALUES,
{
    assert forall|k: Seq<u8>| after@.contains_key(k) implies (#[trigger] after@[k]).len() <= MAX_VALUES by {
        if k != key {
            assert(before@.contains_key(k));
        }
    }
}


/// What is compiled depends on what was set alone: two tries that hold the
/// same values for the same keys, built with as many calls, have the same
/// arrays, and fail to have arrays together.
pub proof fn law_same_content_same_arrays(first: &Trie<u8>, second: &Trie<u8>)
    requires
        first.wf(),
        second.wf(),
        first@ == second@,
        first.count() == second.count(),
    ensures
        layout(first.tree(), first.count()) == layout(second.tree(), second.count()),
{
    first.lemma_view_tells_tree(second);
}


/// A trie that is not too large has arrays, so that compiling it succeeds:
/// fewer than sixteen million nodes and four gigabytes of values at most.
pub proof fn law_small_trie_has_arrays(trie: &Trie<u8>)
    requires
        trie.wf(),
        trie.nodes() <= 0xff_fff0,
        trie.held() <= u32::MAX,
    ensures
        layout(trie.tree(), trie.count()) is Some,
{
    trie.lemma_tree_measures();
    trie.lemma_tidy();
    lemma_small_tree_has_layout(trie.tree(), trie.count());
}


/// What is set for a key lies encoded in the data: where arrays are compiled
/// from the trie of the encoded values of a trie, each key of the trie is
/// found at an offset where a block lies that is an answer of the codec to
/// the values of the key.
pub proof fn law_key_finds_its_encoding<T: serde::Serialize>(
    trie: &Trie<T>,
    blocks: &Trie<u8>,
    arr: Arrays,
    key: Seq<u8>,
)
    requires
        trie.encoded_as(blocks),
        compiled(blocks, arr),
        trie@.contains_key(key),
    ensures
        arr.find(key) is Some,
        blocks@.contains_key(key),
        block_at(arr.data, arr.find(key)->Some_0, blocks@[key]),
        encodes_to::<T>(trie@[key], blocks@[key]),
{
    assert(blocks@.contains_key(key) <==> trie@.contains_key(key));
    law_key_is_found(blocks, arr, key);
}

} // verus!
