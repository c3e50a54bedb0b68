//! Looking up a feature's tags: its `tags` are pairs of indexes, the first
//! into its layer's keys and the second into its layer's values.
use crate::vector_tile::Feature;
use crate::vector_tile::Layer;
use crate::vector_tile::SpecFeature;
use crate::vector_tile::SpecLayer;
use crate::vector_tile::SpecValue;
use vstd::prelude::*;

verus! {

/// Whether position `i` of `tags` starts a pair (the pairs start at the
/// even positions).
pub open spec fn pair_start(tags: Seq<u32>, i: int) -> bool {
    0 <= i < tags.len() && i % 2 == 0
}

/// Whether the pair at `i` names a key of the layer, and that key is `key`.
pub open spec fn pair_has_key(layer: SpecLayer, tags: Seq<u32>, i: int, key: Seq<char>) -> bool {
    tags[i] < layer.keys.len() && layer.keys[tags[i] as int] == key
}

/// The value that the pair at `i` names (when its index is in range).
pub open spec fn pair_value(layer: SpecLayer, tags: Seq<u32>, i: int) -> SpecValue {
    layer.values[tags[i + 1] as int]
}

/// Whether the pair at `i` is the first pair of `tags` whose key is `key`.
pub open spec fn first_with_key(layer: SpecLayer, tags: Seq<u32>, key: Seq<char>, i: int) -> bool {
    &&& pair_start(tags, i)
    &&& pair_has_key(layer, tags, i, key)
    &&& forall|j: int| #![trigger pair_has_key(layer, tags, j, key)]
        pair_start(tags, j) && j < i ==> !pair_has_key(layer, tags, j, key)
}

/// Whether looking `key` up in the pairs, first to last until its first
/// pair, only reads keys and values that exist: every key index up to the
/// first pair with key `key` is in range, and that pair has a value index in
/// range.
pub open spec fn key_lookup_in_range(layer: SpecLayer, tags: Seq<u32>, key: Seq<char>) -> bool {
    &&& forall|i: int|
        #![trigger pair_start(tags, i)]
        pair_start(tags, i) && (forall|j: int| #![trigger pair_has_key(layer, tags, j, key)]
            pair_start(tags, j) && j < i ==> !pair_has_key(layer, tags, j, key))
            ==> tags[i] < layer.keys.len()
    &&& forall|i: int|
        #![trigger first_with_key(layer, tags, key, i)]
        first_with_key(layer, tags, key, i) ==> i + 1 < tags.len() && tags[i + 1]
            < layer.values.len()
}

/// The value of the first pair whose key is `key`, if there is one.
pub open spec fn tag_value(layer: SpecLayer, feature: SpecFeature, key: Seq<char>) -> Option<
    SpecValue,
> {
    if exists|i: int| first_with_key(layer, feature.tags, key, i) {
        let i = choose|i: int| first_with_key(layer, feature.tags, key, i);
        Some(pair_value(layer, feature.tags, i))
    } else {
        None
    }
}

/// The string of the value of the first tag with key `key`: `None` when no
/// tag has that key, or its value holds no string.
pub open spec fn tag_string(layer: SpecLayer, feature: SpecFeature, key: Seq<char>) -> Option<
    Seq<char>,
> {
    match tag_value(layer, feature, key) {
        Some(v) => v.string_value,
        None => None,
    }
}

/// The integer of the value of the first tag with key `key`: `None` when
/// no tag has that key, or its value holds no `int64`.
pub open spec fn tag_int(layer: SpecLayer, feature: SpecFeature, key: Seq<char>) -> Option<i64> {
    match tag_value(layer, feature, key) {
        Some(v) => v.int_value,
        None => None,
    }
}

/// Whether the pair at `i` has key `key` and a value whose string is `value`.
pub open spec fn pair_matches(
    layer: SpecLayer,
    tags: Seq<u32>,
    i: int,
    key: Seq<char>,
    value: Seq<char>,
) -> bool {
    pair_has_key(layer, tags, i, key) && pair_value(layer, tags, i).string_value == Some(value)
}

/// Whether searching all pairs for key `key` with string value `value`
/// only reads keys and values that exist: up to the first matching pair,
/// every key index is in range, and every pair with key `key` has a value
/// index in range.
pub open spec fn match_in_range(layer: SpecLayer, tags: Seq<u32>, key: Seq<char>, value: Seq<char>) -> bool {
    forall|i: int|
        #![trigger pair_start(tags, i)]
        pair_start(tags, i) && (forall|j: int| #![trigger pair_matches(layer, tags, j, key, value)]
            pair_start(tags, j) && j < i ==> !pair_matches(layer, tags, j, key, value))
            ==> tags[i] < layer.keys.len() && (pair_has_key(layer, tags, i, key) ==> i + 1
            < tags.len() && tags[i + 1] < layer.values.len())
}

/// Whether some tag of the feature has key `key` and the string `value`.
pub open spec fn tag_matches(layer: SpecLayer, feature: SpecFeature, key: Seq<char>, value: Seq<char>) -> bool {
    exists|i: int|
        pair_start(feature.tags, i) && #[trigger] pair_matches(layer, feature.tags, i, key, value)
}

/// Whether some tag of `feature` has key `key` and a string value equal to
/// `value`.
pub fn tagmatch(layer: &Layer, feature: &Feature, key: &str, value: &str) -> (r: bool)
    requires
        match_in_range(layer@, feature@.tags, key@, value@),
    ensures
        r == tag_matches(layer@, feature@, key@, value@),
{
    let ghost l = layer@;
    let ghost tags = feature@.tags;
    let key_s = key.to_owned();
    let value_s = value.to_owned();
    let len = feature.tags.len();
    let pairs = len / 2 + len % 2;
    let mut p: usize = 0;
    while p < pairs
        invariant
            l == layer@,
            tags == feature@.tags,
            len == tags.len(),
            pairs == len / 2 + len % 2,
            key_s@ == key@,
            value_s@ == value@,
            p <= pairs,
            match_in_range(l, tags, key@, value@),
            forall|j: int| pair_start(tags, j) && j < 2 * p ==> !#[trigger] pair_matches(l, tags, j, key@, value@),
        decreases pairs - p,
    {
        let x = 2 * p;
        assert(pair_start(tags, x as int));
        let k = feature.tags[x] as usize;
        if layer.keys[k] == key_s {
            let vi = feature.tags[x + 1] as usize;
            match &layer.values[vi].string_value {
                Some(s) => {
                    if *s == value_s {
                        assert(pair_matches(l, tags, x as int, key@, value@));
                        return true;
                    }
                },
                None => {},
            }
        }
        p = p + 1;
    }
    proof {
        assert forall|i: int|
            pair_start(tags, i) implies !#[trigger] pair_matches(l, tags, i, key@, value@) by {}
    }
    return false;
}

/// The position of the first pair with key `key`, when there is one.
fn find_key(layer: &Layer, feature: &Feature, key: &str) -> (res: Option<usize>)
    requires
        key_lookup_in_range(layer@, feature@.tags, key@),
    ensures
        match res {
            Some(i) => first_with_key(layer@, feature@.tags, key@, i as int) && i + 1
                < feature@.tags.len() && feature@.tags[i + 1] < layer@.values.len() && tag_value(
                layer@,
                feature@,
                key@,
            ) == Some(pair_value(layer@, feature@.tags, i as int)),
            None => tag_value(layer@, feature@, key@) is None,
        },
{
    let ghost l = layer@;
    let ghost tags = feature@.tags;
    let key_s = key.to_owned();
    let len = feature.tags.len();
    let pairs = len / 2 + len % 2;
    let mut p: usize = 0;
    while p < pairs
        invariant
            l == layer@,
            tags == feature@.tags,
            len == tags.len(),
            pairs == len / 2 + len % 2,
            key_s@ == key@,
            p <= pairs,
            key_lookup_in_range(l, tags, key@),
            forall|j: int| pair_start(tags, j) && j < 2 * p ==> !#[trigger] pair_has_key(l, tags, j, key@),
        decreases pairs - p,
    {
        let x = 2 * p;
        assert(pair_start(tags, x as int));
        let k = feature.tags[x] as usize;
        if layer.keys[k] == key_s {
            assert(first_with_key(l, tags, key@, x as int));
            proof {
                assert forall|i: int| first_with_key(l, tags, key@, i) implies i == x by {
                    if i < x {
                        assert(!pair_has_key(l, tags, i, key@));
                    } else if i > x {
                        assert(pair_has_key(l, tags, x as int, key@));
                    }
                }
            }
            return Some(x);
        }
        p = p + 1;
    }
    proof {
        assert forall|i: int| !first_with_key(l, tags, key@, i) by {
            if pair_start(tags, i) {
                assert(!pair_has_key(l, tags, i, key@));
            }
        }
    }
    None
}

/// The string of the value of the first tag of `feature` whose key is
/// `key`; `None` when no tag has that key or its value holds no string.
pub fn taggetstr<'l>(layer: &'l Layer, feature: &Feature, key: &str) -> (res: Option<&'l String>)
    requires
        key_lookup_in_range(layer@, feature@.tags, key@),
    ensures
        match res {
            Some(s) => tag_string(layer@, feature@, key@) == Some(s@),
            None => tag_string(layer@, feature@, key@) is None,
        },
{
    match find_key(layer, feature, key) {
        None => None,
        Some(x) => {
            let vi = feature.tags[x + 1] as usize;
            match &layer.values[vi].string_value {
                Some(s) => Some(s),
                None => None,
            }
        },
    }
}

/// The integer of the value of the first tag of `feature` whose key is
/// `key`; `None` when no tag has that key or its value holds no `int64`.
pub fn taggetint(layer: &Layer, feature: &Feature, key: &str) -> (res: Option<i64>)
    requires
        key_lookup_in_range(layer@, feature@.tags, key@),
    ensures
        res == tag_int(layer@, feature@, key@),
{
    match find_key(layer, feature, key) {
        None => None,
        Some(x) => {
            let vi = feature.tags[x + 1] as usize;
            layer.values[vi].int_value
        },
    }
}

/// Whether looking `key` up in the tags of `feature` stays within the
/// layer's keys and values (see `key_lookup_in_range`).
pub fn key_lookup_ok(layer: &Layer, feature: &Feature, key: &str) -> (ok: bool)
    ensures
        ok == key_lookup_in_range(layer@, feature@.tags, key@),
{
    let ghost l = layer@;
    let ghost tags = feature@.tags;
    let key_s = key.to_owned();
    let len = feature.tags.len();
    let nkeys = layer.keys.len();
    let nvalues = layer.values.len();
    let pairs = len / 2 + len % 2;
    let mut p: usize = 0;
    while p < pairs
        invariant
            l == layer@,
            tags == feature@.tags,
            len == tags.len(),
            nkeys == l.keys.len(),
            nvalues == l.values.len(),
            pairs == len / 2 + len % 2,
            key_s@ == key@,
            p <= pairs,
            forall|j: int| #[trigger] pair_start(tags, j) && j < 2 * p ==> tags[j] < l.keys.len(),
            forall|j: int| pair_start(tags, j) && j < 2 * p ==> !#[trigger] pair_has_key(l, tags, j, key@),
        decreases pairs - p,
    {
        let x = 2 * p;
        assert(pair_start(tags, x as int));
        let k = feature.tags[x] as usize;
        if k >= nkeys {
            assert(!key_lookup_in_range(l, tags, key@)) by {
                assert(pair_start(tags, x as int));
            }
            return false;
        }
        assert(tags[x as int] < l.keys.len());
        if layer.keys[k] == key_s {
            assert(first_with_key(l, tags, key@, x as int));
            proof {
                assert forall|i: int| first_with_key(l, tags, key@, i) implies i == x by {
                    if i < x {
                        assert(!pair_has_key(l, tags, i, key@));
                    } else if i > x {
                        assert(pair_has_key(l, tags, x as int, key@));
                    }
                }
                assert forall|i: int|
                    #![trigger pair_start(tags, i)]
                    pair_start(tags, i) && (forall|j: int|
                        #![trigger pair_has_key(l, tags, j, key@)]
                        pair_start(tags, j) && j < i ==> !pair_has_key(l, tags, j, key@))
                        implies tags[i] < l.keys.len() by {
                    if i > x {
                        assert(pair_has_key(l, tags, x as int, key@));
                    } else if i < x {
                        assert(!pair_has_key(l, tags, i, key@));
                    }
                }
            }
            return x + 1 < len && (feature.tags[x + 1] as usize) < nvalues;
        }
        assert(!pair_has_key(l, tags, x as int, key@));
        assert forall|j: int| #[trigger] pair_start(tags, j) && j < 2 * (p + 1) implies tags[j]
            < l.keys.len() by {
            if j >= x {
                assert(j == x);
            }
        }
        assert forall|j: int| pair_start(tags, j) && j < 2 * (p + 1) implies !#[trigger] pair_has_key(
            l,
            tags,
            j,
            key@,
        ) by {
            if j >= x {
                assert(j == x);
            }
        }
        p = p + 1;
    }
    proof {
        assert forall|i: int| !first_with_key(l, tags, key@, i) by {
            if pair_start(tags, i) {
                assert(!pair_has_key(l, tags, i, key@));
            }
        }
        assert forall|i: int|
            #![trigger pair_start(tags, i)]
            pair_start(tags, i) && (forall|j: int|
                #![trigger pair_has_key(l, tags, j, key@)]
                pair_start(tags, j) && j < i ==> !pair_has_key(l, tags, j, key@))
                implies tags[i] < l.keys.len() by {
        }
    }
    true
}

/// The string that the lookup of a key finds is one that the search for
/// that key and string finds.
pub proof fn lemma_tag_string_matches(
    layer: SpecLayer,
    feature: SpecFeature,
    key: Seq<char>,
    value: Seq<char>,
)
    requires
        tag_string(layer, feature, key) == Some(value),
    ensures
        tag_matches(layer, feature, key, value),
{
    let i = choose|i: int| first_with_key(layer, feature.tags, key, i);
    assert(pair_matches(layer, feature.tags, i, key, value));
}

/// When no tag of a feature has a key, looking the key up finds nothing,
/// neither a string nor an integer, and no search for that key succeeds.
pub proof fn lemma_absent_key(layer: SpecLayer, feature: SpecFeature, key: Seq<char>, value: Seq<char>)
    requires
        forall|i: int| pair_start(feature.tags, i) ==> !#[trigger] pair_has_key(layer, feature.tags, i, key),
    ensures
        tag_string(layer, feature, key) is None,
        tag_int(layer, feature, key) is None,
        !tag_matches(layer, feature, key, value),
{
    assert forall|i: int| !first_with_key(layer, feature.tags, key, i) by {
        if pair_start(feature.tags, i) {
            assert(!pair_has_key(layer, feature.tags, i, key));
        }
    }
    assert forall|i: int|
        !(pair_start(feature.tags, i) && #[trigger] pair_matches(layer, feature.tags, i, key, value)) by {
        if pair_start(feature.tags, i) {
            assert(!pair_has_key(layer, feature.tags, i, key));
        }
    }
}

} // verus!
