use vstd::prelude::*;

use crate::record::{parse_text, Record};
use crate::sync::{chosen, find_key, merged};

verus! {

/// Some record of `rs` has key `key`.
pub open spec fn has_key(rs: Seq<Record>, key: Seq<char>) -> bool {
    exists|j: int| 0 <= j < rs.len() && (#[trigger] rs[j]).key == key
}

/// No two records of `rs` share a key, as in a well-formed file.
pub open spec fn keys_unique(rs: Seq<Record>) -> bool {
    forall|i: int, j: int| 0 <= i < j < rs.len() ==> (#[trigger] rs[i]).key != (#[trigger] rs[j]).key
}

/// The keys of `rs`, in order.
pub open spec fn keys_of(rs: Seq<Record>) -> Seq<Seq<char>> {
    rs.map_values(|r: Record| r.key)
}

/// The search for a key from index `i` stops at the first record with that key, or at the end.
pub proof fn lemma_find_key(recs: Seq<Record>, key: Seq<char>, i: int)
    requires
        0 <= i <= recs.len(),
    ensures
        i <= find_key(recs, key, i) <= recs.len(),
        find_key(recs, key, i) < recs.len() ==> recs[find_key(recs, key, i)].key == key,
        forall|k: int| i <= k < find_key(recs, key, i) ==> (#[trigger] recs[k]).key != key,
    decreases recs.len() - i,
{
    if i < recs.len() && recs[i].key != key {
        lemma_find_key(recs, key, i + 1);
    }
}

/// The search finds a record exactly when one has the key.
pub proof fn lemma_find_key_found(recs: Seq<Record>, key: Seq<char>)
    ensures
        (find_key(recs, key, 0) < recs.len()) == has_key(recs, key),
{
    lemma_find_key(recs, key, 0);
    if has_key(recs, key) {
        let j = choose|j: int| 0 <= j < recs.len() && (#[trigger] recs[j]).key == key;
        assert(find_key(recs, key, 0) <= j);
    }
}

/// The record chosen for an original record has that record's key.
pub proof fn lemma_chosen_key(r: Record, target: Seq<Record>)
    ensures
        chosen(r, target).key == r.key,
{
    lemma_find_key(target, r.key, 0);
}

/// The output's records carry the original's keys in the original's order.
pub proof fn lemma_keys_in_original_order(original: Seq<Record>, target: Seq<char>)
    ensures
        keys_of(merged(original, parse_text(target))) == keys_of(original),
{
    let m = merged(original, parse_text(target));
    assert forall|i: int| 0 <= i < original.len() implies #[trigger] keys_of(m)[i] == keys_of(
        original,
    )[i] by {
        lemma_chosen_key(original[i], parse_text(target));
    }
    assert(keys_of(m) =~= keys_of(original));
}

/// Where the original's keys are unique, the output holds exactly one record for each of them.
pub proof fn lemma_each_original_key_once(original: Seq<Record>, target: Seq<char>, key: Seq<char>)
    requires
        keys_unique(original),
        has_key(original, key),
    ensures
        ({
            let m = merged(original, parse_text(target));
            exists|i: int|
                0 <= i < m.len() && (#[trigger] m[i]).key == key && forall|j: int|
                    0 <= j < m.len() && (#[trigger] m[j]).key == key ==> j == i
        }),
{
    let t = parse_text(target);
    let m = merged(original, t);
    let i = choose|i: int| 0 <= i < original.len() && (#[trigger] original[i]).key == key;
    lemma_chosen_key(original[i], t);
    assert forall|j: int| 0 <= j < m.len() && (#[trigger] m[j]).key == key implies j == i by {
        lemma_chosen_key(original[j], t);
        if j < i {
            assert(original[j].key != original[i].key);
        } else if i < j {
            assert(original[i].key != original[j].key);
        }
    }
    assert(m[i].key == key);
}

/// A key that the original does not have has no record in the output, whatever the target holds.
pub proof fn lemma_absent_key_dropped(original: Seq<Record>, target: Seq<char>, key: Seq<char>)
    requires
        !has_key(original, key),
    ensures
        !has_key(merged(original, parse_text(target)), key),
{
    let t = parse_text(target);
    let m = merged(original, t);
    if has_key(m, key) {
        let j = choose|j: int| 0 <= j < m.len() && (#[trigger] m[j]).key == key;
        lemma_chosen_key(original[j], t);
        assert(original[j].key == key);
    }
}

/// For a key that both have, the output's record is the target's own first record for that key,
/// line for line.
pub proof fn lemma_target_record_kept(original: Seq<Record>, target: Seq<char>, i: int)
    requires
        0 <= i < original.len(),
        has_key(parse_text(target), original[i].key),
    ensures
        ({
            let t = parse_text(target);
            let j = find_key(t, original[i].key, 0);
            &&& 0 <= j < t.len()
            &&& t[j].key == original[i].key
            &&& forall|k: int| 0 <= k < j ==> (#[trigger] t[k]).key != original[i].key
            &&& merged(original, t)[i] == t[j]
        }),
{
    let t = parse_text(target);
    lemma_find_key(t, original[i].key, 0);
    lemma_find_key_found(t, original[i].key);
}

/// For a key that the target lacks, the output's record is the original's, line for line.
pub proof fn lemma_original_record_copied(original: Seq<Record>, target: Seq<char>, i: int)
    requires
        0 <= i < original.len(),
        !has_key(parse_text(target), original[i].key),
    ensures
        merged(original, parse_text(target))[i] == original[i],
{
    lemma_find_key_found(parse_text(target), original[i].key);
}

} // verus!
