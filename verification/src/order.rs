//! The standard order of `u16` keys, as the `BTreeMap` specifications ask
//! for it.
use vstd::prelude::*;
use vstd::std_specs::cmp::OrdSpec;

verus! {

/// `u16` keys obey the standard order, as the map specifications ask.
pub open spec fn u16_keys_ordered() -> bool {
    vstd::laws_cmp::obeys_cmp::<u16>()
}

/// `u16` keys obey the standard order, and "less" in it is `<`.
pub proof fn lemma_u16_order()
    ensures
        vstd::laws_cmp::obeys_cmp::<u16>(),
        vstd::std_specs::btree::key_obeys_cmp_spec::<u16>(),
        forall|a: u16, b: u16| (#[trigger] a.cmp_spec(&b) is Less) <==> a < b,
{
    broadcast use vstd::laws_cmp::group_laws_cmp, vstd::std_specs::btree::group_btree_axioms;
}

/// Keys that the map's iterator hands out in increasing order are strictly
/// increasing numbers.
pub proof fn lemma_increasing_keys<V>(v: Seq<(&u16, &V)>)
    requires
        vstd::std_specs::btree::increasing_seq(v.map_values(|kv: (&u16, &V)| *kv.0)),
    ensures
        forall|i: int, j: int| 0 <= i < j < v.len() ==> *v[i].0 < *v[j].0,
{
    broadcast use vstd::laws_cmp::group_laws_cmp, vstd::std_specs::btree::group_btree_axioms;
    let keys = v.map_values(|kv: (&u16, &V)| *kv.0);
    assert forall|i: int, j: int| 0 <= i < j < v.len() implies *v[i].0 < *v[j].0 by {
        assert(keys[i] == *v[i].0 && keys[j] == *v[j].0);
        assert(keys[i].cmp_spec(&keys[j]) is Less);
    }
}

} // verus!
