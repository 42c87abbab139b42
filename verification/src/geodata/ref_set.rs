use std::collections::BTreeSet;
use vstd::prelude::*;
use vstd::std_specs::cmp::OrdSpec;
use vstd::std_specs::iter::IteratorSpec;

verus! {

broadcast use vstd::std_specs::btree::group_btree_axioms, vstd::laws_cmp::group_laws_cmp;

/// A reference from a tile to an entity: the tile's column and row, the kind of the entity
/// (0: node, 1: way, 2: multipolygon) and its local id.
pub type TileRef = (u32, u32, u8, u32);

/// The order of tile references: by column, row, kind, then id.
pub open spec fn ref_lt(a: TileRef, b: TileRef) -> bool {
    a.0 < b.0 || (a.0 == b.0 && (a.1 < b.1 || (a.1 == b.1 && (a.2 < b.2 || (a.2 == b.2 && a.3 < b.3)))))
}

/// An empty set of references.
pub fn new_ref_set() -> (res: BTreeSet<TileRef>)
    ensures
        res@ == Set::<TileRef>::empty(),
{
    BTreeSet::new()
}

/// Adds a reference to a set.
pub fn insert_ref(set: &mut BTreeSet<TileRef>, r: TileRef)
    ensures
        final(set)@ == old(set)@.insert(r),
{
    set.insert(r);
}

/// The references of a set, in increasing order.
pub fn sorted_refs(set: &BTreeSet<TileRef>) -> (res: Vec<TileRef>)
    ensures
        forall|r: TileRef| res@.contains(r) <==> set@.contains(r),
        forall|i: int, j: int| 0 <= i < j < res@.len() ==> ref_lt(res@[i], res@[j]),
{
    let ghost s = vstd::std_specs::btree::spec_btree_keys_iter(set).remaining();
    let mut res: Vec<TileRef> = Vec::new();
    for r in it: set.iter()
        invariant
            it.seq() == s,
            res@.len() == it.index(),
            forall|k: int| 0 <= k < it.index() ==> res@[k] == *s[k],
    {
        res.push(*r);
    }
    proof {
        assert(vstd::laws_cmp::obeys_cmp::<TileRef>());
        assert(vstd::laws_cmp::obeys_cmp::<&TileRef>());
        assert(vstd::std_specs::btree::increasing_seq(s));
        assert(res@ =~= s.unref());
        assert forall|i: int, j: int| 0 <= i < j < res@.len() implies ref_lt(res@[i], res@[j]) by {
            assert(OrdSpec::cmp_spec(&s[i], &s[j]) is Less);
            assert(OrdSpec::cmp_spec(s[i], s[j]) is Less);
        }
    }
    res
}

} // verus!
