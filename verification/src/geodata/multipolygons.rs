use std::collections::{HashMap, HashSet};
use vstd::prelude::*;
use vstd::std_specs::hash::obeys_key_model;

verus! {

/// A node's position in a relation's geometry: the bits of its latitude and longitude.
pub type NodePos = (u64, u64);

/// A node of a relation's geometry: its local id and its position.
#[derive(Clone, Copy, Debug)]
pub struct NodeDesc {
    pub id: usize,
    pub pos: NodePos,
}

impl NodeDesc {
    pub fn new(id: usize, lat_bits: u64, lon_bits: u64) -> (res: NodeDesc)
        ensures
            res == (NodeDesc { id, pos: (lat_bits, lon_bits) }),
    {
        NodeDesc { id, pos: (lat_bits, lon_bits) }
    }
}

/// A segment of a relation's geometry: two consecutive nodes of one of its ways, and whether
/// that way bounds a hole.
#[derive(Clone, Copy, Debug)]
pub struct NodeDescPair {
    pub node1: NodeDesc,
    pub node2: NodeDesc,
    pub is_inner: bool,
}

impl NodeDescPair {
    pub fn new(node1: NodeDesc, node2: NodeDesc, is_inner: bool) -> (res: NodeDescPair)
        ensures
            res == (NodeDescPair { node1, node2, is_inner }),
    {
        NodeDescPair { node1, node2, is_inner }
    }
}

/// A segment seen from one of its ends: the other end, the segment's index, and whether it
/// bounds a hole.
#[derive(Clone, Copy, Debug)]
pub struct ConnectedSegment {
    pub other_side: NodePos,
    pub segment_index: usize,
    pub is_inner: bool,
}

/// The segments that meet at each position.
pub type SegmentConnections = HashMap<NodePos, Vec<ConnectedSegment>>;

/// The segments at each position, each list by its view.
pub open spec fn connections_view(m: Map<NodePos, Vec<ConnectedSegment>>) -> Map<NodePos, Seq<ConnectedSegment>> {
    m.map_values(|v: Vec<ConnectedSegment>| v@)
}

/// The segments at each position once a segment is recorded as leaving `pos1` towards `pos2`:
/// it is appended to the list of `pos1`.
pub open spec fn add_connection(
    m: Map<NodePos, Seq<ConnectedSegment>>,
    pos1: NodePos,
    pos2: NodePos,
    segment_index: usize,
    is_inner: bool,
) -> Map<NodePos, Seq<ConnectedSegment>> {
    let list = if m.contains_key(pos1) {
        m[pos1]
    } else {
        Seq::empty()
    };
    m.insert(pos1, list.push(ConnectedSegment { other_side: pos2, segment_index, is_inner }))
}

/// The segments at each position, for the first `n` segments of a relation: each segment is
/// recorded at both of its ends, in order.
pub open spec fn connections_of(segs: Seq<NodeDescPair>, n: nat) -> Map<NodePos, Seq<ConnectedSegment>>
    decreases n,
{
    if n == 0 {
        Map::empty()
    } else {
        let idx = (n - 1) as int;
        let seg = segs[idx];
        add_connection(
            add_connection(connections_of(segs, (n - 1) as nat), seg.node1.pos, seg.node2.pos, idx as usize, seg.is_inner),
            seg.node2.pos,
            seg.node1.pos,
            idx as usize,
            seg.is_inner,
        )
    }
}

/// Records that a segment leaves `pos1` towards `pos2`. What the map holds is stated where
/// positions obey the hash-table key model of vstd (which vstd asserts for integers only).
fn add_to_connections(
    connections: &mut SegmentConnections,
    pos1: NodePos,
    pos2: NodePos,
    segment_index: usize,
    is_inner: bool,
)
    ensures
        obeys_key_model::<NodePos>() ==> connections_view(final(connections)@) == add_connection(
            connections_view(old(connections)@),
            pos1,
            pos2,
            segment_index,
            is_inner,
        ),
{
    broadcast use vstd::std_specs::hash::group_hash_axioms;

    let seg = ConnectedSegment { other_side: pos2, segment_index, is_inner };
    let ghost before = connections_view(connections@);
    let list = match connections.remove(&pos1) {
        Some(l) => l,
        None => Vec::new(),
    };
    let ghost removed = connections@;
    let mut list = list;
    let ghost list0 = list@;
    list.push(seg);
    connections.insert(pos1, list);
    proof {
        if obeys_key_model::<NodePos>() {
            assert(list0 == (if before.contains_key(pos1) {
                before[pos1]
            } else {
                Seq::<ConnectedSegment>::empty()
            }));
            assert(connections_view(connections@) =~= add_connection(before, pos1, pos2, segment_index, is_inner)) by {
                assert(removed == old(connections)@.remove(pos1));
            }
        }
    }
}

/// For each position, the segments that meet there, seen from it (where positions obey the
/// hash-table key model, as for `add_to_connections`).
fn get_connections(relation_segments: &Vec<NodeDescPair>) -> (res: SegmentConnections)
    ensures
        obeys_key_model::<NodePos>() ==> connections_view(res@) == connections_of(
            relation_segments@,
            relation_segments@.len(),
        ),
{
    let mut connections: SegmentConnections = HashMap::new();
    let mut idx: usize = 0;
    assert(connections_view(connections@) =~= Map::<NodePos, Seq<ConnectedSegment>>::empty());
    while idx < relation_segments.len()
        invariant
            idx <= relation_segments@.len(),
            obeys_key_model::<NodePos>() ==> connections_view(connections@) == connections_of(
                relation_segments@,
                idx as nat,
            ),
        decreases relation_segments@.len() - idx,
    {
        let seg = relation_segments[idx];
        add_to_connections(&mut connections, seg.node1.pos, seg.node2.pos, idx, seg.is_inner);
        add_to_connections(&mut connections, seg.node2.pos, seg.node1.pos, idx, seg.is_inner);
        idx = idx + 1;
    }
    connections
}

/// The number of segments still available.
pub open spec fn count_true(s: Seq<bool>) -> nat
    decreases s.len(),
{
    if s.len() == 0 {
        0
    } else {
        count_true(s.drop_last()) + if s.last() {
            1nat
        } else {
            0nat
        }
    }
}

proof fn lemma_count_true_update(s: Seq<bool>, i: int)
    requires
        0 <= i < s.len(),
        s[i],
    ensures
        count_true(s.update(i, false)) + 1 == count_true(s),
    decreases s.len(),
{
    if i < s.len() - 1 {
        lemma_count_true_update(s.drop_last(), i);
        assert(s.update(i, false).drop_last() =~= s.drop_last().update(i, false));
    } else {
        assert(s.update(i, false).drop_last() =~= s.drop_last());
    }
}

/// The ring being built: which segments are still free, which are used, and the positions
/// that the ring passes through.
pub struct CurrentRing {
    pub available_segments: Vec<bool>,
    pub used_segments: Vec<usize>,
    pub used_vertices: HashSet<NodePos>,
}

impl CurrentRing {
    /// Whether the closed ring may become a polygon; no ring is accepted.
    pub fn is_valid(&self) -> (res: bool)
        ensures
            !res,
    {
        false
    }

    fn include_segment(&mut self, seg: &ConnectedSegment)
        requires
            seg.segment_index < old(self).available_segments@.len(),
        ensures
            final(self).available_segments@ == old(self).available_segments@.update(seg.segment_index as int, false),
            final(self).used_segments@ == old(self).used_segments@.push(seg.segment_index),
            obeys_key_model::<NodePos>() ==> final(self).used_vertices@ == old(self).used_vertices@.insert(
                seg.other_side,
            ),
    {
        broadcast use vstd::std_specs::hash::group_hash_axioms;

        self.available_segments.set(seg.segment_index, false);
        self.used_segments.push(seg.segment_index);
        self.used_vertices.insert(seg.other_side);
    }

    fn exclude_segment(&mut self, seg: &ConnectedSegment)
        requires
            seg.segment_index < old(self).available_segments@.len(),
        ensures
            final(self).available_segments@ == old(self).available_segments@.update(seg.segment_index as int, true),
            final(self).used_segments@ == if old(self).used_segments@.len() > 0 {
                old(self).used_segments@.drop_last()
            } else {
                old(self).used_segments@
            },
            obeys_key_model::<NodePos>() ==> final(self).used_vertices@ == old(self).used_vertices@.remove(
                seg.other_side,
            ),
    {
        broadcast use vstd::std_specs::hash::group_hash_axioms;

        self.available_segments.set(seg.segment_index, true);
        self.used_segments.pop();
        self.used_vertices.remove(&seg.other_side);
    }
}

/// Tries to close the ring from `last_pos` back to `first_pos` with free segments of the
/// ring's kind (inner or outer). A closed ring is kept only where it is valid, and none is;
/// so it never succeeds, and the ring is left as it was: its free and used segments, and, where
/// the walk did not start at `first_pos` already passed (and positions obey the hash-table key
/// model of vstd), its used positions.
fn find_ring_rec(
    last_pos: NodePos,
    first_pos: NodePos,
    is_inner: bool,
    connections: &SegmentConnections,
    ring: &mut CurrentRing,
) -> (res: bool)
    ensures
        !res,
        final(ring).available_segments@ == old(ring).available_segments@,
        final(ring).used_segments@ == old(ring).used_segments@,
        obeys_key_model::<NodePos>() && (last_pos == first_pos || !old(ring).used_vertices@.contains(first_pos))
            ==> final(ring).used_vertices@ == old(ring).used_vertices@,
    decreases count_true(old(ring).available_segments@),
{
    broadcast use vstd::std_specs::hash::group_hash_axioms;

    if first_pos.0 == last_pos.0 && first_pos.1 == last_pos.1 {
        return ring.is_valid();
    }
    let mut candidates: Vec<ConnectedSegment> = Vec::new();
    match connections.get(&last_pos) {
        None => return false,
        Some(segs) => {
            let mut i: usize = 0;
            while i < segs.len()
                invariant
                    i <= segs@.len(),
                    ring.available_segments@ == old(ring).available_segments@,
                    ring.used_segments@ == old(ring).used_segments@,
                    ring.used_vertices@ == old(ring).used_vertices@,
                    forall|k: int|
                        0 <= k < candidates@.len() ==> (#[trigger] candidates@[k]).segment_index
                            < ring.available_segments@.len() && ring.available_segments@[candidates@[k].segment_index as int],
                decreases segs@.len() - i,
            {
                let seg = segs[i];
                if seg.is_inner == is_inner && seg.segment_index < ring.available_segments.len()
                    && ring.available_segments[seg.segment_index] {
                    candidates.push(seg);
                }
                i = i + 1;
            }
        },
    }
    let mut c: usize = 0;
    while c < candidates.len()
        invariant
            c <= candidates@.len(),
            last_pos != first_pos,
            ring.available_segments@ == old(ring).available_segments@,
            ring.used_segments@ == old(ring).used_segments@,
            obeys_key_model::<NodePos>() && !old(ring).used_vertices@.contains(first_pos)
                ==> ring.used_vertices@ == old(ring).used_vertices@,
            forall|k: int|
                0 <= k < candidates@.len() ==> (#[trigger] candidates@[k]).segment_index < ring.available_segments@.len()
                    && ring.available_segments@[candidates@[k].segment_index as int],
        decreases candidates@.len() - c,
    {
        let cand = candidates[c];
        assert(candidates@[c as int] == cand);
        if ring.used_vertices.contains(&cand.other_side) && !(cand.other_side.0 == first_pos.0 && cand.other_side.1 == first_pos.1) {
            return false;
        }
        let ghost before = ring.available_segments@;
        let ghost vertices = ring.used_vertices@;
        let ghost used = ring.used_segments@;
        ring.include_segment(&cand);
        proof {
            lemma_count_true_update(before, cand.segment_index as int);
            if obeys_key_model::<NodePos>() && !old(ring).used_vertices@.contains(first_pos) {
                assert(!vertices.contains(cand.other_side) || cand.other_side == first_pos);
                assert(cand.other_side == first_pos || !ring.used_vertices@.contains(first_pos));
            }
        }
        if find_ring_rec(cand.other_side, first_pos, is_inner, connections, ring) {
            return true;
        }
        ring.exclude_segment(&cand);
        assert(ring.available_segments@ =~= before);
        assert(ring.used_segments@ =~= used);
        proof {
            if obeys_key_model::<NodePos>() && !old(ring).used_vertices@.contains(first_pos) {
                assert(ring.used_vertices@ =~= vertices);
            }
        }
        c = c + 1;
    }
    false
}

/// Whether some segment is free.
pub open spec fn any_free(a: Seq<bool>) -> bool {
    exists|i: int| 0 <= i < a.len() && a[i]
}

/// Looks for a ring that starts with a free segment; as no closed ring is valid, none is
/// found, and the free segments stay as they were. Each free segment in turn starts a ring,
/// so where there is one, the ring is left started with the last free segment alone (and no
/// used positions, where positions obey the hash-table key model of vstd); where there is
/// none, the ring is left as it was.
fn find_ring(
    relation_segments: &Vec<NodeDescPair>,
    connections: &SegmentConnections,
    ring: &mut CurrentRing,
) -> (res: Option<Vec<usize>>)
    requires
        old(ring).available_segments@.len() == relation_segments@.len(),
    ensures
        res is None,
        final(ring).available_segments@ == old(ring).available_segments@,
        any_free(old(ring).available_segments@) ==> {
            let a = old(ring).available_segments@;
            let u = final(ring).used_segments@;
            &&& u.len() == 1
            &&& u[0] < a.len()
            &&& a[u[0] as int]
            &&& forall|j: int| u[0] < j < a.len() ==> !a[j]
            &&& obeys_key_model::<NodePos>() ==> final(ring).used_vertices@ == Set::<NodePos>::empty()
        },
        !any_free(old(ring).available_segments@) ==> final(ring).used_segments@ == old(ring).used_segments@
            && final(ring).used_vertices@ == old(ring).used_vertices@,
{
    let ghost a = ring.available_segments@;
    let ghost mut last: Option<int> = None;
    let mut start_idx: usize = 0;
    while start_idx < ring.available_segments.len()
        invariant
            a == old(ring).available_segments@,
            ring.available_segments@ == a,
            ring.available_segments@.len() == relation_segments@.len(),
            start_idx <= a.len(),
            match last {
                None => {
                    &&& forall|j: int| 0 <= j < start_idx ==> !a[j]
                    &&& ring.used_segments@ == old(ring).used_segments@
                    &&& ring.used_vertices@ == old(ring).used_vertices@
                },
                Some(l) => {
                    &&& 0 <= l < start_idx
                    &&& a[l]
                    &&& forall|j: int| l < j < start_idx ==> !a[j]
                    &&& ring.used_segments@ == seq![l as usize]
                    &&& obeys_key_model::<NodePos>() ==> ring.used_vertices@ == Set::<NodePos>::empty()
                },
            },
        decreases ring.available_segments@.len() - start_idx,
    {
        if ring.available_segments[start_idx] {
            let start_segment = relation_segments[start_idx];
            ring.used_segments = vec![start_idx];
            ring.used_vertices = HashSet::new();
            assert(ring.used_segments@ =~= seq![start_idx]);
            if find_ring_rec(
                start_segment.node2.pos,
                start_segment.node1.pos,
                start_segment.is_inner,
                connections,
                ring,
            ) {
                let mut used: Vec<usize> = Vec::new();
                std::mem::swap(&mut used, &mut ring.used_segments);
                return Some(used);
            }
            proof {
                last = Some(start_idx as int);
            }
        }
        start_idx = start_idx + 1;
    }
    proof {
        match last {
            None => {
                assert(!any_free(a));
            },
            Some(l) => {
                assert(any_free(a));
            },
        }
    }
    None
}

/// Builds the rings of a multipolygon relation from its segments. No ring is accepted as
/// valid, so where there are segments the relation is refused, and no multipolygon results
/// either way: the result is the number of rings built and of segments left unmatched.
pub fn convert_relation_to_multipolygon(relation_segments: &Vec<NodeDescPair>) -> (res: (usize, usize))
    ensures
        res.0 == 0,
        res.1 == relation_segments@.len(),
{
    let connections = get_connections(relation_segments);
    let mut available: Vec<bool> = Vec::new();
    let mut i: usize = 0;
    while i < relation_segments.len()
        invariant
            i <= relation_segments@.len(),
            available@.len() == i,
        decreases relation_segments@.len() - i,
    {
        available.push(true);
        i = i + 1;
    }
    let mut ring = CurrentRing { available_segments: available, used_segments: Vec::new(), used_vertices: HashSet::new() };
    let mut all_rings: Vec<Vec<usize>> = Vec::new();
    let mut unmatched_count = relation_segments.len();
    while unmatched_count > 0
        invariant
            ring.available_segments@.len() == relation_segments@.len(),
            all_rings@.len() == 0,
            unmatched_count == relation_segments@.len(),
        decreases unmatched_count,
    {
        match find_ring(relation_segments, &connections, &mut ring) {
            Some(r) => {
                unmatched_count = if r.len() <= unmatched_count {
                    unmatched_count - r.len()
                } else {
                    0
                };
                all_rings.push(r);
            },
            None => {
                return (all_rings.len(), unmatched_count);
            },
        }
    }
    (all_rings.len(), unmatched_count)
}

} // verus!
