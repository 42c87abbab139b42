use crate::geodata::bytes::{
    bytes_lt, compare_range, copy_range, lemma_bytes_lt_asymmetric, order_of, string_from_utf8, Order,
};
use crate::geodata::format::{
    int_at, int_list_at, int_run_at, ints_of, layout_of, lemma_layout_bounds, record_pos, storage_at, storage_end, string_bytes, tile_ids_ref_pos,
    tile_xy_at, tiles_sorted, u64_at, xy_lt, Layout, Storage, INT_SIZE, NODE_SIZE, POLYGON_SIZE, TILE_RECORD_SIZE,
    WAY_OR_MULTIPOLYGON_SIZE,
};
use crate::geodata::le::{read_u32_le, read_u64_le, spec_u32_le};
use crate::tile::{tile_to_max_zoom_tile_range, Tile, TileRange};
use vstd::prelude::*;
use vstd::utf8::{decode_utf8, encode_utf8, valid_utf8};

verus! {

/// Reads the section that starts at `pos`.
fn read_storage(bytes: &Vec<u8>, pos: usize, size: usize) -> (res: Option<Storage>)
    requires
        1 <= size <= 32,
        pos <= bytes@.len(),
    ensures
        res == storage_at(bytes@, pos as int, size as int),
        res matches Some(s) ==> storage_end(s) <= bytes@.len(),
{
    let n = bytes.len();
    if n < 4 || pos > n - 4 {
        return None;
    }
    let count = read_u32_le(bytes.as_slice(), pos);
    assert((size as u64) * (count as u64) <= 32 * 0xffff_ffff) by (nonlinear_arith)
        requires
            size <= 32,
            count <= 0xffff_ffff,
    ;
    let records: u64 = (size as u64) * (count as u64);
    let room: u64 = (n - pos - 4) as u64;
    if records <= room {
        Some(Storage { start: pos + 4, count: count as usize, size })
    } else {
        None
    }
}

/// A record of a section ends within the section.
proof fn lemma_record_in_storage(s: Storage, i: int)
    requires
        0 <= i < s.count,
    ensures
        s.start <= record_pos(s, i),
        record_pos(s, i) + s.size <= storage_end(s),
{
    assert(s.size * i + s.size <= s.size * s.count) by (nonlinear_arith)
        requires
            0 <= i < s.count,
    ;
    assert(s.size * i >= 0) by (nonlinear_arith)
        requires
            0 <= i,
    ;
}

/// A geodata file in memory, with the layout of its sections.
pub struct GeodataReader {
    bytes: Vec<u8>,
    layout: Layout,
}

/// The integer `i` of the integer section, where there is one.
pub open spec fn int_checked(b: Seq<u8>, l: Layout, i: int) -> Option<u32> {
    if 0 <= i < l.ints.count {
        Some(int_at(b, l, i))
    } else {
        None
    }
}

/// Entry `j` of the tag list that starts at integer `offset`: the key's bytes, the value's
/// bytes, and their offsets in the string section; `None` where a reference leads outside
/// the file.
pub open spec fn kv_entry(b: Seq<u8>, l: Layout, offset: int, j: int) -> Option<(Seq<u8>, Seq<u8>, nat, nat)> {
    let base = offset + 4 * j;
    match (int_checked(b, l, base), int_checked(b, l, base + 1), int_checked(b, l, base + 2), int_checked(b, l, base + 3)) {
        (Some(ko), Some(kl), Some(vo), Some(vl)) => match (
            string_bytes(b, l, ko as nat, kl as nat),
            string_bytes(b, l, vo as nat, vl as nat),
        ) {
            (Some(k), Some(v)) => Some((k, v, ko as nat, vo as nat)),
            _ => None,
        },
        _ => None,
    }
}

impl GeodataReader {
    /// The bytes of the file.
    pub closed spec fn data(&self) -> Seq<u8> {
        self.bytes@
    }

    /// The layout of the file's sections.
    pub closed spec fn layout(&self) -> Layout {
        self.layout
    }

    pub closed spec fn wf(&self) -> bool {
        layout_of(self.bytes@) == Some(self.layout)
    }

    /// A reader of the geodata file `bytes`, or `None` where its sections do not fit in it.
    pub fn from_bytes(bytes: Vec<u8>) -> (res: Option<GeodataReader>)
        ensures
            res is Some <==> layout_of(bytes@) is Some,
            res matches Some(r) ==> r.wf() && r.data() == bytes@ && layout_of(bytes@) == Some(r.layout()),
    {
        let n = bytes.len();
        let nodes = match read_storage(&bytes, 0, NODE_SIZE) {
            Some(s) => s,
            None => return None,
        };
        let ways = match read_storage(&bytes, nodes.start + nodes.size * nodes.count, WAY_OR_MULTIPOLYGON_SIZE) {
            Some(s) => s,
            None => return None,
        };
        let polygons = match read_storage(&bytes, ways.start + ways.size * ways.count, POLYGON_SIZE) {
            Some(s) => s,
            None => return None,
        };
        let multipolygons = match read_storage(
            &bytes,
            polygons.start + polygons.size * polygons.count,
            WAY_OR_MULTIPOLYGON_SIZE,
        ) {
            Some(s) => s,
            None => return None,
        };
        let tiles = match read_storage(
            &bytes,
            multipolygons.start + multipolygons.size * multipolygons.count,
            TILE_RECORD_SIZE,
        ) {
            Some(s) => s,
            None => return None,
        };
        let ints = match read_storage(&bytes, tiles.start + tiles.size * tiles.count, INT_SIZE) {
            Some(s) => s,
            None => return None,
        };
        let layout = Layout {
            nodes,
            ways,
            polygons,
            multipolygons,
            tiles,
            ints,
            strings_start: ints.start + ints.size * ints.count,
        };
        Some(GeodataReader { bytes, layout })
    }

    /// The number of node records.
    pub fn node_count(&self) -> (res: usize)
        ensures
            res == self.layout().nodes.count,
    {
        self.layout.nodes.count
    }

    /// The number of way records.
    pub fn way_count(&self) -> (res: usize)
        ensures
            res == self.layout().ways.count,
    {
        self.layout.ways.count
    }

    /// The number of polygon records.
    pub fn polygon_count(&self) -> (res: usize)
        ensures
            res == self.layout().polygons.count,
    {
        self.layout.polygons.count
    }

    /// The number of multipolygon records.
    pub fn multipolygon_count(&self) -> (res: usize)
        ensures
            res == self.layout().multipolygons.count,
    {
        self.layout.multipolygons.count
    }

    /// The number of tile records.
    pub fn tile_count(&self) -> (res: usize)
        ensures
            res == self.layout().tiles.count,
    {
        self.layout.tiles.count
    }

    /// Integer `i` of the integer section, where there is one.
    fn int_checked(&self, i: u64) -> (res: Option<u32>)
        requires
            self.wf(),
        ensures
            res == int_checked(self.data(), self.layout(), i as int),
    {
        let n = self.bytes.len();
        proof {
            lemma_layout_bounds(self.bytes@);
        }
        if i >= self.layout.ints.count as u64 {
            return None;
        }
        proof {
            lemma_record_in_storage(self.layout.ints, i as int);
        }
        Some(read_u32_le(self.bytes.as_slice(), self.layout.ints.start + 4 * (i as usize)))
    }

    /// The run of integers that the reference at `pos` designates, where it lies in the section.
    fn int_run(&self, pos: usize) -> (res: Option<(usize, usize)>)
        requires
            self.wf(),
            pos + 8 <= self.data().len(),
        ensures
            match res {
                Some((o, l)) => int_run_at(self.data(), self.layout(), pos as int) == Some((o as nat, l as nat)),
                None => int_run_at(self.data(), self.layout(), pos as int) is None,
            },
    {
        let n = self.bytes.len();
        proof {
            lemma_layout_bounds(self.bytes@);
        }
        let offset = read_u32_le(self.bytes.as_slice(), pos);
        let length = read_u32_le(self.bytes.as_slice(), pos + 4);
        if (offset as u64) + (length as u64) <= self.layout.ints.count as u64 {
            Some((offset as usize, length as usize))
        } else {
            None
        }
    }

    /// The integers `offset..offset + length` of the integer section.
    fn ints(&self, offset: usize, length: usize) -> (res: Vec<u32>)
        requires
            self.wf(),
            offset + length <= self.layout().ints.count,
        ensures
            res@ == ints_of(self.data(), self.layout(), offset as nat, length as nat),
    {
        let mut res: Vec<u32> = Vec::new();
        let mut j: usize = 0;
        while j < length
            invariant
                self.wf(),
                j <= length,
                offset + length <= self.layout().ints.count,
                res@ == ints_of(self.data(), self.layout(), offset as nat, j as nat),
            decreases length - j,
        {
            let v = match self.int_checked((offset + j) as u64) {
                Some(v) => v,
                None => 0,
            };
            res.push(v);
            j = j + 1;
            assert(res@ =~= ints_of(self.data(), self.layout(), offset as nat, j as nat));
        }
        res
    }

    /// The column and row of tile record `idx`.
    pub fn tile_xy(&self, idx: usize) -> (res: (u32, u32))
        requires
            self.wf(),
            idx < self.layout().tiles.count,
        ensures
            res == tile_xy_at(self.data(), self.layout(), idx as int),
    {
        let n = self.bytes.len();
        proof {
            lemma_layout_bounds(self.bytes@);
        }
        proof {
            lemma_record_in_storage(self.layout.tiles, idx as int);
        }
        let pos = self.layout.tiles.start + TILE_RECORD_SIZE * idx;
        (read_u32_le(self.bytes.as_slice(), pos), read_u32_le(self.bytes.as_slice(), pos + 4))
    }

    /// The local ids of kind `kind` (0: nodes, 1: ways, 2: multipolygons) in tile record `idx`,
    /// where their reference lies in the integer section.
    pub fn tile_local_ids(&self, idx: usize, kind: usize) -> (res: Option<Vec<u32>>)
        requires
            self.wf(),
            idx < self.layout().tiles.count,
            kind < 3,
        ensures
            match res {
                Some(v) => int_run_at(self.data(), self.layout(), tile_ids_ref_pos(self.layout(), idx as int, kind as int))
                    matches Some((o, l)) && v@ == ints_of(self.data(), self.layout(), o, l),
                None => int_run_at(
                    self.data(),
                    self.layout(),
                    tile_ids_ref_pos(self.layout(), idx as int, kind as int),
                ) is None,
            },
    {
        let n = self.bytes.len();
        proof {
            lemma_layout_bounds(self.bytes@);
        }
        proof {
            lemma_record_in_storage(self.layout.tiles, idx as int);
        }
        let pos = self.layout.tiles.start + TILE_RECORD_SIZE * idx + 8 + 8 * kind;
        match self.int_run(pos) {
            Some((offset, length)) => Some(self.ints(offset, length)),
            None => None,
        }
    }
}

} // verus!

verus! {

/// A tag's key or value, with its offset in the string section.
#[derive(Debug)]
pub struct StringWithOffset {
    pub str: String,
    pub offset: usize,
}

/// The tags of an entity: a run of integers of the file, four per tag, which give the offset
/// and the length of the key and of the value in the string section. Tags are sorted by
/// key in files that `save_to_internal_format` wrote.
pub struct Tags<'a> {
    reader: &'a GeodataReader,
    offset: u32,
    length: u32,
}

/// The string that the bytes encode, where they are valid UTF-8.
pub open spec fn decoded(bytes: Seq<u8>) -> Option<Seq<char>> {
    if valid_utf8(bytes) {
        Some(decode_utf8(bytes))
    } else {
        None
    }
}

impl<'a> Tags<'a> {
    pub closed spec fn wf(&self) -> bool {
        self.reader.wf()
    }

    /// The number of tags.
    pub closed spec fn kv_count(&self) -> nat {
        (self.length / 4) as nat
    }

    /// Tag `j`: its key's and value's bytes and their offsets, where its references lead
    /// into the file.
    pub closed spec fn entry(&self, j: int) -> Option<(Seq<u8>, Seq<u8>, nat, nat)> {
        kv_entry(self.reader.data(), self.reader.layout(), self.offset as int, j)
    }

    /// Whether the keys are present and strictly increasing in byte order.
    pub open spec fn sorted(&self) -> bool {
        &&& forall|j: int| 0 <= j < self.kv_count() ==> #[trigger] self.entry(j) is Some
        &&& forall|i: int, j: int|
            0 <= i < j < self.kv_count() ==> bytes_lt(
                (#[trigger] self.entry(i)).unwrap().0,
                (#[trigger] self.entry(j)).unwrap().0,
            )
    }

    /// Whether tag `j` lies in the file and has the key bytes `kb`.
    pub open spec fn has_key(&self, j: int, kb: Seq<u8>) -> bool {
        match self.entry(j) {
            Some((k, _, _, _)) => k == kb,
            None => false,
        }
    }

    /// Whether tag `j` lies in the file and its key and value are valid UTF-8.
    pub open spec fn decodes(&self, j: int) -> bool {
        match self.entry(j) {
            Some((kb, vb, _, _)) => decoded(kb) is Some && decoded(vb) is Some,
            None => false,
        }
    }

    /// Whether tag `j` reads as the key `k` and the value `v`, at the offsets `ko` and `vo`.
    pub open spec fn reads_as(&self, j: int, k: Seq<char>, v: Seq<char>, ko: nat, vo: nat) -> bool {
        match self.entry(j) {
            Some((kb, vb, o1, o2)) => decoded(kb) == Some(k) && decoded(vb) == Some(v) && o1 == ko && o2 == vo,
            None => false,
        }
    }

    /// Where the binary search for the key bytes `kb` ends between tags `lo` and `hi`: at a
    /// tag with that key (`Some(Some(j))`), at none (`Some(None)`), or at a tag whose key does
    /// not lie in the file (`None`).
    pub open spec fn search(&self, kb: Seq<u8>, lo: int, hi: int) -> Option<Option<int>>
        decreases hi - lo,
    {
        if lo < hi {
            let mid = lo + (hi - lo) / 2;
            match self.entry(mid) {
                None => None,
                Some(e) => match order_of(e.0, kb) {
                    Order::Less => self.search(kb, mid + 1, hi),
                    Order::Greater => self.search(kb, lo, mid),
                    Order::Equal => Some(Some(mid)),
                },
            }
        } else {
            match self.entry(lo) {
                None => None,
                Some(e) => if e.0 == kb {
                    Some(Some(lo))
                } else {
                    Some(None)
                },
            }
        }
    }

    /// The value that a lookup of the key bytes `kb` finds: that of the tag at which the binary
    /// search over all tags ends, where it ends at one with that key and its value is valid UTF-8.
    pub open spec fn value_of(&self, kb: Seq<u8>) -> Option<Seq<char>> {
        if self.kv_count() == 0 {
            None
        } else {
            match self.search(kb, 0, self.kv_count() - 1) {
                Some(Some(j)) => decoded(self.entry(j).unwrap().1),
                _ => None,
            }
        }
    }

    /// In sorted tags, the binary search between tags `lo` and `hi` ends at the tag with the key
    /// bytes `kb` where one of them has that key, and at none otherwise.
    pub proof fn lemma_search_sorted(&self, kb: Seq<u8>, lo: int, hi: int)
        requires
            self.sorted(),
            0 <= lo <= hi < self.kv_count(),
        ensures
            self.search(kb, lo, hi) matches Some(r) && (r matches Some(j) ==> lo <= j <= hi && self.has_key(j, kb)),
            forall|j: int| lo <= j <= hi && #[trigger] self.has_key(j, kb) ==> self.search(kb, lo, hi) == Some(Some(j)),
        decreases hi - lo,
    {
        assert(self.entry(lo) is Some);
        if lo < hi {
            let mid = lo + (hi - lo) / 2;
            assert(self.entry(mid) is Some);
            let km = self.entry(mid).unwrap().0;
            if order_of(km, kb) == Order::Less {
                self.lemma_search_sorted(kb, mid + 1, hi);
                assert forall|j: int| lo <= j <= hi && #[trigger] self.has_key(j, kb) implies mid + 1 <= j by {
                    lemma_bytes_lt_asymmetric(km, kb);
                    if j < mid {
                        assert(bytes_lt(self.entry(j).unwrap().0, km));
                    }
                }
            } else if order_of(km, kb) == Order::Greater {
                self.lemma_search_sorted(kb, lo, mid);
                assert forall|j: int| lo <= j <= hi && #[trigger] self.has_key(j, kb) implies j <= mid by {
                    if j > mid {
                        assert(bytes_lt(km, self.entry(j).unwrap().0));
                    }
                }
            } else {
                assert forall|j: int| lo <= j <= hi && #[trigger] self.has_key(j, kb) implies j == mid by {
                    lemma_bytes_lt_asymmetric(kb, kb);
                    if j < mid {
                        assert(bytes_lt(self.entry(j).unwrap().0, km));
                    } else if j > mid {
                        assert(bytes_lt(km, self.entry(j).unwrap().0));
                    }
                }
            }
        }
    }

    /// In sorted tags, the lookup of the key bytes `kb` finds the value of the tag with that
    /// key, and nothing where no tag has that key.
    pub proof fn lemma_value_of_sorted(&self, kb: Seq<u8>)
        requires
            self.sorted(),
        ensures
            forall|j: int|
                0 <= j < self.kv_count() && #[trigger] self.has_key(j, kb) ==> self.value_of(kb) == decoded(
                    self.entry(j).unwrap().1,
                ),
            (forall|j: int| 0 <= j < self.kv_count() ==> !#[trigger] self.has_key(j, kb)) ==> self.value_of(kb) is None,
    {
        if self.kv_count() > 0 {
            self.lemma_search_sorted(kb, 0, self.kv_count() - 1);
        }
    }

    /// The number of tags.
    pub fn get_kv_count(&self) -> (res: usize)
        ensures
            res == self.kv_count(),
    {
        (self.length / 4) as usize
    }

    /// The byte positions and lengths of the key and the value of tag `idx`.
    fn entry_refs(&self, idx: usize) -> (res: Option<(usize, usize, usize, usize)>)
        requires
            self.wf(),
            idx < self.kv_count(),
        ensures
            match res {
                Some((ks, kl, vs, vl)) => self.entry(idx as int) matches Some((k, v, ko, vo)) && ks + kl
                    <= self.reader.data().len() && vs + vl <= self.reader.data().len() && k
                    == self.reader.data().subrange(ks as int, ks + kl) && v == self.reader.data().subrange(
                    vs as int,
                    vs + vl,
                ) && ks == self.reader.layout().strings_start + ko && vs == self.reader.layout().strings_start
                    + vo,
                None => self.entry(idx as int) is None,
            },
    {
        let n = self.reader.bytes.len();
        proof {
            lemma_layout_bounds(self.reader.bytes@);
        }
        let base: u64 = self.offset as u64 + 4 * (idx as u64);
        let ko = match self.reader.int_checked(base) {
            Some(v) => v,
            None => return None,
        };
        let kl = match self.reader.int_checked(base + 1) {
            Some(v) => v,
            None => return None,
        };
        let vo = match self.reader.int_checked(base + 2) {
            Some(v) => v,
            None => return None,
        };
        let vl = match self.reader.int_checked(base + 3) {
            Some(v) => v,
            None => return None,
        };
        let s = self.reader.layout.strings_start;
        if ko as usize > n - s || kl as usize > n - s - ko as usize {
            return None;
        }
        if vo as usize > n - s || vl as usize > n - s - vo as usize {
            return None;
        }
        Some((s + ko as usize, kl as usize, s + vo as usize, vl as usize))
    }

    /// Tag `idx` as a key and a value, where both lie in the file and are valid UTF-8.
    pub fn get_kv(&self, idx: usize) -> (res: Option<(StringWithOffset, StringWithOffset)>)
        requires
            self.wf(),
            idx < self.kv_count(),
        ensures
            match res {
                Some((k, v)) => self.reads_as(idx as int, k.str@, v.str@, k.offset as nat, v.offset as nat),
                None => !self.decodes(idx as int),
            },
    {
        let (ks, kl, vs, vl) = match self.entry_refs(idx) {
            Some(r) => r,
            None => return None,
        };
        let key = match string_from_utf8(copy_range(&self.reader.bytes, ks, kl)) {
            Some(k) => k,
            None => return None,
        };
        let value = match string_from_utf8(copy_range(&self.reader.bytes, vs, vl)) {
            Some(v) => v,
            None => return None,
        };
        let s = self.reader.layout.strings_start;
        Some((StringWithOffset { str: key, offset: ks - s }, StringWithOffset { str: value, offset: vs - s }))
    }

    /// All tags as keys and values, in their order, where every tag lies in the file and is
    /// valid UTF-8.
    pub fn iter(&self) -> (res: Option<Vec<(StringWithOffset, StringWithOffset)>>)
        requires
            self.wf(),
        ensures
            match res {
                Some(v) => v@.len() == self.kv_count() && forall|j: int|
                    0 <= j < v@.len() ==> #[trigger] self.reads_as(
                        j,
                        v@[j].0.str@,
                        v@[j].1.str@,
                        v@[j].0.offset as nat,
                        v@[j].1.offset as nat,
                    ),
                None => exists|j: int| 0 <= j < self.kv_count() && !#[trigger] self.decodes(j),
            },
    {
        let count = self.get_kv_count();
        let mut res: Vec<(StringWithOffset, StringWithOffset)> = Vec::new();
        let mut idx: usize = 0;
        while idx < count
            invariant
                self.wf(),
                count == self.kv_count(),
                idx <= count,
                res@.len() == idx,
                forall|j: int|
                    0 <= j < idx ==> #[trigger] self.reads_as(
                        j,
                        res@[j].0.str@,
                        res@[j].1.str@,
                        res@[j].0.offset as nat,
                        res@[j].1.offset as nat,
                    ),
            decreases count - idx,
        {
            match self.get_kv(idx) {
                Some(kv) => res.push(kv),
                None => return None,
            }
            idx = idx + 1;
        }
        Some(res)
    }

    /// The value of the tag with key `key`, found by binary search over the keys. A value is
    /// returned only for a tag with that key (and a value that is valid UTF-8); where the keys
    /// are sorted, as in the files that `save_to_internal_format` writes, a tag with that key and
    /// such a value is found.
    pub fn get_by_key(&self, key: &str) -> (res: Option<String>)
        requires
            self.wf(),
        ensures
            res matches Some(v) ==> self.value_of(encode_utf8(key@)) == Some(v@),
            res is None ==> self.value_of(encode_utf8(key@)) is None,
            res matches Some(v) ==> exists|j: int|
                0 <= j < self.kv_count() && #[trigger] self.has_key(j, encode_utf8(key@)) && decoded(
                    self.entry(j).unwrap().1,
                ) == Some(v@),
            res is None && self.sorted() ==> forall|j: int|
                0 <= j < self.kv_count() && #[trigger] self.has_key(j, encode_utf8(key@)) ==> decoded(
                    self.entry(j).unwrap().1,
                ) is None,
    {
        let kv_count = self.get_kv_count();
        if kv_count == 0 {
            return None;
        }
        let key_bytes = key.as_bytes();
        let mut lo: usize = 0;
        let mut hi: usize = kv_count - 1;
        while lo < hi
            invariant
                self.wf(),
                kv_count == self.kv_count(),
                lo <= hi < kv_count,
                key_bytes@ == encode_utf8(key@),
                self.search(key_bytes@, lo as int, hi as int) == self.search(key_bytes@, 0, kv_count - 1),
                self.sorted() ==> forall|j: int|
                    0 <= j < kv_count && #[trigger] self.has_key(j, key_bytes@) ==> lo <= j <= hi,
            decreases hi - lo,
        {
            let mid = lo + (hi - lo) / 2;
            let (ks, kl, vs, vl) = match self.entry_refs(mid) {
                Some(r) => r,
                None => return None,
            };
            match compare_range(&self.reader.bytes, ks, kl, key_bytes) {
                Order::Less => {
                    proof {
                        assert forall|j: int|
                            self.sorted() && 0 <= j < kv_count && #[trigger] self.has_key(
                                j,
                                key_bytes@,
                            ) implies mid + 1 <= j by {
                            let km = self.entry(mid as int).unwrap().0;
                            lemma_bytes_lt_asymmetric(km, key_bytes@);
                            if j < mid {
                                lemma_bytes_lt_asymmetric(self.entry(j).unwrap().0, km);
                                assert(bytes_lt(self.entry(j).unwrap().0, km));
                            }
                        }
                    }
                    lo = mid + 1;
                },
                Order::Greater => {
                    proof {
                        assert forall|j: int|
                            self.sorted() && 0 <= j < kv_count && #[trigger] self.has_key(
                                j,
                                key_bytes@,
                            ) implies j <= mid by {
                            let km = self.entry(mid as int).unwrap().0;
                            lemma_bytes_lt_asymmetric(key_bytes@, km);
                            if j > mid {
                                lemma_bytes_lt_asymmetric(km, self.entry(j).unwrap().0);
                                assert(bytes_lt(km, self.entry(j).unwrap().0));
                            }
                        }
                    }
                    hi = mid;
                },
                Order::Equal => {
                    let value = string_from_utf8(copy_range(&self.reader.bytes, vs, vl));
                    proof {
                        assert(self.has_key(mid as int, encode_utf8(key@)));
                        if value is Some {
                            assert(decoded(self.entry(mid as int).unwrap().1) == Some(value.unwrap()@));
                        }
                        if value is None && self.sorted() {
                            assert forall|j: int|
                                0 <= j < kv_count && #[trigger] self.has_key(
                                    j,
                                    encode_utf8(key@),
                                ) implies decoded(self.entry(j).unwrap().1) is None by {
                                if j != mid {
                                    if j < mid {
                                        assert(bytes_lt(self.entry(j).unwrap().0, self.entry(mid as int).unwrap().0));
                                    } else {
                                        assert(bytes_lt(self.entry(mid as int).unwrap().0, self.entry(j).unwrap().0));
                                    }
                                    lemma_bytes_lt_asymmetric(self.entry(j).unwrap().0, self.entry(mid as int).unwrap().0);
                                    lemma_bytes_lt_asymmetric(self.entry(mid as int).unwrap().0, self.entry(j).unwrap().0);
                                }
                            }
                        }
                    }
                    return value;
                },
            }
        }
        let (ks, kl, vs, vl) = match self.entry_refs(lo) {
            Some(r) => r,
            None => return None,
        };
        match compare_range(&self.reader.bytes, ks, kl, key_bytes) {
            Order::Equal => {
                let value = string_from_utf8(copy_range(&self.reader.bytes, vs, vl));
                proof {
                    assert(self.has_key(lo as int, encode_utf8(key@)));
                    if value is Some {
                        assert(decoded(self.entry(lo as int).unwrap().1) == Some(value.unwrap()@));
                    }
                }
                value
            },
            _ => None,
        }
    }
}

} // verus!

verus! {

/// What an OSM entity of the file offers: its id and its tags.
pub trait OsmEntity<'a> {
    fn global_id(&self) -> u64;

    fn tags(&self) -> Tags<'a>;
}

/// What an area offers besides: whether its outline is closed.
pub trait OsmArea {
    fn is_closed(&self) -> bool;
}

impl GeodataReader {
    /// The tags whose reference lies at `pos`.
    fn tags_at(&self, pos: usize) -> (res: Tags<'_>)
        requires
            self.wf(),
            pos + 8 <= self.data().len(),
        ensures
            res.wf(),
            res.data() == self.data(),
            res.layout() == self.layout(),
            res.offset() == spec_u32_le(self.data(), pos as int),
            res.length() == spec_u32_le(self.data(), pos + 4),
    {
        let n = self.bytes.len();
        Tags {
            reader: self,
            offset: read_u32_le(self.bytes.as_slice(), pos),
            length: read_u32_le(self.bytes.as_slice(), pos + 4),
        }
    }

    /// Node record `idx`.
    pub fn get_node(&self, idx: usize) -> (res: Node<'_>)
        requires
            self.wf(),
            idx < self.layout().nodes.count,
        ensures
            res.data() == self.data(),
            res.layout() == self.layout(),
            res.index() == idx,
    {
        Node { reader: self, idx }
    }

    /// Way record `idx`, where its node references lie in the integer section.
    pub fn get_way(&self, idx: usize) -> (res: Option<Way<'_>>)
        requires
            self.wf(),
            idx < self.layout().ways.count,
        ensures
            match res {
                Some(w) => w.data() == self.data() && w.layout() == self.layout() && w.index() == idx && Some(
                    w.node_ids(),
                ) == int_list_at(self.data(), self.layout(), record_pos(self.layout().ways, idx as int) + 8),
                None => int_list_at(self.data(), self.layout(), record_pos(self.layout().ways, idx as int) + 8) is None,
            },
    {
        let n = self.bytes.len();
        proof {
            lemma_layout_bounds(self.bytes@);
            lemma_record_in_storage(self.layout.ways, idx as int);
        }
        let pos = self.layout.ways.start + WAY_OR_MULTIPOLYGON_SIZE * idx;
        match self.int_run(pos + 8) {
            Some((offset, length)) => Some(Way { reader: self, idx, offset, length }),
            None => None,
        }
    }

    /// Polygon record `idx`, where its node references lie in the integer section.
    pub fn get_polygon(&self, idx: usize) -> (res: Option<Polygon<'_>>)
        requires
            self.wf(),
            idx < self.layout().polygons.count,
        ensures
            match res {
                Some(p) => p.data() == self.data() && p.layout() == self.layout() && Some(p.node_ids()) == int_list_at(
                    self.data(),
                    self.layout(),
                    record_pos(self.layout().polygons, idx as int),
                ),
                None => int_list_at(self.data(), self.layout(), record_pos(self.layout().polygons, idx as int)) is None,
            },
    {
        let n = self.bytes.len();
        proof {
            lemma_layout_bounds(self.bytes@);
            lemma_record_in_storage(self.layout.polygons, idx as int);
        }
        let pos = self.layout.polygons.start + POLYGON_SIZE * idx;
        match self.int_run(pos) {
            Some((offset, length)) => Some(Polygon { reader: self, offset, length }),
            None => None,
        }
    }

    /// Multipolygon record `idx`, where its polygon references lie in the integer section.
    pub fn get_multipolygon(&self, idx: usize) -> (res: Option<Multipolygon<'_>>)
        requires
            self.wf(),
            idx < self.layout().multipolygons.count,
        ensures
            match res {
                Some(m) => m.data() == self.data() && m.layout() == self.layout() && m.index() == idx && Some(
                    m.polygon_ids(),
                ) == int_list_at(
                    self.data(),
                    self.layout(),
                    record_pos(self.layout().multipolygons, idx as int) + 8,
                ),
                None => int_list_at(
                    self.data(),
                    self.layout(),
                    record_pos(self.layout().multipolygons, idx as int) + 8,
                ) is None,
            },
    {
        let n = self.bytes.len();
        proof {
            lemma_layout_bounds(self.bytes@);
            lemma_record_in_storage(self.layout.multipolygons, idx as int);
        }
        let pos = self.layout.multipolygons.start + WAY_OR_MULTIPOLYGON_SIZE * idx;
        match self.int_run(pos + 8) {
            Some((offset, length)) => Some(Multipolygon { reader: self, idx, offset, length }),
            None => None,
        }
    }
}

impl<'a> Tags<'a> {
    pub closed spec fn data(&self) -> Seq<u8> {
        self.reader.data()
    }

    pub closed spec fn layout(&self) -> Layout {
        self.reader.layout()
    }

    /// The index of the tags' first integer.
    pub closed spec fn offset(&self) -> u32 {
        self.offset
    }

    /// The number of the tags' integers.
    pub closed spec fn length(&self) -> u32 {
        self.length
    }

    /// Tag `j` is read from the integers at the tags' offset.
    pub proof fn lemma_entry(&self, j: int)
        ensures
            self.entry(j) == kv_entry(self.data(), self.layout(), self.offset() as int, j),
            self.kv_count() == self.length() / 4,
    {
    }
}

/// A node of the file.
pub struct Node<'a> {
    reader: &'a GeodataReader,
    idx: usize,
}

impl<'a> Node<'a> {
    #[verifier::type_invariant]
    spec fn inv(self) -> bool {
        self.reader.wf() && self.idx < self.reader.layout().nodes.count
    }

    pub closed spec fn data(&self) -> Seq<u8> {
        self.reader.data()
    }

    pub closed spec fn layout(&self) -> Layout {
        self.reader.layout()
    }

    /// The index of the node's record.
    pub closed spec fn index(&self) -> nat {
        self.idx as nat
    }

    /// The position of the node's record.
    pub open spec fn pos(&self) -> int {
        record_pos(self.layout().nodes, self.index() as int)
    }

    /// The bits of the node's latitude (an `f64`).
    pub fn lat_bits(&self) -> (res: u64)
        ensures
            res == u64_at(self.data(), self.pos() + 8),
    {
        let n = self.reader.bytes.len();
        proof {
            use_type_invariant(self);
            lemma_layout_bounds(self.reader.bytes@);
            lemma_record_in_storage(self.reader.layout.nodes, self.idx as int);
        }
        let n = self.reader.bytes.len();
        read_u64_le(self.reader.bytes.as_slice(), self.reader.layout.nodes.start + NODE_SIZE * self.idx + 8)
    }

    /// The bits of the node's longitude (an `f64`).
    pub fn lon_bits(&self) -> (res: u64)
        ensures
            res == u64_at(self.data(), self.pos() + 16),
    {
        let n = self.reader.bytes.len();
        proof {
            use_type_invariant(self);
            lemma_layout_bounds(self.reader.bytes@);
            lemma_record_in_storage(self.reader.layout.nodes, self.idx as int);
        }
        let n = self.reader.bytes.len();
        read_u64_le(self.reader.bytes.as_slice(), self.reader.layout.nodes.start + NODE_SIZE * self.idx + 16)
    }
}

impl<'a> OsmEntity<'a> for Node<'a> {
    fn global_id(&self) -> (res: u64)
        ensures
            res == u64_at(self.data(), self.pos()),
    {
        let n = self.reader.bytes.len();
        proof {
            use_type_invariant(self);
            lemma_layout_bounds(self.reader.bytes@);
            lemma_record_in_storage(self.reader.layout.nodes, self.idx as int);
        }
        let n = self.reader.bytes.len();
        read_u64_le(self.reader.bytes.as_slice(), self.reader.layout.nodes.start + NODE_SIZE * self.idx)
    }

    fn tags(&self) -> (res: Tags<'a>)
        ensures
            res.wf(),
            res.data() == self.data(),
            res.layout() == self.layout(),
            res.offset() == spec_u32_le(self.data(), self.pos() + 24),
            res.length() == spec_u32_le(self.data(), self.pos() + 28),
    {
        let n = self.reader.bytes.len();
        proof {
            use_type_invariant(self);
            lemma_layout_bounds(self.reader.bytes@);
            lemma_record_in_storage(self.reader.layout.nodes, self.idx as int);
        }
        let n = self.reader.bytes.len();
        self.reader.tags_at(self.reader.layout.nodes.start + NODE_SIZE * self.idx + 24)
    }
}

/// A way of the file.
pub struct Way<'a> {
    reader: &'a GeodataReader,
    idx: usize,
    offset: usize,
    length: usize,
}

impl<'a> Way<'a> {
    #[verifier::type_invariant]
    spec fn inv(self) -> bool {
        &&& self.reader.wf()
        &&& self.idx < self.reader.layout().ways.count
        &&& self.offset + self.length <= self.reader.layout().ints.count
    }

    pub closed spec fn data(&self) -> Seq<u8> {
        self.reader.data()
    }

    pub closed spec fn layout(&self) -> Layout {
        self.reader.layout()
    }

    pub closed spec fn index(&self) -> nat {
        self.idx as nat
    }

    pub open spec fn pos(&self) -> int {
        record_pos(self.layout().ways, self.index() as int)
    }

    /// The indices of the way's nodes.
    pub closed spec fn node_ids(&self) -> Seq<u32> {
        ints_of(self.data(), self.layout(), self.offset as nat, self.length as nat)
    }

    /// The number of the way's nodes.
    pub fn node_count(&self) -> (res: usize)
        ensures
            res == self.node_ids().len(),
    {
        self.length
    }

    /// Node `idx` of the way, where the node record exists.
    pub fn get_node(&self, idx: usize) -> (res: Option<Node<'a>>)
        requires
            idx < self.node_ids().len(),
        ensures
            match res {
                Some(node) => node.data() == self.data() && node.layout() == self.layout() && node.index()
                    == self.node_ids()[idx as int] && self.node_ids()[idx as int] < self.layout().nodes.count,
                None => self.node_ids()[idx as int] >= self.layout().nodes.count,
            },
    {
        proof {
            use_type_invariant(self);
        }
        let node_id = match self.reader.int_checked((self.offset + idx) as u64) {
            Some(v) => v,
            None => return None,
        };
        if (node_id as usize) < self.reader.layout.nodes.count {
            Some(self.reader.get_node(node_id as usize))
        } else {
            None
        }
    }
}

impl<'a> OsmEntity<'a> for Way<'a> {
    fn global_id(&self) -> (res: u64)
        ensures
            res == u64_at(self.data(), self.pos()),
    {
        let n = self.reader.bytes.len();
        proof {
            use_type_invariant(self);
            lemma_layout_bounds(self.reader.bytes@);
            lemma_record_in_storage(self.reader.layout.ways, self.idx as int);
        }
        let n = self.reader.bytes.len();
        read_u64_le(self.reader.bytes.as_slice(), self.reader.layout.ways.start + WAY_OR_MULTIPOLYGON_SIZE * self.idx)
    }

    fn tags(&self) -> (res: Tags<'a>)
        ensures
            res.wf(),
            res.data() == self.data(),
            res.layout() == self.layout(),
            res.offset() == spec_u32_le(self.data(), self.pos() + 16),
            res.length() == spec_u32_le(self.data(), self.pos() + 20),
    {
        let n = self.reader.bytes.len();
        proof {
            use_type_invariant(self);
            lemma_layout_bounds(self.reader.bytes@);
            lemma_record_in_storage(self.reader.layout.ways, self.idx as int);
        }
        let n = self.reader.bytes.len();
        self.reader.tags_at(self.reader.layout.ways.start + WAY_OR_MULTIPOLYGON_SIZE * self.idx + 16)
    }
}

impl<'a> OsmArea for Way<'a> {
    /// A way is closed when it has more than two nodes and its first and last nodes lie at
    /// the same position (the same bits of latitude and longitude); a way whose end node
    /// records are missing is not closed.
    fn is_closed(&self) -> (res: bool)
        ensures
            res == (self.node_ids().len() > 2 && self.node_ids()[0] < self.layout().nodes.count
                && self.node_ids().last() < self.layout().nodes.count && u64_at(
                self.data(),
                record_pos(self.layout().nodes, self.node_ids()[0] as int) + 8,
            ) == u64_at(self.data(), record_pos(self.layout().nodes, self.node_ids().last() as int) + 8) && u64_at(
                self.data(),
                record_pos(self.layout().nodes, self.node_ids()[0] as int) + 16,
            ) == u64_at(self.data(), record_pos(self.layout().nodes, self.node_ids().last() as int) + 16)),
    {
        if self.node_count() <= 2 {
            return false;
        }
        assert(self.node_ids().last() == self.node_ids()[self.node_ids().len() - 1]);
        let first = match self.get_node(0) {
            Some(n) => n,
            None => return false,
        };
        let last = match self.get_node(self.node_count() - 1) {
            Some(n) => n,
            None => return false,
        };
        let same_lat = first.lat_bits() == last.lat_bits();
        let same_lon = first.lon_bits() == last.lon_bits();
        same_lat && same_lon
    }
}

/// A polygon (a ring of nodes) of a multipolygon.
pub struct Polygon<'a> {
    reader: &'a GeodataReader,
    offset: usize,
    length: usize,
}

impl<'a> Polygon<'a> {
    #[verifier::type_invariant]
    spec fn inv(self) -> bool {
        self.reader.wf() && self.offset + self.length <= self.reader.layout().ints.count
    }

    pub closed spec fn data(&self) -> Seq<u8> {
        self.reader.data()
    }

    pub closed spec fn layout(&self) -> Layout {
        self.reader.layout()
    }

    /// The indices of the polygon's nodes.
    pub closed spec fn node_ids(&self) -> Seq<u32> {
        ints_of(self.data(), self.layout(), self.offset as nat, self.length as nat)
    }

    pub fn node_count(&self) -> (res: usize)
        ensures
            res == self.node_ids().len(),
    {
        self.length
    }

    /// Node `idx` of the polygon, where the node record exists.
    pub fn get_node(&self, idx: usize) -> (res: Option<Node<'a>>)
        requires
            idx < self.node_ids().len(),
        ensures
            match res {
                Some(node) => node.data() == self.data() && node.layout() == self.layout() && node.index()
                    == self.node_ids()[idx as int] && self.node_ids()[idx as int] < self.layout().nodes.count,
                None => self.node_ids()[idx as int] >= self.layout().nodes.count,
            },
    {
        proof {
            use_type_invariant(self);
        }
        let node_id = match self.reader.int_checked((self.offset + idx) as u64) {
            Some(v) => v,
            None => return None,
        };
        if (node_id as usize) < self.reader.layout.nodes.count {
            Some(self.reader.get_node(node_id as usize))
        } else {
            None
        }
    }
}

/// A multipolygon of the file.
pub struct Multipolygon<'a> {
    reader: &'a GeodataReader,
    idx: usize,
    offset: usize,
    length: usize,
}

impl<'a> Multipolygon<'a> {
    #[verifier::type_invariant]
    spec fn inv(self) -> bool {
        &&& self.reader.wf()
        &&& self.idx < self.reader.layout().multipolygons.count
        &&& self.offset + self.length <= self.reader.layout().ints.count
    }

    pub closed spec fn data(&self) -> Seq<u8> {
        self.reader.data()
    }

    pub closed spec fn layout(&self) -> Layout {
        self.reader.layout()
    }

    pub closed spec fn index(&self) -> nat {
        self.idx as nat
    }

    pub open spec fn pos(&self) -> int {
        record_pos(self.layout().multipolygons, self.index() as int)
    }

    /// The indices of the multipolygon's polygons.
    pub closed spec fn polygon_ids(&self) -> Seq<u32> {
        ints_of(self.data(), self.layout(), self.offset as nat, self.length as nat)
    }

    pub fn polygon_count(&self) -> (res: usize)
        ensures
            res == self.polygon_ids().len(),
    {
        self.length
    }

    /// Polygon `idx` of the multipolygon, where its record and its node references exist.
    pub fn get_polygon(&self, idx: usize) -> (res: Option<Polygon<'a>>)
        requires
            idx < self.polygon_ids().len(),
        ensures
            match res {
                Some(p) => p.data() == self.data() && p.layout() == self.layout() && self.polygon_ids()[idx as int]
                    < self.layout().polygons.count && Some(p.node_ids()) == int_list_at(
                    self.data(),
                    self.layout(),
                    record_pos(self.layout().polygons, self.polygon_ids()[idx as int] as int),
                ),
                None => self.polygon_ids()[idx as int] >= self.layout().polygons.count || int_list_at(
                    self.data(),
                    self.layout(),
                    record_pos(self.layout().polygons, self.polygon_ids()[idx as int] as int),
                ) is None,
            },
    {
        proof {
            use_type_invariant(self);
        }
        let polygon_id = match self.reader.int_checked((self.offset + idx) as u64) {
            Some(v) => v,
            None => return None,
        };
        if (polygon_id as usize) < self.reader.layout.polygons.count {
            self.reader.get_polygon(polygon_id as usize)
        } else {
            None
        }
    }
}

impl<'a> OsmEntity<'a> for Multipolygon<'a> {
    fn global_id(&self) -> (res: u64)
        ensures
            res == u64_at(self.data(), self.pos()),
    {
        let n = self.reader.bytes.len();
        proof {
            use_type_invariant(self);
            lemma_layout_bounds(self.reader.bytes@);
            lemma_record_in_storage(self.reader.layout.multipolygons, self.idx as int);
        }
        let n = self.reader.bytes.len();
        read_u64_le(
            self.reader.bytes.as_slice(),
            self.reader.layout.multipolygons.start + WAY_OR_MULTIPOLYGON_SIZE * self.idx,
        )
    }

    fn tags(&self) -> (res: Tags<'a>)
        ensures
            res.wf(),
            res.data() == self.data(),
            res.layout() == self.layout(),
            res.offset() == spec_u32_le(self.data(), self.pos() + 16),
            res.length() == spec_u32_le(self.data(), self.pos() + 20),
    {
        let n = self.reader.bytes.len();
        proof {
            use_type_invariant(self);
            lemma_layout_bounds(self.reader.bytes@);
            lemma_record_in_storage(self.reader.layout.multipolygons, self.idx as int);
        }
        let n = self.reader.bytes.len();
        self.reader.tags_at(self.reader.layout.multipolygons.start + WAY_OR_MULTIPOLYGON_SIZE * self.idx + 16)
    }
}

impl<'a> OsmArea for Multipolygon<'a> {
    fn is_closed(&self) -> (res: bool)
        ensures
            res,
    {
        true
    }
}

} // verus!

verus! {

/// Whether a tile lies in a range of tiles.
pub open spec fn in_range(xy: (u32, u32), r: TileRange) -> bool {
    r.min_x <= xy.0 <= r.max_x && r.min_y <= xy.1 <= r.max_y
}

/// The local ids of kind `kind` of tile record `i`; none where their reference is broken.
pub open spec fn tile_ids(b: Seq<u8>, l: Layout, i: int, kind: int) -> Seq<u32> {
    match int_list_at(b, l, tile_ids_ref_pos(l, i, kind)) {
        Some(s) => s,
        None => Seq::empty(),
    }
}

/// The local ids of kind `kind` of the first `n` tile records that lie in `r`, in order.
pub open spec fn ids_in_range(b: Seq<u8>, l: Layout, r: TileRange, kind: int, n: nat) -> Seq<u32>
    decreases n,
{
    if n == 0 {
        Seq::empty()
    } else {
        ids_in_range(b, l, r, kind, (n - 1) as nat) + if in_range(tile_xy_at(b, l, n - 1), r) {
            tile_ids(b, l, n - 1, kind)
        } else {
            Seq::empty()
        }
    }
}

/// The first tile record between `lo` and `hi` that comes at or after the tile `min`, as a
/// binary search over the records finds it.
pub open spec fn feasible_search(b: Seq<u8>, l: Layout, lo: int, hi: int, min: (u32, u32)) -> Option<int>
    decreases hi - lo,
{
    if lo < hi {
        let mid = lo + (hi - lo) / 2;
        if !xy_lt(tile_xy_at(b, l, mid), min) {
            feasible_search(b, l, lo, mid, min)
        } else {
            feasible_search(b, l, mid + 1, hi, min)
        }
    } else if !xy_lt(tile_xy_at(b, l, lo), min) {
        Some(lo)
    } else {
        None
    }
}

/// Where the search for a tile record in the rows `r.min_y..=r.max_y` up to the tile
/// `(r.max_x, r.max_y)` stops, from record `idx` on and from column `min_x` on: the record found
/// and its column, or none and the column reached. (The binary search never finds a record
/// before column `min_x`, so the last branch is not taken.)
pub open spec fn good_tile_search(b: Seq<u8>, l: Layout, r: TileRange, idx: int, min_x: u32) -> (Option<int>, u32)
    decreases u32::MAX - min_x,
{
    match feasible_search(b, l, idx, l.tiles.count - 1, (min_x, r.min_y)) {
        None => (None, min_x),
        Some(i) => {
            let (x, y) = tile_xy_at(b, l, i);
            if x > r.max_x || (x == r.max_x && y > r.max_y) {
                (None, min_x)
            } else if x == min_x {
                (Some(i), min_x)
            } else if x > min_x {
                good_tile_search(b, l, r, i, x)
            } else {
                (None, min_x)
            }
        },
    }
}

/// What `next_good_tile` finds from record `start` on for the range `r`, and the column that
/// `r.min_x` becomes.
pub open spec fn next_tile_search(b: Seq<u8>, l: Layout, r: TileRange, start: int) -> (Option<int>, u32) {
    if start >= l.tiles.count {
        (None, r.min_x)
    } else {
        good_tile_search(b, l, r, start, r.min_x)
    }
}

/// The first record from `i` on that is not in column `x` at a row up to `max_y`.
pub open spec fn column_end(b: Seq<u8>, l: Layout, i: int, x: u32, max_y: u32) -> int
    decreases l.tiles.count - i,
{
    if 0 <= i < l.tiles.count && tile_xy_at(b, l, i).0 == x && tile_xy_at(b, l, i).1 <= max_y {
        column_end(b, l, i + 1, x, max_y)
    } else {
        i
    }
}

/// The local ids of kind `kind` of the tile records `from..to`, in order.
pub open spec fn run_ids(b: Seq<u8>, l: Layout, kind: int, from: int, to: int) -> Seq<u32>
    decreases to - from,
{
    if from >= to {
        Seq::empty()
    } else {
        run_ids(b, l, kind, from, to - 1) + tile_ids(b, l, to - 1, kind)
    }
}

/// The local ids of kind `kind` that the scan of `get_entities_in_tile` collects for the
/// range `r`, from record `start` on and from column `min_x` on: column by column, the run of
/// records that the search finds in a column.
pub open spec fn scan_ids(b: Seq<u8>, l: Layout, r: TileRange, kind: int, start: int, min_x: u32) -> Seq<u32>
    decreases u32::MAX - min_x,
{
    if start >= l.tiles.count {
        Seq::empty()
    } else {
        match next_tile_search(b, l, TileRange { min_x, ..r }, start) {
            (Some(first), x) => {
                let end = column_end(b, l, first, x, r.max_y);
                run_ids(b, l, kind, first, end) + if min_x <= x < u32::MAX {
                    scan_ids(b, l, r, kind, end, (x + 1) as u32)
                } else {
                    Seq::empty()
                }
            },
            (None, _) => Seq::empty(),
        }
    }
}

/// The local ids of the entities of some tiles.
#[derive(Debug, Default)]
pub struct OsmEntityIds {
    pub nodes: Vec<u32>,
    pub ways: Vec<u32>,
    pub multipolygons: Vec<u32>,
}

impl GeodataReader {
    /// Whether tile record `idx` comes at or after the tile `(min_x, min_y)`.
    fn large_enough(&self, idx: usize, min_x: u32, min_y: u32) -> (res: bool)
        requires
            self.wf(),
            idx < self.layout().tiles.count,
        ensures
            res == !xy_lt(tile_xy_at(self.data(), self.layout(), idx as int), (min_x, min_y)),
    {
        let (x, y) = self.tile_xy(idx);
        x > min_x || (x == min_x && y >= min_y)
    }

    /// The first tile record from `from` on that comes at or after `(min_x, min_y)`, by
    /// binary search.
    fn find_smallest_feasible_index(&self, from: usize, min_x: u32, min_y: u32) -> (res: Option<usize>)
        requires
            self.wf(),
            from < self.layout().tiles.count,
        ensures
            res matches Some(i) ==> from <= i < self.layout().tiles.count && !xy_lt(
                tile_xy_at(self.data(), self.layout(), i as int),
                (min_x, min_y),
            ),
            match res {
                Some(i) => feasible_search(self.data(), self.layout(), from as int, self.layout().tiles.count - 1, (min_x, min_y))
                    == Some(i as int),
                None => feasible_search(
                    self.data(),
                    self.layout(),
                    from as int,
                    self.layout().tiles.count - 1,
                    (min_x, min_y),
                ) is None,
            },
            tiles_sorted(self.data(), self.layout()) ==> match res {
                Some(i) => forall|j: int|
                    from <= j < i ==> xy_lt(#[trigger] tile_xy_at(self.data(), self.layout(), j), (min_x, min_y)),
                None => forall|j: int|
                    from <= j < self.layout().tiles.count ==> xy_lt(
                        #[trigger] tile_xy_at(self.data(), self.layout(), j),
                        (min_x, min_y),
                    ),
            },
    {
        let tile_count = self.tile_count();
        let mut lo = from;
        let mut hi = tile_count - 1;
        while lo < hi
            invariant
                self.wf(),
                tile_count == self.layout().tiles.count,
                from <= lo <= hi < tile_count,
                feasible_search(self.data(), self.layout(), lo as int, hi as int, (min_x, min_y)) == feasible_search(
                    self.data(),
                    self.layout(),
                    from as int,
                    tile_count - 1,
                    (min_x, min_y),
                ),
                tiles_sorted(self.data(), self.layout()) ==> forall|j: int|
                    from <= j < lo ==> xy_lt(#[trigger] tile_xy_at(self.data(), self.layout(), j), (min_x, min_y)),
                tiles_sorted(self.data(), self.layout()) ==> forall|j: int|
                    hi < j < tile_count ==> !xy_lt(
                        #[trigger] tile_xy_at(self.data(), self.layout(), j),
                        (min_x, min_y),
                    ),
                tiles_sorted(self.data(), self.layout()) && hi < tile_count - 1 ==> !xy_lt(
                    tile_xy_at(self.data(), self.layout(), hi as int),
                    (min_x, min_y),
                ),
            decreases hi - lo,
        {
            let mid = lo + (hi - lo) / 2;
            if self.large_enough(mid, min_x, min_y) {
                proof {
                    if tiles_sorted(self.data(), self.layout()) {
                        assert forall|j: int| mid < j < tile_count implies !xy_lt(
                            #[trigger] tile_xy_at(self.data(), self.layout(), j),
                            (min_x, min_y),
                        ) by {
                            assert(xy_lt(
                                tile_xy_at(self.data(), self.layout(), mid as int),
                                tile_xy_at(self.data(), self.layout(), j),
                            ));
                        }
                    }
                }
                hi = mid;
            } else {
                proof {
                    if tiles_sorted(self.data(), self.layout()) {
                        assert forall|j: int| from <= j < mid + 1 implies xy_lt(
                            #[trigger] tile_xy_at(self.data(), self.layout(), j),
                            (min_x, min_y),
                        ) by {
                            if j < mid {
                                assert(xy_lt(
                                    tile_xy_at(self.data(), self.layout(), j),
                                    tile_xy_at(self.data(), self.layout(), mid as int),
                                ));
                            }
                        }
                    }
                }
                lo = mid + 1;
            }
        }
        if self.large_enough(lo, min_x, min_y) {
            Some(lo)
        } else {
            None
        }
    }
}

} // verus!

verus! {

/// Tiles out of range add no ids.
proof fn lemma_ids_in_range_skip(b: Seq<u8>, l: Layout, r: TileRange, kind: int, a: nat, n: nat)
    requires
        a <= n,
        forall|j: int| a <= j < n ==> !in_range(#[trigger] tile_xy_at(b, l, j), r),
    ensures
        ids_in_range(b, l, r, kind, n) == ids_in_range(b, l, r, kind, a),
    decreases n,
{
    if n > a {
        lemma_ids_in_range_skip(b, l, r, kind, a, (n - 1) as nat);
        assert(!in_range(tile_xy_at(b, l, n - 1), r));
        assert(ids_in_range(b, l, r, kind, n) =~= ids_in_range(b, l, r, kind, (n - 1) as nat));
    }
}

impl GeodataReader {
    /// The first tile record from `start_index` on that may lie in `bounds`: its column is
    /// the new `bounds.min_x`, and no record between lies in the range.
    fn next_good_tile(&self, bounds: &mut TileRange, start_index: usize) -> (res: Option<usize>)
        requires
            self.wf(),
        ensures
            final(bounds).max_x == old(bounds).max_x,
            final(bounds).min_y == old(bounds).min_y,
            final(bounds).max_y == old(bounds).max_y,
            final(bounds).min_x >= old(bounds).min_x,
            res matches Some(i) ==> start_index <= i < self.layout().tiles.count && tile_xy_at(
                self.data(),
                self.layout(),
                i as int,
            ).0 == final(bounds).min_x && tile_xy_at(self.data(), self.layout(), i as int).1 >= old(bounds).min_y
                && final(bounds).min_x <= old(bounds).max_x,
            tiles_sorted(self.data(), self.layout()) ==> forall|j: int|
                start_index <= j < self.layout().tiles.count && in_range(
                    #[trigger] tile_xy_at(self.data(), self.layout(), j),
                    *old(bounds),
                ) ==> (res matches Some(i) && i <= j) && tile_xy_at(self.data(), self.layout(), j).0
                    >= final(bounds).min_x,
            tiles_sorted(self.data(), self.layout()) ==> (res matches Some(i) ==> forall|j: int|
                start_index <= j < i ==> xy_lt(
                    #[trigger] tile_xy_at(self.data(), self.layout(), j),
                    (final(bounds).min_x, old(bounds).min_y),
                )),
            next_tile_search(self.data(), self.layout(), *old(bounds), start_index as int) == (
                match res {
                    Some(i) => Some(i as int),
                    None => None,
                },
                final(bounds).min_x,
            ),
    {
        let tile_count = self.tile_count();
        if start_index >= tile_count {
            return None;
        }
        let ghost r = *bounds;
        let mut idx = start_index;
        loop
            invariant
                self.wf(),
                tile_count == self.layout().tiles.count,
                start_index <= idx < tile_count,
                bounds.max_x == r.max_x && bounds.min_y == r.min_y && bounds.max_y == r.max_y,
                bounds.min_x >= r.min_x,
                r == *old(bounds),
                good_tile_search(self.data(), self.layout(), r, idx as int, bounds.min_x) == good_tile_search(
                    self.data(),
                    self.layout(),
                    r,
                    start_index as int,
                    r.min_x,
                ),
                tiles_sorted(self.data(), self.layout()) ==> forall|j: int|
                    start_index <= j < tile_count && in_range(#[trigger] tile_xy_at(self.data(), self.layout(), j), r)
                        ==> idx <= j && tile_xy_at(self.data(), self.layout(), j).0 >= bounds.min_x,
            tiles_sorted(self.data(), self.layout()) ==> forall|j: int|
                start_index <= j < idx ==> xy_lt(
                    #[trigger] tile_xy_at(self.data(), self.layout(), j),
                    (bounds.min_x, r.min_y),
                ),
            decreases u32::MAX - bounds.min_x,
        {
            let next_idx = match self.find_smallest_feasible_index(idx, bounds.min_x, bounds.min_y) {
                Some(i) => i,
                None => return None,
            };
            let (tile_x, tile_y) = self.tile_xy(next_idx);
            proof {
                if tiles_sorted(self.data(), self.layout()) {
                    assert forall|j: int|
                        start_index <= j < tile_count && in_range(
                            #[trigger] tile_xy_at(self.data(), self.layout(), j),
                            r,
                        ) implies next_idx <= j && tile_xy_at(self.data(), self.layout(), j).0 >= tile_x by {
                        if j < next_idx {
                            assert(xy_lt(tile_xy_at(self.data(), self.layout(), j), (bounds.min_x, bounds.min_y)));
                        }
                        if j > next_idx {
                            assert(xy_lt(
                                tile_xy_at(self.data(), self.layout(), next_idx as int),
                                tile_xy_at(self.data(), self.layout(), j),
                            ));
                        }
                    }
                }
            }
            if tile_x > bounds.max_x || (tile_x == bounds.max_x && tile_y > bounds.max_y) {
                return None;
            }
            if tile_x == bounds.min_x {
                return Some(next_idx);
            }
            let ghost old_min_x = bounds.min_x;
            idx = next_idx;
            bounds.min_x = tile_x;
            proof {
                assert(tile_x >= old_min_x);
            }
        }
    }

    /// Adds the local ids of the tile records that lie within the highest-zoom tiles of `t`.
    /// Where the records are sorted (as `save_to_internal_format` writes them), exactly the ids
    /// of the records in range are added, in the order of the records.
    pub fn get_entities_in_tile(&self, t: &Tile, entity_ids: &mut OsmEntityIds)
        requires
            self.wf(),
            t.zoom <= crate::tile::MAX_ZOOM,
        ensures
            ({
                let r = crate::tile::spec_max_zoom_tile_range(*t);
                &&& final(entity_ids).nodes@ == old(entity_ids).nodes@ + scan_ids(self.data(), self.layout(), r, 0, 0, r.min_x)
                &&& final(entity_ids).ways@ == old(entity_ids).ways@ + scan_ids(self.data(), self.layout(), r, 1, 0, r.min_x)
                &&& final(entity_ids).multipolygons@ == old(entity_ids).multipolygons@ + scan_ids(
                    self.data(),
                    self.layout(),
                    r,
                    2,
                    0,
                    r.min_x,
                )
            }),
            tiles_sorted(self.data(), self.layout()) ==> {
                let r = crate::tile::spec_max_zoom_tile_range(*t);
                let n = self.layout().tiles.count as nat;
                &&& final(entity_ids).nodes@ == old(entity_ids).nodes@ + ids_in_range(self.data(), self.layout(), r, 0, n)
                &&& final(entity_ids).ways@ == old(entity_ids).ways@ + ids_in_range(self.data(), self.layout(), r, 1, n)
                &&& final(entity_ids).multipolygons@ == old(entity_ids).multipolygons@ + ids_in_range(
                    self.data(),
                    self.layout(),
                    r,
                    2,
                    n,
                )
            },
    {
        let mut bounds = tile_to_max_zoom_tile_range(t);
        let ghost r = bounds;
        let ghost b = self.data();
        let ghost l = self.layout();
        let mut start_from_index: usize = 0;
        let tile_count = self.tile_count();
        loop
            invariant
                self.wf(),
                b == self.data() && l == self.layout(),
                tile_count == l.tiles.count,
                r == crate::tile::spec_max_zoom_tile_range(*t),
                start_from_index <= tile_count,
                bounds.max_x == r.max_x && bounds.min_y == r.min_y && bounds.max_y == r.max_y,
                bounds.min_x >= r.min_x,
                entity_ids.nodes@ + scan_ids(b, l, r, 0, start_from_index as int, bounds.min_x) == old(entity_ids).nodes@
                    + scan_ids(b, l, r, 0, 0, r.min_x),
                entity_ids.ways@ + scan_ids(b, l, r, 1, start_from_index as int, bounds.min_x) == old(entity_ids).ways@
                    + scan_ids(b, l, r, 1, 0, r.min_x),
                entity_ids.multipolygons@ + scan_ids(b, l, r, 2, start_from_index as int, bounds.min_x) == old(
                    entity_ids,
                ).multipolygons@ + scan_ids(b, l, r, 2, 0, r.min_x),
                tiles_sorted(b, l) ==> {
                    &&& entity_ids.nodes@ == old(entity_ids).nodes@ + ids_in_range(b, l, r, 0, start_from_index as nat)
                    &&& entity_ids.ways@ == old(entity_ids).ways@ + ids_in_range(b, l, r, 1, start_from_index as nat)
                    &&& entity_ids.multipolygons@ == old(entity_ids).multipolygons@ + ids_in_range(
                        b,
                        l,
                        r,
                        2,
                        start_from_index as nat,
                    )
                    &&& forall|j: int|
                        start_from_index <= j < tile_count && in_range(#[trigger] tile_xy_at(b, l, j), r) ==> tile_xy_at(
                            b,
                            l,
                            j,
                        ).0 >= bounds.min_x
                },
            ensures
                entity_ids.nodes@ == old(entity_ids).nodes@ + scan_ids(b, l, r, 0, 0, r.min_x),
                entity_ids.ways@ == old(entity_ids).ways@ + scan_ids(b, l, r, 1, 0, r.min_x),
                entity_ids.multipolygons@ == old(entity_ids).multipolygons@ + scan_ids(b, l, r, 2, 0, r.min_x),
                tiles_sorted(b, l) ==> {
                    &&& entity_ids.nodes@ == old(entity_ids).nodes@ + ids_in_range(b, l, r, 0, tile_count as nat)
                    &&& entity_ids.ways@ == old(entity_ids).ways@ + ids_in_range(b, l, r, 1, tile_count as nat)
                    &&& entity_ids.multipolygons@ == old(entity_ids).multipolygons@ + ids_in_range(
                        b,
                        l,
                        r,
                        2,
                        tile_count as nat,
                    )
                },
            decreases u32::MAX - bounds.min_x,
        {
            if start_from_index >= tile_count {
                break;
            }
            let ghost bounds0 = bounds;
            let first = match self.next_good_tile(&mut bounds, start_from_index) {
                Some(i) => i,
                None => {
                    proof {
                        if tiles_sorted(b, l) {
                            assert forall|j: int| start_from_index <= j < tile_count implies !in_range(
                                #[trigger] tile_xy_at(b, l, j),
                                r,
                            ) by {
                                if in_range(tile_xy_at(b, l, j), r) {
                                    assert(in_range(tile_xy_at(b, l, j), bounds0));
                                }
                            }
                            lemma_ids_in_range_skip(b, l, r, 0, start_from_index as nat, tile_count as nat);
                            lemma_ids_in_range_skip(b, l, r, 1, start_from_index as nat, tile_count as nat);
                            lemma_ids_in_range_skip(b, l, r, 2, start_from_index as nat, tile_count as nat);
                        }
                    }
                    start_from_index = tile_count;
                    break;
                },
            };
            proof {
                if tiles_sorted(b, l) {
                    assert forall|j: int| start_from_index <= j < first implies !in_range(
                        #[trigger] tile_xy_at(b, l, j),
                        r,
                    ) by {
                        if in_range(tile_xy_at(b, l, j), r) {
                            assert(in_range(tile_xy_at(b, l, j), bounds0));
                        }
                    }
                    lemma_ids_in_range_skip(b, l, r, 0, start_from_index as nat, first as nat);
                    lemma_ids_in_range_skip(b, l, r, 1, start_from_index as nat, first as nat);
                    lemma_ids_in_range_skip(b, l, r, 2, start_from_index as nat, first as nat);
                }
            }
            assert(bounds0 == TileRange { min_x: bounds0.min_x, ..r });
            let ghost nodes0 = entity_ids.nodes@;
            let ghost ways0 = entity_ids.ways@;
            let ghost multipolygons0 = entity_ids.multipolygons@;
            let mut current_index = first;
            let (mut tile_x, mut tile_y) = self.tile_xy(current_index);
            let current_x = tile_x;
            while tile_x == current_x && tile_y <= bounds.max_y
                invariant_except_break
                    self.wf(),
                    b == self.data() && l == self.layout(),
                    tile_count == l.tiles.count,
                    first <= current_index < tile_count,
                    (tile_x, tile_y) == tile_xy_at(b, l, current_index as int),
                    current_x == bounds.min_x,
                    current_x <= r.max_x,
                    bounds.min_x >= r.min_x,
                    bounds.max_x == r.max_x && bounds.min_y == r.min_y && bounds.max_y == r.max_y,
                    tile_xy_at(b, l, first as int).0 == current_x,
                    tile_xy_at(b, l, first as int).1 >= r.min_y,
                    column_end(b, l, first as int, current_x, r.max_y) == column_end(
                        b,
                        l,
                        current_index as int,
                        current_x,
                        r.max_y,
                    ),
                    entity_ids.nodes@ == nodes0 + run_ids(b, l, 0, first as int, current_index as int),
                    entity_ids.ways@ == ways0 + run_ids(b, l, 1, first as int, current_index as int),
                    entity_ids.multipolygons@ == multipolygons0 + run_ids(b, l, 2, first as int, current_index as int),
                    tiles_sorted(b, l) ==> {
                        &&& entity_ids.nodes@ == old(entity_ids).nodes@ + ids_in_range(b, l, r, 0, current_index as nat)
                        &&& entity_ids.ways@ == old(entity_ids).ways@ + ids_in_range(b, l, r, 1, current_index as nat)
                        &&& entity_ids.multipolygons@ == old(entity_ids).multipolygons@ + ids_in_range(
                            b,
                            l,
                            r,
                            2,
                            current_index as nat,
                        )
                    },
                ensures
                    self.wf(),
                    first <= current_index <= tile_count,
                    current_index == first ==> !(tile_x == current_x && tile_y <= bounds.max_y),
                    current_index < tile_count ==> (tile_x, tile_y) == tile_xy_at(b, l, current_index as int),
                    current_index < tile_count ==> !(tile_x == current_x && tile_y <= bounds.max_y),
                    column_end(b, l, first as int, current_x, r.max_y) == current_index,
                    entity_ids.nodes@ == nodes0 + run_ids(b, l, 0, first as int, current_index as int),
                    entity_ids.ways@ == ways0 + run_ids(b, l, 1, first as int, current_index as int),
                    entity_ids.multipolygons@ == multipolygons0 + run_ids(b, l, 2, first as int, current_index as int),
                    tiles_sorted(b, l) ==> {
                        &&& entity_ids.nodes@ == old(entity_ids).nodes@ + ids_in_range(b, l, r, 0, current_index as nat)
                        &&& entity_ids.ways@ == old(entity_ids).ways@ + ids_in_range(b, l, r, 1, current_index as nat)
                        &&& entity_ids.multipolygons@ == old(entity_ids).multipolygons@ + ids_in_range(
                            b,
                            l,
                            r,
                            2,
                            current_index as nat,
                        )
                    },
                decreases tile_count - current_index,
            {
                proof {
                    if tiles_sorted(b, l) && current_index > first {
                        assert(xy_lt(tile_xy_at(b, l, first as int), tile_xy_at(b, l, current_index as int)));
                    }
                }
                assert(in_range(tile_xy_at(b, l, current_index as int), r) || !tiles_sorted(b, l));
                if let Some(ids) = self.tile_local_ids(current_index, 0) {
                    let mut ids = ids;
                    entity_ids.nodes.append(&mut ids);
                }
                if let Some(ids) = self.tile_local_ids(current_index, 1) {
                    let mut ids = ids;
                    entity_ids.ways.append(&mut ids);
                }
                if let Some(ids) = self.tile_local_ids(current_index, 2) {
                    let mut ids = ids;
                    entity_ids.multipolygons.append(&mut ids);
                }
                assert(column_end(b, l, current_index as int, current_x, r.max_y) == column_end(
                    b,
                    l,
                    current_index + 1,
                    current_x,
                    r.max_y,
                ));
                current_index = current_index + 1;
                if current_index >= tile_count {
                    assert(column_end(b, l, current_index as int, current_x, r.max_y) == current_index);
                    break;
                }
                let (next_tile_x, next_tile_y) = self.tile_xy(current_index);
                tile_x = next_tile_x;
                tile_y = next_tile_y;
            }
            proof {
                if tiles_sorted(b, l) {
                    assert forall|j: int|
                        current_index <= j < tile_count && in_range(#[trigger] tile_xy_at(b, l, j), r) implies tile_xy_at(
                            b,
                            l,
                            j,
                        ).0 > current_x by {
                        assert(tile_xy_at(b, l, j).0 >= current_x);
                        if j > current_index {
                            assert(xy_lt(tile_xy_at(b, l, current_index as int), tile_xy_at(b, l, j)));
                        }
                        if current_index > first {
                            assert(xy_lt(tile_xy_at(b, l, first as int), tile_xy_at(b, l, current_index as int)));
                        }
                    }
                }
            }
            start_from_index = current_index;
            if current_x == u32::MAX {
                proof {
                    if tiles_sorted(b, l) {
                        lemma_ids_in_range_skip(b, l, r, 0, start_from_index as nat, tile_count as nat);
                        lemma_ids_in_range_skip(b, l, r, 1, start_from_index as nat, tile_count as nat);
                        lemma_ids_in_range_skip(b, l, r, 2, start_from_index as nat, tile_count as nat);
                    }
                }
                start_from_index = tile_count;
                break;
            }
            bounds.min_x = current_x + 1;
        }
    }
}

} // verus!

verus! {

broadcast use vstd::std_specs::hash::group_hash_axioms;

/// A coordinate moved by `d` (-1, 0 or 1), wrapping around the range of `u32`.
pub open spec fn moved(c: u32, d: int) -> u32 {
    if d < 0 {
        if c == 0 {
            u32::MAX
        } else {
            (c - 1) as u32
        }
    } else if d > 0 {
        if c == u32::MAX {
            0
        } else {
            (c + 1) as u32
        }
    } else {
        c
    }
}

/// Neighbour `q` (0 to 8) of a tile, the tile itself included: columns first, then rows.
pub open spec fn neighbour(t: Tile, q: int) -> Tile {
    Tile { zoom: t.zoom, x: moved(t.x, q / 3 - 1), y: moved(t.y, q % 3 - 1) }
}

/// The ids of kind `kind` in the first `p` neighbours of `t`, neighbour after neighbour.
pub open spec fn neighbourhood_ids(b: Seq<u8>, l: Layout, t: Tile, kind: int, p: nat) -> Seq<u32>
    decreases p,
{
    if p == 0 {
        Seq::empty()
    } else {
        neighbourhood_ids(b, l, t, kind, (p - 1) as nat) + ids_in_range(
            b,
            l,
            crate::tile::spec_max_zoom_tile_range(neighbour(t, p - 1)),
            kind,
            l.tiles.count as nat,
        )
    }
}

/// The ids of kind `kind` that the scans of the first `p` neighbours of `t` collect, neighbour
/// after neighbour.
pub open spec fn neighbourhood_scan_ids(b: Seq<u8>, l: Layout, t: Tile, kind: int, p: nat) -> Seq<u32>
    decreases p,
{
    if p == 0 {
        Seq::empty()
    } else {
        let r = crate::tile::spec_max_zoom_tile_range(neighbour(t, p - 1));
        neighbourhood_scan_ids(b, l, t, kind, (p - 1) as nat) + scan_ids(b, l, r, kind, 0, r.min_x)
    }
}

/// Whether an entity with the id `id` is kept by the filter `osm_ids`.
pub open spec fn kept(osm_ids: Option<Set<u64>>, id: u64) -> bool {
    match osm_ids {
        Some(s) => s.contains(id),
        None => true,
    }
}

pub open spec fn opt_set_view(osm_ids: &Option<std::collections::HashSet<u64>>) -> Option<Set<u64>> {
    match osm_ids {
        Some(s) => Some(s@),
        None => None,
    }
}

pub open spec fn strictly_increasing(s: Seq<u32>) -> bool {
    forall|i: int, j: int| 0 <= i < j < s.len() ==> s[i] < s[j]
}

/// The entities of some tiles.
pub struct OsmEntities<'a> {
    pub nodes: Vec<Node<'a>>,
    pub ways: Vec<Way<'a>>,
    pub multipolygons: Vec<Multipolygon<'a>>,
}

pub open spec fn node_indices<'a>(v: Seq<Node<'a>>) -> Seq<nat> {
    v.map_values(|n: Node<'a>| n.index())
}

pub open spec fn way_indices<'a>(v: Seq<Way<'a>>) -> Seq<nat> {
    v.map_values(|w: Way<'a>| w.index())
}

pub open spec fn multipolygon_indices<'a>(v: Seq<Multipolygon<'a>>) -> Seq<nat> {
    v.map_values(|m: Multipolygon<'a>| m.index())
}

/// The distinct values of `v`, in increasing order.
fn sorted_unique(v: &Vec<u32>) -> (res: Vec<u32>)
    ensures
        strictly_increasing(res@),
        forall|x: u32| res@.contains(x) <==> v@.contains(x),
{
    let mut res: Vec<u32> = Vec::new();
    let mut i: usize = 0;
    while i < v.len()
        invariant
            i <= v@.len(),
            strictly_increasing(res@),
            forall|x: u32| res@.contains(x) <==> v@.take(i as int).contains(x),
        decreases v@.len() - i,
    {
        let x = v[i];
        let mut lo: usize = 0;
        let mut hi: usize = res.len();
        while lo < hi
            invariant
                lo <= hi <= res@.len(),
                strictly_increasing(res@),
                forall|j: int| 0 <= j < lo ==> res@[j] < x,
                forall|j: int| hi <= j < res@.len() ==> res@[j] >= x,
            decreases hi - lo,
        {
            let mid = lo + (hi - lo) / 2;
            if res[mid] < x {
                lo = mid + 1;
            } else {
                hi = mid;
            }
        }
        let ghost before = res@;
        if lo < res.len() && res[lo] == x {
            assert(v@.take(i + 1) == v@.take(i as int).push(x));
            assert forall|y: u32| res@.contains(y) <==> v@.take(i + 1).contains(y) by {
                broadcast use vstd::seq_lib::lemma_seq_contains_after_push;

                if y == x {
                    assert(res@[lo as int] == x);
                }
            }
        } else {
            res.insert(lo, x);
            assert(v@.take(i + 1) == v@.take(i as int).push(x));
            assert forall|y: u32| res@.contains(y) <==> (before.contains(y) || y == x) by {
                if y == x {
                    assert(res@[lo as int] == x);
                } else if res@.contains(y) {
                    let k = choose|k: int| 0 <= k < res@.len() && res@[k] == y;
                    if k < lo {
                        assert(before[k] == y);
                    } else {
                        assert(before[k - 1] == y);
                    }
                } else if before.contains(y) {
                    let k = choose|k: int| 0 <= k < before.len() && before[k] == y;
                    if k < lo {
                        assert(res@[k] == y);
                    } else {
                        assert(res@[k + 1] == y);
                    }
                }
            }
            assert forall|y: u32| res@.contains(y) <==> v@.take(i + 1).contains(y) by {
                broadcast use vstd::seq_lib::lemma_seq_contains_after_push;

                assert(v@.take(i as int).push(x).contains(y) <==> (v@.take(i as int).contains(y) || y == x));
                assert(before.contains(y) <==> v@.take(i as int).contains(y));
                assert(res@.contains(y) <==> (before.contains(y) || y == x));
            }
        }
        i = i + 1;
    }
    assert(v@.take(v@.len() as int) == v@);
    res
}

/// Whether the entity with the id `id` is kept by the filter `osm_ids`.
fn keep(osm_ids: &Option<std::collections::HashSet<u64>>, id: u64) -> (res: bool)
    ensures
        res == kept(opt_set_view(osm_ids), id),
{
    match osm_ids {
        Some(ids) => ids.contains(&id),
        None => true,
    }
}

/// A coordinate moved by `d`, wrapping around.
fn move_coord(c: u32, d: i8) -> (res: u32)
    requires
        -1 <= d <= 1,
    ensures
        res == moved(c, d as int),
{
    if d < 0 {
        if c == 0 {
            u32::MAX
        } else {
            c - 1
        }
    } else if d > 0 {
        if c == u32::MAX {
            0
        } else {
            c + 1
        }
    } else {
        c
    }
}

impl GeodataReader {
    /// The entities of a tile and of its eight neighbours (coordinates wrap around), each once,
    /// in the order of their records, and only those whose ids are in `osm_ids` where it is
    /// given: those that the scans of the nine tiles find and whose records exist (and, for ways
    /// and multipolygons, whose references lie in the file; multipolygons without polygons are
    /// left out). Where the tile records are sorted, the scans find exactly the ids of the
    /// records of the nine tiles.
    pub fn get_entities_in_tile_with_neighbors(
        &self,
        t: &Tile,
        osm_ids: &Option<std::collections::HashSet<u64>>,
    ) -> (res: OsmEntities<'_>)
        requires
            self.wf(),
            t.zoom <= crate::tile::MAX_ZOOM,
        ensures
            strictly_increasing_nat(node_indices(res.nodes@)),
            strictly_increasing_nat(way_indices(res.ways@)),
            strictly_increasing_nat(multipolygon_indices(res.multipolygons@)),
            forall|i: int|
                0 <= i < res.nodes@.len() ==> (#[trigger] res.nodes@[i]).data() == self.data() && res.nodes@[i].layout()
                    == self.layout(),
            forall|i: int|
                0 <= i < res.ways@.len() ==> (#[trigger] res.ways@[i]).data() == self.data() && res.ways@[i].layout()
                    == self.layout(),
            forall|i: int|
                0 <= i < res.multipolygons@.len() ==> (#[trigger] res.multipolygons@[i]).data() == self.data()
                    && res.multipolygons@[i].layout() == self.layout(),
            forall|i: int| 0 <= i < res.nodes@.len() ==> (#[trigger] res.nodes@[i]).index() <= u32::MAX,
            forall|i: int| 0 <= i < res.ways@.len() ==> (#[trigger] res.ways@[i]).index() <= u32::MAX,
            forall|i: int|
                0 <= i < res.multipolygons@.len() ==> (#[trigger] res.multipolygons@[i]).index() <= u32::MAX,
            forall|id: u32|
                node_indices(res.nodes@).contains(id as nat) <==> neighbourhood_scan_ids(
                    self.data(),
                    self.layout(),
                    *t,
                    0,
                    9,
                ).contains(id) && node_selected(self.data(), self.layout(), opt_set_view(osm_ids), id as nat),
            forall|id: u32|
                way_indices(res.ways@).contains(id as nat) <==> neighbourhood_scan_ids(
                    self.data(),
                    self.layout(),
                    *t,
                    1,
                    9,
                ).contains(id) && way_selected(self.data(), self.layout(), opt_set_view(osm_ids), id as nat),
            forall|id: u32|
                multipolygon_indices(res.multipolygons@).contains(id as nat) <==> neighbourhood_scan_ids(
                    self.data(),
                    self.layout(),
                    *t,
                    2,
                    9,
                ).contains(id) && multipolygon_selected(self.data(), self.layout(), opt_set_view(osm_ids), id as nat),
            tiles_sorted(self.data(), self.layout()) ==> forall|id: u32|
                node_indices(res.nodes@).contains(id as nat) <==> neighbourhood_ids(
                    self.data(),
                    self.layout(),
                    *t,
                    0,
                    9,
                ).contains(id) && node_selected(self.data(), self.layout(), opt_set_view(osm_ids), id as nat),
            tiles_sorted(self.data(), self.layout()) ==> forall|id: u32|
                way_indices(res.ways@).contains(id as nat) <==> neighbourhood_ids(
                    self.data(),
                    self.layout(),
                    *t,
                    1,
                    9,
                ).contains(id) && way_selected(self.data(), self.layout(), opt_set_view(osm_ids), id as nat),
            tiles_sorted(self.data(), self.layout()) ==> forall|id: u32|
                multipolygon_indices(res.multipolygons@).contains(id as nat) <==> neighbourhood_ids(
                    self.data(),
                    self.layout(),
                    *t,
                    2,
                    9,
                ).contains(id) && multipolygon_selected(self.data(), self.layout(), opt_set_view(osm_ids), id as nat),
    {
        let mut entity_ids = OsmEntityIds { nodes: Vec::new(), ways: Vec::new(), multipolygons: Vec::new() };
        let ghost b = self.data();
        let ghost l = self.layout();
        let mut q: u8 = 0;
        while q < 9
            invariant
                self.wf(),
                b == self.data() && l == self.layout(),
                t.zoom <= crate::tile::MAX_ZOOM,
                q <= 9,
                entity_ids.nodes@ == neighbourhood_scan_ids(b, l, *t, 0, q as nat),
                entity_ids.ways@ == neighbourhood_scan_ids(b, l, *t, 1, q as nat),
                entity_ids.multipolygons@ == neighbourhood_scan_ids(b, l, *t, 2, q as nat),
                tiles_sorted(b, l) ==> {
                    &&& entity_ids.nodes@ == neighbourhood_ids(b, l, *t, 0, q as nat)
                    &&& entity_ids.ways@ == neighbourhood_ids(b, l, *t, 1, q as nat)
                    &&& entity_ids.multipolygons@ == neighbourhood_ids(b, l, *t, 2, q as nat)
                },
            decreases 9 - q,
        {
            let dx: i8 = (q / 3) as i8 - 1;
            let dy: i8 = (q % 3) as i8 - 1;
            let adjacent_tile = Tile { zoom: t.zoom, x: move_coord(t.x, dx), y: move_coord(t.y, dy) };
            assert(adjacent_tile == neighbour(*t, q as int));
            self.get_entities_in_tile(&adjacent_tile, &mut entity_ids);
            q = q + 1;
        }
        let node_ids = sorted_unique(&entity_ids.nodes);
        let way_ids = sorted_unique(&entity_ids.ways);
        let multipolygon_ids = sorted_unique(&entity_ids.multipolygons);
        OsmEntities {
            nodes: self.collect_nodes(&node_ids, osm_ids),
            ways: self.collect_ways(&way_ids, osm_ids),
            multipolygons: self.collect_multipolygons(&multipolygon_ids, osm_ids),
        }
    }
}

} // verus!

verus! {

/// Whether node record `id` exists and the filter keeps it.
pub open spec fn node_selected(b: Seq<u8>, l: Layout, osm_ids: Option<Set<u64>>, id: nat) -> bool {
    id < l.nodes.count && kept(osm_ids, u64_at(b, record_pos(l.nodes, id as int)))
}

/// Whether way record `id` exists, its node references lie in the file, and the filter keeps it.
pub open spec fn way_selected(b: Seq<u8>, l: Layout, osm_ids: Option<Set<u64>>, id: nat) -> bool {
    &&& id < l.ways.count
    &&& int_list_at(b, l, record_pos(l.ways, id as int) + 8) is Some
    &&& kept(osm_ids, u64_at(b, record_pos(l.ways, id as int)))
}

/// Whether multipolygon record `id` exists, has polygons whose references lie in the file,
/// and the filter keeps it.
pub open spec fn multipolygon_selected(b: Seq<u8>, l: Layout, osm_ids: Option<Set<u64>>, id: nat) -> bool {
    &&& id < l.multipolygons.count
    &&& match int_list_at(b, l, record_pos(l.multipolygons, id as int) + 8) {
        Some(polygons) => polygons.len() > 0,
        None => false,
    }
    &&& kept(osm_ids, u64_at(b, record_pos(l.multipolygons, id as int)))
}

pub open spec fn strictly_increasing_nat(s: Seq<nat>) -> bool {
    forall|i: int, j: int| 0 <= i < j < s.len() ==> s[i] < s[j]
}

impl GeodataReader {
    /// The nodes with the indices `ids` (increasing) whose records exist and that `osm_ids` keeps.
    fn collect_nodes(&self, ids: &Vec<u32>, osm_ids: &Option<std::collections::HashSet<u64>>) -> (res: Vec<
        Node<'_>,
    >)
        requires
            self.wf(),
            strictly_increasing(ids@),
        ensures
            strictly_increasing_nat(node_indices(res@)),
            forall|i: int|
                0 <= i < res@.len() ==> (#[trigger] res@[i]).data() == self.data() && res@[i].layout() == self.layout(),
            forall|i: int| 0 <= i < res@.len() ==> (#[trigger] res@[i]).index() <= u32::MAX,
            forall|id: u32|
                node_indices(res@).contains(id as nat) <==> ids@.contains(id) && node_selected(
                    self.data(),
                    self.layout(),
                    opt_set_view(osm_ids),
                    id as nat,
                ),
    {
        let mut res: Vec<Node<'_>> = Vec::new();
        let mut i: usize = 0;
        while i < ids.len()
            invariant
                self.wf(),
                strictly_increasing(ids@),
                i <= ids@.len(),
                strictly_increasing_nat(node_indices(res@)),
                forall|k: int|
                    0 <= k < res@.len() ==> (#[trigger] res@[k]).data() == self.data() && res@[k].layout()
                        == self.layout(),
                forall|k: int| 0 <= k < res@.len() ==> (#[trigger] res@[k]).index() <= u32::MAX,
                forall|k: int| 0 <= k < res@.len() && i < ids@.len() ==> (#[trigger] res@[k]).index() < ids@[i as int],
                forall|id: u32|
                    node_indices(res@).contains(id as nat) <==> ids@.take(i as int).contains(id) && node_selected(
                        self.data(),
                        self.layout(),
                        opt_set_view(osm_ids),
                        id as nat,
                    ),
            decreases ids@.len() - i,
        {
            let id = ids[i];
            let ghost before = res@;
            if (id as usize) < self.layout.nodes.count {
                let node = self.get_node(id as usize);
                let global_id = node.global_id();
                if keep(osm_ids, global_id) {
                    res.push(node);
                }
            }
            proof {
                broadcast use vstd::seq_lib::lemma_seq_contains_after_push;

                assert(ids@.take(i + 1) == ids@.take(i as int).push(id));
                if res@.len() > before.len() {
                    assert(node_indices(res@) =~= node_indices(before).push(id as nat));
                } else {
                    assert(node_indices(res@) =~= node_indices(before));
                }
                assert forall|k: int| 0 <= k < res@.len() && i + 1 < ids@.len() implies (#[trigger] res@[k]).index()
                    < ids@[i + 1] by {
                    assert(ids@[i as int] < ids@[i + 1]);
                }
            }
            i = i + 1;
        }
        assert(ids@.take(ids@.len() as int) == ids@);
        res
    }
}

impl GeodataReader {
    /// The ways with the indices `ids` (increasing) whose records and node references exist
    /// and that `osm_ids` keeps.
    fn collect_ways(&self, ids: &Vec<u32>, osm_ids: &Option<std::collections::HashSet<u64>>) -> (res: Vec<
        Way<'_>,
    >)
        requires
            self.wf(),
            strictly_increasing(ids@),
        ensures
            strictly_increasing_nat(way_indices(res@)),
            forall|i: int|
                0 <= i < res@.len() ==> (#[trigger] res@[i]).data() == self.data() && res@[i].layout() == self.layout(),
            forall|i: int| 0 <= i < res@.len() ==> (#[trigger] res@[i]).index() <= u32::MAX,
            forall|id: u32|
                way_indices(res@).contains(id as nat) <==> ids@.contains(id) && way_selected(
                    self.data(),
                    self.layout(),
                    opt_set_view(osm_ids),
                    id as nat,
                ),
    {
        let mut res: Vec<Way<'_>> = Vec::new();
        let mut i: usize = 0;
        while i < ids.len()
            invariant
                self.wf(),
                strictly_increasing(ids@),
                i <= ids@.len(),
                strictly_increasing_nat(way_indices(res@)),
                forall|k: int|
                    0 <= k < res@.len() ==> (#[trigger] res@[k]).data() == self.data() && res@[k].layout()
                        == self.layout(),
                forall|k: int| 0 <= k < res@.len() ==> (#[trigger] res@[k]).index() <= u32::MAX,
                forall|k: int| 0 <= k < res@.len() && i < ids@.len() ==> (#[trigger] res@[k]).index() < ids@[i as int],
                forall|id: u32|
                    way_indices(res@).contains(id as nat) <==> ids@.take(i as int).contains(id) && way_selected(
                        self.data(),
                        self.layout(),
                        opt_set_view(osm_ids),
                        id as nat,
                    ),
            decreases ids@.len() - i,
        {
            let id = ids[i];
            let ghost before = res@;
            if (id as usize) < self.layout.ways.count {
                if let Some(way) = self.get_way(id as usize) {
                    let global_id = way.global_id();
                    if keep(osm_ids, global_id) {
                        res.push(way);
                    }
                }
            }
            proof {
                broadcast use vstd::seq_lib::lemma_seq_contains_after_push;

                assert(ids@.take(i + 1) == ids@.take(i as int).push(id));
                if res@.len() > before.len() {
                    assert(way_indices(res@) =~= way_indices(before).push(id as nat));
                } else {
                    assert(way_indices(res@) =~= way_indices(before));
                }
                assert forall|k: int| 0 <= k < res@.len() && i + 1 < ids@.len() implies (#[trigger] res@[k]).index()
                    < ids@[i + 1] by {
                    assert(ids@[i as int] < ids@[i + 1]);
                }
            }
            i = i + 1;
        }
        assert(ids@.take(ids@.len() as int) == ids@);
        res
    }
}

impl GeodataReader {
    /// The multipolygons with the indices `ids` (increasing) whose records exist, that have
    /// polygons whose references lie in the file, and that `osm_ids` keeps.
    fn collect_multipolygons(&self, ids: &Vec<u32>, osm_ids: &Option<std::collections::HashSet<u64>>) -> (res: Vec<
        Multipolygon<'_>,
    >)
        requires
            self.wf(),
            strictly_increasing(ids@),
        ensures
            strictly_increasing_nat(multipolygon_indices(res@)),
            forall|i: int|
                0 <= i < res@.len() ==> (#[trigger] res@[i]).data() == self.data() && res@[i].layout() == self.layout(),
            forall|i: int| 0 <= i < res@.len() ==> (#[trigger] res@[i]).index() <= u32::MAX,
            forall|id: u32|
                multipolygon_indices(res@).contains(id as nat) <==> ids@.contains(id) && multipolygon_selected(
                    self.data(),
                    self.layout(),
                    opt_set_view(osm_ids),
                    id as nat,
                ),
    {
        let mut res: Vec<Multipolygon<'_>> = Vec::new();
        let mut i: usize = 0;
        while i < ids.len()
            invariant
                self.wf(),
                strictly_increasing(ids@),
                i <= ids@.len(),
                strictly_increasing_nat(multipolygon_indices(res@)),
                forall|k: int|
                    0 <= k < res@.len() ==> (#[trigger] res@[k]).data() == self.data() && res@[k].layout()
                        == self.layout(),
                forall|k: int| 0 <= k < res@.len() ==> (#[trigger] res@[k]).index() <= u32::MAX,
                forall|k: int| 0 <= k < res@.len() && i < ids@.len() ==> (#[trigger] res@[k]).index() < ids@[i as int],
                forall|id: u32|
                    multipolygon_indices(res@).contains(id as nat) <==> ids@.take(i as int).contains(id) && multipolygon_selected(
                        self.data(),
                        self.layout(),
                        opt_set_view(osm_ids),
                        id as nat,
                    ),
            decreases ids@.len() - i,
        {
            let id = ids[i];
            let ghost before = res@;
            if (id as usize) < self.layout.multipolygons.count {
                if let Some(mp) = self.get_multipolygon(id as usize) {
                    if mp.polygon_count() > 0 {
                        let global_id = mp.global_id();
                        if keep(osm_ids, global_id) {
                            res.push(mp);
                        }
                    }
                }
            }
            proof {
                broadcast use vstd::seq_lib::lemma_seq_contains_after_push;

                assert(ids@.take(i + 1) == ids@.take(i as int).push(id));
                if res@.len() > before.len() {
                    assert(multipolygon_indices(res@) =~= multipolygon_indices(before).push(id as nat));
                } else {
                    assert(multipolygon_indices(res@) =~= multipolygon_indices(before));
                }
                assert forall|k: int| 0 <= k < res@.len() && i + 1 < ids@.len() implies (#[trigger] res@[k]).index()
                    < ids@[i + 1] by {
                    assert(ids@[i as int] < ids@[i + 1]);
                }
            }
            i = i + 1;
        }
        assert(ids@.take(ids@.len() as int) == ids@);
        res
    }
}

} // verus!
