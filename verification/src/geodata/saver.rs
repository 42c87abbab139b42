use crate::geodata::bytes::bytes_lt;
use crate::geodata::importer::{entries_view, key_bytes, tags_sorted, Multipolygon, Polygon, RawNode, RawTags, RawWay};
use crate::geodata::le::{
    lemma_u32_le_roundtrip, lemma_u64_le_roundtrip, push_u32_le, push_u64_le, spec_u32_le, spec_u64_le, u32_le_bytes,
    u64_le_bytes,
};
use crate::geodata::format::xy_lt;
use crate::geodata::ref_set::{ref_lt, sorted_refs, TileRef};
use crate::geodata::importer::EntityStorages;
use crate::geodata::roundtrip::{
    as_u32s, file_holds, lemma_node_read_back, lemma_polygon_read_back, lemma_record_read_back, lemma_saved_layout,
    lemma_tiles_read_back, node_read_back, record_read_back, saved_layout, sections,
};
use crate::geodata::tile_refs::{expected_ref, get_tile_references};
use crate::geodata::format::{int_at, int_list_at, record_pos};
use vstd::hash_map::StringHashMap;
use vstd::prelude::*;
use vstd::utf8::encode_utf8;

verus! {

/// Why a geodata file could not be written.
#[derive(Clone, Copy, Debug, PartialEq, Eq, Structural)]
pub enum SaveError {
    /// A count, an offset or an id does not fit into the file's 32-bit integers.
    DoesNotFitIntoU32(usize),
}

/// `v` as a 32-bit integer of the file, or the error that it does not fit.
pub fn to_u32_safe(v: usize) -> (res: Result<u32, SaveError>)
    ensures
        v <= u32::MAX ==> res == Ok::<u32, SaveError>(v as u32),
        v > u32::MAX ==> res == Err::<u32, SaveError>(SaveError::DoesNotFitIntoU32(v)),
{
    if v > 0xffff_ffff {
        Err(SaveError::DoesNotFitIntoU32(v))
    } else {
        Ok(v as u32)
    }
}

/// Reading a number is not affected by bytes appended after it.
pub proof fn lemma_reads_in_prefix(a: Seq<u8>, b: Seq<u8>, p: int)
    requires
        0 <= p,
        p + 8 <= a.len() <= b.len(),
        b.take(a.len() as int) == a,
    ensures
        spec_u32_le(b, p) == spec_u32_le(a, p),
        spec_u32_le(b, p + 4) == spec_u32_le(a, p + 4),
        spec_u64_le(b, p) == spec_u64_le(a, p),
{
    reveal(spec_u32_le);
    reveal(spec_u64_le);
    assert(b[p] == a[p]);
    assert(b[p + 1] == a[p + 1]);
    assert(b[p + 2] == a[p + 2]);
    assert(b[p + 3] == a[p + 3]);
    assert(b[p + 4] == a[p + 4]);
    assert(b[p + 5] == a[p + 5]);
    assert(b[p + 6] == a[p + 6]);
    assert(b[p + 7] == a[p + 7]);
}

/// Reading a four-byte number is not affected by bytes appended after it.
pub proof fn lemma_read_u32_in_prefix(a: Seq<u8>, b: Seq<u8>, p: int)
    requires
        0 <= p,
        p + 4 <= a.len() <= b.len(),
        b.take(a.len() as int) == a,
    ensures
        spec_u32_le(b, p) == spec_u32_le(a, p),
{
    reveal(spec_u32_le);
    assert(b[p] == a[p]);
    assert(b[p + 1] == a[p + 1]);
    assert(b[p + 2] == a[p + 2]);
    assert(b[p + 3] == a[p + 3]);
}

/// Reading a number that was just appended gives it back.
pub proof fn lemma_read_appended_u32(a: Seq<u8>, v: u32)
    ensures
        spec_u32_le(a + u32_le_bytes(v), a.len() as int) == v,
{
    lemma_u32_le_roundtrip(v, a, Seq::empty());
    assert(a + u32_le_bytes(v) + Seq::<u8>::empty() == a + u32_le_bytes(v));
}

/// Reading a number that was just appended gives it back.
pub proof fn lemma_read_appended_u64(a: Seq<u8>, v: u64)
    ensures
        spec_u64_le(a + u64_le_bytes(v), a.len() as int) == v,
{
    lemma_u64_le_roundtrip(v, a, Seq::empty());
    assert(a + u64_le_bytes(v) + Seq::<u8>::empty() == a + u64_le_bytes(v));
}

/// Whether `strings[offset..offset + len]` holds `bytes`.
pub open spec fn stored_at(strings: Seq<u8>, offset: int, len: int, bytes: Seq<u8>) -> bool {
    &&& 0 <= offset
    &&& len == bytes.len()
    &&& offset + len <= strings.len()
    &&& strings.subrange(offset, offset + len) == bytes
}

/// Whether the integers from `off` on hold the tags, four per tag (key offset and length,
/// value offset and length), with keys and values in `strings`.
#[verifier::opaque]
pub open spec fn tags_stored(ints: Seq<u32>, strings: Seq<u8>, off: int, tags: Seq<(Seq<char>, Seq<char>)>) -> bool {
    &&& 0 <= off
    &&& off + 4 * tags.len() <= ints.len()
    &&& forall|j: int|
        0 <= j < tags.len() ==> {
            let base = off + 4 * j;
            &&& stored_at(strings, ints[base] as int, ints[base + 1] as int, encode_utf8((#[trigger] tags[j]).0))
            &&& stored_at(strings, ints[base + 2] as int, ints[base + 3] as int, encode_utf8(tags[j].1))
        }
}

/// Stored tags stay stored when integers and strings are appended.
pub proof fn lemma_tags_stored_grow(
    ints: Seq<u32>,
    strings: Seq<u8>,
    ints2: Seq<u32>,
    strings2: Seq<u8>,
    off: int,
    tags: Seq<(Seq<char>, Seq<char>)>,
)
    requires
        tags_stored(ints, strings, off, tags),
        ints.len() <= ints2.len(),
        ints2.take(ints.len() as int) == ints,
        strings.len() <= strings2.len(),
        strings2.take(strings.len() as int) == strings,
    ensures
        tags_stored(ints2, strings2, off, tags),
{
    reveal(tags_stored);
    assert forall|t: int| 0 <= t < ints.len() implies ints2[t] == ints[t] by {
        assert(ints2.take(ints.len() as int)[t] == ints2[t]);
    }
    assert forall|j: int| 0 <= j < tags.len() implies {
        let base = off + 4 * j;
        &&& stored_at(strings2, ints2[base] as int, ints2[base + 1] as int, encode_utf8((#[trigger] tags[j]).0))
        &&& stored_at(strings2, ints2[base + 2] as int, ints2[base + 3] as int, encode_utf8(tags[j].1))
    } by {
        let base = off + 4 * j;
        assert(ints2[base] == ints[base]);
        assert(ints2[base + 1] == ints[base + 1]);
        assert(ints2[base + 2] == ints[base + 2]);
        assert(ints2[base + 3] == ints[base + 3]);
        lemma_stored_at_grow(strings, strings2, ints[base] as int, ints[base + 1] as int, encode_utf8(tags[j].0));
        lemma_stored_at_grow(strings, strings2, ints[base + 2] as int, ints[base + 3] as int, encode_utf8(tags[j].1));
    }
}

/// A stored string stays stored when bytes are appended.
pub proof fn lemma_stored_at_grow(strings: Seq<u8>, strings2: Seq<u8>, offset: int, len: int, bytes: Seq<u8>)
    requires
        stored_at(strings, offset, len, bytes),
        strings.len() <= strings2.len(),
        strings2.take(strings.len() as int) == strings,
    ensures
        stored_at(strings2, offset, len, bytes),
{
    assert forall|t: int| 0 <= t < len implies strings2.subrange(offset, offset + len)[t] == bytes[t] by {
        assert(strings2.take(strings.len() as int)[offset + t] == strings2[offset + t]);
        assert(strings.subrange(offset, offset + len)[t] == strings[offset + t]);
    }
    assert(strings2.subrange(offset, offset + len) =~= bytes);
}

/// The integers and the strings that follow the records of a geodata file, while it is written.
pub struct BufferedData {
    all_ints: Vec<u32>,
    string_to_offset: StringHashMap<usize>,
    all_strings: Vec<u8>,
}

impl BufferedData {
    pub closed spec fn ints(&self) -> Seq<u32> {
        self.all_ints@
    }

    pub closed spec fn strings(&self) -> Seq<u8> {
        self.all_strings@
    }

    /// Whether the string `k` is already stored.
    pub closed spec fn has_string(&self, k: Seq<char>) -> bool {
        self.string_to_offset@.contains_key(k)
    }

    /// The offset at which the string `k` is stored, where it is.
    pub closed spec fn offset_of(&self, k: Seq<char>) -> usize {
        self.string_to_offset@[k]
    }

    /// Every string of the table is stored at its offset.
    pub closed spec fn wf(&self) -> bool {
        forall|k: Seq<char>|
            #[trigger] self.string_to_offset@.contains_key(k) ==> stored_at(
                self.all_strings@,
                self.string_to_offset@[k] as int,
                encode_utf8(k).len() as int,
                encode_utf8(k),
            )
    }

    pub fn new() -> (res: BufferedData)
        ensures
            res.wf(),
            res.ints() == Seq::<u32>::empty(),
            res.strings() == Seq::<u8>::empty(),
            forall|k: Seq<char>| !res.has_string(k),
    {
        BufferedData { all_ints: Vec::new(), string_to_offset: StringHashMap::new(), all_strings: Vec::new() }
    }

    /// The offset and the length of `s` in the strings: a string already stored is found at
    /// the offset where it was first stored, and the strings are left as they were; a new one is
    /// appended to the strings.
    pub fn add_string(&mut self, s: &str) -> (res: (usize, usize))
        requires
            old(self).wf(),
        ensures
            final(self).wf(),
            res.1 == encode_utf8(s@).len(),
            old(self).has_string(s@) ==> final(self).strings() == old(self).strings() && res.0 == old(self).offset_of(
                s@,
            ),
            !old(self).has_string(s@) ==> final(self).strings() == old(self).strings() + encode_utf8(s@) && res.0
                == old(self).strings().len(),
            final(self).has_string(s@) && final(self).offset_of(s@) == res.0,
            forall|k: Seq<char>|
                #[trigger] old(self).has_string(k) ==> final(self).has_string(k) && final(self).offset_of(k)
                    == old(self).offset_of(k),
            final(self).ints() == old(self).ints(),
            old(self).strings().len() <= final(self).strings().len(),
            final(self).strings().take(old(self).strings().len() as int) == old(self).strings(),
            final(self).strings().len() <= old(self).strings().len() + encode_utf8(s@).len(),
            stored_at(final(self).strings(), res.0 as int, res.1 as int, encode_utf8(s@)),
    {
        let bytes = s.as_bytes();
        match self.string_to_offset.get(s) {
            Some(offset) => {
                let offset = *offset;
                assert(self.all_strings@.take(self.all_strings@.len() as int) == self.all_strings@);
                (offset, bytes.len())
            },
            None => {
                let offset = self.all_strings.len();
                let ghost before = self.all_strings@;
                let mut i: usize = 0;
                while i < bytes.len()
                    invariant
                        i <= bytes@.len(),
                        bytes@ == encode_utf8(s@),
                        self.all_strings@ == before + bytes@.take(i as int),
                        offset == before.len(),
                        self.all_ints@ == old(self).all_ints@,
                        self.string_to_offset@ == old(self).string_to_offset@,
                        before == old(self).all_strings@,
                    decreases bytes@.len() - i,
                {
                    self.all_strings.push(bytes[i]);
                    i = i + 1;
                    assert(self.all_strings@ =~= before + bytes@.take(i as int));
                }
                assert(bytes@.take(bytes@.len() as int) == bytes@);
                assert(self.all_strings@.subrange(offset as int, offset + bytes@.len()) =~= bytes@);
                assert(self.all_strings@.take(before.len() as int) =~= before);
                let ghost old_map = self.string_to_offset@;
                self.string_to_offset.insert(s.to_string(), offset);
                assert forall|k: Seq<char>| #[trigger] self.string_to_offset@.contains_key(k) implies stored_at(
                    self.all_strings@,
                    self.string_to_offset@[k] as int,
                    encode_utf8(k).len() as int,
                    encode_utf8(k),
                ) by {
                    if k != s@ {
                        assert(old_map.contains_key(k));
                        assert(old_map == old(self).string_to_offset@);
                        let o = old_map[k] as int;
                        assert(stored_at(before, o, encode_utf8(k).len() as int, encode_utf8(k)));
                        lemma_stored_at_grow(before, self.all_strings@, o, encode_utf8(k).len() as int, encode_utf8(k));
                    }
                }
                (offset, bytes.len())
            },
        }
    }
}

} // verus!

verus! {

/// Whether the integers from `off` on hold the references `refs`.
#[verifier::opaque]
pub open spec fn refs_stored(ints: Seq<u32>, off: int, refs: Seq<usize>) -> bool {
    &&& 0 <= off
    &&& off + refs.len() <= ints.len()
    &&& forall|j: int| 0 <= j < refs.len() ==> ints[off + j] == #[trigger] refs[j]
}

pub proof fn lemma_refs_stored_grow(ints: Seq<u32>, ints2: Seq<u32>, off: int, refs: Seq<usize>)
    requires
        refs_stored(ints, off, refs),
        ints.len() <= ints2.len(),
        ints2.take(ints.len() as int) == ints,
    ensures
        refs_stored(ints2, off, refs),
{
    reveal(refs_stored);
    assert forall|j: int| 0 <= j < refs.len() implies ints2[off + j] == #[trigger] refs[j] by {
        assert(ints2.take(ints.len() as int)[off + j] == ints2[off + j]);
    }
}

/// Whether the tag reference at `pos` of `out` designates the tags `tags`.
pub open spec fn tags_saved(out: Seq<u8>, pos: int, ints: Seq<u32>, strings: Seq<u8>, tags: Seq<(Seq<char>, Seq<char>)>) -> bool {
    &&& pos + 8 <= out.len()
    &&& tags_stored(ints, strings, spec_u32_le(out, pos) as int, tags)
    &&& spec_u32_le(out, pos + 4) == 4 * tags.len()
}

/// Whether the reference at `pos` of `out` designates the integers `refs`.
pub open spec fn refs_saved(out: Seq<u8>, pos: int, ints: Seq<u32>, refs: Seq<usize>) -> bool {
    &&& pos + 8 <= out.len()
    &&& refs_stored(ints, spec_u32_le(out, pos) as int, refs)
    &&& spec_u32_le(out, pos + 4) == refs.len()
}

pub proof fn lemma_tags_saved_grow(
    out: Seq<u8>,
    out2: Seq<u8>,
    pos: int,
    ints: Seq<u32>,
    strings: Seq<u8>,
    ints2: Seq<u32>,
    strings2: Seq<u8>,
    tags: Seq<(Seq<char>, Seq<char>)>,
)
    requires
        0 <= pos,
        tags_saved(out, pos, ints, strings, tags),
        out.len() <= out2.len(),
        out2.take(out.len() as int) == out,
        ints.len() <= ints2.len(),
        ints2.take(ints.len() as int) == ints,
        strings.len() <= strings2.len(),
        strings2.take(strings.len() as int) == strings,
    ensures
        tags_saved(out2, pos, ints2, strings2, tags),
{
    lemma_reads_in_prefix(out, out2, pos);
    lemma_tags_stored_grow(ints, strings, ints2, strings2, spec_u32_le(out, pos) as int, tags);
}

pub proof fn lemma_refs_saved_grow(out: Seq<u8>, out2: Seq<u8>, pos: int, ints: Seq<u32>, ints2: Seq<u32>, refs: Seq<usize>)
    requires
        0 <= pos,
        refs_saved(out, pos, ints, refs),
        out.len() <= out2.len(),
        out2.take(out.len() as int) == out,
        ints.len() <= ints2.len(),
        ints2.take(ints.len() as int) == ints,
    ensures
        refs_saved(out2, pos, ints2, refs),
{
    lemma_reads_in_prefix(out, out2, pos);
    lemma_refs_stored_grow(ints, ints2, spec_u32_le(out, pos) as int, refs);
}

/// The bytes that the keys and the values of `tags` take.
pub open spec fn tags_bytes(tags: Seq<(Seq<char>, Seq<char>)>) -> nat
    decreases tags.len(),
{
    if tags.len() == 0 {
        0
    } else {
        tags_bytes(tags.drop_last()) + encode_utf8(tags.last().0).len() + encode_utf8(tags.last().1).len()
    }
}

/// What saving `tags` may add to the integers and the strings: four integers per tag, and
/// the bytes of their keys and values.
pub open spec fn tags_cost(tags: Seq<(Seq<char>, Seq<char>)>) -> nat {
    4 * tags.len() + tags_bytes(tags)
}

/// The number of integers and of string bytes gathered so far.
pub open spec fn data_size(d: BufferedData) -> nat {
    d.ints().len() + d.strings().len()
}

/// Appends the references `refs` to the integers, and writes their offset and count.
pub fn save_refs(out: &mut Vec<u8>, refs: &Vec<usize>, data: &mut BufferedData) -> (res: Result<(), SaveError>)
    requires
        old(data).wf(),
    ensures
        final(data).wf(),
        final(data).strings() == old(data).strings(),
        res is Err <==> (exists|j: int| 0 <= j < refs@.len() && refs@[j] > u32::MAX) || old(data).ints().len() > u32::MAX
            || refs@.len() > u32::MAX,
        res matches Err(SaveError::DoesNotFitIntoU32(v)) ==> v > u32::MAX,
        res matches Err(SaveError::DoesNotFitIntoU32(v)) ==> v == old(data).ints().len() || v == refs@.len()
            || refs@.contains(v),
        res is Ok ==> {
            &&& final(data).ints().len() == old(data).ints().len() + refs@.len()
            &&& final(data).ints().take(old(data).ints().len() as int) == old(data).ints()
            &&& refs_stored(final(data).ints(), old(data).ints().len() as int, refs@)
            &&& final(out)@ == old(out)@ + u32_le_bytes(old(data).ints().len() as u32) + u32_le_bytes(
                refs@.len() as u32,
            )
        },
{
    let offset = data.all_ints.len();
    let mut i: usize = 0;
    while i < refs.len()
        invariant
            i <= refs@.len(),
            data.wf(),
            data.string_to_offset@ == old(data).string_to_offset@,
            data.all_strings@ == old(data).all_strings@,
            offset == old(data).all_ints@.len(),
            data.all_ints@.len() == offset + i,
            data.all_ints@.take(offset as int) == old(data).all_ints@,
            forall|j: int| 0 <= j < i ==> data.all_ints@[offset + j] == #[trigger] refs@[j],
            forall|j: int| 0 <= j < i ==> #[trigger] refs@[j] <= u32::MAX,
        decreases refs@.len() - i,
    {
        let r = match to_u32_safe(refs[i]) {
            Ok(r) => r,
            Err(e) => {
                assert(refs@.contains(refs@[i as int]));
                return Err(e);
            },
        };
        data.all_ints.push(r);
        i = i + 1;
        assert(data.all_ints@.take(offset as int) =~= old(data).all_ints@);
    }
    let off32 = match to_u32_safe(offset) {
        Ok(v) => v,
        Err(e) => {
            assert(forall|j: int| 0 <= j < refs@.len() ==> #[trigger] refs@[j] <= u32::MAX);
            return Err(e);
        },
    };
    let count32 = match to_u32_safe(data.all_ints.len() - offset) {
        Ok(v) => v,
        Err(e) => {
            assert(forall|j: int| 0 <= j < refs@.len() ==> #[trigger] refs@[j] <= u32::MAX);
            return Err(e);
        },
    };
    push_u32_le(out, off32);
    push_u32_le(out, count32);
    proof {
        reveal(refs_stored);
    }
    Ok(())
}

/// Stores the tags' keys and values, appends their references to the integers, and writes
/// the offset and the count of those integers.
pub fn save_tags(out: &mut Vec<u8>, tags: &RawTags, data: &mut BufferedData) -> (res: Result<(), SaveError>)
    requires
        old(data).wf(),
    ensures
        final(data).wf(),
        res matches Err(SaveError::DoesNotFitIntoU32(v)) ==> v > u32::MAX,
        res matches Err(SaveError::DoesNotFitIntoU32(v)) ==> v <= data_size(*old(data)) + tags_cost(tags@),
        data_size(*old(data)) + tags_cost(tags@) <= u32::MAX ==> res is Ok,
        res is Ok ==> data_size(*final(data)) <= data_size(*old(data)) + tags_cost(tags@),
        res is Ok ==> {
            &&& old(data).ints().len() <= u32::MAX
            &&& 4 * tags@.len() <= u32::MAX
            &&& final(data).ints().len() == old(data).ints().len() + 4 * tags@.len()
            &&& final(data).ints().take(old(data).ints().len() as int) == old(data).ints()
            &&& old(data).strings().len() <= final(data).strings().len()
            &&& final(data).strings().take(old(data).strings().len() as int) == old(data).strings()
            &&& tags_stored(final(data).ints(), final(data).strings(), old(data).ints().len() as int, tags@)
            &&& final(out)@ == old(out)@ + u32_le_bytes(old(data).ints().len() as u32) + u32_le_bytes(
                (4 * tags@.len()) as u32,
            )
        },
{
    let entries = tags.entries();
    let mut kv_refs: Vec<usize> = Vec::new();
    let mut i: usize = 0;
    while i < entries.len()
        invariant
            i <= entries@.len(),
            entries_view(entries@) == tags@,
            data.wf(),
            data.ints() == old(data).ints(),
            old(data).strings().len() <= data.strings().len(),
            data.strings().take(old(data).strings().len() as int) == old(data).strings(),
            kv_refs@.len() == 4 * i,
            data.strings().len() <= old(data).strings().len() + tags_bytes(tags@.take(i as int)),
            forall|m: int| 0 <= m < kv_refs@.len() ==> #[trigger] kv_refs@[m] <= data.strings().len(),
            forall|j: int|
                0 <= j < i ==> {
                    &&& stored_at(
                        data.strings(),
                        kv_refs@[4 * j] as int,
                        kv_refs@[4 * j + 1] as int,
                        encode_utf8((#[trigger] tags@[j]).0),
                    )
                    &&& stored_at(data.strings(), kv_refs@[4 * j + 2] as int, kv_refs@[4 * j + 3] as int, encode_utf8(tags@[j].1))
                },
        decreases entries@.len() - i,
    {
        let ghost strings0 = data.strings();
        let ghost kv0 = kv_refs@;
        let (k_offset, k_length) = data.add_string(entries[i].0.as_str());
        let ghost strings_mid = data.strings();
        let (v_offset, v_length) = data.add_string(entries[i].1.as_str());
        kv_refs.push(k_offset);
        kv_refs.push(k_length);
        kv_refs.push(v_offset);
        kv_refs.push(v_length);
        proof {
            assert(tags@[i as int] == (entries@[i as int].0@, entries@[i as int].1@));
            assert(tags@.take(i + 1).drop_last() =~= tags@.take(i as int));
            assert forall|m: int| 0 <= m < kv_refs@.len() implies #[trigger] kv_refs@[m] <= data.strings().len() by {
                if m < 4 * i {
                    assert(kv_refs@[m] == kv0[m]);
                }
            }
            assert(data.strings().take(strings0.len() as int) =~= strings0) by {
                assert(data.strings().take(old(data).strings().len() as int) == old(data).strings());
            }
            assert forall|j: int| 0 <= j < i + 1 implies {
                &&& stored_at(
                    data.strings(),
                    kv_refs@[4 * j] as int,
                    kv_refs@[4 * j + 1] as int,
                    encode_utf8((#[trigger] tags@[j]).0),
                )
                &&& stored_at(data.strings(), kv_refs@[4 * j + 2] as int, kv_refs@[4 * j + 3] as int, encode_utf8(tags@[j].1))
            } by {
                if j == i {
                    lemma_stored_at_grow(strings_mid, data.strings(), k_offset as int, k_length as int, encode_utf8(tags@[j].0));
                }
                if j < i {
                    assert(kv_refs@[4 * j] == kv0[4 * j]);
                    assert(kv_refs@[4 * j + 1] == kv0[4 * j + 1]);
                    assert(kv_refs@[4 * j + 2] == kv0[4 * j + 2]);
                    assert(kv_refs@[4 * j + 3] == kv0[4 * j + 3]);
                    lemma_stored_at_grow(strings0, data.strings(), kv0[4 * j] as int, kv0[4 * j + 1] as int, encode_utf8(tags@[j].0));
                    lemma_stored_at_grow(
                        strings0,
                        data.strings(),
                        kv0[4 * j + 2] as int,
                        kv0[4 * j + 3] as int,
                        encode_utf8(tags@[j].1),
                    );
                }
            }
        }
        i = i + 1;
    }
    let ghost strings1 = data.strings();
    let ghost kv = kv_refs@;
    assert(tags@.take(tags@.len() as int) =~= tags@);
    let res = save_refs(out, &kv_refs, data);
    proof {
        if data_size(*old(data)) + tags_cost(tags@) <= u32::MAX {
            assert forall|m: int| 0 <= m < kv.len() implies kv[m] <= u32::MAX by {
                assert(kv[m] <= strings1.len());
            }
        }
        match res {
            Err(SaveError::DoesNotFitIntoU32(v)) => {
                if kv.contains(v) {
                    let m = choose|m: int| 0 <= m < kv.len() && kv[m] == v;
                    assert(kv[m] <= strings1.len());
                }
            },
            _ => {},
        }
        reveal(tags_stored);
        reveal(refs_stored);
        if res is Ok {
            assert forall|j: int| 0 <= j < tags@.len() implies {
                let base = old(data).ints().len() + 4 * j;
                &&& stored_at(
                    data.strings(),
                    data.ints()[base] as int,
                    data.ints()[base + 1] as int,
                    encode_utf8((#[trigger] tags@[j]).0),
                )
                &&& stored_at(data.strings(), data.ints()[base + 2] as int, data.ints()[base + 3] as int, encode_utf8(tags@[j].1))
            } by {
                let base = old(data).ints().len() + 4 * j;
                assert(data.ints()[base] == kv[4 * j]);
                assert(data.ints()[base + 1] == kv[4 * j + 1]);
                assert(data.ints()[base + 2] == kv[4 * j + 2]);
                assert(data.ints()[base + 3] == kv[4 * j + 3]);
            }
        }
    }
    res
}

} // verus!

verus! {

/// Whether `a` is the beginning of `b`.
pub open spec fn is_prefix(a: Seq<u8>, b: Seq<u8>) -> bool {
    a.len() <= b.len() && b.take(a.len() as int) == a
}

pub open spec fn is_prefix_u32(a: Seq<u32>, b: Seq<u32>) -> bool {
    a.len() <= b.len() && b.take(a.len() as int) == a
}

pub proof fn lemma_prefix_trans(a: Seq<u8>, b: Seq<u8>, c: Seq<u8>)
    requires
        is_prefix(a, b),
        is_prefix(b, c),
    ensures
        is_prefix(a, c),
{
    assert(c.take(a.len() as int) =~= b.take(a.len() as int));
}

pub proof fn lemma_prefix_trans_u32(a: Seq<u32>, b: Seq<u32>, c: Seq<u32>)
    requires
        is_prefix_u32(a, b),
        is_prefix_u32(b, c),
    ensures
        is_prefix_u32(a, c),
{
    assert(c.take(a.len() as int) =~= b.take(a.len() as int));
}

/// Whether the node record at `p` of `out` holds `node`.
#[verifier::opaque]
pub open spec fn node_saved(out: Seq<u8>, p: int, ints: Seq<u32>, strings: Seq<u8>, node: RawNode) -> bool {
    &&& 0 <= p
    &&& p + 32 <= out.len()
    &&& spec_u64_le(out, p) == node.global_id
    &&& spec_u64_le(out, p + 8) == node.lat_bits
    &&& spec_u64_le(out, p + 16) == node.lon_bits
    &&& tags_saved(out, p + 24, ints, strings, node.tags@)
}

pub proof fn lemma_node_saved_grow(
    out: Seq<u8>,
    out2: Seq<u8>,
    p: int,
    ints: Seq<u32>,
    strings: Seq<u8>,
    ints2: Seq<u32>,
    strings2: Seq<u8>,
    node: RawNode,
)
    requires
        node_saved(out, p, ints, strings, node),
        is_prefix(out, out2),
        is_prefix_u32(ints, ints2),
        is_prefix(strings, strings2),
    ensures
        node_saved(out2, p, ints2, strings2, node),
{
    reveal(node_saved);
    lemma_reads_in_prefix(out, out2, p);
    lemma_reads_in_prefix(out, out2, p + 8);
    lemma_reads_in_prefix(out, out2, p + 16);
    lemma_tags_saved_grow(out, out2, p + 24, ints, strings, ints2, strings2, node.tags@);
}

/// Reading the two numbers of a reference that was just appended gives them back.
pub proof fn lemma_read_appended_ref(a: Seq<u8>, x: u32, y: u32)
    ensures
        spec_u32_le(a + u32_le_bytes(x) + u32_le_bytes(y), a.len() as int) == x,
        spec_u32_le(a + u32_le_bytes(x) + u32_le_bytes(y), a.len() + 4int) == y,
{
    lemma_u32_le_roundtrip(x, a, u32_le_bytes(y));
    lemma_read_appended_u32(a + u32_le_bytes(x), y);
}

/// Numbers appended one after the other read back in place.
proof fn lemma_read_u64_within(prefix: Seq<u8>, v: u64, whole: Seq<u8>)
    requires
        is_prefix(prefix + u64_le_bytes(v), whole),
    ensures
        spec_u64_le(whole, prefix.len() as int) == v,
{
    lemma_read_appended_u64(prefix, v);
    lemma_reads_in_prefix(prefix + u64_le_bytes(v), whole, prefix.len() as int);
}

/// A node record written field by field reads back as the node.
proof fn lemma_node_record(
    out0: Seq<u8>,
    out1: Seq<u8>,
    out2: Seq<u8>,
    out3: Seq<u8>,
    out: Seq<u8>,
    off: u32,
    ints: Seq<u32>,
    strings: Seq<u8>,
    node: RawNode,
)
    requires
        out1 == out0 + u64_le_bytes(node.global_id),
        out2 == out1 + u64_le_bytes(node.lat_bits),
        out3 == out2 + u64_le_bytes(node.lon_bits),
        out == out3 + u32_le_bytes(off) + u32_le_bytes((4 * node.tags@.len()) as u32),
        tags_stored(ints, strings, off as int, node.tags@),
        4 * node.tags@.len() <= u32::MAX,
    ensures
        node_saved(out, out0.len() as int, ints, strings, node),
        is_prefix(out0, out),
        out.len() == out0.len() + 32,
{
    reveal(node_saved);
    assert(out.take(out1.len() as int) =~= out1);
    assert(out.take(out2.len() as int) =~= out2);
    assert(out.take(out3.len() as int) =~= out3);
    assert(out.take(out0.len() as int) =~= out0);
    lemma_read_u64_within(out0, node.global_id, out);
    lemma_read_u64_within(out1, node.lat_bits, out);
    lemma_read_u64_within(out2, node.lon_bits, out);
    lemma_read_appended_ref(out3, off, (4 * node.tags@.len()) as u32);
}

/// The sum of `f` over the items of `s`.
pub open spec fn seq_cost<T>(s: Seq<T>, f: spec_fn(T) -> nat) -> nat
    decreases s.len(),
{
    if s.len() == 0 {
        0
    } else {
        seq_cost(s.drop_last(), f) + f(s.last())
    }
}

pub proof fn lemma_seq_cost_step<T>(s: Seq<T>, f: spec_fn(T) -> nat, i: int)
    requires
        0 <= i < s.len(),
    ensures
        seq_cost(s.take(i + 1), f) == seq_cost(s.take(i), f) + f(s[i]),
{
    assert(s.take(i + 1).drop_last() =~= s.take(i));
}

pub proof fn lemma_seq_cost_at_least_len<T>(s: Seq<T>, f: spec_fn(T) -> nat)
    requires
        forall|x: T| #[trigger] f(x) >= 1,
    ensures
        seq_cost(s, f) >= s.len(),
    decreases s.len(),
{
    if s.len() > 0 {
        lemma_seq_cost_at_least_len(s.drop_last(), f);
    }
}

pub proof fn lemma_seq_cost_prefix<T>(s: Seq<T>, f: spec_fn(T) -> nat, i: int)
    requires
        0 <= i <= s.len(),
    ensures
        seq_cost(s.take(i), f) <= seq_cost(s, f),
    decreases s.len() - i,
{
    if i < s.len() {
        lemma_seq_cost_prefix(s, f, i + 1);
        lemma_seq_cost_step(s, f, i);
    } else {
        assert(s.take(i) =~= s);
    }
}

/// What saving the nodes may add to the integers and the strings, and their count.
pub open spec fn nodes_cost(nodes: Seq<RawNode>) -> nat {
    seq_cost(nodes, |n: RawNode| 1 + tags_cost(n.tags@))
}

/// Writes the record of one node, whose tags go to `data`.
fn save_node(out: &mut Vec<u8>, node: &RawNode, data: &mut BufferedData) -> (res: Result<(), SaveError>)
    requires
        old(data).wf(),
    ensures
        final(data).wf(),
        res matches Err(SaveError::DoesNotFitIntoU32(v)) ==> v > u32::MAX,
        res matches Err(SaveError::DoesNotFitIntoU32(v)) ==> v <= data_size(*old(data)) + tags_cost(node.tags@),
        data_size(*old(data)) + tags_cost(node.tags@) <= u32::MAX ==> res is Ok,
        res is Ok ==> data_size(*final(data)) <= data_size(*old(data)) + tags_cost(node.tags@),
        res is Ok ==> {
            &&& is_prefix_u32(old(data).ints(), final(data).ints())
            &&& is_prefix(old(data).strings(), final(data).strings())
            &&& is_prefix(old(out)@, final(out)@)
            &&& final(out)@.len() == old(out)@.len() + 32
            &&& node_saved(final(out)@, old(out)@.len() as int, final(data).ints(), final(data).strings(), *node)
        },
{
    let ghost out0 = out@;
    let ghost ints0 = data.ints();
    push_u64_le(out, node.global_id);
    let ghost out1 = out@;
    push_u64_le(out, node.lat_bits);
    let ghost out2 = out@;
    push_u64_le(out, node.lon_bits);
    let ghost out3 = out@;
    match save_tags(out, &node.tags, data) {
        Ok(()) => {},
        Err(e) => return Err(e),
    }
    proof {
        lemma_node_record(out0, out1, out2, out3, out@, ints0.len() as u32, data.ints(), data.strings(), *node);
    }
    Ok(())
}

/// Writes the nodes: their count, then a record for each, whose tags go to `data`.
pub fn save_nodes(out: &mut Vec<u8>, nodes: &Vec<RawNode>, data: &mut BufferedData) -> (res: Result<(), SaveError>)
    requires
        old(data).wf(),
    ensures
        final(data).wf(),
        res matches Err(SaveError::DoesNotFitIntoU32(v)) ==> v > u32::MAX,
        res matches Err(SaveError::DoesNotFitIntoU32(v)) ==> v <= data_size(*old(data)) + nodes_cost(nodes@),
        data_size(*old(data)) + nodes_cost(nodes@) <= u32::MAX ==> res is Ok,
        res is Ok ==> data_size(*final(data)) <= data_size(*old(data)) + nodes_cost(nodes@),
        res is Ok ==> {
            &&& is_prefix_u32(old(data).ints(), final(data).ints())
            &&& is_prefix(old(data).strings(), final(data).strings())
            &&& final(out)@.len() == old(out)@.len() + 4 + 32 * nodes@.len()
            &&& is_prefix(old(out)@, final(out)@)
            &&& spec_u32_le(final(out)@, old(out)@.len() as int) == nodes@.len()
            &&& forall|i: int|
                0 <= i < nodes@.len() ==> node_saved(
                    final(out)@,
                    old(out)@.len() + 4 + 32 * i,
                    final(data).ints(),
                    final(data).strings(),
                    #[trigger] nodes@[i],
                )
        },
{
    let ghost f = |n: RawNode| 1 + tags_cost(n.tags@);
    proof {
        lemma_seq_cost_at_least_len(nodes@, f);
    }
    let count = match to_u32_safe(nodes.len()) {
        Ok(c) => c,
        Err(e) => return Err(e),
    };
    let ghost start = out@.len();
    push_u32_le(out, count);
    proof {
        lemma_read_appended_u32(old(out)@, count);
        assert(out@.take(start as int) =~= old(out)@);
        assert(data.ints().take(data.ints().len() as int) =~= data.ints());
        assert(data.strings().take(data.strings().len() as int) =~= data.strings());
    }
    let mut i: usize = 0;
    while i < nodes.len()
        invariant
            i <= nodes@.len(),
            count == nodes@.len(),
            start == old(out)@.len(),
            out@.len() == start + 4 + 32 * i,
            is_prefix(old(out)@, out@),
            spec_u32_le(out@, start as int) == nodes@.len(),
            data.wf(),
            is_prefix_u32(old(data).ints(), data.ints()),
            is_prefix(old(data).strings(), data.strings()),
            forall|j: int|
                0 <= j < i ==> node_saved(out@, start + 4 + 32 * j, data.ints(), data.strings(), #[trigger] nodes@[j]),
            f == (|n: RawNode| 1 + tags_cost(n.tags@)),
            data_size(*data) <= data_size(*old(data)) + seq_cost(nodes@.take(i as int), f),
        decreases nodes@.len() - i,
    {
        proof {
            lemma_seq_cost_step(nodes@, f, i as int);
            lemma_seq_cost_prefix(nodes@, f, i + 1);
        }
        let ghost out0 = out@;
        let ghost ints0 = data.ints();
        let ghost strings0 = data.strings();
        match save_node(out, &nodes[i], data) {
            Ok(()) => {},
            Err(e) => return Err(e),
        }
        proof {
            lemma_prefix_trans(old(out)@, out0, out@);
            lemma_prefix_trans_u32(old(data).ints(), ints0, data.ints());
            lemma_prefix_trans(old(data).strings(), strings0, data.strings());
            lemma_read_u32_in_prefix(out0, out@, start as int);
            assert forall|j: int| 0 <= j < i + 1 implies node_saved(
                out@,
                start + 4 + 32 * j,
                data.ints(),
                data.strings(),
                #[trigger] nodes@[j],
            ) by {
                if j < i {
                    lemma_node_saved_grow(out0, out@, start + 4 + 32 * j, ints0, strings0, data.ints(), data.strings(), nodes@[j]);
                }
            }
        }
        i = i + 1;
    }
    assert(nodes@.take(nodes@.len() as int) =~= nodes@);
    Ok(())
}

} // verus!

verus! {

/// Whether the record at `p` of `out` holds an id, references and tags (a way or a multipolygon).
#[verifier::opaque]
pub open spec fn record_saved(
    out: Seq<u8>,
    p: int,
    ints: Seq<u32>,
    strings: Seq<u8>,
    id: u64,
    refs: Seq<usize>,
    tags: Seq<(Seq<char>, Seq<char>)>,
) -> bool {
    &&& 0 <= p
    &&& p + 24 <= out.len()
    &&& spec_u64_le(out, p) == id
    &&& refs_saved(out, p + 8, ints, refs)
    &&& tags_saved(out, p + 16, ints, strings, tags)
}

pub proof fn lemma_record_saved_grow(
    out: Seq<u8>,
    out2: Seq<u8>,
    p: int,
    ints: Seq<u32>,
    strings: Seq<u8>,
    ints2: Seq<u32>,
    strings2: Seq<u8>,
    id: u64,
    refs: Seq<usize>,
    tags: Seq<(Seq<char>, Seq<char>)>,
)
    requires
        record_saved(out, p, ints, strings, id, refs, tags),
        is_prefix(out, out2),
        is_prefix_u32(ints, ints2),
        is_prefix(strings, strings2),
    ensures
        record_saved(out2, p, ints2, strings2, id, refs, tags),
{
    reveal(record_saved);
    lemma_reads_in_prefix(out, out2, p);
    lemma_refs_saved_grow(out, out2, p + 8, ints, ints2, refs);
    lemma_tags_saved_grow(out, out2, p + 16, ints, strings, ints2, strings2, tags);
}

/// Writes a record of an id, references and tags (the record of a way or a multipolygon).
fn save_record(out: &mut Vec<u8>, id: u64, refs: &Vec<usize>, tags: &RawTags, data: &mut BufferedData) -> (res: Result<
    (),
    SaveError,
>)
    requires
        old(data).wf(),
    ensures
        final(data).wf(),
        res matches Err(SaveError::DoesNotFitIntoU32(v)) ==> v > u32::MAX,
        res matches Err(SaveError::DoesNotFitIntoU32(v)) ==> v <= data_size(*old(data)) + refs@.len() + tags_cost(tags@)
            || refs@.contains(v),
        data_size(*old(data)) + refs@.len() + tags_cost(tags@) <= u32::MAX && refs_fit(refs@) ==> res is Ok,
        res is Ok ==> data_size(*final(data)) <= data_size(*old(data)) + refs@.len() + tags_cost(tags@),
        res is Ok ==> {
            &&& is_prefix_u32(old(data).ints(), final(data).ints())
            &&& is_prefix(old(data).strings(), final(data).strings())
            &&& is_prefix(old(out)@, final(out)@)
            &&& final(out)@.len() == old(out)@.len() + 24
            &&& record_saved(
                final(out)@,
                old(out)@.len() as int,
                final(data).ints(),
                final(data).strings(),
                id,
                refs@,
                tags@,
            )
        },
{
    let ghost out0 = out@;
    push_u64_le(out, id);
    let ghost out1 = out@;
    let ghost ints1 = data.ints();
    match save_refs(out, refs, data) {
        Ok(()) => {},
        Err(e) => return Err(e),
    }
    let ghost out2 = out@;
    let ghost ints2 = data.ints();
    let ghost strings2 = data.strings();
    match save_tags(out, tags, data) {
        Ok(()) => {},
        Err(e) => return Err(e),
    }
    proof {
        reveal(record_saved);
        assert(out@.take(out1.len() as int) =~= out1);
        assert(out@.take(out2.len() as int) =~= out2);
        assert(out@.take(out0.len() as int) =~= out0);
        assert(ints2.take(ints1.len() as int) =~= ints1);
        assert(ints2.take(ints2.len() as int) =~= ints2);
        assert(strings2.take(strings2.len() as int) =~= strings2);
        lemma_read_u64_within(out0, id, out@);
        lemma_read_appended_ref(out1, ints1.len() as u32, refs@.len() as u32);
        assert(refs_saved(out2, out1.len() as int, ints2, refs@));
        lemma_refs_saved_grow(out2, out@, out1.len() as int, ints2, data.ints(), refs@);
        lemma_read_appended_ref(out2, ints2.len() as u32, (4 * tags@.len()) as u32);
        lemma_prefix_trans_u32(old(data).ints(), ints2, data.ints());
    }
    Ok(())
}

/// Whether the polygon record at `p` of `out` holds `polygon`.
/// Whether every reference fits in 32 bits.
pub open spec fn refs_fit(refs: Seq<usize>) -> bool {
    forall|j: int| 0 <= j < refs.len() ==> #[trigger] refs[j] <= u32::MAX
}

pub open spec fn polygon_saved(out: Seq<u8>, p: int, ints: Seq<u32>, polygon: Seq<usize>) -> bool {
    0 <= p && refs_saved(out, p, ints, polygon)
}

} // verus!

verus! {

pub open spec fn way_saved(out: Seq<u8>, p: int, ints: Seq<u32>, strings: Seq<u8>, way: RawWay) -> bool {
    record_saved(out, p, ints, strings, way.global_id, way.node_ids@, way.tags@)
}

pub open spec fn multipolygon_saved(out: Seq<u8>, p: int, ints: Seq<u32>, strings: Seq<u8>, m: Multipolygon) -> bool {
    record_saved(out, p, ints, strings, m.global_id, m.polygon_ids@, m.tags@)
}

pub open spec fn polygon_record_saved(out: Seq<u8>, p: int, ints: Seq<u32>, strings: Seq<u8>, polygon: Polygon) -> bool {
    polygon_saved(out, p, ints, polygon@)
}

/// Writes the references of one polygon.
fn save_polygon(out: &mut Vec<u8>, polygon: &Polygon, data: &mut BufferedData) -> (res: Result<(), SaveError>)
    requires
        old(data).wf(),
    ensures
        final(data).wf(),
        res matches Err(SaveError::DoesNotFitIntoU32(v)) ==> v > u32::MAX,
        res matches Err(SaveError::DoesNotFitIntoU32(v)) ==> v <= data_size(*old(data)) + polygon@.len()
            || polygon@.contains(v),
        data_size(*old(data)) + polygon@.len() <= u32::MAX && refs_fit(polygon@) ==> res is Ok,
        res is Ok ==> data_size(*final(data)) <= data_size(*old(data)) + polygon@.len(),
        res is Ok ==> {
            &&& is_prefix_u32(old(data).ints(), final(data).ints())
            &&& is_prefix(old(data).strings(), final(data).strings())
            &&& is_prefix(old(out)@, final(out)@)
            &&& final(out)@.len() == old(out)@.len() + 8
            &&& polygon_saved(final(out)@, old(out)@.len() as int, final(data).ints(), polygon@)
        },
{
    let ghost out0 = out@;
    let ghost ints0 = data.ints();
    let res = save_refs(out, polygon, data);
    proof {
        if res is Ok {
            lemma_read_appended_ref(out0, ints0.len() as u32, polygon@.len() as u32);
            assert(out@.take(out0.len() as int) =~= out0);
            assert(data.strings().take(data.strings().len() as int) =~= data.strings());
        }
    }
    res
}

} // verus!

verus! {

/// What saving the ways may add to the integers and the strings, and their count.
pub open spec fn ways_cost(items: Seq<RawWay>) -> nat {
    seq_cost(items, |w: RawWay| 1 + w.node_ids@.len() + tags_cost(w.tags@))
}

/// What saving the multipolygons may add to the integers and the strings, and their count.
pub open spec fn multipolygons_cost(items: Seq<Multipolygon>) -> nat {
    seq_cost(items, |m: Multipolygon| 1 + m.polygon_ids@.len() + tags_cost(m.tags@))
}

/// What saving the polygons may add to the integers, and their count.
pub open spec fn polygons_cost(items: Seq<Polygon>) -> nat {
    seq_cost(items, |p: Polygon| 1 + p@.len())
}

/// Whether `v` is one of the references of some item.
pub open spec fn some_ref<T>(items: Seq<T>, refs_of: spec_fn(T) -> Seq<usize>, v: usize) -> bool {
    exists|i: int| 0 <= i < items.len() && #[trigger] refs_of(items[i]).contains(v)
}

/// Whether every reference of every item fits in 32 bits.
pub open spec fn all_refs_fit<T>(items: Seq<T>, refs_of: spec_fn(T) -> Seq<usize>) -> bool {
    forall|i: int| 0 <= i < items.len() ==> refs_fit(#[trigger] refs_of(items[i]))
}

/// Writes the ways: their count, then a record for each.
pub fn save_ways(out: &mut Vec<u8>, items: &Vec<RawWay>, data: &mut BufferedData) -> (res: Result<(), SaveError>)
    requires
        old(data).wf(),
    ensures
        final(data).wf(),
        res matches Err(SaveError::DoesNotFitIntoU32(v)) ==> v > u32::MAX,
        res matches Err(SaveError::DoesNotFitIntoU32(v)) ==> v <= data_size(*old(data)) + ways_cost(items@) || some_ref(
            items@,
            |w: RawWay| w.node_ids@,
            v,
        ),
        data_size(*old(data)) + ways_cost(items@) <= u32::MAX && all_refs_fit(items@, |w: RawWay| w.node_ids@) ==> res is Ok,
        res is Ok ==> data_size(*final(data)) <= data_size(*old(data)) + ways_cost(items@),
        res is Ok ==> {
            &&& is_prefix_u32(old(data).ints(), final(data).ints())
            &&& is_prefix(old(data).strings(), final(data).strings())
            &&& is_prefix(old(out)@, final(out)@)
            &&& final(out)@.len() == old(out)@.len() + 4 + 24 * items@.len()
            &&& spec_u32_le(final(out)@, old(out)@.len() as int) == items@.len()
            &&& forall|i: int|
                0 <= i < items@.len() ==> way_saved(
                    final(out)@,
                    old(out)@.len() + 4 + 24 * i,
                    final(data).ints(),
                    final(data).strings(),
                    #[trigger] items@[i],
                )
        },
{
    let ghost f = |w: RawWay| 1 + w.node_ids@.len() + tags_cost(w.tags@);
    let ghost g = |w: RawWay| w.node_ids@;
    proof {
        lemma_seq_cost_at_least_len(items@, f);
    }
    let count = match to_u32_safe(items.len()) {
        Ok(c) => c,
        Err(e) => return Err(e),
    };
    let ghost start = out@.len();
    push_u32_le(out, count);
    proof {
        lemma_read_appended_u32(old(out)@, count);
        assert(out@.take(start as int) =~= old(out)@);
        assert(data.ints().take(data.ints().len() as int) =~= data.ints());
        assert(data.strings().take(data.strings().len() as int) =~= data.strings());
    }
    let mut i: usize = 0;
    while i < items.len()
        invariant
            i <= items@.len(),
            count == items@.len(),
            start == old(out)@.len(),
            out@.len() == start + 4 + 24 * i,
            is_prefix(old(out)@, out@),
            spec_u32_le(out@, start as int) == items@.len(),
            data.wf(),
            is_prefix_u32(old(data).ints(), data.ints()),
            is_prefix(old(data).strings(), data.strings()),
            forall|j: int|
                0 <= j < i ==> way_saved(out@, start + 4 + 24 * j, data.ints(), data.strings(), #[trigger] items@[j]),
            f == (|w: RawWay| 1 + w.node_ids@.len() + tags_cost(w.tags@)),
            g == (|w: RawWay| w.node_ids@),
            data_size(*data) <= data_size(*old(data)) + seq_cost(items@.take(i as int), f),
        decreases items@.len() - i,
    {
        proof {
            lemma_seq_cost_step(items@, f, i as int);
            lemma_seq_cost_prefix(items@, f, i + 1);
            assert(g(items@[i as int]) == items@[i as int].node_ids@);
        }
        let ghost out0 = out@;
        let ghost ints0 = data.ints();
        let ghost strings0 = data.strings();
        let item = &items[i];
        match save_record(out, item.global_id, &item.node_ids, &item.tags, data) {
            Ok(()) => {},
            Err(e) => {
                proof {
                    assert(g(items@[i as int]) == g(items@[i as int]));
                }
                return Err(e);
            },
        }
        proof {
            lemma_prefix_trans(old(out)@, out0, out@);
            lemma_prefix_trans_u32(old(data).ints(), ints0, data.ints());
            lemma_prefix_trans(old(data).strings(), strings0, data.strings());
            lemma_read_u32_in_prefix(out0, out@, start as int);
            assert forall|j: int| 0 <= j < i + 1 implies way_saved(
                out@,
                start + 4 + 24 * j,
                data.ints(),
                data.strings(),
                #[trigger] items@[j],
            ) by {
                if j < i {
                    lemma_record_saved_grow(out0, out@, start + 4 + 24 * j, ints0, strings0, data.ints(), data.strings(), items@[j].global_id, items@[j].node_ids@, items@[j].tags@);
                }
            }
        }
        i = i + 1;
    }
    assert(items@.take(items@.len() as int) =~= items@);
    Ok(())
}

} // verus!

verus! {

/// Writes the multipolygons: their count, then a record for each.
pub fn save_multipolygons(out: &mut Vec<u8>, items: &Vec<Multipolygon>, data: &mut BufferedData) -> (res: Result<(), SaveError>)
    requires
        old(data).wf(),
    ensures
        final(data).wf(),
        res matches Err(SaveError::DoesNotFitIntoU32(v)) ==> v > u32::MAX,
        res matches Err(SaveError::DoesNotFitIntoU32(v)) ==> v <= data_size(*old(data)) + multipolygons_cost(items@) || some_ref(
            items@,
            |m: Multipolygon| m.polygon_ids@,
            v,
        ),
        data_size(*old(data)) + multipolygons_cost(items@) <= u32::MAX && all_refs_fit(items@, |m: Multipolygon| m.polygon_ids@) ==> res is Ok,
        res is Ok ==> data_size(*final(data)) <= data_size(*old(data)) + multipolygons_cost(items@),
        res is Ok ==> {
            &&& is_prefix_u32(old(data).ints(), final(data).ints())
            &&& is_prefix(old(data).strings(), final(data).strings())
            &&& is_prefix(old(out)@, final(out)@)
            &&& final(out)@.len() == old(out)@.len() + 4 + 24 * items@.len()
            &&& spec_u32_le(final(out)@, old(out)@.len() as int) == items@.len()
            &&& forall|i: int|
                0 <= i < items@.len() ==> multipolygon_saved(
                    final(out)@,
                    old(out)@.len() + 4 + 24 * i,
                    final(data).ints(),
                    final(data).strings(),
                    #[trigger] items@[i],
                )
        },
{
    let ghost f = |m: Multipolygon| 1 + m.polygon_ids@.len() + tags_cost(m.tags@);
    let ghost g = |m: Multipolygon| m.polygon_ids@;
    proof {
        lemma_seq_cost_at_least_len(items@, f);
    }
    let count = match to_u32_safe(items.len()) {
        Ok(c) => c,
        Err(e) => return Err(e),
    };
    let ghost start = out@.len();
    push_u32_le(out, count);
    proof {
        lemma_read_appended_u32(old(out)@, count);
        assert(out@.take(start as int) =~= old(out)@);
        assert(data.ints().take(data.ints().len() as int) =~= data.ints());
        assert(data.strings().take(data.strings().len() as int) =~= data.strings());
    }
    let mut i: usize = 0;
    while i < items.len()
        invariant
            i <= items@.len(),
            count == items@.len(),
            start == old(out)@.len(),
            out@.len() == start + 4 + 24 * i,
            is_prefix(old(out)@, out@),
            spec_u32_le(out@, start as int) == items@.len(),
            data.wf(),
            is_prefix_u32(old(data).ints(), data.ints()),
            is_prefix(old(data).strings(), data.strings()),
            forall|j: int|
                0 <= j < i ==> multipolygon_saved(out@, start + 4 + 24 * j, data.ints(), data.strings(), #[trigger] items@[j]),
            f == (|m: Multipolygon| 1 + m.polygon_ids@.len() + tags_cost(m.tags@)),
            g == (|m: Multipolygon| m.polygon_ids@),
            data_size(*data) <= data_size(*old(data)) + seq_cost(items@.take(i as int), f),
        decreases items@.len() - i,
    {
        proof {
            lemma_seq_cost_step(items@, f, i as int);
            lemma_seq_cost_prefix(items@, f, i + 1);
            assert(g(items@[i as int]) == items@[i as int].polygon_ids@);
        }
        let ghost out0 = out@;
        let ghost ints0 = data.ints();
        let ghost strings0 = data.strings();
        let item = &items[i];
        match save_record(out, item.global_id, &item.polygon_ids, &item.tags, data) {
            Ok(()) => {},
            Err(e) => {
                proof {
                    assert(g(items@[i as int]) == g(items@[i as int]));
                }
                return Err(e);
            },
        }
        proof {
            lemma_prefix_trans(old(out)@, out0, out@);
            lemma_prefix_trans_u32(old(data).ints(), ints0, data.ints());
            lemma_prefix_trans(old(data).strings(), strings0, data.strings());
            lemma_read_u32_in_prefix(out0, out@, start as int);
            assert forall|j: int| 0 <= j < i + 1 implies multipolygon_saved(
                out@,
                start + 4 + 24 * j,
                data.ints(),
                data.strings(),
                #[trigger] items@[j],
            ) by {
                if j < i {
                    lemma_record_saved_grow(out0, out@, start + 4 + 24 * j, ints0, strings0, data.ints(), data.strings(), items@[j].global_id, items@[j].polygon_ids@, items@[j].tags@);
                }
            }
        }
        i = i + 1;
    }
    assert(items@.take(items@.len() as int) =~= items@);
    Ok(())
}

} // verus!

verus! {

/// Writes the polygons: their count, then the references of each.
pub fn save_polygons(out: &mut Vec<u8>, items: &Vec<Polygon>, data: &mut BufferedData) -> (res: Result<(), SaveError>)
    requires
        old(data).wf(),
    ensures
        final(data).wf(),
        res matches Err(SaveError::DoesNotFitIntoU32(v)) ==> v > u32::MAX,
        res matches Err(SaveError::DoesNotFitIntoU32(v)) ==> v <= data_size(*old(data)) + polygons_cost(items@) || some_ref(
            items@,
            |p: Polygon| p@,
            v,
        ),
        data_size(*old(data)) + polygons_cost(items@) <= u32::MAX && all_refs_fit(items@, |p: Polygon| p@) ==> res is Ok,
        res is Ok ==> data_size(*final(data)) <= data_size(*old(data)) + polygons_cost(items@),
        res is Ok ==> {
            &&& is_prefix_u32(old(data).ints(), final(data).ints())
            &&& is_prefix(old(data).strings(), final(data).strings())
            &&& is_prefix(old(out)@, final(out)@)
            &&& final(out)@.len() == old(out)@.len() + 4 + 8 * items@.len()
            &&& spec_u32_le(final(out)@, old(out)@.len() as int) == items@.len()
            &&& forall|i: int|
                0 <= i < items@.len() ==> polygon_record_saved(
                    final(out)@,
                    old(out)@.len() + 4 + 8 * i,
                    final(data).ints(),
                    final(data).strings(),
                    #[trigger] items@[i],
                )
        },
{
    let ghost f = |p: Polygon| 1 + p@.len();
    let ghost g = |p: Polygon| p@;
    proof {
        lemma_seq_cost_at_least_len(items@, f);
    }
    let count = match to_u32_safe(items.len()) {
        Ok(c) => c,
        Err(e) => return Err(e),
    };
    let ghost start = out@.len();
    push_u32_le(out, count);
    proof {
        lemma_read_appended_u32(old(out)@, count);
        assert(out@.take(start as int) =~= old(out)@);
        assert(data.ints().take(data.ints().len() as int) =~= data.ints());
        assert(data.strings().take(data.strings().len() as int) =~= data.strings());
    }
    let mut i: usize = 0;
    while i < items.len()
        invariant
            i <= items@.len(),
            count == items@.len(),
            start == old(out)@.len(),
            out@.len() == start + 4 + 8 * i,
            is_prefix(old(out)@, out@),
            spec_u32_le(out@, start as int) == items@.len(),
            data.wf(),
            is_prefix_u32(old(data).ints(), data.ints()),
            is_prefix(old(data).strings(), data.strings()),
            forall|j: int|
                0 <= j < i ==> polygon_record_saved(out@, start + 4 + 8 * j, data.ints(), data.strings(), #[trigger] items@[j]),
            f == (|p: Polygon| 1 + p@.len()),
            g == (|p: Polygon| p@),
            data_size(*data) <= data_size(*old(data)) + seq_cost(items@.take(i as int), f),
        decreases items@.len() - i,
    {
        proof {
            lemma_seq_cost_step(items@, f, i as int);
            lemma_seq_cost_prefix(items@, f, i + 1);
            assert(g(items@[i as int]) == items@[i as int]@);
        }
        let ghost out0 = out@;
        let ghost ints0 = data.ints();
        let ghost strings0 = data.strings();
        let item = &items[i];
        match save_polygon(out, item, data) {
            Ok(()) => {},
            Err(e) => {
                proof {
                    assert(g(items@[i as int]) == g(items@[i as int]));
                }
                return Err(e);
            },
        }
        proof {
            lemma_prefix_trans(old(out)@, out0, out@);
            lemma_prefix_trans_u32(old(data).ints(), ints0, data.ints());
            lemma_prefix_trans(old(data).strings(), strings0, data.strings());
            lemma_read_u32_in_prefix(out0, out@, start as int);
            assert forall|j: int| 0 <= j < i + 1 implies polygon_record_saved(
                out@,
                start + 4 + 8 * j,
                data.ints(),
                data.strings(),
                #[trigger] items@[j],
            ) by {
                if j < i {
                    lemma_refs_saved_grow(out0, out@, start + 4 + 8 * j, ints0, data.ints(), items@[j]@);
                }
            }
        }
        i = i + 1;
    }
    assert(items@.take(items@.len() as int) =~= items@);
    Ok(())
}

} // verus!

verus! {

/// Whether the integers from `off` on hold `vals`.
#[verifier::opaque]
pub open spec fn vals_stored(ints: Seq<u32>, off: int, vals: Seq<u32>) -> bool {
    &&& 0 <= off
    &&& off + vals.len() <= ints.len()
    &&& forall|j: int| 0 <= j < vals.len() ==> ints[off + j] == #[trigger] vals[j]
}

pub proof fn lemma_vals_stored_grow(ints: Seq<u32>, ints2: Seq<u32>, off: int, vals: Seq<u32>)
    requires
        vals_stored(ints, off, vals),
        is_prefix_u32(ints, ints2),
    ensures
        vals_stored(ints2, off, vals),
{
    reveal(vals_stored);
    assert forall|j: int| 0 <= j < vals.len() implies ints2[off + j] == #[trigger] vals[j] by {
        assert(ints2.take(ints.len() as int)[off + j] == ints2[off + j]);
    }
}

/// The tile of a reference.
pub open spec fn xy_of(r: TileRef) -> (u32, u32) {
    (r.0, r.1)
}

/// Whether the refs are sorted (strictly), with kinds below 3.
pub open spec fn refs_sorted(refs: Seq<TileRef>) -> bool {
    &&& forall|i: int, j: int| 0 <= i < j < refs.len() ==> ref_lt(#[trigger] refs[i], #[trigger] refs[j])
    &&& forall|i: int| 0 <= i < refs.len() ==> (#[trigger] refs[i]).2 < 3
}

/// Whether the values are increasing and are exactly the ids that `refs` has for the tile
/// `xy` and the kind `t`.
pub open spec fn ids_of_kind(vals: Seq<u32>, xy: (u32, u32), refs: Seq<TileRef>, t: u8) -> bool {
    &&& forall|a: int, b: int| 0 <= a < b < vals.len() ==> vals[a] < vals[b]
    &&& forall|e: u32| vals.contains(e) <==> refs.contains((xy.0, xy.1, t, e))
}

/// Whether the reference at `q` of `out` designates integers that hold the ids of the tile `xy`
/// and the kind `t`.
pub open spec fn kind_saved(out: Seq<u8>, q: int, ints: Seq<u32>, xy: (u32, u32), refs: Seq<TileRef>, t: u8) -> bool {
    exists|vals: Seq<u32>|
        #[trigger] vals_stored(ints, spec_u32_le(out, q) as int, vals) && spec_u32_le(out, q + 4) == vals.len()
            && ids_of_kind(vals, xy, refs, t)
}

/// Whether the tile record at `p` of `out` holds the tile `xy` and, for each kind, a reference
/// to the ids that `refs` has for that tile and kind.
#[verifier::opaque]
pub open spec fn tile_saved(out: Seq<u8>, p: int, ints: Seq<u32>, xy: (u32, u32), refs: Seq<TileRef>) -> bool {
    &&& 0 <= p
    &&& p + 32 <= out.len()
    &&& spec_u32_le(out, p) == xy.0
    &&& spec_u32_le(out, p + 4) == xy.1
    &&& kind_saved(out, p + 8, ints, xy, refs, 0)
    &&& kind_saved(out, p + 16, ints, xy, refs, 1)
    &&& kind_saved(out, p + 24, ints, xy, refs, 2)
}

} // verus!

verus! {

/// The ids of some references.
pub open spec fn ids_of(refs: Seq<TileRef>) -> Seq<u32> {
    refs.map_values(|r: TileRef| r.3)
}

/// Writes the run of references of tile `xy` and kind `t` that starts at `j`: their ids go to
/// the integers, and their offset and count to `out`. Returns where the run ends.
fn save_kind_run(out: &mut Vec<u8>, refs: &Vec<TileRef>, j: usize, x: u32, y: u32, t: u8, data: &mut BufferedData) -> (res:
    Result<usize, SaveError>)
    requires
        old(data).wf(),
        j <= refs@.len(),
        refs_sorted(refs@),
    ensures
        final(data).wf(),
        res matches Err(SaveError::DoesNotFitIntoU32(v)) ==> v > u32::MAX,
        res matches Err(SaveError::DoesNotFitIntoU32(v)) ==> v <= old(data).ints().len() + (refs@.len() - j),
        old(data).ints().len() + (refs@.len() - j) <= u32::MAX ==> res is Ok,
        res matches Ok(k) ==> final(data).ints() == old(data).ints() + ids_of(refs@.subrange(j as int, k as int)),
        res matches Ok(k) ==> {
            &&& j <= k <= refs@.len()
            &&& forall|m: int| j <= m < k ==> (#[trigger] refs@[m]).0 == x && refs@[m].1 == y && refs@[m].2 == t
            &&& k < refs@.len() ==> !(refs@[k as int].0 == x && refs@[k as int].1 == y && refs@[k as int].2 == t)
            &&& is_prefix_u32(old(data).ints(), final(data).ints())
            &&& final(data).strings() == old(data).strings()
            &&& vals_stored(final(data).ints(), old(data).ints().len() as int, ids_of(refs@.subrange(j as int, k as int)))
            &&& final(out)@ == old(out)@ + u32_le_bytes(old(data).ints().len() as u32) + u32_le_bytes((k - j) as u32)
            &&& old(data).ints().len() <= u32::MAX
            &&& k - j <= u32::MAX
        },
{
    let offset = data.all_ints.len();
    let mut k = j;
    while k < refs.len() && refs[k].0 == x && refs[k].1 == y && refs[k].2 == t
        invariant
            j <= k <= refs@.len(),
            data.wf(),
            data.all_strings@ == old(data).all_strings@,
            data.string_to_offset@ == old(data).string_to_offset@,
            offset == old(data).all_ints@.len(),
            data.all_ints@ == old(data).all_ints@ + ids_of(refs@.subrange(j as int, k as int)),
            forall|m: int| j <= m < k ==> (#[trigger] refs@[m]).0 == x && refs@[m].1 == y && refs@[m].2 == t,
        decreases refs@.len() - k,
    {
        data.all_ints.push(refs[k].3);
        k = k + 1;
        assert(ids_of(refs@.subrange(j as int, k as int)) =~= ids_of(refs@.subrange(j as int, k - 1)).push(
            refs@[k - 1].3,
        ));
    }
    let off32 = match to_u32_safe(offset) {
        Ok(v) => v,
        Err(e) => return Err(e),
    };
    let count32 = match to_u32_safe(k - j) {
        Ok(v) => v,
        Err(e) => return Err(e),
    };
    push_u32_le(out, off32);
    push_u32_le(out, count32);
    proof {
        reveal(vals_stored);
        assert(data.all_ints@.take(offset as int) =~= old(data).all_ints@);
    }
    Ok(k)
}

} // verus!

verus! {

/// A run of one kind within a tile's group holds exactly the ids of that kind, increasing.
proof fn lemma_run_ids(refs: Seq<TileRef>, i: int, next: int, a: int, b: int, x: u32, y: u32, t: u8)
    requires
        refs_sorted(refs),
        0 <= i <= a <= b <= next <= refs.len(),
        forall|m: int| i <= m < next ==> (#[trigger] refs[m]).0 == x && refs[m].1 == y,
        forall|m: int| a <= m < b ==> (#[trigger] refs[m]).2 == t,
        forall|m: int| i <= m < a ==> (#[trigger] refs[m]).2 < t,
        forall|m: int| b <= m < next ==> (#[trigger] refs[m]).2 > t,
    ensures
        ids_of_kind(ids_of(refs.subrange(a, b)), (x, y), refs.subrange(i, next), t),
{
    let vals = ids_of(refs.subrange(a, b));
    let group = refs.subrange(i, next);
    assert forall|p: int, q: int| 0 <= p < q < vals.len() implies vals[p] < vals[q] by {
        assert(ref_lt(refs[a + p], refs[a + q]));
    }
    assert forall|e: u32| vals.contains(e) <==> group.contains((x, y, t, e)) by {
        if vals.contains(e) {
            let p = choose|p: int| 0 <= p < vals.len() && vals[p] == e;
            assert(refs[a + p] == (x, y, t, e));
            assert(group[a + p - i] == (x, y, t, e));
        }
        if group.contains((x, y, t, e)) {
            let p = choose|p: int| 0 <= p < group.len() && group[p] == (x, y, t, e);
            assert(refs[i + p] == (x, y, t, e));
            assert(vals[i + p - a] == e);
        }
    }
}

/// Whether the three (offset, count) pairs of the tile record at `p` run on from one another:
/// the first offset is `first`, each next offset is the previous offset plus its count, and the
/// last offset plus its count is `end`.
pub open spec fn run_offsets(out: Seq<u8>, p: int, first: int, end: int) -> bool {
    &&& spec_u32_le(out, p + 8) == first
    &&& spec_u32_le(out, p + 16) == spec_u32_le(out, p + 8) + spec_u32_le(out, p + 12)
    &&& spec_u32_le(out, p + 24) == spec_u32_le(out, p + 16) + spec_u32_le(out, p + 20)
    &&& spec_u32_le(out, p + 24) + spec_u32_le(out, p + 28) == end
}

pub proof fn lemma_run_offsets_grow(out: Seq<u8>, out2: Seq<u8>, p: int, first: int, end: int)
    requires
        0 <= p,
        p + 32 <= out.len(),
        is_prefix(out, out2),
        run_offsets(out, p, first, end),
    ensures
        run_offsets(out2, p, first, end),
{
    lemma_read_u32_in_prefix(out, out2, p + 8);
    lemma_read_u32_in_prefix(out, out2, p + 12);
    lemma_read_u32_in_prefix(out, out2, p + 16);
    lemma_read_u32_in_prefix(out, out2, p + 20);
    lemma_read_u32_in_prefix(out, out2, p + 24);
    lemma_read_u32_in_prefix(out, out2, p + 28);
}

/// Whether the offsets of the `k` tile records written from `start` run on from `base`: the
/// record of tile `a` starts at `base + starts[a]` and ends where the next one starts (the last
/// at `base + i`).
pub open spec fn offsets_written(out: Seq<u8>, start: int, base: int, i: int, k: int, starts: Seq<int>) -> bool {
    forall|a: int| 0 <= a < k ==> #[trigger] offsets_at(out, start, base, i, k, starts, a)
}

/// The offsets of tile record `a` (see `offsets_written`).
pub open spec fn offsets_at(out: Seq<u8>, start: int, base: int, i: int, k: int, starts: Seq<int>, a: int) -> bool {
    run_offsets(
        out,
        start + 4 + 32 * a,
        base + starts[a],
        base + if a + 1 < k {
            starts[a + 1]
        } else {
            i
        },
    )
}

/// Writes the record of the tile of `refs[i]`: its column and row, then the runs of its
/// nodes, ways and multipolygons. Returns where the tile's references end.
#[verifier::rlimit(100)]
#[verifier::spinoff_prover]
fn save_tile_group(out: &mut Vec<u8>, refs: &Vec<TileRef>, i: usize, data: &mut BufferedData) -> (res: Result<
    usize,
    SaveError,
>)
    requires
        old(data).wf(),
        i < refs@.len(),
        refs_sorted(refs@),
    ensures
        final(data).wf(),
        res matches Err(SaveError::DoesNotFitIntoU32(v)) ==> v > u32::MAX,
        res matches Err(SaveError::DoesNotFitIntoU32(v)) ==> v <= old(data).ints().len() + (refs@.len() - i),
        old(data).ints().len() + (refs@.len() - i) <= u32::MAX ==> res is Ok,
        res matches Ok(next) ==> final(data).ints() == old(data).ints() + ids_of(refs@.subrange(i as int, next as int)),
        res matches Ok(next) ==> run_offsets(
            final(out)@,
            old(out)@.len() as int,
            old(data).ints().len() as int,
            old(data).ints().len() + (next - i),
        ),
        res matches Ok(next) ==> {
            &&& i < next <= refs@.len()
            &&& forall|m: int| i <= m < next ==> xy_of(#[trigger] refs@[m]) == xy_of(refs@[i as int])
            &&& next < refs@.len() ==> xy_of(refs@[next as int]) != xy_of(refs@[i as int])
            &&& is_prefix_u32(old(data).ints(), final(data).ints())
            &&& final(data).strings() == old(data).strings()
            &&& is_prefix(old(out)@, final(out)@)
            &&& final(out)@.len() == old(out)@.len() + 32
            &&& tile_saved(
                final(out)@,
                old(out)@.len() as int,
                final(data).ints(),
                xy_of(refs@[i as int]),
                refs@.subrange(i as int, next as int),
            )
        },
{
    let x = refs[i].0;
    let y = refs[i].1;
    let ghost r = refs@;
    let ghost out0 = out@;
    push_u32_le(out, x);
    let ghost out1 = out@;
    push_u32_le(out, y);
    let ghost out2 = out@;
    let ghost ints0 = data.ints();
    let j1 = match save_kind_run(out, refs, i, x, y, 0, data) {
        Ok(k) => k,
        Err(e) => return Err(e),
    };
    let ghost out3 = out@;
    let ghost ints1 = data.ints();
    let j2 = match save_kind_run(out, refs, j1, x, y, 1, data) {
        Ok(k) => k,
        Err(e) => return Err(e),
    };
    let ghost out4 = out@;
    let ghost ints2 = data.ints();
    let j3 = match save_kind_run(out, refs, j2, x, y, 2, data) {
        Ok(k) => k,
        Err(e) => return Err(e),
    };
    proof {
        // The kinds of the tile's references rise along the runs.
        assert(j1 < r.len() && r[j1 as int].0 == x && r[j1 as int].1 == y ==> r[j1 as int].2 > 0) by {
            if j1 < r.len() && r[j1 as int].0 == x && r[j1 as int].1 == y {
                if j1 > i {
                    assert(ref_lt(r[j1 - 1], r[j1 as int]));
                } else {
                    assert(r[j1 as int] == r[i as int]);
                }
            }
        }
        assert(j2 < r.len() && r[j2 as int].0 == x && r[j2 as int].1 == y ==> r[j2 as int].2 > 1) by {
            if j2 < r.len() && r[j2 as int].0 == x && r[j2 as int].1 == y {
                if j2 > j1 {
                    assert(ref_lt(r[j2 - 1], r[j2 as int]));
                } else if j1 > i {
                    assert(ref_lt(r[j1 - 1], r[j1 as int]));
                }
            }
        }
        assert(j3 < r.len() ==> !(r[j3 as int].0 == x && r[j3 as int].1 == y)) by {
            if j3 < r.len() && r[j3 as int].0 == x && r[j3 as int].1 == y {
                if j3 > j2 {
                    assert(ref_lt(r[j3 - 1], r[j3 as int]));
                } else if j2 > j1 {
                    assert(ref_lt(r[j2 - 1], r[j2 as int]));
                } else if j1 > i {
                    assert(ref_lt(r[j1 - 1], r[j1 as int]));
                }
            }
        }
        assert(j3 > i) by {
            if j1 == i {
                assert(r[i as int].2 > 0);
                if j2 == j1 {
                    assert(r[i as int].2 > 1);
                }
            }
        }
        // Within the tile, the runs hold the kinds 0, 1 and 2 in turn.
        assert forall|m: int| j1 <= m < j3 implies (#[trigger] r[m]).2 > 0 by {
            if m >= j2 {
                assert(r[m].2 == 1 || r[m].2 == 2);
            }
        }
        assert forall|m: int| j2 <= m < j3 implies (#[trigger] r[m]).2 > 1 by {
        }
        assert forall|m: int| i <= m < j3 implies (#[trigger] r[m]).0 == x && r[m].1 == y by {
        }
        lemma_run_ids(r, i as int, j3 as int, i as int, j1 as int, x, y, 0);
        lemma_run_ids(r, i as int, j3 as int, j1 as int, j2 as int, x, y, 1);
        lemma_run_ids(r, i as int, j3 as int, j2 as int, j3 as int, x, y, 2);
        assert(ids_of(r.subrange(i as int, j3 as int)) =~= ids_of(r.subrange(i as int, j1 as int)) + ids_of(
            r.subrange(j1 as int, j2 as int),
        ) + ids_of(r.subrange(j2 as int, j3 as int)));
        // The record reads back.
        let p = out0.len() as int;
        reveal(tile_saved);
        lemma_read_appended_u32(out0, x);
        lemma_read_appended_u32(out1, y);
        assert(out@.take(out1.len() as int) =~= out1);
        assert(out@.take(out2.len() as int) =~= out2);
        assert(out@.take(out3.len() as int) =~= out3);
        assert(out@.take(out4.len() as int) =~= out4);
        assert(out@.take(out0.len() as int) =~= out0);
        lemma_read_u32_in_prefix(out1, out@, p);
        lemma_read_u32_in_prefix(out2, out@, p + 4);
        lemma_read_appended_ref(out2, ints0.len() as u32, (j1 - i) as u32);
        lemma_read_appended_ref(out3, ints1.len() as u32, (j2 - j1) as u32);
        lemma_read_appended_ref(out4, ints2.len() as u32, (j3 - j2) as u32);
        lemma_read_u32_in_prefix(out3, out@, p + 8);
        lemma_read_u32_in_prefix(out3, out@, p + 12);
        lemma_read_u32_in_prefix(out4, out@, p + 16);
        lemma_read_u32_in_prefix(out4, out@, p + 20);
        lemma_prefix_trans_u32(ints0, ints1, ints2);
        lemma_prefix_trans_u32(ints1, ints2, data.ints());
        lemma_prefix_trans_u32(ints0, ints1, data.ints());
        lemma_vals_stored_grow(ints1, data.ints(), ints0.len() as int, ids_of(r.subrange(i as int, j1 as int)));
        lemma_vals_stored_grow(ints2, data.ints(), ints1.len() as int, ids_of(r.subrange(j1 as int, j2 as int)));
        let g = r.subrange(i as int, j3 as int);
        assert(kind_saved(out@, p + 8, data.ints(), (x, y), g, 0) ) by {
            assert(vals_stored(data.ints(), spec_u32_le(out@, p + 8) as int, ids_of(r.subrange(i as int, j1 as int))));
        }
        assert(kind_saved(out@, p + 16, data.ints(), (x, y), g, 1)) by {
            assert(vals_stored(data.ints(), spec_u32_le(out@, p + 16) as int, ids_of(r.subrange(j1 as int, j2 as int))));
        }
        assert(kind_saved(out@, p + 24, data.ints(), (x, y), g, 2)) by {
            assert(vals_stored(data.ints(), spec_u32_le(out@, p + 24) as int, ids_of(r.subrange(j2 as int, j3 as int))));
        }
        assert(data.ints().take(ints0.len() as int) =~= ints0);
        assert(spec_u32_le(out@, p + 24) == ints2.len() as u32);
        assert(spec_u32_le(out@, p + 28) == (j3 - j2) as u32);
    }
    Ok(j3)
}

} // verus!

verus! {

/// The number of tiles among the first `m` references (sorted, so that the references of a
/// tile follow one another).
pub open spec fn tile_count_of(refs: Seq<TileRef>, m: int) -> nat
    decreases m,
{
    if m <= 0 {
        0
    } else {
        tile_count_of(refs, m - 1) + if m - 1 == 0 || xy_of(refs[m - 1]) != xy_of(refs[m - 2]) {
            1nat
        } else {
            0nat
        }
    }
}

/// There are no more tiles than references.
proof fn lemma_tile_count_bound(refs: Seq<TileRef>, m: int)
    requires
        0 <= m,
    ensures
        tile_count_of(refs, m) <= m,
    decreases m,
{
    if m > 0 {
        lemma_tile_count_bound(refs, m - 1);
    }
}

/// Within a tile's run of references, no new tile starts.
proof fn lemma_tile_count_group(refs: Seq<TileRef>, i: int, m: int)
    requires
        0 <= i < m <= refs.len(),
        forall|q: int| i <= q < m ==> xy_of(#[trigger] refs[q]) == xy_of(refs[i]),
    ensures
        tile_count_of(refs, m) == tile_count_of(refs, i + 1),
    decreases m,
{
    if m > i + 1 {
        lemma_tile_count_group(refs, i, m - 1);
        assert(xy_of(refs[m - 1]) == xy_of(refs[m - 2]));
    }
}

/// A reference of a tile's run is in the run, as the references are sorted.
proof fn lemma_group_contains(refs: Seq<TileRef>, i: int, next: int, r: TileRef)
    requires
        refs_sorted(refs),
        0 <= i < next <= refs.len(),
        i > 0 ==> xy_of(refs[i - 1]) != xy_of(refs[i]),
        forall|q: int| i <= q < next ==> xy_of(#[trigger] refs[q]) == xy_of(refs[i]),
        next < refs.len() ==> xy_of(refs[next]) != xy_of(refs[i]),
        xy_of(r) == xy_of(refs[i]),
    ensures
        refs.contains(r) <==> refs.subrange(i, next).contains(r),
{
    if refs.contains(r) {
        let q = choose|q: int| 0 <= q < refs.len() && refs[q] == r;
        if q < i {
            assert(ref_lt(refs[q], refs[i - 1]) || q == i - 1);
            assert(ref_lt(refs[i - 1], refs[i]));
        } else if q >= next {
            assert(ref_lt(refs[next], refs[q]) || q == next);
            assert(ref_lt(refs[i], refs[next]));
        } else {
            assert(refs.subrange(i, next)[q - i] == r);
        }
    }
    if refs.subrange(i, next).contains(r) {
        let q = choose|q: int| 0 <= q < next - i && refs.subrange(i, next)[q] == r;
        assert(refs[i + q] == r);
    }
}

/// Whether the ids of kind `t` held for a tile's run are the ids of all references.
proof fn lemma_kind_saved_whole(
    out: Seq<u8>,
    q: int,
    ints: Seq<u32>,
    refs: Seq<TileRef>,
    i: int,
    next: int,
    t: u8,
)
    requires
        refs_sorted(refs),
        0 <= i < next <= refs.len(),
        i > 0 ==> xy_of(refs[i - 1]) != xy_of(refs[i]),
        forall|m: int| i <= m < next ==> xy_of(#[trigger] refs[m]) == xy_of(refs[i]),
        next < refs.len() ==> xy_of(refs[next]) != xy_of(refs[i]),
        kind_saved(out, q, ints, xy_of(refs[i]), refs.subrange(i, next), t),
    ensures
        kind_saved(out, q, ints, xy_of(refs[i]), refs, t),
{
    let xy = xy_of(refs[i]);
    let vals = choose|vals: Seq<u32>|
        #[trigger] vals_stored(ints, spec_u32_le(out, q) as int, vals) && spec_u32_le(out, q + 4) == vals.len()
            && ids_of_kind(vals, xy, refs.subrange(i, next), t);
    assert forall|e: u32| vals.contains(e) <==> refs.contains((xy.0, xy.1, t, e)) by {
        lemma_group_contains(refs, i, next, (xy.0, xy.1, t, e));
    }
    assert(ids_of_kind(vals, xy, refs, t));
}

/// A saved tile record stays saved when bytes and integers are appended.
pub proof fn lemma_tile_saved_grow(
    out: Seq<u8>,
    out2: Seq<u8>,
    p: int,
    ints: Seq<u32>,
    ints2: Seq<u32>,
    xy: (u32, u32),
    refs: Seq<TileRef>,
)
    requires
        tile_saved(out, p, ints, xy, refs),
        is_prefix(out, out2),
        is_prefix_u32(ints, ints2),
    ensures
        tile_saved(out2, p, ints2, xy, refs),
{
    reveal(tile_saved);
    lemma_reads_in_prefix(out, out2, p);
    lemma_reads_in_prefix(out, out2, p + 8);
    lemma_reads_in_prefix(out, out2, p + 16);
    lemma_reads_in_prefix(out, out2, p + 24);
    lemma_read_u32_in_prefix(out, out2, p + 28);
    lemma_read_u32_in_prefix(out, out2, p + 20);
    lemma_read_u32_in_prefix(out, out2, p + 12);
    lemma_kind_saved_grow(out, out2, p + 8, ints, ints2, xy, refs, 0);
    lemma_kind_saved_grow(out, out2, p + 16, ints, ints2, xy, refs, 1);
    lemma_kind_saved_grow(out, out2, p + 24, ints, ints2, xy, refs, 2);
}

pub proof fn lemma_kind_saved_grow(
    out: Seq<u8>,
    out2: Seq<u8>,
    q: int,
    ints: Seq<u32>,
    ints2: Seq<u32>,
    xy: (u32, u32),
    refs: Seq<TileRef>,
    t: u8,
)
    requires
        kind_saved(out, q, ints, xy, refs, t),
        0 <= q,
        q + 8 <= out.len(),
        is_prefix(out, out2),
        is_prefix_u32(ints, ints2),
    ensures
        kind_saved(out2, q, ints2, xy, refs, t),
{
    let vals = choose|vals: Seq<u32>|
        #[trigger] vals_stored(ints, spec_u32_le(out, q) as int, vals) && spec_u32_le(out, q + 4) == vals.len()
            && ids_of_kind(vals, xy, refs, t);
    lemma_reads_in_prefix(out, out2, q);
    lemma_vals_stored_grow(ints, ints2, spec_u32_le(out, q) as int, vals);
    assert(vals_stored(ints2, spec_u32_le(out2, q) as int, vals));
}

/// The column and row of tile record `k` of a tile section that starts at `start`.
pub open spec fn record_xy(out: Seq<u8>, start: int, k: int) -> (u32, u32) {
    (spec_u32_le(out, start + 4 + 32 * k), spec_u32_le(out, start + 8 + 32 * k))
}

/// What the tile records written so far hold: `k` records, one for each tile of the first `i`
/// references, whose runs start at `starts`.
#[verifier::opaque]
pub open spec fn tiles_written(
    out: Seq<u8>,
    start: int,
    ints: Seq<u32>,
    r: Seq<TileRef>,
    i: int,
    k: int,
    starts: Seq<int>,
) -> bool {
    &&& 0 <= i <= r.len()
    &&& k == starts.len()
    &&& out.len() == start + 4 + 32 * k
    &&& (i < r.len() && i > 0 ==> xy_of(r[i - 1]) != xy_of(r[i]))
    &&& forall|a: int| 0 <= a < k ==> 0 <= #[trigger] starts[a] < i
    &&& forall|a: int| 0 <= a < k ==> (starts[a] > 0 ==> xy_of(r[starts[a] - 1]) != xy_of(r[#[trigger] starts[a]]))
    &&& forall|a: int| 0 <= a < k ==> record_xy(out, start, a) == xy_of(r[#[trigger] starts[a]])
    &&& forall|a: int| 0 <= a < k ==> #[trigger] tile_saved(out, start + 4 + 32 * a, ints, xy_of(r[starts[a]]), r)
    &&& forall|m: int| 0 <= m < i ==> exists|a: int| 0 <= a < k && #[trigger] xy_of(r[m]) == xy_of(r[starts[a]])
    &&& forall|a: int| 0 <= a < k && i < r.len() ==> xy_lt(xy_of(r[#[trigger] starts[a]]), xy_of(r[i]))
    &&& forall|a: int, b: int| 0 <= a < b < k ==> xy_lt(xy_of(r[#[trigger] starts[a]]), xy_of(r[#[trigger] starts[b]]))
}

/// Writing the record of the tile whose references are `r[i..next]` keeps `tiles_written`.
#[verifier::rlimit(50)]
proof fn lemma_tile_step(
    out0: Seq<u8>,
    out: Seq<u8>,
    start: int,
    ints0: Seq<u32>,
    ints: Seq<u32>,
    r: Seq<TileRef>,
    i: int,
    next: int,
    k: int,
    starts: Seq<int>,
)
    requires
        refs_sorted(r),
        0 <= start,
        tiles_written(out0, start, ints0, r, i, k, starts),
        i < next <= r.len(),
        forall|m: int| i <= m < next ==> xy_of(#[trigger] r[m]) == xy_of(r[i]),
        next < r.len() ==> xy_of(r[next]) != xy_of(r[i]),
        is_prefix(out0, out),
        is_prefix_u32(ints0, ints),
        out.len() == out0.len() + 32,
        tile_saved(out, out0.len() as int, ints, xy_of(r[i]), r.subrange(i, next)),
    ensures
        tiles_written(out, start, ints, r, next, k + 1, starts.push(i)),
{
    reveal(tiles_written);
    reveal(tile_saved);
    let p = out0.len() as int;
    lemma_kind_saved_whole(out, p + 8, ints, r, i, next, 0);
    lemma_kind_saved_whole(out, p + 16, ints, r, i, next, 1);
    lemma_kind_saved_whole(out, p + 24, ints, r, i, next, 2);
    assert(tile_saved(out, p, ints, xy_of(r[i]), r));
    let new_starts = starts.push(i);
    assert forall|a: int| 0 <= a < k + 1 implies record_xy(out, start, a) == xy_of(r[#[trigger] new_starts[a]]) by {
        if a < k {
            lemma_reads_in_prefix(out0, out, start + 4 + 32 * a);
            assert(new_starts[a] == starts[a]);
        } else {
            assert(start + 4 + 32 * a == p);
        }
    }
    assert forall|a: int| 0 <= a < k + 1 implies #[trigger] tile_saved(
        out,
        start + 4 + 32 * a,
        ints,
        xy_of(r[new_starts[a]]),
        r,
    ) by {
        if a < k {
            assert(new_starts[a] == starts[a]);
            lemma_tile_saved_grow(out0, out, start + 4 + 32 * a, ints0, ints, xy_of(r[starts[a]]), r);
        } else {
            assert(start + 4 + 32 * a == p);
        }
    }
    if next < r.len() {
        assert(xy_lt(xy_of(r[i]), xy_of(r[next]))) by {
            assert(ref_lt(r[i], r[next]));
        }
        assert forall|a: int| 0 <= a < k + 1 implies xy_lt(xy_of(r[#[trigger] new_starts[a]]), xy_of(r[next])) by {
            if a < k {
                assert(new_starts[a] == starts[a]);
                assert(xy_lt(xy_of(r[starts[a]]), xy_of(r[i])));
            }
        }
    }
    assert forall|m: int| 0 <= m < next implies exists|a: int|
        0 <= a < k + 1 && #[trigger] xy_of(r[m]) == xy_of(r[new_starts[a]]) by {
        if m >= i {
            assert(new_starts[k] == i);
        } else {
            let a = choose|a: int| 0 <= a < k && #[trigger] xy_of(r[m]) == xy_of(r[starts[a]]);
            assert(new_starts[a] == starts[a]);
        }
    }
    assert forall|a: int, b: int| 0 <= a < b < k + 1 implies xy_lt(
        xy_of(r[#[trigger] new_starts[a]]),
        xy_of(r[#[trigger] new_starts[b]]),
    ) by {
        assert(new_starts[a] == starts[a]);
        if b == k {
            assert(new_starts[b] == i);
        } else {
            assert(new_starts[b] == starts[b]);
        }
    }
    assert forall|a: int| 0 <= a < k + 1 implies 0 <= #[trigger] new_starts[a] < next by {
        if a < k {
            assert(new_starts[a] == starts[a]);
        }
    }
    assert forall|a: int| 0 <= a < k + 1 implies (new_starts[a] > 0 ==> xy_of(r[new_starts[a] - 1]) != xy_of(
        r[#[trigger] new_starts[a]],
    )) by {
        if a < k {
            assert(new_starts[a] == starts[a]);
        }
    }
}

/// Writes the tile index: the number of tiles, then for each tile (in the order of the
/// references, which are sorted) its record.
pub fn save_tile_references(out: &mut Vec<u8>, refs: &Vec<TileRef>, data: &mut BufferedData) -> (res: Result<
    (),
    SaveError,
>)
    requires
        old(data).wf(),
        refs_sorted(refs@),
    ensures
        final(data).wf(),
        res matches Err(SaveError::DoesNotFitIntoU32(v)) ==> v > u32::MAX,
        res matches Err(SaveError::DoesNotFitIntoU32(v)) ==> v <= old(data).ints().len() + refs@.len(),
        old(data).ints().len() + refs@.len() <= u32::MAX ==> res is Ok,
        res is Ok ==> final(data).ints() == old(data).ints() + ids_of(refs@),
        res is Ok ==> {
            &&& is_prefix_u32(old(data).ints(), final(data).ints())
            &&& final(data).strings() == old(data).strings()
            &&& is_prefix(old(out)@, final(out)@)
            &&& spec_u32_le(final(out)@, old(out)@.len() as int) == tile_count_of(refs@, refs@.len() as int)
            &&& exists|starts: Seq<int>|
                tiles_written(
                    final(out)@,
                    old(out)@.len() as int,
                    final(data).ints(),
                    refs@,
                    refs@.len() as int,
                    tile_count_of(refs@, refs@.len() as int) as int,
                    starts,
                ) && offsets_written(
                    final(out)@,
                    old(out)@.len() as int,
                    old(data).ints().len() as int,
                    refs@.len() as int,
                    tile_count_of(refs@, refs@.len() as int) as int,
                    starts,
                )
        },
{
    let ghost r = refs@;
    let mut unique_tile_count: usize = 0;
    let mut i: usize = 0;
    while i < refs.len()
        invariant
            i <= r.len(),
            r == refs@,
            unique_tile_count == tile_count_of(r, i as int),
            unique_tile_count <= i,
        decreases r.len() - i,
    {
        if i == 0 || refs[i].0 != refs[i - 1].0 || refs[i].1 != refs[i - 1].1 {
            unique_tile_count = unique_tile_count + 1;
        }
        i = i + 1;
    }
    let count = match to_u32_safe(unique_tile_count) {
        Ok(c) => c,
        Err(e) => return Err(e),
    };
    let ghost start = out@.len() as int;
    push_u32_le(out, count);
    let ghost out_start = out@;
    proof {
        lemma_read_appended_u32(old(out)@, count);
        assert(out@.take(start) =~= old(out)@);
        assert(data.ints().take(data.ints().len() as int) =~= data.ints());
        assert(out@.take(out_start.len() as int) =~= out_start);
    }
    let ghost mut starts: Seq<int> = Seq::empty();
    assert(ids_of(r.subrange(0, 0)) =~= Seq::<u32>::empty());
    assert(data.ints() =~= old(data).ints() + ids_of(r.subrange(0, 0)));
    assert(tiles_written(out@, start, data.ints(), r, 0, 0, starts)) by {
        reveal(tiles_written);
    }
    let mut i: usize = 0;
    let mut k: usize = 0;
    while i < refs.len()
        invariant
            i <= r.len(),
            r == refs@,
            refs_sorted(r),
            k == tile_count_of(r, i as int),
            k <= i,
            start == old(out)@.len(),
            is_prefix(out_start, out@),
            is_prefix(old(out)@, out_start),
            out_start.len() == start + 4,
            spec_u32_le(out_start, start) == tile_count_of(r, r.len() as int),
            data.wf(),
            is_prefix_u32(old(data).ints(), data.ints()),
            data.strings() == old(data).strings(),
            tiles_written(out@, start, data.ints(), r, i as int, k as int, starts),
            data.ints() == old(data).ints() + ids_of(r.subrange(0, i as int)),
            offsets_written(out@, start, old(data).ints().len() as int, i as int, k as int, starts),
        decreases r.len() - i,
    {
        let ghost out0 = out@;
        let ghost ints0 = data.ints();
        let next = match save_tile_group(out, refs, i, data) {
            Ok(n) => n,
            Err(e) => return Err(e),
        };
        proof {
            lemma_tile_count_group(r, i as int, next as int);
            lemma_tile_count_bound(r, i as int);
            assert(i > 0 ==> xy_of(r[i - 1]) != xy_of(r[i as int])) by {
                reveal(tiles_written);
            }
            lemma_tile_step(out0, out@, start, ints0, data.ints(), r, i as int, next as int, k as int, starts);
            let base = old(data).ints().len() as int;
            assert(ints0.len() == base + i) by {
                assert(ids_of(r.subrange(0, i as int)).len() == i);
            }
            assert(out0.len() == start + 4 + 32 * k && starts.len() == k) by {
                reveal(tiles_written);
            }
            let new_starts = starts.push(i as int);
            assert forall|a: int| 0 <= a < k + 1 implies #[trigger] offsets_at(
                out@,
                start,
                base,
                next as int,
                k + 1,
                new_starts,
                a,
            ) by {
                if a < k {
                    assert(new_starts[a] == starts[a]);
                    if a + 1 < k {
                        assert(new_starts[a + 1] == starts[a + 1]);
                    } else {
                        assert(new_starts[a + 1] == i);
                    }
                    assert(offsets_at(out0, start, base, i as int, k as int, starts, a));
                    lemma_run_offsets_grow(out0, out@, start + 4 + 32 * a, base + new_starts[a], base + if a + 1 < k + 1 {
                        new_starts[a + 1]
                    } else {
                        next as int
                    });
                } else {
                    assert(new_starts[a] == i);
                }
            }
            starts = starts.push(i as int);
            lemma_prefix_trans(out_start, out0, out@);
            lemma_prefix_trans_u32(old(data).ints(), ints0, data.ints());
            assert(r.subrange(0, next as int) =~= r.subrange(0, i as int) + r.subrange(i as int, next as int));
            assert(ids_of(r.subrange(0, next as int)) =~= ids_of(r.subrange(0, i as int)) + ids_of(
                r.subrange(i as int, next as int),
            ));
        }
        i = next;
        k = k + 1;
    }
    proof {
        lemma_read_u32_in_prefix(out_start, out@, start);
        lemma_prefix_trans(old(out)@, out_start, out@);
        assert(tiles_written(out@, start, data.ints(), r, r.len() as int, tile_count_of(r, r.len() as int) as int, starts));
        assert(r.subrange(0, r.len() as int) =~= r);
    }
    Ok(())
}

} // verus!

verus! {

impl BufferedData {
    /// Writes the integers (their count, then each) and the strings.
    pub fn save(&self, out: &mut Vec<u8>) -> (res: Result<(), SaveError>)
        ensures
            res is Err <==> self.ints().len() > u32::MAX,
            res matches Err(SaveError::DoesNotFitIntoU32(v)) ==> v > u32::MAX,
            res matches Err(SaveError::DoesNotFitIntoU32(v)) ==> v == self.ints().len(),
            res is Ok ==> {
                let base = old(out)@.len() as int;
                &&& is_prefix(old(out)@, final(out)@)
                &&& final(out)@.len() == base + 4 + 4 * self.ints().len() + self.strings().len()
                &&& spec_u32_le(final(out)@, base) == self.ints().len()
                &&& forall|i: int|
                    0 <= i < self.ints().len() ==> spec_u32_le(final(out)@, base + 4 + 4 * i) == #[trigger] self.ints()[i]
                &&& final(out)@.subrange(base + 4 + 4 * self.ints().len(), final(out)@.len() as int) == self.strings()
            },
    {
        let count = match to_u32_safe(self.all_ints.len()) {
            Ok(c) => c,
            Err(e) => return Err(e),
        };
        let ghost base = out@.len() as int;
        push_u32_le(out, count);
        proof {
            lemma_read_appended_u32(old(out)@, count);
            assert(out@.take(base) =~= old(out)@);
        }
        let ghost out_count = out@;
        assert(out@.take(out_count.len() as int) =~= out_count);
        let mut i: usize = 0;
        while i < self.all_ints.len()
            invariant
                i <= self.all_ints@.len(),
                base == old(out)@.len(),
                out@.len() == base + 4 + 4 * i,
                is_prefix(old(out)@, out@),
                is_prefix(out_count, out@),
                out_count.len() == base + 4,
                spec_u32_le(out_count, base) == self.all_ints@.len(),
                forall|j: int| 0 <= j < i ==> spec_u32_le(out@, base + 4 + 4 * j) == #[trigger] self.all_ints@[j],
            decreases self.all_ints@.len() - i,
        {
            let ghost out0 = out@;
            push_u32_le(out, self.all_ints[i]);
            proof {
                lemma_read_appended_u32(out0, self.all_ints@[i as int]);
                assert(out@.take(out0.len() as int) =~= out0);
                assert forall|j: int| 0 <= j < i + 1 implies spec_u32_le(out@, base + 4 + 4 * j)
                    == #[trigger] self.all_ints@[j] by {
                    if j < i {
                        lemma_read_u32_in_prefix(out0, out@, base + 4 + 4 * j);
                    }
                }
                lemma_prefix_trans(old(out)@, out0, out@);
                lemma_prefix_trans(out_count, out0, out@);
            }
            i = i + 1;
        }
        let ghost out1 = out@;
        let mut j: usize = 0;
        while j < self.all_strings.len()
            invariant
                j <= self.all_strings@.len(),
                out@ == out1 + self.all_strings@.take(j as int),
            decreases self.all_strings@.len() - j,
        {
            out.push(self.all_strings[j]);
            j = j + 1;
            assert(out@ =~= out1 + self.all_strings@.take(j as int));
        }
        proof {
            assert(self.all_strings@.take(self.all_strings@.len() as int) =~= self.all_strings@);
            assert(out@.take(out1.len() as int) =~= out1);
            lemma_prefix_trans(old(out)@, out1, out@);
            lemma_prefix_trans(out_count, out1, out@);
            lemma_read_u32_in_prefix(out_count, out@, base);
            assert forall|i: int| 0 <= i < self.all_ints@.len() implies spec_u32_le(out@, base + 4 + 4 * i)
                == #[trigger] self.all_ints@[i] by {
                lemma_read_u32_in_prefix(out1, out@, base + 4 + 4 * i);
            }
            assert(out@.subrange(out1.len() as int, out@.len() as int) =~= self.all_strings@);
        }
        Ok(())
    }
}

} // verus!

verus! {

/// The number of references in the tile index of `storages`.
pub open spec fn tile_ref_count(storages: &EntityStorages, node_tiles: Seq<(u32, u32)>) -> nat {
    Set::new(|r: TileRef| expected_ref(storages, node_tiles, r)).len()
}

/// What saving `storages` may add up to: the integers and the string bytes of every part of the
/// file, and the counts of its entities. Every count, offset and id that the file holds is at
/// most this.
pub open spec fn save_bound(storages: &EntityStorages, node_tiles: Seq<(u32, u32)>) -> nat {
    nodes_cost(storages.node_storage.entities()) + ways_cost(storages.way_storage.entities()) + polygons_cost(
        storages.polygon_storage@,
    ) + multipolygons_cost(storages.multipolygon_storage.entities()) + tile_ref_count(storages, node_tiles)
}

proof fn lemma_sorted_refs_count(r: Seq<TileRef>, storages: &EntityStorages, node_tiles: Seq<(u32, u32)>)
    requires
        forall|x: TileRef| r.contains(x) <==> expected_ref(storages, node_tiles, x),
        forall|i: int, j: int| 0 <= i < j < r.len() ==> ref_lt(r[i], r[j]),
    ensures
        r.len() == tile_ref_count(storages, node_tiles),
{
    assert(r.no_duplicates()) by {
        assert forall|i: int, j: int| 0 <= i < r.len() && 0 <= j < r.len() && i != j implies r[i] != r[j] by {
            if i < j {
                assert(ref_lt(r[i], r[j]));
            } else {
                assert(ref_lt(r[j], r[i]));
            }
        }
    }
    r.unique_seq_to_set();
    assert(r.to_set() =~= Set::new(|x: TileRef| expected_ref(storages, node_tiles, x)));
}

proof fn lemma_counts_within_costs(storages: &EntityStorages)
    ensures
        storages.node_storage.entities().len() <= nodes_cost(storages.node_storage.entities()),
        storages.way_storage.entities().len() <= ways_cost(storages.way_storage.entities()),
        storages.polygon_storage@.len() <= polygons_cost(storages.polygon_storage@),
        storages.multipolygon_storage.entities().len() <= multipolygons_cost(storages.multipolygon_storage.entities()),
{
    lemma_seq_cost_at_least_len(storages.node_storage.entities(), |n: RawNode| 1 + tags_cost(n.tags@));
    lemma_seq_cost_at_least_len(
        storages.way_storage.entities(),
        |w: RawWay| 1 + w.node_ids@.len() + tags_cost(w.tags@),
    );
    lemma_seq_cost_at_least_len(storages.polygon_storage@, |p: Polygon| 1 + p@.len());
    lemma_seq_cost_at_least_len(
        storages.multipolygon_storage.entities(),
        |m: Multipolygon| 1 + m.polygon_ids@.len() + tags_cost(m.tags@),
    );
}

/// A reference of a way or a polygon names a node; one of a multipolygon names a polygon.
proof fn lemma_refs_below_counts(storages: &EntityStorages, v: usize)
    requires
        storages.references_valid(),
    ensures
        some_ref(storages.way_storage.entities(), |w: RawWay| w.node_ids@, v) ==> v
            < storages.node_storage.entities().len(),
        some_ref(storages.polygon_storage@, |p: Polygon| p@, v) ==> v < storages.node_storage.entities().len(),
        some_ref(storages.multipolygon_storage.entities(), |m: Multipolygon| m.polygon_ids@, v) ==> v
            < storages.polygon_storage@.len(),
{
    let ways = storages.way_storage.entities();
    let polygons = storages.polygon_storage@;
    let mps = storages.multipolygon_storage.entities();
    let gw = |w: RawWay| w.node_ids@;
    let gp = |p: Polygon| p@;
    let gm = |m: Multipolygon| m.polygon_ids@;
    if some_ref(ways, gw, v) {
        let i = choose|i: int| 0 <= i < ways.len() && gw(ways[i]).contains(v);
        let j = choose|j: int| 0 <= j < ways[i].node_ids@.len() && ways[i].node_ids@[j] == v;
        assert(ways[i].node_ids@[j] < storages.node_storage.entities().len());
    }
    if some_ref(polygons, gp, v) {
        let i = choose|i: int| 0 <= i < polygons.len() && gp(polygons[i]).contains(v);
        let j = choose|j: int| 0 <= j < polygons[i]@.len() && polygons[i]@[j] == v;
        assert(polygons[i]@[j] < storages.node_storage.entities().len());
    }
    if some_ref(mps, gm, v) {
        let i = choose|i: int| 0 <= i < mps.len() && gm(mps[i]).contains(v);
        let j = choose|j: int| 0 <= j < mps[i].polygon_ids@.len() && mps[i].polygon_ids@[j] == v;
        assert(mps[i].polygon_ids@[j] < polygons.len());
    }
}

/// The geodata file of the entities of `storages`, where node `i` lies in the highest-zoom
/// tile `node_tiles[i]`: nodes, ways, polygons, multipolygons, the tile index, then the
/// integers and the strings that the records refer to.
#[verifier::rlimit(80)]
#[verifier::spinoff_prover]
pub fn save_to_internal_format(storages: &EntityStorages, node_tiles: &Vec<(u32, u32)>) -> (res: Result<
    Vec<u8>,
    SaveError,
>)
    requires
        storages.references_valid(),
        node_tiles@.len() == storages.node_storage.entities().len(),
    ensures
        res matches Err(SaveError::DoesNotFitIntoU32(v)) ==> v > u32::MAX,
        res matches Err(SaveError::DoesNotFitIntoU32(v)) ==> v <= save_bound(storages, node_tiles@),
        save_bound(storages, node_tiles@) <= u32::MAX ==> res is Ok,
        res matches Ok(b) ==> file_holds(b@, storages, node_tiles@),
{
    proof {
        lemma_counts_within_costs(storages);
    }
    let ghost bound = save_bound(storages, node_tiles@);
    let mut out: Vec<u8> = Vec::new();
    let mut data = BufferedData::new();
    let nodes = storages.node_storage.get_entities();
    match save_nodes(&mut out, nodes, &mut data) {
        Ok(()) => {},
        Err(e) => {
            proof {
            }
            return Err(e);
        },
    }
    let ghost out1 = out@;
    let ghost ints1 = data.ints();
    let ghost strings1 = data.strings();
    let ways = storages.way_storage.get_entities();
    match save_ways(&mut out, ways, &mut data) {
        Ok(()) => {},
        Err(e) => {
            proof {
                match e {
                    SaveError::DoesNotFitIntoU32(v) => lemma_refs_below_counts(storages, v),
                }
            }
            return Err(e);
        },
    }
    let ghost out2 = out@;
    let ghost ints2 = data.ints();
    let ghost strings2 = data.strings();
    let polygons = &storages.polygon_storage;
    match save_polygons(&mut out, polygons, &mut data) {
        Ok(()) => {},
        Err(e) => {
            proof {
                match e {
                    SaveError::DoesNotFitIntoU32(v) => lemma_refs_below_counts(storages, v),
                }
            }
            return Err(e);
        },
    }
    let ghost out3 = out@;
    let ghost ints3 = data.ints();
    let ghost strings3 = data.strings();
    let multipolygons = storages.multipolygon_storage.get_entities();
    match save_multipolygons(&mut out, multipolygons, &mut data) {
        Ok(()) => {},
        Err(e) => {
            proof {
                match e {
                    SaveError::DoesNotFitIntoU32(v) => lemma_refs_below_counts(storages, v),
                }
            }
            return Err(e);
        },
    }
    let ghost out4 = out@;
    let ghost ints4 = data.ints();
    let ghost strings4 = data.strings();
    let set = match get_tile_references(storages, node_tiles) {
        Ok(s) => s,
        Err(e) => {
            proof {
            }
            return Err(e);
        },
    };
    let refs = sorted_refs(&set);
    let ghost r = refs@;
    let ghost refs_set = Set::new(|x: TileRef| expected_ref(storages, node_tiles@, x));
    proof {
        assert forall|i: int| 0 <= i < r.len() implies (#[trigger] r[i]).2 < 3 by {
            assert(r.contains(r[i]));
        }
    }
    match save_tile_references(&mut out, &refs, &mut data) {
        Ok(()) => {},
        Err(e) => {
            proof {
                lemma_sorted_refs_count(r, storages, node_tiles@);
            }
            return Err(e);
        },
    }
    let ghost out5 = out@;
    match data.save(&mut out) {
        Ok(()) => {},
        Err(e) => {
            proof {
                lemma_sorted_refs_count(r, storages, node_tiles@);
            }
            return Err(e);
        },
    }
    let total = out.len();
    proof {
        let ints = data.ints();
        let strings = data.strings();
        let b = out@;
        let t = tile_count_of(r, r.len() as int);
        let starts = choose|starts: Seq<int>|
            tiles_written(out5, out4.len() as int, ints, r, r.len() as int, t as int, starts);
        assert(out5.len() == out4.len() + 4 + 32 * t) by {
            reveal(tiles_written);
        }
        lemma_prefix_trans(out1, out2, out3);
        lemma_prefix_trans(out1, out3, out4);
        lemma_prefix_trans(out1, out4, out5);
        lemma_prefix_trans(out1, out5, b);
        lemma_prefix_trans(out2, out3, out4);
        lemma_prefix_trans(out2, out4, out5);
        lemma_prefix_trans(out2, out5, b);
        lemma_prefix_trans(out3, out4, out5);
        lemma_prefix_trans(out3, out5, b);
        lemma_prefix_trans(out4, out5, b);
        lemma_prefix_trans_u32(ints1, ints2, ints3);
        lemma_prefix_trans_u32(ints1, ints3, ints4);
        lemma_prefix_trans_u32(ints1, ints4, ints);
        lemma_prefix_trans_u32(ints2, ints3, ints4);
        lemma_prefix_trans_u32(ints2, ints4, ints);
        lemma_prefix_trans_u32(ints3, ints4, ints);
        lemma_prefix_trans(strings1, strings2, strings3);
        lemma_prefix_trans(strings1, strings3, strings4);
        lemma_prefix_trans(strings2, strings3, strings4);
        assert(strings4 == strings);
        assert(strings.take(strings.len() as int) =~= strings);
        lemma_read_u32_in_prefix(out1, b, 0);
        lemma_read_u32_in_prefix(out2, b, out1.len() as int);
        lemma_read_u32_in_prefix(out3, b, out2.len() as int);
        lemma_read_u32_in_prefix(out4, b, out3.len() as int);
        lemma_read_u32_in_prefix(out5, b, out4.len() as int);
        lemma_saved_layout(b, nodes@.len(), ways@.len(), polygons@.len(), multipolygons@.len(), t, ints.len());
        let l = saved_layout(nodes@.len(), ways@.len(), polygons@.len(), multipolygons@.len(), t, ints.len());
        assert(sections(b, l, ints, strings)) by {
            assert forall|i: int| 0 <= i < ints.len() implies int_at(b, l, i) == #[trigger] ints[i] by {
                assert(spec_u32_le(b, out5.len() + 4 + 4 * i) == ints[i]);
            }
        }
        assert forall|i: int| 0 <= i < nodes@.len() implies node_read_back(b, l, i, #[trigger] nodes@[i]) by {
            assert(node_saved(out1, 4 + 32 * i, ints1, strings1, nodes@[i]));
            lemma_node_read_back(out1, b, ints1, strings1, ints, strings, l, i, nodes@[i]);
        }
        assert forall|i: int| 0 <= i < ways@.len() implies record_read_back(
            b,
            l,
            record_pos(l.ways, i),
            (#[trigger] ways@[i]).global_id,
            ways@[i].node_ids@,
            ways@[i].tags@,
        ) by {
            assert(way_saved(out2, out1.len() + 4 + 24 * i, ints2, strings2, ways@[i]));
            lemma_record_read_back(
                out2,
                b,
                ints2,
                strings2,
                ints,
                strings,
                l,
                record_pos(l.ways, i),
                ways@[i].global_id,
                ways@[i].node_ids@,
                ways@[i].tags@,
            );
        }
        assert forall|i: int| 0 <= i < polygons@.len() implies int_list_at(b, l, record_pos(l.polygons, i)) == Some(
            as_u32s((#[trigger] polygons@[i])@),
        ) by {
            assert(polygon_record_saved(out3, out2.len() + 4 + 8 * i, ints3, strings3, polygons@[i]));
            lemma_polygon_read_back(out3, b, ints3, ints, strings, l, record_pos(l.polygons, i), polygons@[i]@);
        }
        assert forall|i: int| 0 <= i < multipolygons@.len() implies record_read_back(
            b,
            l,
            record_pos(l.multipolygons, i),
            (#[trigger] multipolygons@[i]).global_id,
            multipolygons@[i].polygon_ids@,
            multipolygons@[i].tags@,
        ) by {
            assert(multipolygon_saved(out4, out3.len() + 4 + 24 * i, ints4, strings4, multipolygons@[i]));
            lemma_record_read_back(
                out4,
                b,
                ints4,
                strings4,
                ints,
                strings,
                l,
                record_pos(l.multipolygons, i),
                multipolygons@[i].global_id,
                multipolygons@[i].polygon_ids@,
                multipolygons@[i].tags@,
            );
        }
        lemma_tiles_read_back(out5, b, ints, strings, l, out4.len() as int, r, t as int, starts, refs_set);
    }
    Ok(out)
}

} // verus!
