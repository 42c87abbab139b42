use crate::geodata::bytes::{bytes_lt, compare_bytes, lemma_bytes_lt_asymmetric, lemma_bytes_lt_total, Order};
use crate::util::{parse_u64, parse_unsigned, str_eq};
use crate::geodata::multipolygons::{convert_relation_to_multipolygon, NodeDesc, NodeDescPair};
use vstd::prelude::*;
use vstd::utf8::encode_utf8;

verus! {

/// The key of a tag as bytes, by which tags are ordered.
pub open spec fn key_bytes(k: Seq<char>) -> Seq<u8> {
    encode_utf8(k)
}

/// Whether tags are sorted by key, in the byte order of their keys, without repeated keys.
pub open spec fn tags_sorted(s: Seq<(Seq<char>, Seq<char>)>) -> bool {
    forall|i: int, j: int| 0 <= i < j < s.len() ==> bytes_lt(key_bytes(#[trigger] s[i].0), key_bytes(#[trigger] s[j].0))
}

/// The tags as a map from key to value.
pub open spec fn tags_map(s: Seq<(Seq<char>, Seq<char>)>) -> Map<Seq<char>, Seq<char>> {
    Map::new(|k: Seq<char>| exists|i: int| 0 <= i < s.len() && s[i].0 == k, |k: Seq<char>| s[choose|i: int| 0 <= i < s.len() && s[i].0 == k].1)
}

/// The tags of an entity being imported, sorted by key.
pub struct RawTags {
    entries: Vec<(String, String)>,
}

pub open spec fn entries_view(v: Seq<(String, String)>) -> Seq<(Seq<char>, Seq<char>)> {
    v.map_values(|e: (String, String)| (e.0@, e.1@))
}

impl View for RawTags {
    type V = Seq<(Seq<char>, Seq<char>)>;

    closed spec fn view(&self) -> Seq<(Seq<char>, Seq<char>)> {
        entries_view(self.entries@)
    }
}

impl RawTags {
    #[verifier::type_invariant]
    spec fn inv(self) -> bool {
        tags_sorted(entries_view(self.entries@))
    }

    /// No tags.
    pub fn new() -> (res: RawTags)
        ensures
            res@ == Seq::<(Seq<char>, Seq<char>)>::empty(),
    {
        let res = RawTags { entries: Vec::new() };
        assert(entries_view(res.entries@) =~= Seq::<(Seq<char>, Seq<char>)>::empty());
        res
    }

    /// The tags, in key order.
    pub fn entries(&self) -> (res: &Vec<(String, String)>)
        ensures
            entries_view(res@) == self@,
            tags_sorted(self@),
    {
        proof {
            use_type_invariant(self);
        }
        &self.entries
    }

    /// The number of tags.
    pub fn len(&self) -> (res: usize)
        ensures
            res == self@.len(),
    {
        self.entries.len()
    }

    /// Sets the value of the tag `key`: the tag is added in its place in key order, or its
    /// value is replaced.
    pub fn insert(&mut self, key: String, value: String)
        ensures
            tags_sorted(final(self)@),
            exists|i: int|
                0 <= i <= old(self)@.len() && {
                    ||| final(self)@ == old(self)@.insert(i, (key@, value@)) && (i < old(self)@.len() ==> old(self)@[i].0
                        != key@)
                    ||| i < old(self)@.len() && old(self)@[i].0 == key@ && final(self)@ == old(self)@.update(
                        i,
                        (key@, value@),
                    )
                },
    {
        proof {
            use_type_invariant(&*self);
        }
        let mut entries: Vec<(String, String)> = Vec::new();
        std::mem::swap(&mut entries, &mut self.entries);
        let ghost old_view = entries_view(entries@);
        let kb = key.as_str().as_bytes();
        let mut lo: usize = 0;
        let mut hi: usize = entries.len();
        while lo < hi
            invariant
                lo <= hi <= entries@.len(),
                old_view == entries_view(entries@),
                tags_sorted(old_view),
                kb@ == key_bytes(key@),
                forall|j: int| 0 <= j < lo ==> bytes_lt(key_bytes(#[trigger] old_view[j].0), kb@),
                forall|j: int| hi <= j < old_view.len() ==> !bytes_lt(key_bytes(#[trigger] old_view[j].0), kb@),
            decreases hi - lo,
        {
            let mid = lo + (hi - lo) / 2;
            assert(old_view[mid as int].0 == entries@[mid as int].0@);
            match compare_bytes(entries[mid].0.as_str().as_bytes(), kb) {
                Order::Less => {
                    proof {
                        assert forall|j: int| 0 <= j < mid + 1 implies bytes_lt(
                            key_bytes(#[trigger] old_view[j].0),
                            kb@,
                        ) by {
                            if j < mid {
                                assert(bytes_lt(key_bytes(old_view[j].0), key_bytes(old_view[mid as int].0)));
                                lemma_bytes_lt_transitive(
                                    key_bytes(old_view[j].0),
                                    key_bytes(old_view[mid as int].0),
                                    kb@,
                                );
                            }
                        }
                    }
                    lo = mid + 1;
                },
                _ => {
                    proof {
                        lemma_bytes_lt_asymmetric(key_bytes(old_view[mid as int].0), kb@);
                        assert forall|j: int| mid <= j < old_view.len() implies !bytes_lt(
                            key_bytes(#[trigger] old_view[j].0),
                            kb@,
                        ) by {
                            if j > mid {
                                assert(bytes_lt(key_bytes(old_view[mid as int].0), key_bytes(old_view[j].0)));
                                if bytes_lt(key_bytes(old_view[j].0), kb@) {
                                    lemma_bytes_lt_transitive(
                                        key_bytes(old_view[mid as int].0),
                                        key_bytes(old_view[j].0),
                                        kb@,
                                    );
                                }
                            }
                        }
                    }
                    hi = mid;
                },
            }
        }
        let found = lo < entries.len() && {
            let same = compare_bytes(entries[lo].0.as_str().as_bytes(), kb);
            matches!(same, Order::Equal)
        };
        if found {
            assert(old_view[lo as int].0 == entries@[lo as int].0@);
            proof {
                vstd::utf8::encode_utf8_decode_utf8(old_view[lo as int].0);
                vstd::utf8::encode_utf8_decode_utf8(key@);
            }
            assert(old_view[lo as int].0 == key@);
            entries.set(lo, (key, value));
            assert(entries_view(entries@) =~= old_view.update(lo as int, (key@, value@)));
            assert(old_view == old(self)@);
            assert(lo < old(self)@.len() && old(self)@[lo as int].0 == key@ && entries_view(entries@) == old(
                self,
            )@.update(lo as int, (key@, value@)));
        } else {
            proof {
                if lo < old_view.len() {
                    lemma_bytes_lt_total(key_bytes(old_view[lo as int].0), kb@);
                    assert(key_bytes(old_view[lo as int].0) != kb@);
                }
            }
            entries.insert(lo, (key, value));
            assert(entries_view(entries@) =~= old_view.insert(lo as int, (key@, value@)));
            assert(old_view == old(self)@);
            assert(lo < old_view.len() ==> old_view[lo as int].0 != key@);
            proof {
                let nv = entries_view(entries@);
                assert forall|i: int, j: int| 0 <= i < j < nv.len() implies bytes_lt(
                    key_bytes(#[trigger] nv[i].0),
                    key_bytes(#[trigger] nv[j].0),
                ) by {
                    if j == lo {
                        assert(nv[i] == old_view[i]);
                    } else if i == lo {
                        assert(nv[j] == old_view[j - 1]);
                        lemma_bytes_lt_total(key_bytes(old_view[j - 1].0), kb@);
                        if j - 1 > lo {
                            assert(bytes_lt(key_bytes(old_view[lo as int].0), key_bytes(old_view[j - 1].0)));
                            lemma_bytes_lt_total(key_bytes(old_view[lo as int].0), kb@);
                            lemma_bytes_lt_transitive(kb@, key_bytes(old_view[lo as int].0), key_bytes(old_view[j - 1].0));
                        }
                    } else if i < lo && j > lo {
                        assert(nv[i] == old_view[i]);
                        assert(nv[j] == old_view[j - 1]);
                    } else if j < lo {
                        assert(nv[i] == old_view[i]);
                        assert(nv[j] == old_view[j]);
                    } else {
                        assert(nv[i] == old_view[i - 1]);
                        assert(nv[j] == old_view[j - 1]);
                    }
                }
            }
        }
        self.entries = entries;
    }
}

/// The byte order is transitive.
pub proof fn lemma_bytes_lt_transitive(a: Seq<u8>, b: Seq<u8>, c: Seq<u8>)
    requires
        bytes_lt(a, b),
        bytes_lt(b, c),
    ensures
        bytes_lt(a, c),
    decreases a.len(),
{
    if a.len() > 0 && b.len() > 0 && c.len() > 0 && a[0] == b[0] && b[0] == c[0] {
        lemma_bytes_lt_transitive(a.drop_first(), b.drop_first(), c.drop_first());
    }
}

} // verus!

verus! {

/// A node being imported: its OSM id, the bits of its latitude and longitude (`f64`), and its tags.
pub struct RawNode {
    pub global_id: u64,
    pub lat_bits: u64,
    pub lon_bits: u64,
    pub tags: RawTags,
}

/// A way being imported: its OSM id, the local ids of its nodes, and its tags.
pub struct RawWay {
    pub global_id: u64,
    pub node_ids: Vec<usize>,
    pub tags: RawTags,
}

/// A multipolygon being imported: its OSM id, the local ids of its polygons, and its tags.
pub struct Multipolygon {
    pub global_id: u64,
    pub polygon_ids: Vec<usize>,
    pub tags: RawTags,
}

/// A ring of nodes: their local ids.
pub type Polygon = Vec<usize>;

} // verus!

verus! {

broadcast use vstd::std_specs::hash::group_hash_axioms;

/// Imported entities of one kind, with the map from their OSM ids to their local ids (their
/// indices).
pub struct OsmEntityStorage<E> {
    global_id_to_local_id: std::collections::HashMap<u64, usize>,
    entities: Vec<E>,
}

impl<E> OsmEntityStorage<E> {
    /// The local ids of the entities added so far, by OSM id.
    pub closed spec fn ids(&self) -> Map<u64, usize> {
        self.global_id_to_local_id@
    }

    /// The entities added so far.
    pub closed spec fn entities(&self) -> Seq<E> {
        self.entities@
    }

    pub fn new() -> (res: OsmEntityStorage<E>)
        ensures
            res.ids() == Map::<u64, usize>::empty(),
            res.entities() == Seq::<E>::empty(),
    {
        OsmEntityStorage { global_id_to_local_id: std::collections::HashMap::new(), entities: Vec::new() }
    }

    /// Adds an entity; its OSM id now leads to it (and no longer to an earlier entity with that id).
    pub fn add(&mut self, global_id: u64, entity: E)
        ensures
            final(self).entities() == old(self).entities().push(entity),
            final(self).ids() == old(self).ids().insert(global_id, old(self).entities().len() as usize),
    {
        let old_size = self.entities.len();
        self.global_id_to_local_id.insert(global_id, old_size);
        self.entities.push(entity);
    }

    /// The local id of the entity with the OSM id `global_id`, if one was added.
    pub fn translate_id(&self, global_id: u64) -> (res: Option<usize>)
        ensures
            res == (if self.ids().contains_key(global_id) {
                Some(self.ids()[global_id])
            } else {
                None
            }),
    {
        match self.global_id_to_local_id.get(&global_id) {
            Some(v) => Some(*v),
            None => None,
        }
    }

    /// The entities added so far, by local id.
    pub fn get_entities(&self) -> (res: &Vec<E>)
        ensures
            res@ == self.entities(),
    {
        &self.entities
    }
}

/// All imported entities.
pub struct EntityStorages {
    pub node_storage: OsmEntityStorage<RawNode>,
    pub way_storage: OsmEntityStorage<RawWay>,
    pub polygon_storage: Vec<Polygon>,
    pub multipolygon_storage: OsmEntityStorage<Multipolygon>,
}

pub open spec fn polygons_view(v: Seq<Polygon>) -> Seq<Seq<usize>> {
    v.map_values(|p: Polygon| p@)
}

impl EntityStorages {
    /// Whether the local ids that entities hold lead to entities: the nodes of ways and
    /// polygons to nodes, the polygons of multipolygons to polygons.
    pub open spec fn references_valid(&self) -> bool {
        let nodes = self.node_storage.entities().len();
        let polygons = self.polygon_storage@;
        &&& forall|i: int, j: int|
            0 <= i < self.way_storage.entities().len() && 0 <= j < self.way_storage.entities()[i].node_ids@.len()
                ==> #[trigger] self.way_storage.entities()[i].node_ids@[j] < nodes
        &&& forall|i: int, j: int|
            0 <= i < polygons.len() && 0 <= j < polygons[i]@.len() ==> #[trigger] polygons[i]@[j] < nodes
        &&& forall|i: int, j: int|
            0 <= i < self.multipolygon_storage.entities().len() && 0 <= j
                < self.multipolygon_storage.entities()[i].polygon_ids@.len()
                ==> #[trigger] self.multipolygon_storage.entities()[i].polygon_ids@[j] < polygons.len()
    }
}

} // verus!

verus! {

/// Why an OSM XML document could not be imported.
#[derive(Clone, Debug)]
pub enum ImportError {
    /// An element lacks an attribute that it needs.
    MissingAttribute { element: String, attribute: String },
    /// An attribute's value does not parse.
    BadValue { element: String, attribute: String, value: String },
}

pub enum ImportErrorView {
    MissingAttribute { element: Seq<char>, attribute: Seq<char> },
    BadValue { element: Seq<char>, attribute: Seq<char>, value: Seq<char> },
}

impl View for ImportError {
    type V = ImportErrorView;

    open spec fn view(&self) -> ImportErrorView {
        match self {
            ImportError::MissingAttribute { element, attribute } => ImportErrorView::MissingAttribute {
                element: element@,
                attribute: attribute@,
            },
            ImportError::BadValue { element, attribute, value } => ImportErrorView::BadValue {
                element: element@,
                attribute: attribute@,
                value: value@,
            },
        }
    }
}

/// An element's attributes (local name, value) as text.
pub open spec fn attrs_view(attrs: Seq<(String, String)>) -> Seq<(Seq<char>, Seq<char>)> {
    attrs.map_values(|a: (String, String)| (a.0@, a.1@))
}

/// The value of the first attribute named `name`.
pub open spec fn attr_value(attrs: Seq<(Seq<char>, Seq<char>)>, name: Seq<char>) -> Option<Seq<char>>
    decreases attrs.len(),
{
    if attrs.len() == 0 {
        None
    } else if attrs[0].0 == name {
        Some(attrs[0].1)
    } else {
        attr_value(attrs.drop_first(), name)
    }
}

/// The value of the attribute `name` of the element `elem`, or the error that it is missing.
pub open spec fn required_attr(elem: Seq<char>, attrs: Seq<(Seq<char>, Seq<char>)>, name: Seq<char>) -> Result<
    Seq<char>,
    ImportErrorView,
> {
    match attr_value(attrs, name) {
        Some(v) => Ok(v),
        None => Err(ImportErrorView::MissingAttribute { element: elem, attribute: name }),
    }
}

/// The attribute `name` of the element `elem` read as a `u64`, or why it cannot be.
pub open spec fn required_u64(elem: Seq<char>, attrs: Seq<(Seq<char>, Seq<char>)>, name: Seq<char>) -> Result<
    u64,
    ImportErrorView,
> {
    match required_attr(elem, attrs, name) {
        Err(e) => Err(e),
        Ok(v) => match parse_unsigned(v, u64::MAX as int) {
            Some(n) => Ok(n as u64),
            None => Err(ImportErrorView::BadValue { element: elem, attribute: name, value: v }),
        },
    }
}

pub open spec fn string_result_view(r: Result<String, ImportError>) -> Result<Seq<char>, ImportErrorView> {
    match r {
        Ok(s) => Ok(s@),
        Err(e) => Err(e@),
    }
}

pub open spec fn value_result_view<T>(r: Result<T, ImportError>) -> Result<T, ImportErrorView> {
    match r {
        Ok(v) => Ok(v),
        Err(e) => Err(e@),
    }
}

/// The value of the attribute `attr_name` of the element `elem_name`.
pub fn get_required_attr(elem_name: &str, attrs: &Vec<(String, String)>, attr_name: &str) -> (res: Result<
    String,
    ImportError,
>)
    ensures
        string_result_view(res) == required_attr(elem_name@, attrs_view(attrs@), attr_name@),
{
    let ghost all = attrs_view(attrs@);
    assert(all.skip(0) =~= all);
    let mut i: usize = 0;
    while i < attrs.len()
        invariant
            i <= attrs@.len(),
            all == attrs_view(attrs@),
            attr_value(all, attr_name@) == attr_value(all.skip(i as int), attr_name@),
        decreases attrs@.len() - i,
    {
        let ghost rest = all.skip(i as int);
        assert(rest[0] == (attrs@[i as int].0@, attrs@[i as int].1@));
        if str_eq(attrs[i].0.as_str(), attr_name) {
            return Ok(attrs[i].1.clone());
        }
        assert(rest.drop_first() =~= all.skip(i + 1));
        i = i + 1;
    }
    Err(ImportError::MissingAttribute { element: elem_name.to_owned(), attribute: attr_name.to_owned() })
}

/// The attribute `attr_name` of the element `elem_name`, read as a `u64`.
pub fn parse_required_u64(elem_name: &str, attrs: &Vec<(String, String)>, attr_name: &str) -> (res: Result<
    u64,
    ImportError,
>)
    ensures
        value_result_view(res) == required_u64(elem_name@, attrs_view(attrs@), attr_name@),
{
    let value = match get_required_attr(elem_name, attrs, attr_name) {
        Ok(v) => v,
        Err(e) => return Err(e),
    };
    match parse_u64(value.as_str()) {
        Some(n) => Ok(n),
        None => Err(
            ImportError::BadValue { element: elem_name.to_owned(), attribute: attr_name.to_owned(), value },
        ),
    }
}

/// The OSM id of an element.
pub fn get_id(elem_name: &str, attrs: &Vec<(String, String)>) -> (res: Result<u64, ImportError>)
    ensures
        value_result_view(res) == required_u64(elem_name@, attrs_view(attrs@), "id"@),
{
    parse_required_u64(elem_name, attrs, "id")
}

/// The local id of the entity that the attribute `ref` designates, if one was added.
pub fn get_ref<E>(elem_name: &str, attrs: &Vec<(String, String)>, storage: &OsmEntityStorage<E>) -> (res: Result<
    Option<usize>,
    ImportError,
>)
    ensures
        value_result_view(res) == (match required_u64(elem_name@, attrs_view(attrs@), "ref"@) {
            Err(e) => Err(e),
            Ok(r) => Ok(
                if storage.ids().contains_key(r) {
                    Some(storage.ids()[r])
                } else {
                    None
                },
            ),
        }),
{
    let reference = match parse_required_u64(elem_name, attrs, "ref") {
        Ok(r) => r,
        Err(e) => return Err(e),
    };
    Ok(storage.translate_id(reference))
}

/// Whether `new` is `old` with the tag `key` set to `value` (`RawTags::insert`).
pub open spec fn tag_set(
    old: Seq<(Seq<char>, Seq<char>)>,
    new: Seq<(Seq<char>, Seq<char>)>,
    key: Seq<char>,
    value: Seq<char>,
) -> bool {
    &&& tags_sorted(new)
    &&& exists|i: int|
        0 <= i <= old.len() && {
            ||| new == old.insert(i, (key, value)) && (i < old.len() ==> old[i].0 != key)
            ||| i < old.len() && old[i].0 == key && new == old.update(i, (key, value))
        }
}

/// What `try_add_tag` does: nothing for an element other than `tag`; for a `tag`, its `k` and
/// `v` attributes, or the error that one is missing.
pub open spec fn tag_of(elem: Seq<char>, attrs: Seq<(Seq<char>, Seq<char>)>) -> Option<
    Result<(Seq<char>, Seq<char>), ImportErrorView>,
> {
    if elem != "tag"@ {
        None
    } else {
        match required_attr(elem, attrs, "k"@) {
            Err(e) => Some(Err(e)),
            Ok(k) => match required_attr(elem, attrs, "v"@) {
                Err(e) => Some(Err(e)),
                Ok(v) => Some(Ok((k, v))),
            },
        }
    }
}

/// Adds the tag that a `tag` element holds; `Ok(false)` for another element.
pub fn try_add_tag(elem_name: &str, attrs: &Vec<(String, String)>, tags: &mut RawTags) -> (res: Result<
    bool,
    ImportError,
>)
    ensures
        match tag_of(elem_name@, attrs_view(attrs@)) {
            None => res == Ok::<bool, ImportError>(false) && final(tags)@ == old(tags)@,
            Some(Err(e)) => res matches Err(x) && x@ == e && final(tags)@ == old(tags)@,
            Some(Ok((k, v))) => res == Ok::<bool, ImportError>(true) && tag_set(old(tags)@, final(tags)@, k, v),
        },
{
    if !str_eq(elem_name, "tag") {
        return Ok(false);
    }
    let key = match get_required_attr(elem_name, attrs, "k") {
        Ok(k) => k,
        Err(e) => return Err(e),
    };
    let value = match get_required_attr(elem_name, attrs, "v") {
        Ok(v) => v,
        Err(e) => return Err(e),
    };
    tags.insert(key, value);
    Ok(true)
}

/// Whether `pairs` holds the pair `(a, b)`.
fn contains_pair(pairs: &Vec<(usize, usize)>, a: usize, b: usize) -> (res: bool)
    ensures
        res == pairs@.contains((a, b)),
{
    let mut i: usize = 0;
    while i < pairs.len()
        invariant
            i <= pairs@.len(),
            forall|j: int| 0 <= j < i ==> pairs@[j] != (a, b),
        decreases pairs@.len() - i,
    {
        if pairs[i].0 == a && pairs[i].1 == b {
            assert(pairs@[i as int] == (a, b));
            return true;
        }
        i = i + 1;
    }
    false
}

/// The node references of a way once each segment (a pair of consecutive nodes, in either
/// direction) that repeats an earlier kept segment is dropped, with the segments kept so far.
pub open spec fn dedup_state(refs: Seq<usize>, n: nat) -> (Seq<usize>, Set<(usize, usize)>)
    decreases n,
{
    if n <= 1 {
        (refs.take(n as int), Set::empty())
    } else {
        let (kept, seen) = dedup_state(refs, (n - 1) as nat);
        let cur = refs[n - 1];
        let prev = refs[n - 2];
        if !seen.contains((cur, prev)) && !seen.contains((prev, cur)) {
            (kept.push(cur), seen.insert((cur, prev)))
        } else {
            (kept, seen)
        }
    }
}

/// Whether the segment from node `i - 1` to node `i` repeats, in either direction, a segment
/// that ends at an earlier node.
pub open spec fn repeats_segment(refs: Seq<usize>, i: int) -> bool {
    exists|j: int|
        1 <= j < i && ((#[trigger] refs[j] == refs[i] && refs[j - 1] == refs[i - 1]) || (refs[j] == refs[i - 1]
            && refs[j - 1] == refs[i]))
}

/// The first `n` node references, the first one kept, each further one only where its segment
/// repeats no earlier segment.
pub open spec fn without_repeated_segments(refs: Seq<usize>, n: nat) -> Seq<usize>
    decreases n,
{
    if n <= 1 {
        refs.take(n as int)
    } else {
        without_repeated_segments(refs, (n - 1) as nat) + if repeats_segment(refs, n - 1) {
            Seq::empty()
        } else {
            seq![refs[n - 1]]
        }
    }
}

/// The segments kept by `dedup_state` are, up to their direction, all the segments so far.
proof fn lemma_dedup_seen(refs: Seq<usize>, n: nat)
    requires
        1 <= n <= refs.len(),
    ensures
        forall|a: usize, b: usize|
            (dedup_state(refs, n).1.contains((a, b)) || dedup_state(refs, n).1.contains((b, a))) <==> exists|j: int|
                1 <= j < n && ((#[trigger] refs[j] == a && refs[j - 1] == b) || (refs[j] == b && refs[j - 1] == a)),
        dedup_state(refs, n).0 == without_repeated_segments(refs, n),
        1 <= without_repeated_segments(refs, n).len() <= n,
        without_repeated_segments(refs, n)[0] == refs[0],
    decreases n,
{
    if n > 1 {
        lemma_dedup_seen(refs, (n - 1) as nat);
        let seen = dedup_state(refs, (n - 1) as nat).1;
        let cur = refs[n - 1];
        let prev = refs[n - 2];
        assert((seen.contains((cur, prev)) || seen.contains((prev, cur))) == repeats_segment(refs, n - 1)) by {
            if repeats_segment(refs, n - 1) {
                let j = choose|j: int|
                    1 <= j < n - 1 && ((#[trigger] refs[j] == refs[n - 1] && refs[j - 1] == refs[n - 2]) || (refs[j]
                        == refs[n - 2] && refs[j - 1] == refs[n - 1]));
                assert(refs[j] == cur && refs[j - 1] == prev || refs[j] == prev && refs[j - 1] == cur);
            }
        }
        assert forall|a: usize, b: usize|
            (dedup_state(refs, n).1.contains((a, b)) || dedup_state(refs, n).1.contains((b, a))) <==> exists|j: int|
                1 <= j < n && ((#[trigger] refs[j] == a && refs[j - 1] == b) || (refs[j] == b && refs[j - 1] == a)) by {
            if exists|j: int|
                1 <= j < n && ((#[trigger] refs[j] == a && refs[j - 1] == b) || (refs[j] == b && refs[j - 1] == a)) {
                let j = choose|j: int|
                    1 <= j < n && ((#[trigger] refs[j] == a && refs[j - 1] == b) || (refs[j] == b && refs[j - 1] == a));
                if j < n - 1 {
                    assert(refs[j] == a && refs[j - 1] == b || refs[j] == b && refs[j - 1] == a);
                }
            }
            if seen.contains((a, b)) || seen.contains((b, a)) {
                let j = choose|j: int|
                    1 <= j < n - 1 && ((#[trigger] refs[j] == a && refs[j - 1] == b) || (refs[j] == b && refs[j - 1] == a));
                assert(1 <= j < n);
            }
            if (a, b) == (cur, prev) || (b, a) == (cur, prev) {
                assert(refs[n - 1] == a && refs[n - 2] == b || refs[n - 1] == b && refs[n - 2] == a);
            }
        }
        if !repeats_segment(refs, n - 1) {
            assert(dedup_state(refs, (n - 1) as nat).0.push(cur) =~= dedup_state(refs, (n - 1) as nat).0 + seq![cur]);
        } else {
            assert(dedup_state(refs, (n - 1) as nat).0 =~= dedup_state(refs, (n - 1) as nat).0 + Seq::<usize>::empty());
        }
    }
}

/// The node references that `postprocess_node_refs` keeps are the first one and each one whose
/// segment from the node before repeats, in neither direction, an earlier segment.
pub proof fn lemma_postprocess_keeps_new_segments(refs: Seq<usize>)
    ensures
        dedup_state(refs, refs.len()).0 == without_repeated_segments(refs, refs.len()),
        without_repeated_segments(refs, refs.len()).len() <= refs.len(),
        refs.len() > 0 ==> without_repeated_segments(refs, refs.len())[0] == refs[0],
{
    if refs.len() >= 1 {
        lemma_dedup_seen(refs, refs.len());
    }
}

/// Drops the nodes of a way that would repeat a segment already drawn.
pub fn postprocess_node_refs(refs: &mut Vec<usize>)
    ensures
        final(refs)@ == dedup_state(old(refs)@, old(refs)@.len()).0,
{
    if refs.len() == 0 {
        assert(old(refs)@.take(0) =~= old(refs)@);
        return;
    }
    let ghost r = refs@;
    let mut seen: Vec<(usize, usize)> = Vec::new();
    let mut kept: Vec<usize> = Vec::new();
    kept.push(refs[0]);
    assert(kept@ =~= r.take(1));
    assert(seen@.to_set() =~= Set::<(usize, usize)>::empty());
    let mut idx: usize = 1;
    while idx < refs.len()
        invariant
            1 <= idx <= r.len(),
            refs@ == r,
            kept@ == dedup_state(r, idx as nat).0,
            forall|p: (usize, usize)| seen@.contains(p) <==> dedup_state(r, idx as nat).1.contains(p),
        decreases r.len() - idx,
    {
        let cur = refs[idx];
        let prev = refs[idx - 1];
        let ghost seen0 = seen@;
        let ghost st = dedup_state(r, idx as nat);
        if !contains_pair(&seen, cur, prev) && !contains_pair(&seen, prev, cur) {
            seen.push((cur, prev));
            kept.push(cur);
            proof {
                assert(seen@ == seen0.push((cur, prev)));
                assert forall|p: (usize, usize)| seen@.contains(p) <==> st.1.insert((cur, prev)).contains(p) by {
                    if seen0.contains(p) {
                        let j = choose|j: int| 0 <= j < seen0.len() && seen0[j] == p;
                        assert(seen@[j] == p);
                    }
                    if seen@.contains(p) && p != (cur, prev) {
                        let j = choose|j: int| 0 <= j < seen@.len() && seen@[j] == p;
                        assert(j < seen0.len());
                        assert(seen0[j] == p);
                    }
                    if p == (cur, prev) {
                        assert(seen@[seen0.len() as int] == p);
                    }
                }
            }
        }
        idx = idx + 1;
    }
    *refs = kept;
}

} // verus!

verus! {

impl<E> OsmEntityStorage<E> {
    /// Every OSM id leads to an entity.
    pub open spec fn ids_valid(&self) -> bool {
        forall|k: u64| #[trigger] self.ids().contains_key(k) ==> self.ids()[k] < self.entities().len()
    }
}

/// A way that a relation refers to: its local id, and whether it bounds a hole.
#[derive(Clone, Copy, Debug, PartialEq, Eq, Structural)]
pub struct RelationWayRef {
    pub way_id: usize,
    pub is_inner: bool,
}

/// A relation being imported: its OSM id, the ways it refers to, and its tags.
pub struct RawRelation {
    pub global_id: u64,
    pub way_refs: Vec<RelationWayRef>,
    pub tags: RawTags,
}

/// The segments of a way: each pair of consecutive nodes, with their positions.
pub open spec fn way_segments(node_ids: Seq<usize>, nodes: Seq<RawNode>, is_inner: bool) -> Seq<NodeDescPair> {
    Seq::new(
        if node_ids.len() > 0 {
            (node_ids.len() - 1) as nat
        } else {
            0
        },
        |i: int|
            NodeDescPair {
                node1: NodeDesc {
                    id: node_ids[i],
                    pos: (nodes[node_ids[i] as int].lat_bits, nodes[node_ids[i] as int].lon_bits),
                },
                node2: NodeDesc {
                    id: node_ids[i + 1],
                    pos: (nodes[node_ids[i + 1] as int].lat_bits, nodes[node_ids[i + 1] as int].lon_bits),
                },
                is_inner,
            },
    )
}

/// The segments of the ways of a relation, way after way.
pub open spec fn relation_segments(refs: Seq<RelationWayRef>, ways: Seq<RawWay>, nodes: Seq<RawNode>) -> Seq<NodeDescPair>
    decreases refs.len(),
{
    if refs.len() == 0 {
        Seq::empty()
    } else {
        relation_segments(refs.drop_last(), ways, nodes) + way_segments(
            ways[refs.last().way_id as int].node_ids@,
            nodes,
            refs.last().is_inner,
        )
    }
}

/// The segments of the ways of a relation.
pub fn to_segments(refs: &Vec<RelationWayRef>, storages: &EntityStorages) -> (res: Vec<NodeDescPair>)
    requires
        storages.references_valid(),
        forall|i: int| 0 <= i < refs@.len() ==> (#[trigger] refs@[i]).way_id < storages.way_storage.entities().len(),
    ensures
        res@ == relation_segments(refs@, storages.way_storage.entities(), storages.node_storage.entities()),
{
    let ways = storages.way_storage.get_entities();
    let nodes = storages.node_storage.get_entities();
    let mut res: Vec<NodeDescPair> = Vec::new();
    let mut r: usize = 0;
    while r < refs.len()
        invariant
            r <= refs@.len(),
            ways@ == storages.way_storage.entities(),
            nodes@ == storages.node_storage.entities(),
            storages.references_valid(),
            forall|i: int| 0 <= i < refs@.len() ==> (#[trigger] refs@[i]).way_id < ways@.len(),
            res@ == relation_segments(refs@.take(r as int), ways@, nodes@),
        decreases refs@.len() - r,
    {
        let way_ref = refs[r];
        let way = &ways[way_ref.way_id];
        let ghost before = res@;
        let ghost segs = way_segments(way.node_ids@, nodes@, way_ref.is_inner);
        let mut idx: usize = 1;
        while idx < way.node_ids.len()
            invariant
                1 <= idx,
                idx <= way.node_ids@.len() || idx == 1,
                way == ways@[way_ref.way_id as int],
                way_ref.way_id < ways@.len(),
                nodes@ == storages.node_storage.entities(),
                ways@ == storages.way_storage.entities(),
                storages.references_valid(),
                segs == way_segments(way.node_ids@, nodes@, way_ref.is_inner),
                res@ == before + segs.take(idx - 1),
            decreases way.node_ids@.len() - idx,
        {
            let a = way.node_ids[idx - 1];
            let b = way.node_ids[idx];
            assert(way.node_ids@[idx - 1] < nodes@.len());
            assert(way.node_ids@[idx as int] < nodes@.len());
            let na = &nodes[a];
            let nb = &nodes[b];
            res.push(
                NodeDescPair::new(NodeDesc::new(a, na.lat_bits, na.lon_bits), NodeDesc::new(b, nb.lat_bits, nb.lon_bits), way_ref.is_inner),
            );
            idx = idx + 1;
            assert(res@ =~= before + segs.take(idx - 1));
        }
        proof {
            assert(refs@.take(r + 1).drop_last() =~= refs@.take(r as int));
            assert(refs@.take(r + 1).last() == way_ref);
            if way.node_ids@.len() == 0 {
                assert(segs.len() == 0);
                assert(segs.take(idx - 1) =~= segs);
            } else {
                assert(idx == way.node_ids@.len());
                assert(segs.len() == idx - 1);
                assert(segs.take(idx - 1) =~= segs);
            }
        }
        r = r + 1;
    }
    assert(refs@.take(refs@.len() as int) =~= refs@);
    res
}

/// Whether the tags hold `type=multipolygon`.
pub open spec fn is_multipolygon_relation(tags: Seq<(Seq<char>, Seq<char>)>) -> bool {
    exists|i: int| 0 <= i < tags.len() && tags[i] == ("type"@, "multipolygon"@)
}

/// Whether the tags hold `type=multipolygon`.
pub fn has_multipolygon_type(tags: &RawTags) -> (res: bool)
    ensures
        res == is_multipolygon_relation(tags@),
{
    let entries = tags.entries();
    let mut i: usize = 0;
    while i < entries.len()
        invariant
            i <= entries@.len(),
            entries_view(entries@) == tags@,
            forall|j: int| 0 <= j < i ==> tags@[j] != ("type"@, "multipolygon"@),
        decreases entries@.len() - i,
    {
        assert(tags@[i as int] == (entries@[i as int].0@, entries@[i as int].1@));
        if str_eq(entries[i].0.as_str(), "type") && str_eq(entries[i].1.as_str(), "multipolygon") {
            return true;
        }
        i = i + 1;
    }
    false
}

} // verus!

verus! {

/// The entity whose element is open while a document is imported.
pub enum Pending {
    Nothing,
    /// A node whose coordinates are being parsed: its id and its `lat` and `lon` attributes.
    NodeCoordinates { global_id: u64, lat: String, lon: Option<String> },
    Node(RawNode),
    Way(RawWay),
    Relation(RawRelation),
}

pub enum PendingView {
    Nothing,
    NodeCoordinates { global_id: u64, lat: Seq<char>, lon: Option<Seq<char>> },
    Node { global_id: u64, lat_bits: u64, lon_bits: u64, tags: Seq<(Seq<char>, Seq<char>)> },
    Way { global_id: u64, node_ids: Seq<usize>, tags: Seq<(Seq<char>, Seq<char>)> },
    Relation { global_id: u64, way_refs: Seq<RelationWayRef>, tags: Seq<(Seq<char>, Seq<char>)> },
}

pub open spec fn opt_string_view(s: Option<String>) -> Option<Seq<char>> {
    match s {
        Some(t) => Some(t@),
        None => None,
    }
}

impl View for Pending {
    type V = PendingView;

    open spec fn view(&self) -> PendingView {
        match self {
            Pending::Nothing => PendingView::Nothing,
            Pending::NodeCoordinates { global_id, lat, lon } => PendingView::NodeCoordinates {
                global_id: *global_id,
                lat: lat@,
                lon: opt_string_view(*lon),
            },
            Pending::Node(n) => PendingView::Node {
                global_id: n.global_id,
                lat_bits: n.lat_bits,
                lon_bits: n.lon_bits,
                tags: n.tags@,
            },
            Pending::Way(w) => PendingView::Way { global_id: w.global_id, node_ids: w.node_ids@, tags: w.tags@ },
            Pending::Relation(r) => PendingView::Relation {
                global_id: r.global_id,
                way_refs: r.way_refs@,
                tags: r.tags@,
            },
        }
    }
}

/// What the caller of the importer is to do next.
pub enum Step {
    Continue,
    /// Read the texts of a node's latitude and longitude (`f64`) and hand their bits to
    /// `Importer::node_coordinates`.
    ParseCoordinates { lat: String, lon: Option<String> },
    /// A multipolygon relation was refused: its id, how many rings were built, and how many
    /// segments were left unmatched.
    RelationRefused { relation_id: u64, rings: usize, unmatched: usize },
}

pub enum StepView {
    Continue,
    ParseCoordinates { lat: Seq<char>, lon: Option<Seq<char>> },
    RelationRefused { relation_id: u64, rings: usize, unmatched: usize },
}

impl View for Step {
    type V = StepView;

    open spec fn view(&self) -> StepView {
        match self {
            Step::Continue => StepView::Continue,
            Step::ParseCoordinates { lat, lon } => StepView::ParseCoordinates { lat: lat@, lon: opt_string_view(*lon) },
            Step::RelationRefused { relation_id, rings, unmatched } => StepView::RelationRefused {
                relation_id: *relation_id,
                rings: *rings,
                unmatched: *unmatched,
            },
        }
    }
}

/// The entity that an element opens, where it is one that is imported: a node waits for its
/// coordinates.
pub open spec fn start_spec(name: Seq<char>, attrs: Seq<(Seq<char>, Seq<char>)>) -> Result<PendingView, ImportErrorView> {
    if name == "node"@ {
        match required_u64(name, attrs, "id"@) {
            Err(e) => Err(e),
            Ok(id) => match required_attr(name, attrs, "lat"@) {
                Err(e) => Err(e),
                Ok(lat) => Ok(PendingView::NodeCoordinates { global_id: id, lat, lon: attr_value(attrs, "lon"@) }),
            },
        }
    } else if name == "way"@ {
        match required_u64(name, attrs, "id"@) {
            Err(e) => Err(e),
            Ok(id) => Ok(PendingView::Way { global_id: id, node_ids: Seq::empty(), tags: Seq::empty() }),
        }
    } else if name == "relation"@ {
        match required_u64(name, attrs, "id"@) {
            Err(e) => Err(e),
            Ok(id) => Ok(PendingView::Relation { global_id: id, way_refs: Seq::empty(), tags: Seq::empty() }),
        }
    } else {
        Ok(PendingView::Nothing)
    }
}

/// What an element inside an open entity adds to it.
pub enum Change {
    Unchanged,
    Tag(Seq<char>, Seq<char>),
    NodeRef(usize),
    WayRef(RelationWayRef),
}

/// What the element `name` inside the open entity `pv` adds to it: a tag; for a way, the node
/// that an `nd` refers to, where it was imported; for a relation, the way that a `member` of
/// type `way` refers to, where it was imported, with whether its role is `inner`.
pub open spec fn sub_spec(
    pv: PendingView,
    name: Seq<char>,
    attrs: Seq<(Seq<char>, Seq<char>)>,
    node_ids: Map<u64, usize>,
    way_ids: Map<u64, usize>,
) -> Result<Change, ImportErrorView> {
    match tag_of(name, attrs) {
        Some(Err(e)) => Err(e),
        Some(Ok((k, v))) => Ok(Change::Tag(k, v)),
        None => match pv {
            PendingView::Way { .. } => if name == "nd"@ {
                match required_u64(name, attrs, "ref"@) {
                    Err(e) => Err(e),
                    Ok(r) => Ok(
                        if node_ids.contains_key(r) {
                            Change::NodeRef(node_ids[r])
                        } else {
                            Change::Unchanged
                        },
                    ),
                }
            } else {
                Ok(Change::Unchanged)
            },
            PendingView::Relation { .. } => if name == "member"@ {
                match required_attr(name, attrs, "type"@) {
                    Err(e) => Err(e),
                    Ok(t) => if t == "way"@ {
                        match required_u64(name, attrs, "ref"@) {
                            Err(e) => Err(e),
                            Ok(r) => if way_ids.contains_key(r) {
                                match required_attr(name, attrs, "role"@) {
                                    Err(e) => Err(e),
                                    Ok(role) => Ok(
                                        Change::WayRef(RelationWayRef { way_id: way_ids[r], is_inner: role == "inner"@ }),
                                    ),
                                }
                            } else {
                                Ok(Change::Unchanged)
                            },
                        }
                    } else {
                        Ok(Change::Unchanged)
                    },
                }
            } else {
                Ok(Change::Unchanged)
            },
            _ => Ok(Change::Unchanged),
        },
    }
}

/// Whether `new` is the open entity `old` with the change `c`.
pub open spec fn changed(old: PendingView, new: PendingView, c: Change) -> bool {
    match c {
        Change::Unchanged => new == old,
        Change::Tag(k, v) => match old {
            PendingView::Node { global_id, lat_bits, lon_bits, tags } => new matches PendingView::Node {
                global_id: g,
                lat_bits: la,
                lon_bits: lo,
                tags: t,
            } && g == global_id && la == lat_bits && lo == lon_bits && tag_set(tags, t, k, v),
            PendingView::Way { global_id, node_ids, tags } => new matches PendingView::Way {
                global_id: g,
                node_ids: n,
                tags: t,
            } && g == global_id && n == node_ids && tag_set(tags, t, k, v),
            PendingView::Relation { global_id, way_refs, tags } => new matches PendingView::Relation {
                global_id: g,
                way_refs: w,
                tags: t,
            } && g == global_id && w == way_refs && tag_set(tags, t, k, v),
            _ => false,
        },
        Change::NodeRef(r) => match old {
            PendingView::Way { global_id, node_ids, tags } => new == PendingView::Way {
                global_id,
                node_ids: node_ids.push(r),
                tags,
            },
            _ => false,
        },
        Change::WayRef(w) => match old {
            PendingView::Relation { global_id, way_refs, tags } => new == PendingView::Relation {
                global_id,
                way_refs: way_refs.push(w),
                tags,
            },
            _ => false,
        },
    }
}

/// Whether the local ids are below `n`.
pub open spec fn ids_below(ids: Seq<usize>, n: nat) -> bool {
    forall|i: int| 0 <= i < ids.len() ==> #[trigger] ids[i] < n
}

/// Whether the ways' local ids are below `n`.
pub open spec fn way_refs_below(refs: Seq<RelationWayRef>, n: nat) -> bool {
    forall|i: int| 0 <= i < refs.len() ==> (#[trigger] refs[i]).way_id < n
}

/// The state of an import of an OSM XML document: the entities imported so far and the one
/// whose element is open.
pub struct Importer {
    storages: EntityStorages,
    pending: Pending,
}

impl Importer {
    pub closed spec fn storages(&self) -> EntityStorages {
        self.storages
    }

    pub closed spec fn pending(&self) -> PendingView {
        self.pending@
    }

    /// The OSM ids lead to entities, the entities' references lead to entities, and so do
    /// those of the open entity.
    pub closed spec fn wf(&self) -> bool {
        let s = self.storages;
        &&& s.node_storage.ids_valid()
        &&& s.way_storage.ids_valid()
        &&& s.multipolygon_storage.ids_valid()
        &&& s.references_valid()
        &&& match self.pending@ {
            PendingView::Way { node_ids, .. } => ids_below(node_ids, s.node_storage.entities().len()),
            PendingView::Relation { way_refs, .. } => way_refs_below(way_refs, s.way_storage.entities().len()),
            _ => true,
        }
    }

    /// An import that has read nothing yet.
    pub fn new() -> (res: Importer)
        ensures
            res.wf(),
            res.pending() == PendingView::Nothing,
            res.storages().node_storage.entities().len() == 0,
            res.storages().way_storage.entities().len() == 0,
            res.storages().polygon_storage@.len() == 0,
            res.storages().multipolygon_storage.entities().len() == 0,
    {
        Importer {
            storages: EntityStorages {
                node_storage: OsmEntityStorage::new(),
                way_storage: OsmEntityStorage::new(),
                polygon_storage: Vec::new(),
                multipolygon_storage: OsmEntityStorage::new(),
            },
            pending: Pending::Nothing,
        }
    }
}

} // verus!

verus! {

/// Whether `s1` is `s0` with the entity `last` added under the OSM id `global_id`.
pub open spec fn added<E>(s0: OsmEntityStorage<E>, s1: OsmEntityStorage<E>, global_id: u64, last: spec_fn(E) -> bool) -> bool {
    &&& s1.entities().len() == s0.entities().len() + 1
    &&& s1.entities().drop_last() == s0.entities()
    &&& last(s1.entities().last())
    &&& s1.ids() == s0.ids().insert(global_id, s0.entities().len() as usize)
}

/// What the end of the element `name` does: where it closes the open entity, the entity is
/// added (a way without its repeated segments; a relation is only checked as a multipolygon,
/// and refused where it has segments, for no ring is accepted); otherwise nothing changes.
pub open spec fn end_effect(
    s0: EntityStorages,
    s1: EntityStorages,
    pv0: PendingView,
    pv1: PendingView,
    name: Seq<char>,
    step: StepView,
) -> bool {
    match pv0 {
        PendingView::Node { global_id, lat_bits, lon_bits, tags } => if name == "node"@ {
            &&& pv1 == PendingView::Nothing
            &&& step == StepView::Continue
            &&& added(
                s0.node_storage,
                s1.node_storage,
                global_id,
                |n: RawNode| n.global_id == global_id && n.lat_bits == lat_bits && n.lon_bits == lon_bits && n.tags@ == tags,
            )
            &&& s1.way_storage == s0.way_storage
            &&& s1.polygon_storage == s0.polygon_storage
            &&& s1.multipolygon_storage == s0.multipolygon_storage
        } else {
            pv1 == pv0 && s1 == s0 && step == StepView::Continue
        },
        PendingView::Way { global_id, node_ids, tags } => if name == "way"@ {
            &&& pv1 == PendingView::Nothing
            &&& step == StepView::Continue
            &&& added(
                s0.way_storage,
                s1.way_storage,
                global_id,
                |w: RawWay| w.global_id == global_id && w.node_ids@ == dedup_state(node_ids, node_ids.len()).0 && w.tags@ == tags,
            )
            &&& s1.node_storage == s0.node_storage
            &&& s1.polygon_storage == s0.polygon_storage
            &&& s1.multipolygon_storage == s0.multipolygon_storage
        } else {
            pv1 == pv0 && s1 == s0 && step == StepView::Continue
        },
        PendingView::Relation { global_id, way_refs, tags } => if name == "relation"@ {
            let segs = relation_segments(way_refs, s0.way_storage.entities(), s0.node_storage.entities());
            &&& pv1 == PendingView::Nothing
            &&& s1 == s0
            &&& step == if is_multipolygon_relation(tags) && segs.len() > 0 {
                StepView::RelationRefused { relation_id: global_id, rings: 0, unmatched: segs.len() as usize }
            } else {
                StepView::Continue
            }
        } else {
            pv1 == pv0 && s1 == s0 && step == StepView::Continue
        },
        _ => pv1 == pv0 && s1 == s0 && step == StepView::Continue,
    }
}

/// The name of the element of an open entity.
pub open spec fn pending_name(pv: PendingView) -> Seq<char> {
    match pv {
        PendingView::Node { .. } => "node"@,
        PendingView::Way { .. } => "way"@,
        PendingView::Relation { .. } => "relation"@,
        _ => Seq::empty(),
    }
}

impl Importer {
    /// Handles the start of an element: outside any entity it may open a node, a way or a
    /// relation; inside one, it may add a tag, a node reference (to a way) or a way reference
    /// (to a relation).
    pub fn start_element(&mut self, name: &str, attrs: &Vec<(String, String)>) -> (res: Result<Step, ImportError>)
        requires
            old(self).wf(),
            !(old(self).pending() is NodeCoordinates),
        ensures
            final(self).wf(),
            final(self).storages() == old(self).storages(),
            res is Err ==> final(self).pending() == old(self).pending(),
            match old(self).pending() {
                PendingView::Nothing => match start_spec(name@, attrs_view(attrs@)) {
                    Err(e) => res matches Err(x) && x@ == e,
                    Ok(pv) => res matches Ok(step) && final(self).pending() == pv && step@ == (match pv {
                        PendingView::NodeCoordinates { lat, lon, .. } => StepView::ParseCoordinates { lat, lon },
                        _ => StepView::Continue,
                    }),
                },
                pv => match sub_spec(
                    pv,
                    name@,
                    attrs_view(attrs@),
                    old(self).storages().node_storage.ids(),
                    old(self).storages().way_storage.ids(),
                ) {
                    Err(e) => res matches Err(x) && x@ == e,
                    Ok(c) => res matches Ok(step) && step@ == StepView::Continue && changed(pv, final(self).pending(), c),
                },
            },
    {
        let mut p = Pending::Nothing;
        std::mem::swap(&mut p, &mut self.pending);
        match p {
            Pending::Nothing => {
                let is_node = str_eq(name, "node");
                let is_way = str_eq(name, "way");
                let is_relation = str_eq(name, "relation");
                if !is_node && !is_way && !is_relation {
                    return Ok(Step::Continue);
                }
                let id = match get_id(name, attrs) {
                    Ok(v) => v,
                    Err(e) => return Err(e),
                };
                if is_node {
                    let lat = match get_required_attr(name, attrs, "lat") {
                        Ok(v) => v,
                        Err(e) => return Err(e),
                    };
                    let lon = match get_required_attr(name, attrs, "lon") {
                        Ok(v) => Some(v),
                        Err(_) => None,
                    };
                    let lon_copy = match &lon {
                        Some(v) => Some(v.clone()),
                        None => None,
                    };
                    self.pending = Pending::NodeCoordinates { global_id: id, lat: lat.clone(), lon: lon_copy };
                    Ok(Step::ParseCoordinates { lat, lon })
                } else if is_way {
                    self.pending = Pending::Way(RawWay { global_id: id, node_ids: Vec::new(), tags: RawTags::new() });
                    Ok(Step::Continue)
                } else {
                    self.pending = Pending::Relation(
                        RawRelation { global_id: id, way_refs: Vec::new(), tags: RawTags::new() },
                    );
                    Ok(Step::Continue)
                }
            },
            Pending::NodeCoordinates { global_id, lat, lon } => {
                self.pending = Pending::NodeCoordinates { global_id, lat, lon };
                Ok(Step::Continue)
            },
            Pending::Node(node) => {
                let mut node = node;
                let r = try_add_tag(name, attrs, &mut node.tags);
                self.pending = Pending::Node(node);
                match r {
                    Ok(_) => Ok(Step::Continue),
                    Err(e) => Err(e),
                }
            },
            Pending::Way(way) => {
                let mut way = way;
                let ghost ids0 = way.node_ids@;
                assert(ids_below(ids0, self.storages.node_storage.entities().len()));
                match try_add_tag(name, attrs, &mut way.tags) {
                    Err(e) => {
                        self.pending = Pending::Way(way);
                        return Err(e);
                    },
                    Ok(true) => {
                        self.pending = Pending::Way(way);
                        return Ok(Step::Continue);
                    },
                    Ok(false) => {},
                }
                if str_eq(name, "nd") {
                    match get_ref(name, attrs, &self.storages.node_storage) {
                        Err(e) => {
                            self.pending = Pending::Way(way);
                            return Err(e);
                        },
                        Ok(Some(r)) => {
                            way.node_ids.push(r);
                        },
                        Ok(None) => {},
                    }
                }
                self.pending = Pending::Way(way);
                Ok(Step::Continue)
            },
            Pending::Relation(relation) => {
                let mut relation = relation;
                let ghost refs0 = relation.way_refs@;
                assert(way_refs_below(refs0, self.storages.way_storage.entities().len()));
                match try_add_tag(name, attrs, &mut relation.tags) {
                    Err(e) => {
                        self.pending = Pending::Relation(relation);
                        return Err(e);
                    },
                    Ok(true) => {
                        self.pending = Pending::Relation(relation);
                        return Ok(Step::Continue);
                    },
                    Ok(false) => {},
                }
                if str_eq(name, "member") {
                    let member_type = match get_required_attr(name, attrs, "type") {
                        Ok(t) => t,
                        Err(e) => {
                            self.pending = Pending::Relation(relation);
                            return Err(e);
                        },
                    };
                    if str_eq(member_type.as_str(), "way") {
                        match get_ref(name, attrs, &self.storages.way_storage) {
                            Err(e) => {
                                self.pending = Pending::Relation(relation);
                                return Err(e);
                            },
                            Ok(Some(r)) => {
                                let role = match get_required_attr(name, attrs, "role") {
                                    Ok(v) => v,
                                    Err(e) => {
                                        self.pending = Pending::Relation(relation);
                                        return Err(e);
                                    },
                                };
                                let is_inner = str_eq(role.as_str(), "inner");
                                relation.way_refs.push(RelationWayRef { way_id: r, is_inner });
                            },
                            Ok(None) => {},
                        }
                    }
                }
                self.pending = Pending::Relation(relation);
                Ok(Step::Continue)
            },
        }
    }
}

} // verus!

verus! {

impl Importer {
    /// Hands over the coordinates of the node whose element was opened, as the bits of their
    /// `f64` values, `None` where the text did not parse: the node is opened where both
    /// parsed; otherwise the error is the first of: the latitude does not parse, the
    /// longitude is missing, the longitude does not parse.
    pub fn node_coordinates(&mut self, lat_bits: Option<u64>, lon_bits: Option<u64>) -> (res: Result<(), ImportError>)
        requires
            old(self).wf(),
            old(self).pending() is NodeCoordinates,
        ensures
            final(self).wf(),
            final(self).storages() == old(self).storages(),
            res is Err ==> final(self).pending() == old(self).pending(),
            match old(self).pending() {
                PendingView::NodeCoordinates { global_id, lat, lon } => match (lat_bits, lon, lon_bits) {
                    (None, _, _) => res matches Err(x) && x@ == ImportErrorView::BadValue {
                        element: "node"@,
                        attribute: "lat"@,
                        value: lat,
                    },
                    (Some(_), None, _) => res matches Err(x) && x@ == ImportErrorView::MissingAttribute {
                        element: "node"@,
                        attribute: "lon"@,
                    },
                    (Some(_), Some(lon_text), None) => res matches Err(x) && x@ == ImportErrorView::BadValue {
                        element: "node"@,
                        attribute: "lon"@,
                        value: lon_text,
                    },
                    (Some(a), Some(_), Some(b)) => res is Ok && final(self).pending() == PendingView::Node {
                        global_id,
                        lat_bits: a,
                        lon_bits: b,
                        tags: Seq::empty(),
                    },
                },
                _ => false,
            },
    {
        let mut p = Pending::Nothing;
        std::mem::swap(&mut p, &mut self.pending);
        match p {
            Pending::NodeCoordinates { global_id, lat, lon } => {
                let a = match lat_bits {
                    Some(a) => a,
                    None => {
                        let err = ImportError::BadValue {
                            element: "node".to_owned(),
                            attribute: "lat".to_owned(),
                            value: lat.clone(),
                        };
                        self.pending = Pending::NodeCoordinates { global_id, lat, lon };
                        return Err(err);
                    },
                };
                let lon_text = match lon {
                    Some(t) => t,
                    None => {
                        self.pending = Pending::NodeCoordinates { global_id, lat, lon: None };
                        return Err(ImportError::MissingAttribute { element: "node".to_owned(), attribute: "lon".to_owned() });
                    },
                };
                let b = match lon_bits {
                    Some(b) => b,
                    None => {
                        let err = ImportError::BadValue {
                            element: "node".to_owned(),
                            attribute: "lon".to_owned(),
                            value: lon_text.clone(),
                        };
                        self.pending = Pending::NodeCoordinates { global_id, lat, lon: Some(lon_text) };
                        return Err(err);
                    },
                };
                self.pending = Pending::Node(RawNode { global_id, lat_bits: a, lon_bits: b, tags: RawTags::new() });
                Ok(())
            },
            other => {
                self.pending = other;
                Ok(())
            },
        }
    }

    /// Handles the end of an element; see `end_effect`.
    pub fn end_element(&mut self, name: &str) -> (res: Step)
        requires
            old(self).wf(),
            !(old(self).pending() is NodeCoordinates),
        ensures
            final(self).wf(),
            end_effect(old(self).storages(), final(self).storages(), old(self).pending(), final(self).pending(), name@, res@),
    {
        let mut p = Pending::Nothing;
        std::mem::swap(&mut p, &mut self.pending);
        let res = match p {
            Pending::Node(node) => {
                if str_eq(name, "node") {
                    let id = node.global_id;
                    self.storages.node_storage.add(id, node);
                    proof {
                        let s = self.storages;
                        assert forall|k: u64| #[trigger] s.node_storage.ids().contains_key(k) implies s.node_storage.ids()[k]
                            < s.node_storage.entities().len() by {
                            if k != id {
                                assert(old(self).storages.node_storage.ids().contains_key(k));
                            }
                        }
                        assert(s.node_storage.entities().drop_last() =~= old(self).storages.node_storage.entities());
                        lemma_more_nodes_keep_references(old(self).storages, s);
                    }
                } else {
                    self.pending = Pending::Node(node);
                }
                Step::Continue
            },
            Pending::Way(way) => {
                if str_eq(name, "way") {
                    let mut way = way;
                    let ghost ids0 = way.node_ids@;
                    assert(ids_below(ids0, self.storages.node_storage.entities().len()));
                    postprocess_node_refs(&mut way.node_ids);
                    proof {
                        lemma_dedup_below(ids0, ids0.len(), self.storages.node_storage.entities().len());
                    }
                    let id = way.global_id;
                    self.storages.way_storage.add(id, way);
                    proof {
                        let s = self.storages;
                        assert forall|k: u64| #[trigger] s.way_storage.ids().contains_key(k) implies s.way_storage.ids()[k]
                            < s.way_storage.entities().len() by {
                            if k != id {
                                assert(old(self).storages.way_storage.ids().contains_key(k));
                            }
                        }
                        assert(s.way_storage.entities().drop_last() =~= old(self).storages.way_storage.entities());
                        lemma_more_ways_keep_references(old(self).storages, s);
                    }
                } else {
                    self.pending = Pending::Way(way);
                }
                Step::Continue
            },
            Pending::Relation(relation) => {
                if str_eq(name, "relation") {
                    assert(way_refs_below(relation.way_refs@, self.storages.way_storage.entities().len()));
                    if has_multipolygon_type(&relation.tags) {
                        let segments = to_segments(&relation.way_refs, &self.storages);
                        let (rings, unmatched) = convert_relation_to_multipolygon(&segments);
                        if unmatched > 0 {
                            Step::RelationRefused { relation_id: relation.global_id, rings, unmatched }
                        } else {
                            Step::Continue
                        }
                    } else {
                        Step::Continue
                    }
                } else {
                    self.pending = Pending::Relation(relation);
                    Step::Continue
                }
            },
            other => {
                self.pending = other;
                Step::Continue
            },
        };
        res
    }

    /// Handles the end of the document: the open entity, if any, is closed as at the end of
    /// its element.
    pub fn end_document(&mut self) -> (res: Step)
        requires
            old(self).wf(),
            !(old(self).pending() is NodeCoordinates),
        ensures
            final(self).wf(),
            end_effect(
                old(self).storages(),
                final(self).storages(),
                old(self).pending(),
                final(self).pending(),
                pending_name(old(self).pending()),
                res@,
            ),
    {
        let name = match &self.pending {
            Pending::Node(_) => "node",
            Pending::Way(_) => "way",
            Pending::Relation(_) => "relation",
            _ => "",
        };
        proof {
            reveal_strlit("node");
            reveal_strlit("way");
            reveal_strlit("relation");
            reveal_strlit("");
        }
        self.end_element(name)
    }

    /// The entities imported.
    pub fn into_storages(self) -> (res: EntityStorages)
        requires
            self.wf(),
        ensures
            res == self.storages(),
            res.references_valid(),
    {
        self.storages
    }
}

/// The segments kept of a way refer to the same nodes.
proof fn lemma_dedup_below(refs: Seq<usize>, n: nat, bound: nat)
    requires
        ids_below(refs, bound),
        n <= refs.len(),
    ensures
        ids_below(dedup_state(refs, n).0, bound),
    decreases n,
{
    if n > 1 {
        lemma_dedup_below(refs, (n - 1) as nat, bound);
        let prev = dedup_state(refs, (n - 1) as nat).0;
        assert(refs[n - 1] < bound);
        assert forall|i: int| 0 <= i < prev.len() + 1 implies #[trigger] prev.push(refs[n - 1])[i] < bound by {
            if i < prev.len() {
                assert(prev.push(refs[n - 1])[i] == prev[i]);
            }
        }
    } else {
        assert forall|i: int| 0 <= i < refs.take(n as int).len() implies #[trigger] refs.take(n as int)[i] < bound by {
            assert(refs.take(n as int)[i] == refs[i]);
        }
    }
}

/// Adding a node keeps every reference valid.
proof fn lemma_more_nodes_keep_references(s0: EntityStorages, s1: EntityStorages)
    requires
        s0.references_valid(),
        s1.node_storage.entities().len() == s0.node_storage.entities().len() + 1,
        s1.way_storage == s0.way_storage,
        s1.polygon_storage == s0.polygon_storage,
        s1.multipolygon_storage == s0.multipolygon_storage,
    ensures
        s1.references_valid(),
{
}

/// Adding a way whose nodes exist keeps every reference valid.
proof fn lemma_more_ways_keep_references(s0: EntityStorages, s1: EntityStorages)
    requires
        s0.references_valid(),
        s1.way_storage.entities().len() == s0.way_storage.entities().len() + 1,
        s1.way_storage.entities().drop_last() == s0.way_storage.entities(),
        ids_below(s1.way_storage.entities().last().node_ids@, s0.node_storage.entities().len()),
        s1.node_storage == s0.node_storage,
        s1.polygon_storage == s0.polygon_storage,
        s1.multipolygon_storage == s0.multipolygon_storage,
    ensures
        s1.references_valid(),
{
    let w0 = s0.way_storage.entities();
    let w1 = s1.way_storage.entities();
    assert forall|i: int, j: int| 0 <= i < w1.len() && 0 <= j < w1[i].node_ids@.len() implies #[trigger] w1[i].node_ids@[j]
        < s1.node_storage.entities().len() by {
        if i < w0.len() {
            assert(w1[i] == w0[i]);
        }
    }
}

} // verus!

verus! {

/// Sorted tags have no two tags with one key.
proof fn lemma_sorted_keys_unique(s: Seq<(Seq<char>, Seq<char>)>, i: int, j: int)
    requires
        tags_sorted(s),
        0 <= i < s.len(),
        0 <= j < s.len(),
        s[i].0 == s[j].0,
    ensures
        i == j,
{
    if i < j {
        assert(bytes_lt(key_bytes(s[i].0), key_bytes(s[j].0)));
        lemma_bytes_lt_asymmetric(key_bytes(s[i].0), key_bytes(s[j].0));
    } else if j < i {
        assert(bytes_lt(key_bytes(s[j].0), key_bytes(s[i].0)));
        lemma_bytes_lt_asymmetric(key_bytes(s[j].0), key_bytes(s[i].0));
    }
}

/// Setting a tag on sorted tags sets the key to the value in the tags as a map, and keeps
/// every other tag.
pub proof fn lemma_tag_set_map(
    old: Seq<(Seq<char>, Seq<char>)>,
    new: Seq<(Seq<char>, Seq<char>)>,
    key: Seq<char>,
    value: Seq<char>,
)
    requires
        tags_sorted(old),
        tag_set(old, new, key, value),
    ensures
        tags_map(new) == tags_map(old).insert(key, value),
{
    let i = choose|i: int|
        0 <= i <= old.len() && {
            ||| new == old.insert(i, (key, value)) && (i < old.len() ==> old[i].0 != key)
            ||| i < old.len() && old[i].0 == key && new == old.update(i, (key, value))
        };
    let m_new = tags_map(new);
    let m_old = tags_map(old).insert(key, value);
    assert forall|k: Seq<char>| m_new.dom().contains(k) <==> m_old.dom().contains(k) by {
        if m_new.dom().contains(k) {
            let a = choose|a: int| 0 <= a < new.len() && new[a].0 == k;
            if k != key {
                if new == old.insert(i, (key, value)) && (i < old.len() ==> old[i].0 != key) {
                    if a < i {
                        assert(old[a].0 == k);
                    } else {
                        assert(a != i);
                        assert(old[a - 1].0 == k);
                    }
                } else {
                    assert(old[a].0 == k);
                }
            }
        }
        if m_old.dom().contains(k) {
            if k == key {
                assert(new[i].0 == key);
            } else {
                let a = choose|a: int| 0 <= a < old.len() && old[a].0 == k;
                if new == old.insert(i, (key, value)) && (i < old.len() ==> old[i].0 != key) {
                    if a < i {
                        assert(new[a].0 == k);
                    } else {
                        assert(new[a + 1].0 == k);
                    }
                } else {
                    assert(new[a].0 == k);
                }
            }
        }
    }
    assert forall|k: Seq<char>| #[trigger] m_new.dom().contains(k) implies m_new[k] == m_old[k] by {
        let a = choose|a: int| 0 <= a < new.len() && new[a].0 == k;
        if k == key {
            assert(new[i].0 == key);
            lemma_sorted_keys_unique(new, a, i);
        } else {
            if new == old.insert(i, (key, value)) && (i < old.len() ==> old[i].0 != key) {
                let b = if a < i {
                    a
                } else {
                    a - 1
                };
                assert(old[b] == new[a]);
                let c = choose|c: int| 0 <= c < old.len() && old[c].0 == k;
                lemma_sorted_keys_unique(old, b, c);
            } else {
                assert(old[a] == new[a]);
                let c = choose|c: int| 0 <= c < old.len() && old[c].0 == k;
                lemma_sorted_keys_unique(old, a, c);
            }
        }
    }
    assert(m_new =~= m_old);
}

} // verus!
