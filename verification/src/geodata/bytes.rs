use vstd::prelude::*;
use vstd::utf8::{decode_utf8, valid_utf8};

verus! {

/// The result of comparing two byte strings.
#[derive(Clone, Copy, Debug, PartialEq, Eq, Structural)]
pub enum Order {
    Less,
    Equal,
    Greater,
}

/// Whether `a` comes before `b` in lexicographic byte order (the order of `str`).
pub open spec fn bytes_lt(a: Seq<u8>, b: Seq<u8>) -> bool
    decreases a.len(),
{
    if a.len() == 0 {
        b.len() > 0
    } else if b.len() == 0 {
        false
    } else if a[0] != b[0] {
        a[0] < b[0]
    } else {
        bytes_lt(a.drop_first(), b.drop_first())
    }
}

/// The byte order is a strict order: no string comes before itself, and of two strings at
/// most one comes before the other.
pub proof fn lemma_bytes_lt_asymmetric(a: Seq<u8>, b: Seq<u8>)
    ensures
        bytes_lt(a, b) ==> !bytes_lt(b, a),
        bytes_lt(a, b) ==> a != b,
    decreases a.len(),
{
    if a.len() > 0 && b.len() > 0 && a[0] == b[0] {
        lemma_bytes_lt_asymmetric(a.drop_first(), b.drop_first());
        if a == b {
            assert(a.drop_first() == b.drop_first());
        }
    }
}

/// Of two different strings, one comes before the other.
pub proof fn lemma_bytes_lt_total(a: Seq<u8>, b: Seq<u8>)
    ensures
        a != b ==> bytes_lt(a, b) || bytes_lt(b, a),
    decreases a.len(),
{
    if a.len() > 0 && b.len() > 0 && a[0] == b[0] {
        lemma_bytes_lt_total(a.drop_first(), b.drop_first());
        if a.drop_first() == b.drop_first() {
            assert(a == seq![a[0]] + a.drop_first());
            assert(b == seq![b[0]] + b.drop_first());
        }
    } else if a.len() == 0 && b.len() == 0 {
        assert(a == b);
    }
}

pub open spec fn order_of(a: Seq<u8>, b: Seq<u8>) -> Order {
    if a == b {
        Order::Equal
    } else if bytes_lt(a, b) {
        Order::Less
    } else {
        Order::Greater
    }
}

/// Compares the bytes `data[start..start + len]` with `key`.
pub fn compare_range(data: &Vec<u8>, start: usize, len: usize, key: &[u8]) -> (res: Order)
    requires
        start + len <= data@.len(),
    ensures
        res == order_of(data@.subrange(start as int, start + len), key@),
        res is Greater ==> bytes_lt(key@, data@.subrange(start as int, start + len)),
{
    let ghost a = data@.subrange(start as int, start + len);
    let ghost b = key@;
    let n = data.len();
    let mut i: usize = 0;
    assert(a.skip(0) == a);
    assert(b.skip(0) == b);
    while i < len && i < key.len()
        invariant
            n == data@.len(),
            i <= len,
            i <= b.len(),
            start + len <= data@.len(),
            a == data@.subrange(start as int, start + len),
            b == key@,
            a.take(i as int) == b.take(i as int),
            bytes_lt(a, b) == bytes_lt(a.skip(i as int), b.skip(i as int)),
            bytes_lt(b, a) == bytes_lt(b.skip(i as int), a.skip(i as int)),
        decreases len - i,
    {
        let x = data[start + i];
        let y = key[i];
        assert(a.skip(i as int)[0] == x);
        assert(b.skip(i as int)[0] == y);
        if x != y {
            proof {
                lemma_bytes_lt_asymmetric(a, b);
                if a == b {
                    assert(a[i as int] == b[i as int]);
                }
            }
            if x < y {
                return Order::Less;
            } else {
                return Order::Greater;
            }
        }
        assert(a.skip(i as int).drop_first() == a.skip(i + 1));
        assert(b.skip(i as int).drop_first() == b.skip(i + 1));
        assert(a.take(i + 1) == a.take(i as int).push(x));
        assert(b.take(i + 1) == b.take(i as int).push(y));
        i = i + 1;
    }
    proof {
        lemma_bytes_lt_asymmetric(a, b);
        lemma_bytes_lt_total(a, b);
    }
    if i == len && i == key.len() {
        assert(a == a.take(i as int));
        assert(b == b.take(i as int));
        Order::Equal
    } else if i == len {
        assert(a == a.take(i as int));
        assert(b.take(i as int) == a);
        assert(a != b);
        Order::Less
    } else {
        assert(b == b.take(i as int));
        assert(a.take(i as int) == b);
        assert(a != b);
        Order::Greater
    }
}

/// A copy of `data[start..start + len]`.
pub fn copy_range(data: &Vec<u8>, start: usize, len: usize) -> (res: Vec<u8>)
    requires
        start + len <= data@.len(),
    ensures
        res@ == data@.subrange(start as int, start + len),
{
    let mut res: Vec<u8> = Vec::new();
    let n = data.len();
    let mut i: usize = 0;
    while i < len
        invariant
            n == data@.len(),
            i <= len,
            start + len <= data@.len(),
            res@ == data@.subrange(start as int, start + i),
        decreases len - i,
    {
        res.push(data[start + i]);
        i = i + 1;
        assert(res@ == data@.subrange(start as int, start + i));
    }
    res
}

/// `String::from_utf8`: the string whose UTF-8 encoding is `bytes`, or `None` where `bytes`
/// is not valid UTF-8.
#[verifier::external_body]
pub(crate) fn string_from_utf8(bytes: Vec<u8>) -> (res: Option<String>)
    ensures
        res is Some <==> valid_utf8(bytes@),
        res matches Some(s) ==> s@ == decode_utf8(bytes@),
{
    String::from_utf8(bytes).ok()
}

} // verus!

verus! {

/// Compares two byte strings.
pub fn compare_bytes(a: &[u8], b: &[u8]) -> (res: Order)
    ensures
        res == order_of(a@, b@),
        res is Greater ==> bytes_lt(b@, a@),
{
    let mut i: usize = 0;
    assert(a@.skip(0) == a@);
    assert(b@.skip(0) == b@);
    while i < a.len() && i < b.len()
        invariant
            i <= a@.len(),
            i <= b@.len(),
            a@.take(i as int) == b@.take(i as int),
            bytes_lt(a@, b@) == bytes_lt(a@.skip(i as int), b@.skip(i as int)),
            bytes_lt(b@, a@) == bytes_lt(b@.skip(i as int), a@.skip(i as int)),
        decreases a@.len() - i,
    {
        let x = a[i];
        let y = b[i];
        assert(a@.skip(i as int)[0] == x);
        assert(b@.skip(i as int)[0] == y);
        if x != y {
            proof {
                lemma_bytes_lt_asymmetric(a@, b@);
                if a@ == b@ {
                    assert(a@[i as int] == b@[i as int]);
                }
            }
            if x < y {
                return Order::Less;
            } else {
                return Order::Greater;
            }
        }
        assert(a@.skip(i as int).drop_first() == a@.skip(i + 1));
        assert(b@.skip(i as int).drop_first() == b@.skip(i + 1));
        assert(a@.take(i + 1) == a@.take(i as int).push(x));
        assert(b@.take(i + 1) == b@.take(i as int).push(y));
        i = i + 1;
    }
    proof {
        lemma_bytes_lt_asymmetric(a@, b@);
        lemma_bytes_lt_total(a@, b@);
    }
    if i == a.len() && i == b.len() {
        assert(a@ == a@.take(i as int));
        assert(b@ == b@.take(i as int));
        Order::Equal
    } else if i == a.len() {
        assert(a@ == a@.take(i as int));
        assert(b@.take(i as int) == a@);
        assert(a@ != b@);
        Order::Less
    } else {
        assert(b@ == b@.take(i as int));
        assert(a@.take(i as int) == b@);
        assert(a@ != b@);
        Order::Greater
    }
}

} // verus!
