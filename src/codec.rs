//! The binary record layout: an 8-byte key, an 8-byte payload length, and the
//! payload bytes, both integers in the machine's byte order.
use vstd::prelude::*;

verus! {

/// The eight bytes of `x` in the machine's byte order.
pub uninterp spec fn ne_bytes(x: u64) -> Seq<u8>;

/// `x` has an eight-byte encoding that no other integer shares.
pub open spec fn encodes_uniquely(x: u64) -> bool {
    &&& ne_bytes(x).len() == 8
    &&& forall|y: u64| #[trigger] ne_bytes(y) == ne_bytes(x) ==> y == x
}

/// The integer whose encoding is `b`.
pub open spec fn u64_of(b: Seq<u8>) -> u64 {
    choose|x: u64| ne_bytes(x) == b
}

/// The encoded form of one record.
pub open spec fn record_bytes(key: u64, value: Seq<u8>) -> Seq<u8> {
    ne_bytes(key) + ne_bytes(value.len() as u64) + value
}

/// The payload length declared by the header at `off`.
pub open spec fn len_at(data: Seq<u8>, off: int) -> u64 {
    u64_of(data.subrange(off + 8, off + 16))
}

/// The key declared by the header at `off`.
pub open spec fn key_at(data: Seq<u8>, off: int) -> u64 {
    u64_of(data.subrange(off, off + 8))
}

/// The offset just past the record that starts at `off`.
pub open spec fn next_at(data: Seq<u8>, off: int) -> int {
    off + 16 + len_at(data, off)
}

/// A whole record starts at `off`.
pub open spec fn record_ok(data: Seq<u8>, off: int) -> bool {
    &&& 0 <= off
    &&& off + 16 <= data.len()
    &&& next_at(data, off) <= data.len()
}

/// The payload of the record at `off`.
pub open spec fn value_at(data: Seq<u8>, off: int) -> Seq<u8> {
    data.subrange(off + 16, next_at(data, off))
}

pub proof fn lemma_u64_of_encoding(x: u64)
    requires
        encodes_uniquely(x),
    ensures
        u64_of(ne_bytes(x)) == x,
{
    let y = u64_of(ne_bytes(x));
    assert(ne_bytes(y) == ne_bytes(x));
}

/// Relies on u64::to_ne_bytes: eight bytes in the machine's order, from which
/// u64::from_ne_bytes reads back `x` and no other integer.
#[verifier::external_body]
fn u64_to_bytes(x: u64) -> (r: Vec<u8>)
    ensures
        r@ == ne_bytes(x),
        r@.len() == 8,
        forall|y: u64| #[trigger] ne_bytes(y) == r@ ==> y == x,
{
    x.to_ne_bytes().to_vec()
}

/// Relies on u64::from_ne_bytes: the integer whose eight bytes in the
/// machine's order are `data[at..at + 8]`.
#[verifier::external_body]
fn u64_from_bytes(data: &[u8], at: usize) -> (r: u64)
    requires
        at + 8 <= data@.len(),
    ensures
        ne_bytes(r) == data@.subrange(at as int, at + 8),
        forall|y: u64| #[trigger] ne_bytes(y) == data@.subrange(at as int, at + 8) ==> y == r,
{
    u64::from_ne_bytes([
        data[at], data[at + 1], data[at + 2], data[at + 3],
        data[at + 4], data[at + 5], data[at + 6], data[at + 7],
    ])
}

/// Reads the integer stored at `at`.
pub fn read_u64(data: &[u8], at: usize) -> (r: u64)
    requires
        at + 8 <= data@.len(),
    ensures
        r == u64_of(data@.subrange(at as int, at + 8)),
        encodes_uniquely(r),
{
    let r = u64_from_bytes(data, at);
    proof {
        let s = data@.subrange(at as int, at + 8);
        assert(ne_bytes(u64_of(s)) == s);
    }
    r
}

/// Appends the record `(key, value)` to `data`.
pub fn append_record(data: &mut Vec<u8>, key: u64, value: &[u8])
    ensures
        final(data)@ == old(data)@ + record_bytes(key, value@),
        encodes_uniquely(key),
        encodes_uniquely(value@.len() as u64),
{
    let kb = u64_to_bytes(key);
    let lb = u64_to_bytes(value.len() as u64);
    let ghost start = data@;
    let mut i: usize = 0;
    while i < 8
        invariant
            0 <= i <= 8,
            kb@.len() == 8,
            data@ == start + kb@.subrange(0, i as int),
        decreases 8 - i,
    {
        data.push(kb[i]);
        i = i + 1;
        assert(kb@.subrange(0, i as int) =~= kb@.subrange(0, i - 1) + seq![kb@[i - 1]]);
    }
    assert(kb@.subrange(0, 8) =~= kb@);
    let ghost mid = data@;
    i = 0;
    while i < 8
        invariant
            0 <= i <= 8,
            lb@.len() == 8,
            data@ == mid + lb@.subrange(0, i as int),
        decreases 8 - i,
    {
        data.push(lb[i]);
        i = i + 1;
        assert(lb@.subrange(0, i as int) =~= lb@.subrange(0, i - 1) + seq![lb@[i - 1]]);
    }
    assert(lb@.subrange(0, 8) =~= lb@);
    let ghost hdr = data@;
    i = 0;
    while i < value.len()
        invariant
            0 <= i <= value@.len(),
            data@ == hdr + value@.subrange(0, i as int),
        decreases value@.len() - i,
    {
        data.push(value[i]);
        i = i + 1;
        assert(value@.subrange(0, i as int) =~= value@.subrange(0, i - 1) + seq![value@[i - 1]]);
    }
    assert(value@.subrange(0, value@.len() as int) =~= value@);
    assert(data@ =~= start + record_bytes(key, value@));
}

/// Copies the payload of the record at `off`.
pub fn read_value(data: &[u8], at: u64) -> (r: Vec<u8>)
    requires
        record_ok(data@, at as int),
    ensures
        r@ == value_at(data@, at as int),
{
    let total = data.len();
    let off = at as usize;
    assert(data@.subrange(off + 8, off + 16) == data@.subrange(off + 8, off + 8 + 8));
    let n = read_u64(data, off + 8);
    let end = off + 16 + n as usize;
    let mut out: Vec<u8> = Vec::new();
    let mut i: usize = off + 16;
    while i < end
        invariant
            off + 16 <= i <= end,
            end == next_at(data@, off as int),
            end <= data@.len(),
            out@ == data@.subrange(off + 16, i as int),
        decreases end - i,
    {
        out.push(data[i]);
        i = i + 1;
        assert(data@.subrange(off + 16, i as int) =~= data@.subrange(off + 16, i - 1) + seq![data@[i - 1]]);
    }
    out
}

/// A copy of `v`.
pub fn copy_bytes(v: &[u8]) -> (r: Vec<u8>)
    ensures
        r@ == v@,
{
    let mut out: Vec<u8> = Vec::new();
    let mut i: usize = 0;
    while i < v.len()
        invariant
            i <= v@.len(),
            out@ == v@.subrange(0, i as int),
        decreases v@.len() - i,
    {
        out.push(v[i]);
        i = i + 1;
        assert(v@.subrange(0, i as int) =~= v@.subrange(0, i - 1) + seq![v@[i - 1]]);
    }
    assert(v@.subrange(0, v@.len() as int) =~= v@);
    out
}

} // verus!
