use vstd::prelude::*;
use vstd::string::StringSliceAdditionalSpecFns;

verus! {

/// The eight little-endian bytes of `v`.
pub open spec fn le_bytes(v: u64) -> Seq<u8> {
    Seq::new(8, |i: int| ((v >> ((8 * i) as u64)) & 0xff) as u8)
}

/// The `u64` whose little-endian bytes are the first eight of `b`.
pub open spec fn read_u64(b: Seq<u8>) -> u64 {
    (b[0] as u64) | ((b[1] as u64) << 8u64) | ((b[2] as u64) << 16u64) | ((b[3] as u64) << 24u64)
        | ((b[4] as u64) << 32u64) | ((b[5] as u64) << 40u64) | ((b[6] as u64) << 48u64) | ((
    b[7] as u64) << 56u64)
}

/// The records that `b` starts with: a length `n`, then `n` pairs of numbers; nothing
/// when the bytes run out first.
pub open spec fn read_records(b: Seq<u8>) -> Option<Seq<(u64, u64)>> {
    if b.len() < 8 {
        None
    } else {
        let n = read_u64(b) as int;
        if b.len() < 8 + 16 * n {
            None
        } else {
            Some(
                Seq::new(
                    n as nat,
                    |i: int|
                        (read_u64(b.subrange(8 + 16 * i, b.len() as int)), read_u64(
                            b.subrange(16 + 16 * i, b.len() as int),
                        )),
                ),
            )
        }
    }
}

/// The encoding of a sequence of pairs: its length, then each pair's two numbers.
pub open spec fn pairs_bytes(v: Seq<(u64, u64)>) -> Seq<u8>
    decreases v.len(),
{
    if v.len() == 0 {
        Seq::empty()
    } else {
        pairs_bytes(v.drop_last()) + le_bytes(v.last().0) + le_bytes(v.last().1)
    }
}

/// The encoding of a list of `(key, time)` records.
pub open spec fn records_bytes(v: Seq<(u64, u64)>) -> Seq<u8> {
    le_bytes(v.len() as u64) + pairs_bytes(v)
}

/// The encoding of a string: its length in bytes, then its UTF-8 bytes.
pub open spec fn str_bytes(s: &str) -> Seq<u8> {
    le_bytes(s.spec_bytes().len() as u64) + s.spec_bytes()
}

/// Relies on `bincode::serialize` (fixed-width integers, little-endian): a `u64` is its
/// eight little-endian bytes.
#[verifier::external_body]
pub fn encode_u64(v: u64) -> (r: Vec<u8>)
    ensures
        r@ == le_bytes(v),
{
    bincode::serialize(&v).unwrap()
}

/// Relies on `bincode::deserialize`: a `u64` is read from the first eight bytes, little-end
/// first; fewer than eight bytes fail; bytes after them are ignored.
#[verifier::external_body]
pub fn decode_u64(b: &[u8]) -> (r: Option<u64>)
    ensures
        r == if b@.len() >= 8 {
            Some(read_u64(b@))
        } else {
            None
        },
{
    bincode::deserialize::<u64>(b).ok()
}

/// Relies on `bincode::deserialize`: an `i64` is read from the first eight bytes in
/// two's complement, little-end first; fewer than eight bytes fail.
#[verifier::external_body]
fn decode_i64(b: &[u8]) -> (r: Option<i64>)
    ensures
        r == if b@.len() >= 8 {
            Some(read_u64(b@) as i64)
        } else {
            None
        },
{
    bincode::deserialize::<i64>(b).ok()
}

/// Relies on `bincode::serialize`: an `i64` is its eight little-endian two's complement
/// bytes.
#[verifier::external_body]
fn encode_i64(v: i64) -> (r: Vec<u8>)
    ensures
        r@ == le_bytes(v as u64),
{
    bincode::serialize(&v).unwrap()
}

/// Relies on `bincode::serialize`: a string is its byte length as a `u64`, then its
/// UTF-8 bytes.
#[verifier::external_body]
pub fn encode_name(name: &str) -> (r: Vec<u8>)
    ensures
        r@ == str_bytes(name),
{
    bincode::serialize(name).unwrap()
}

/// Relies on `bincode::serialize`: a vector is its length as a `u64`, then its elements,
/// each pair as its two `u64`s.
#[verifier::external_body]
pub fn encode_records(v: &Vec<(u64, u64)>) -> (r: Vec<u8>)
    ensures
        r@ == records_bytes(v@),
{
    bincode::serialize(v).unwrap()
}

/// Relies on `bincode::deserialize`: reads a length, then that many pairs; fails when
/// the bytes run out first; bytes after them are ignored.
#[verifier::external_body]
pub fn decode_records(b: &[u8]) -> (r: Option<Vec<(u64, u64)>>)
    ensures
        match r {
            Some(v) => read_records(b@) == Some(v@),
            None => read_records(b@) is None,
        },
{
    bincode::deserialize::<Vec<(u64, u64)>>(b).ok()
}

/// The stored key of `key` in the map whose encoded name is `name`: the name's bytes,
/// then the key's.
pub fn prefix_key(name: &Vec<u8>, key: u64) -> (r: Vec<u8>)
    ensures
        r@ == name@ + le_bytes(key),
{
    let mut r: Vec<u8> = Vec::new();
    let mut i: usize = 0;
    while i < name.len()
        invariant
            0 <= i <= name@.len(),
            r@ == name@.take(i as int),
        decreases name@.len() - i,
    {
        r.push(name[i]);
        proof {
            assert(r@ == name@.take(i + 1));
        }
        i = i + 1;
    }
    let mut k = encode_u64(key);
    proof {
        assert(name@.take(name@.len() as int) == name@);
    }
    r.append(&mut k);
    r
}

/// The list that `merge_vectors` builds from the stored value and the first
/// `ops.len()` operands, or nothing when one of them does not decode.
pub open spec fn merged_records(existing: Option<Seq<u8>>, ops: Seq<Seq<u8>>) -> Option<
    Seq<(u64, u64)>,
>
    decreases ops.len(),
{
    if ops.len() == 0 {
        match existing {
            None => Some(Seq::empty()),
            Some(b) => read_records(b),
        }
    } else {
        match (merged_records(existing, ops.drop_last()), read_records(ops.last())) {
            (Some(acc), Some(v)) => Some(acc + v),
            _ => None,
        }
    }
}

/// The number that `merge_numbers` adds up from the stored value and the operands, or
/// nothing when one of them does not decode or a partial sum leaves `i64`.
pub open spec fn merged_number(existing: Option<Seq<u8>>, ops: Seq<Seq<u8>>) -> Option<i64>
    decreases ops.len(),
{
    if ops.len() == 0 {
        match existing {
            None => Some(0),
            Some(b) => if b.len() >= 8 {
                Some(read_u64(b) as i64)
            } else {
                None
            },
        }
    } else {
        match merged_number(existing, ops.drop_last()) {
            Some(acc) => if ops.last().len() >= 8 && i64::MIN <= acc + (read_u64(ops.last()) as i64)
                <= i64::MAX {
                Some((acc + (read_u64(ops.last()) as i64)) as i64)
            } else {
                None
            },
            None => None,
        }
    }
}

/// The bytes of an optional stored value.
pub open spec fn opt_view(o: Option<&[u8]>) -> Option<Seq<u8>> {
    match o {
        Some(b) => Some(b@),
        None => None,
    }
}

/// The views of a list of byte vectors.
pub open spec fn views(ops: Seq<Vec<u8>>) -> Seq<Seq<u8>> {
    ops.map_values(|o: Vec<u8>| o@)
}

/// Once a prefix of the operands fails to merge, so does every longer prefix.
proof fn lemma_merged_records_fails(ex: Option<Seq<u8>>, ops: Seq<Seq<u8>>, k: int)
    requires
        0 <= k <= ops.len(),
        merged_records(ex, ops.take(k)) is None,
    ensures
        merged_records(ex, ops) is None,
    decreases ops.len() - k,
{
    if k < ops.len() {
        assert(ops.take(k + 1).drop_last() == ops.take(k));
        lemma_merged_records_fails(ex, ops, k + 1);
    } else {
        assert(ops.take(k) == ops);
    }
}

/// Once a prefix of the operands fails to add up, so does every longer prefix.
proof fn lemma_merged_number_fails(ex: Option<Seq<u8>>, ops: Seq<Seq<u8>>, k: int)
    requires
        0 <= k <= ops.len(),
        merged_number(ex, ops.take(k)) is None,
    ensures
        merged_number(ex, ops) is None,
    decreases ops.len() - k,
{
    if k < ops.len() {
        assert(ops.take(k + 1).drop_last() == ops.take(k));
        lemma_merged_number_fails(ex, ops, k + 1);
    } else {
        assert(ops.take(k) == ops);
    }
}

/// Merge function for maps whose values are lists of records: the stored list (if any)
/// followed by each operand's list, re-encoded. Fails when any of them does not decode.
pub fn merge_vectors(existing: Option<&[u8]>, operands: &Vec<Vec<u8>>) -> (r: Option<Vec<u8>>)
    ensures
        match merged_records(opt_view(existing), views(operands@)) {
            Some(v) => r is Some && r->0@ == records_bytes(v),
            None => r is None,
        },
{
    let ghost ex = opt_view(existing);
    let mut result: Vec<(u64, u64)> = Vec::new();
    match existing {
        Some(val) => {
            match decode_records(val) {
                Some(mut v) => {
                    result.append(&mut v);
                },
                None => {
                    proof {
                        assert(views(operands@).take(0) == Seq::<Seq<u8>>::empty());
                        lemma_merged_records_fails(ex, views(operands@), 0);
                    }
                    return None;
                },
            }
        },
        None => {},
    }
    let mut i: usize = 0;
    proof {
        assert(views(operands@).take(0) == Seq::<Seq<u8>>::empty());
    }
    while i < operands.len()
        invariant
            0 <= i <= operands@.len(),
            merged_records(ex, views(operands@).take(i as int)) == Some(result@),
            ex == opt_view(existing),
        decreases operands@.len() - i,
    {
        proof {
            assert(views(operands@).take(i + 1).drop_last() == views(operands@).take(i as int));
            assert(views(operands@).take(i + 1).last() == operands@[i as int]@);
        }
        match decode_records(operands[i].as_slice()) {
            Some(mut v) => {
                result.append(&mut v);
            },
            None => {
                proof {
                    let pre = views(operands@).take(i + 1);
                    assert(read_records(pre.last()) is None);
                    assert(merged_records(ex, pre) is None);
                    lemma_merged_records_fails(ex, views(operands@), i + 1);
                }
                return None;
            },
        }
        i = i + 1;
    }
    proof {
        assert(views(operands@).take(operands@.len() as int) == views(operands@));
    }
    Some(encode_records(&result))
}

/// Merge function for counters: the stored number (if any) plus every operand. Fails
/// when a value does not decode or the sum leaves the range of `i64`.
pub fn merge_numbers(existing: Option<&[u8]>, operands: &Vec<Vec<u8>>) -> (r: Option<Vec<u8>>)
    ensures
        match merged_number(opt_view(existing), views(operands@)) {
            Some(v) => r is Some && r->0@ == le_bytes(v as u64),
            None => r is None,
        },
{
    let ghost ex = opt_view(existing);
    let mut result: i64 = 0;
    match existing {
        Some(val) => {
            match decode_i64(val) {
                Some(v) => {
                    result = v;
                },
                None => {
                    proof {
                        assert(views(operands@).take(0) == Seq::<Seq<u8>>::empty());
                        lemma_merged_number_fails(ex, views(operands@), 0);
                    }
                    return None;
                },
            }
        },
        None => {},
    }
    let mut i: usize = 0;
    proof {
        assert(views(operands@).take(0) == Seq::<Seq<u8>>::empty());
    }
    while i < operands.len()
        invariant
            0 <= i <= operands@.len(),
            merged_number(ex, views(operands@).take(i as int)) == Some(result),
            ex == opt_view(existing),
        decreases operands@.len() - i,
    {
        proof {
            assert(views(operands@).take(i + 1).drop_last() == views(operands@).take(i as int));
            assert(views(operands@).take(i + 1).last() == operands@[i as int]@);
        }
        match decode_i64(operands[i].as_slice()) {
            Some(v) => {
                match result.checked_add(v) {
                    Some(sum) => {
                        result = sum;
                    },
                    None => {
                        proof {
                            let pre = views(operands@).take(i + 1);
                            assert(pre.last().len() >= 8);
                            assert(read_u64(pre.last()) as i64 == v);
                            assert(merged_number(ex, pre) is None);
                            lemma_merged_number_fails(ex, views(operands@), i + 1);
                        }
                        return None;
                    },
                }
            },
            None => {
                proof {
                    let pre = views(operands@).take(i + 1);
                    assert(pre.last().len() < 8);
                    assert(merged_number(ex, pre) is None);
                    lemma_merged_number_fails(ex, views(operands@), i + 1);
                }
                return None;
            },
        }
        i = i + 1;
    }
    proof {
        assert(views(operands@).take(operands@.len() as int) == views(operands@));
    }
    Some(encode_i64(result))
}

/// The eight big-endian bytes of `v`: most significant first.
pub open spec fn be_bytes(v: u64) -> Seq<u8> {
    Seq::new(8, |i: int| ((v >> ((8 * (7 - i)) as u64)) & 0xff) as u8)
}

/// `x` comes before `y` in byte-lexicographic order: at the first place where they
/// differ, `x` holds the smaller byte.
pub open spec fn lex_less(x: Seq<u8>, y: Seq<u8>) -> bool {
    exists|i: int| 0 <= i < x.len() && i < y.len() && x.take(i) == y.take(i) && x[i] < y[i]
}

/// Encodes `v` so that byte-lexicographic order of the encodings is numeric order: the
/// bytes of the `u64` encoding in reverse, most significant first.
pub fn encode_ordered_u64(v: u64) -> (r: Vec<u8>)
    ensures
        r@ == be_bytes(v),
{
    let le = encode_u64(v);
    let mut r: Vec<u8> = Vec::new();
    let mut i: usize = 0;
    while i < 8
        invariant
            0 <= i <= 8,
            le@ == le_bytes(v),
            r@ == be_bytes(v).take(i as int),
        decreases 8 - i,
    {
        r.push(le[7 - i]);
        proof {
            assert(r@ == be_bytes(v).take(i + 1));
        }
        i = i + 1;
    }
    proof {
        assert(r@ == be_bytes(v));
    }
    r
}

/// Byte `k` (from the most significant end) of `v`.
pub open spec fn byte_at(v: u64, k: int) -> u64 {
    (v >> ((8 * (7 - k)) as u64)) & 0xff
}

proof fn lemma_first_diff_decides(a: u64, b: u64, i: int)
    requires
        0 <= i < 8,
        forall|j: int| 0 <= j < i ==> byte_at(a, j) == byte_at(b, j),
        byte_at(a, i) != byte_at(b, i),
    ensures
        a < b <==> byte_at(a, i) < byte_at(b, i),
{
    if i == 0 {
        assert(((a >> 56u64) & 0xff) != ((b >> 56u64) & 0xff) ==> (a < b <==> ((a >> 56u64) & 0xff) < ((b >> 56u64) & 0xff))) by (bit_vector);
    } else if i == 1 {
        assert(((a >> 56u64) & 0xff) == ((b >> 56u64) & 0xff)
            && ((a >> 48u64) & 0xff) != ((b >> 48u64) & 0xff) ==> (a < b <==> ((a >> 48u64) & 0xff) < ((b >> 48u64) & 0xff))) by (bit_vector);
        assert(byte_at(a, 0) == byte_at(b, 0));
    } else if i == 2 {
        assert(byte_at(a, 0) == byte_at(b, 0) && byte_at(a, 1) == byte_at(b, 1));
        assert(((a >> 56u64) & 0xff) == ((b >> 56u64) & 0xff)
            && ((a >> 48u64) & 0xff) == ((b >> 48u64) & 0xff)
            && ((a >> 40u64) & 0xff) != ((b >> 40u64) & 0xff) ==> (a < b <==> ((a >> 40u64) & 0xff) < ((b >> 40u64) & 0xff))) by (bit_vector);
    } else if i == 3 {
        assert(byte_at(a, 0) == byte_at(b, 0)
            && byte_at(a, 1) == byte_at(b, 1)
            && byte_at(a, 2) == byte_at(b, 2));
        assert(((a >> 56u64) & 0xff) == ((b >> 56u64) & 0xff)
            && ((a >> 48u64) & 0xff) == ((b >> 48u64) & 0xff)
            && ((a >> 40u64) & 0xff) == ((b >> 40u64) & 0xff)
            && ((a >> 32u64) & 0xff) != ((b >> 32u64) & 0xff) ==> (a < b <==> ((a >> 32u64) & 0xff) < ((b >> 32u64) & 0xff))) by (bit_vector);
    } else if i == 4 {
        assert(byte_at(a, 0) == byte_at(b, 0)
            && byte_at(a, 1) == byte_at(b, 1)
            && byte_at(a, 2) == byte_at(b, 2)
            && byte_at(a, 3) == byte_at(b, 3));
        assert(((a >> 32u64)) == ((b >> 32u64)) <== ((a >> 56u64) & 0xff) == ((b >> 56u64) & 0xff)
            && ((a >> 48u64) & 0xff) == ((b >> 48u64) & 0xff)
            && ((a >> 40u64) & 0xff) == ((b >> 40u64) & 0xff)
            && ((a >> 32u64) & 0xff) == ((b >> 32u64) & 0xff)) by (bit_vector);
        assert((a >> 32u64) == (b >> 32u64)
            && ((a >> 24u64) & 0xff) != ((b >> 24u64) & 0xff) ==> (a < b <==> ((a >> 24u64) & 0xff) < ((b >> 24u64) & 0xff))) by (bit_vector);
    } else if i == 5 {
        assert(byte_at(a, 0) == byte_at(b, 0)
            && byte_at(a, 1) == byte_at(b, 1)
            && byte_at(a, 2) == byte_at(b, 2)
            && byte_at(a, 3) == byte_at(b, 3)
            && byte_at(a, 4) == byte_at(b, 4));
        assert(((a >> 24u64)) == ((b >> 24u64)) <== ((a >> 56u64) & 0xff) == ((b >> 56u64) & 0xff)
            && ((a >> 48u64) & 0xff) == ((b >> 48u64) & 0xff)
            && ((a >> 40u64) & 0xff) == ((b >> 40u64) & 0xff)
            && ((a >> 32u64) & 0xff) == ((b >> 32u64) & 0xff)
            && ((a >> 24u64) & 0xff) == ((b >> 24u64) & 0xff)) by (bit_vector);
        assert((a >> 24u64) == (b >> 24u64)
            && ((a >> 16u64) & 0xff) != ((b >> 16u64) & 0xff) ==> (a < b <==> ((a >> 16u64) & 0xff) < ((b >> 16u64) & 0xff))) by (bit_vector);
    } else if i == 6 {
        assert(byte_at(a, 0) == byte_at(b, 0)
            && byte_at(a, 1) == byte_at(b, 1)
            && byte_at(a, 2) == byte_at(b, 2)
            && byte_at(a, 3) == byte_at(b, 3)
            && byte_at(a, 4) == byte_at(b, 4)
            && byte_at(a, 5) == byte_at(b, 5));
        assert(((a >> 16u64)) == ((b >> 16u64)) <== ((a >> 56u64) & 0xff) == ((b >> 56u64) & 0xff)
            && ((a >> 48u64) & 0xff) == ((b >> 48u64) & 0xff)
            && ((a >> 40u64) & 0xff) == ((b >> 40u64) & 0xff)
            && ((a >> 32u64) & 0xff) == ((b >> 32u64) & 0xff)
            && ((a >> 24u64) & 0xff) == ((b >> 24u64) & 0xff)
            && ((a >> 16u64) & 0xff) == ((b >> 16u64) & 0xff)) by (bit_vector);
        assert((a >> 16u64) == (b >> 16u64)
            && ((a >> 8u64) & 0xff) != ((b >> 8u64) & 0xff) ==> (a < b <==> ((a >> 8u64) & 0xff) < ((b >> 8u64) & 0xff))) by (bit_vector);
    } else {
        assert(byte_at(a, 0) == byte_at(b, 0)
            && byte_at(a, 1) == byte_at(b, 1)
            && byte_at(a, 2) == byte_at(b, 2)
            && byte_at(a, 3) == byte_at(b, 3)
            && byte_at(a, 4) == byte_at(b, 4)
            && byte_at(a, 5) == byte_at(b, 5)
            && byte_at(a, 6) == byte_at(b, 6));
        assert(((a >> 8u64)) == ((b >> 8u64)) <== ((a >> 56u64) & 0xff) == ((b >> 56u64) & 0xff)
            && ((a >> 48u64) & 0xff) == ((b >> 48u64) & 0xff)
            && ((a >> 40u64) & 0xff) == ((b >> 40u64) & 0xff)
            && ((a >> 32u64) & 0xff) == ((b >> 32u64) & 0xff)
            && ((a >> 24u64) & 0xff) == ((b >> 24u64) & 0xff)
            && ((a >> 16u64) & 0xff) == ((b >> 16u64) & 0xff)
            && ((a >> 8u64) & 0xff) == ((b >> 8u64) & 0xff)) by (bit_vector);
        assert((a >> 8u64) == (b >> 8u64)
            && (a & 0xff) != (b & 0xff) ==> (a < b <==> (a & 0xff) < (b & 0xff))) by (bit_vector);
        assert(byte_at(a, 7) == (a & 0xff) && byte_at(b, 7) == (b & 0xff)) by {
            assert(a >> 0u64 == a && b >> 0u64 == b) by (bit_vector);
        }
    }
}

/// The first place, from `k` on, where the bytes of `a` and `b` differ (8 if none).
pub open spec fn first_diff(a: u64, b: u64, k: int) -> int
    decreases 8 - k,
{
    if k >= 8 {
        8
    } else if byte_at(a, k) != byte_at(b, k) {
        k
    } else {
        first_diff(a, b, k + 1)
    }
}

proof fn lemma_first_diff(a: u64, b: u64, k: int)
    requires
        0 <= k <= 8,
    ensures
        k <= first_diff(a, b, k) <= 8,
        forall|j: int| k <= j < first_diff(a, b, k) ==> byte_at(a, j) == byte_at(b, j),
        first_diff(a, b, k) < 8 ==> byte_at(a, first_diff(a, b, k)) != byte_at(
            b,
            first_diff(a, b, k),
        ),
    decreases 8 - k,
{
    if k < 8 && byte_at(a, k) == byte_at(b, k) {
        lemma_first_diff(a, b, k + 1);
    }
}

/// Eight bytes that agree everywhere come from the same number.
proof fn lemma_bytes_determine(a: u64, b: u64)
    requires
        forall|j: int| 0 <= j < 8 ==> byte_at(a, j) == byte_at(b, j),
    ensures
        a == b,
{
    assert(byte_at(a, 0) == byte_at(b, 0)
        && byte_at(a, 1) == byte_at(b, 1)
        && byte_at(a, 2) == byte_at(b, 2)
        && byte_at(a, 3) == byte_at(b, 3)
        && byte_at(a, 4) == byte_at(b, 4)
        && byte_at(a, 5) == byte_at(b, 5)
        && byte_at(a, 6) == byte_at(b, 6)
        && byte_at(a, 7) == byte_at(b, 7));
    assert(a >> 0u64 == a && b >> 0u64 == b) by (bit_vector);
    assert(((a >> 56u64) & 0xff) == ((b >> 56u64) & 0xff)
        && ((a >> 48u64) & 0xff) == ((b >> 48u64) & 0xff)
        && ((a >> 40u64) & 0xff) == ((b >> 40u64) & 0xff)
        && ((a >> 32u64) & 0xff) == ((b >> 32u64) & 0xff)
        && ((a >> 24u64) & 0xff) == ((b >> 24u64) & 0xff)
        && ((a >> 16u64) & 0xff) == ((b >> 16u64) & 0xff)
        && ((a >> 8u64) & 0xff) == ((b >> 8u64) & 0xff)
        && (a & 0xff) == (b & 0xff) ==> a == b) by (bit_vector);
}

/// Ordered keys: the big-endian encodings of two numbers compare byte-lexicographically
/// exactly as the numbers compare.
pub proof fn lemma_ordered_encoding(a: u64, b: u64)
    ensures
        lex_less(be_bytes(a), be_bytes(b)) <==> a < b,
{
    let x = be_bytes(a);
    let y = be_bytes(b);
    assert forall|j: int| 0 <= j < 8 implies x[j] as u64 == byte_at(a, j) && y[j] as u64 == byte_at(b, j) by {
        let sa = (a >> ((8 * (7 - j)) as u64));
        let sb = (b >> ((8 * (7 - j)) as u64));
        assert(((sa & 0xff) as u8) as u64 == sa & 0xff) by (bit_vector);
        assert(((sb & 0xff) as u8) as u64 == sb & 0xff) by (bit_vector);
    }
    if lex_less(x, y) {
        let i = choose|i: int| 0 <= i < x.len() && i < y.len() && x.take(i) == y.take(i) && x[i] < y[i];
        assert forall|j: int| 0 <= j < i implies byte_at(a, j) == byte_at(b, j) by {
            assert(x.take(i)[j] == y.take(i)[j]);
        }
        lemma_first_diff_decides(a, b, i);
    }
    if a < b {
        lemma_first_diff(a, b, 0);
        let i = first_diff(a, b, 0);
        if i == 8 {
            lemma_bytes_determine(a, b);
        } else {
            lemma_first_diff_decides(a, b, i);
            assert(x.take(i) =~= y.take(i)) by {
                assert forall|j: int| 0 <= j < i implies x.take(i)[j] == y.take(i)[j] by {
                    assert(0 <= j < first_diff(a, b, 0));
                    assert(byte_at(a, j) == byte_at(b, j));
                    assert(x[j] as u64 == byte_at(a, j) && y[j] as u64 == byte_at(b, j));
                    assert(x[j] as u64 == y[j] as u64);
                }
            }
            assert(x[i] < y[i]);
        }
    }
}

/// The stored key of `key` in the ordered map whose encoded name is `name`: the name's
/// bytes, then the key's big-endian bytes.
pub fn prefix_ordered_key(name: &Vec<u8>, key: u64) -> (r: Vec<u8>)
    ensures
        r@ == name@ + be_bytes(key),
{
    let mut r: Vec<u8> = Vec::new();
    let mut i: usize = 0;
    while i < name.len()
        invariant
            0 <= i <= name@.len(),
            r@ == name@.take(i as int),
        decreases name@.len() - i,
    {
        r.push(name[i]);
        proof {
            assert(r@ == name@.take(i + 1));
        }
        i = i + 1;
    }
    let mut k = encode_ordered_u64(key);
    proof {
        assert(name@.take(name@.len() as int) == name@);
    }
    r.append(&mut k);
    r
}

/// Ordered keys under a name: with the same name in front, stored keys compare
/// byte-lexicographically exactly as the numbers compare.
pub proof fn lemma_prefixed_ordered_encoding(name: Seq<u8>, a: u64, b: u64)
    ensures
        lex_less(name + be_bytes(a), name + be_bytes(b)) <==> a < b,
{
    let x = name + be_bytes(a);
    let y = name + be_bytes(b);
    let n = name.len() as int;
    lemma_ordered_encoding(a, b);
    if lex_less(x, y) {
        let i = choose|i: int| 0 <= i < x.len() && i < y.len() && x.take(i) == y.take(i) && x[i] < y[i];
        if i < n {
            assert(x[i] == name[i] && y[i] == name[i]);
        } else {
            let j = i - n;
            assert(be_bytes(a).take(j) =~= be_bytes(b).take(j)) by {
                assert forall|m: int| 0 <= m < j implies be_bytes(a)[m] == be_bytes(b)[m] by {
                    assert(x.take(i)[n + m] == y.take(i)[n + m]);
                }
            }
            assert(be_bytes(a)[j] < be_bytes(b)[j]);
            assert(lex_less(be_bytes(a), be_bytes(b)));
        }
    }
    if a < b {
        let j = choose|j: int|
            0 <= j < be_bytes(a).len() && j < be_bytes(b).len() && be_bytes(a).take(j)
                == be_bytes(b).take(j) && be_bytes(a)[j] < be_bytes(b)[j];
        let i = n + j;
        assert(x.take(i) =~= y.take(i)) by {
            assert forall|m: int| 0 <= m < i implies x.take(i)[m] == y.take(i)[m] by {
                if m >= n {
                    assert(be_bytes(a).take(j)[m - n] == be_bytes(b).take(j)[m - n]);
                }
            }
        }
        assert(x[i] < y[i]);
    }
}

} // verus!
