//! Reading the primitive values of the network protocol from bytes.
//!
//! Every reader takes the whole input and the position of its first byte and
//! gives back the value and the position just past it.

use vstd::prelude::*;
use vstd::utf8::{decode_utf8, encode_utf8, valid_utf8};
use vstd::arithmetic::div_mod::{lemma_mod_breakdown, lemma_small_mod};

verus! {

/// Why reading a value from the input failed.
#[derive(Clone, Copy, Debug, PartialEq, Eq, Structural)]
pub enum ReadingError {
    /// The input ended before the value did.
    Incomplete,
    /// A length prefix, or a variable-length integer, is larger than allowed.
    TooLarge,
    /// The bytes of a string are not UTF-8.
    InvalidUtf8,
}

/// A variable-length 32-bit integer: seven bits per byte, least significant
/// group first, the high bit of a byte set while more bytes follow.
#[derive(Clone, Copy, Debug, PartialEq, Eq, Structural)]
pub struct VarInt(pub i32);

/// The most bytes a `VarInt` may take.
pub const VAR_INT_MAX_SIZE: usize = 5;

/// The value of the groups of a `VarInt` from its `i`-th byte on, and the
/// position after its last byte.
pub open spec fn spec_var_int_groups(s: Seq<u8>, pos: int, i: nat) -> Result<(nat, int), ReadingError>
    decreases 5 - i,
{
    if i >= 5 {
        Err(ReadingError::TooLarge)
    } else if pos + i >= s.len() {
        Err(ReadingError::Incomplete)
    } else {
        let b = s[pos + i];
        if b < 0x80 {
            Ok((b as nat, pos + i + 1))
        } else {
            match spec_var_int_groups(s, pos, i + 1) {
                Ok((rest, end)) => Ok((((b - 0x80) + 128 * rest) as nat, end)),
                Err(e) => Err(e),
            }
        }
    }
}

/// The 32-bit two's complement reading of the low 32 bits of `raw`.
pub open spec fn wrap_i32(raw: nat) -> int {
    let low = raw % 0x1_0000_0000;
    if low < 0x8000_0000 {
        low as int
    } else {
        low - 0x1_0000_0000
    }
}

/// The `VarInt` that starts at `pos`, and the position after it.
pub open spec fn spec_var_int(s: Seq<u8>, pos: int) -> Result<(int, int), ReadingError> {
    match spec_var_int_groups(s, pos, 0) {
        Ok((raw, end)) => Ok((wrap_i32(raw), end)),
        Err(e) => Err(e),
    }
}

/// An upper bound of the value of the groups from the `i`-th byte on.
spec fn groups_bound(i: nat) -> nat
    decreases 5 - i,
{
    if i >= 5 {
        1
    } else {
        128 * groups_bound(i + 1)
    }
}

proof fn lemma_groups_bound(i: nat)
    ensures
        1 <= i ==> groups_bound(i) <= 0x1000_0000,
        i < 5 ==> groups_bound(i) >= 128,
        groups_bound(i) >= 1,
{
    reveal_with_fuel(groups_bound, 6);
}

fn read_var_int_groups(data: &[u8], pos: usize, i: usize) -> (r: Result<(u64, usize), ReadingError>)
    requires
        pos <= data@.len(),
        i <= 5,
    ensures
        match r {
            Ok((raw, end)) => spec_var_int_groups(data@, pos as int, i as nat) == Ok::<(nat, int), ReadingError>((raw as nat, end as int))
                && raw < groups_bound(i as nat) && end <= data@.len(),
            Err(e) => spec_var_int_groups(data@, pos as int, i as nat) == Err::<(nat, int), ReadingError>(e),
        },
    decreases 5 - i,
{
    if i >= VAR_INT_MAX_SIZE {
        return Err(ReadingError::TooLarge);
    }
    if i >= data.len() - pos {
        return Err(ReadingError::Incomplete);
    }
    let b = data[pos + i];
    if b < 0x80 {
        proof {
            lemma_groups_bound(i as nat);
        }
        Ok((b as u64, pos + i + 1))
    } else {
        match read_var_int_groups(data, pos, i + 1) {
            Ok((rest, end)) => {
                proof {
                    lemma_groups_bound((i + 1) as nat);
                    let g = groups_bound((i + 1) as nat);
                    assert(groups_bound(i as nat) == 128 * g);
                    assert((b - 0x80) + 128 * rest < 128 * g) by (nonlinear_arith)
                        requires
                            rest < g,
                            b - 0x80 < 128,
                            0 <= b - 0x80,
                    ;
                }
                Ok(((b - 0x80) as u64 + 128 * rest, end))
            },
            Err(e) => Err(e),
        }
    }
}

impl VarInt {
    /// Reads the `VarInt` that starts at `pos`.
    pub fn decode(data: &[u8], pos: usize) -> (r: Result<(VarInt, usize), ReadingError>)
        requires
            pos <= data@.len(),
        ensures
            match r {
                Ok((v, end)) => spec_var_int(data@, pos as int) == Ok::<(int, int), ReadingError>((v.0 as int, end as int))
                    && end <= data@.len(),
                Err(e) => spec_var_int(data@, pos as int) == Err::<(int, int), ReadingError>(e),
            },
    {
        match read_var_int_groups(data, pos, 0) {
            Ok((raw, end)) => {
                let low: u32 = (raw & 0xFFFF_FFFF) as u32;
                let v: i32 = low as i32;
                assert(raw & 0xFFFF_FFFF == raw % 0x1_0000_0000) by (bit_vector);
                assert(low < 0x8000_0000 ==> v as int == low as int) by (bit_vector)
                    requires
                        v == low as i32;
                assert(low >= 0x8000_0000 ==> v as int == low as int - 0x1_0000_0000) by (bit_vector)
                    requires
                        v == low as i32;
                Ok((VarInt(v), end))
            },
            Err(e) => Err(e),
        }
    }
}

/// The byte at `pos`, and the position after it.
pub open spec fn spec_u8(s: Seq<u8>, pos: int) -> Result<(u8, int), ReadingError> {
    if 0 <= pos < s.len() {
        Ok((s[pos], pos + 1))
    } else {
        Err(ReadingError::Incomplete)
    }
}

/// Reads the byte at `pos`.
pub fn read_u8(data: &[u8], pos: usize) -> (r: Result<(u8, usize), ReadingError>)
    requires
        pos <= data@.len(),
    ensures
        match r {
            Ok((v, end)) => spec_u8(data@, pos as int) == Ok::<(u8, int), ReadingError>((v, end as int)),
            Err(e) => spec_u8(data@, pos as int) == Err::<(u8, int), ReadingError>(e),
        },
{
    if pos < data.len() {
        Ok((data[pos], pos + 1))
    } else {
        Err(ReadingError::Incomplete)
    }
}

/// The `n` bytes from `pos` on, and the position after them.
pub open spec fn spec_bytes(s: Seq<u8>, pos: int, n: int) -> Result<(Seq<u8>, int), ReadingError> {
    if 0 <= pos && 0 <= n && pos + n <= s.len() {
        Ok((s.subrange(pos, pos + n), pos + n))
    } else {
        Err(ReadingError::Incomplete)
    }
}

/// Reads exactly `n` bytes from `pos` on.
pub fn read_bytes(data: &[u8], pos: usize, n: usize) -> (r: Result<(Vec<u8>, usize), ReadingError>)
    requires
        pos <= data@.len(),
    ensures
        match r {
            Ok((v, end)) => spec_bytes(data@, pos as int, n as int) == Ok::<(Seq<u8>, int), ReadingError>((v@, end as int)),
            Err(e) => spec_bytes(data@, pos as int, n as int) == Err::<(Seq<u8>, int), ReadingError>(e),
        },
{
    if n > data.len() - pos {
        return Err(ReadingError::Incomplete);
    }
    let mut v: Vec<u8> = Vec::new();
    let mut i: usize = 0;
    while i < n
        invariant
            pos + n <= data.len(),
            i <= n,
            v@ == data@.subrange(pos as int, pos + i),
        decreases n - i,
    {
        v.push(data[pos + i]);
        i = i + 1;
    }
    Ok((v, pos + n))
}

/// The unsigned value of `b` read as a big-endian number.
pub open spec fn be_value(b: Seq<u8>) -> nat
    decreases b.len(),
{
    if b.len() == 0 {
        0
    } else {
        be_value(b.drop_last()) * 256 + b.last() as nat
    }
}

/// The 64-bit two's complement reading of `raw`, which is below 2^64.
pub open spec fn wrap_i64(raw: nat) -> int {
    if raw < 0x8000_0000_0000_0000 {
        raw as int
    } else {
        raw - 0x1_0000_0000_0000_0000
    }
}

/// The big-endian signed 64-bit integer at `pos`, and the position after it.
pub open spec fn spec_i64_be(s: Seq<u8>, pos: int) -> Result<(int, int), ReadingError> {
    match spec_bytes(s, pos, 8) {
        Ok((b, end)) => Ok((wrap_i64(be_value(b)), end)),
        Err(e) => Err(e),
    }
}

spec fn pow256(n: nat) -> nat
    decreases n,
{
    if n == 0 {
        1
    } else {
        256 * pow256((n - 1) as nat)
    }
}

proof fn lemma_be_value_bound(b: Seq<u8>)
    ensures
        be_value(b) < pow256(b.len()),
    decreases b.len(),
{
    if b.len() > 0 {
        lemma_be_value_bound(b.drop_last());
        let r = be_value(b.drop_last());
        let p = pow256(b.drop_last().len());
        let l = b.last();
        assert(r * 256 + l < 256 * p) by (nonlinear_arith)
            requires
                r < p,
                l < 256,
        ;
    }
}

/// Reads the big-endian signed 64-bit integer at `pos`.
pub fn read_i64_be(data: &[u8], pos: usize) -> (r: Result<(i64, usize), ReadingError>)
    requires
        pos <= data@.len(),
    ensures
        match r {
            Ok((v, end)) => spec_i64_be(data@, pos as int) == Ok::<(int, int), ReadingError>((v as int, end as int)),
            Err(e) => spec_i64_be(data@, pos as int) == Err::<(int, int), ReadingError>(e),
        },
{
    if 8 > data.len() - pos {
        return Err(ReadingError::Incomplete);
    }
    let mut acc: u64 = 0;
    let mut i: usize = 0;
    while i < 8
        invariant
            pos + 8 <= data.len(),
            i <= 8,
            acc as nat == be_value(data@.subrange(pos as int, pos + i)),
        decreases 8 - i,
    {
        let ghost prefix = data@.subrange(pos as int, pos + i);
        let ghost next = data@.subrange(pos as int, pos + i + 1);
        proof {
            assert(next.drop_last() == prefix);
            lemma_be_value_bound(prefix);
            reveal_with_fuel(pow256, 8);
            assert(pow256(prefix.len()) <= 0x100_0000_0000_0000);
        }
        acc = acc * 256 + data[pos + i] as u64;
        i = i + 1;
    }
    let v: i64 = #[verifier::truncate] (acc as i64);
    assert(acc < 0x8000_0000_0000_0000 ==> v as int == acc as int) by (bit_vector)
        requires
            v == acc as i64;
    assert(acc >= 0x8000_0000_0000_0000 ==> v as int == acc as int - 0x1_0000_0000_0000_0000) by (bit_vector)
        requires
            v == acc as i64;
    Ok((v, pos + 8))
}

/// Turns UTF-8 bytes into a `String` with `String::from_utf8`, which fails
/// exactly when the bytes are not UTF-8 and otherwise keeps the characters
/// they encode.
#[verifier::external_body]
fn string_from_utf8(bytes: Vec<u8>) -> (r: Option<String>)
    ensures
        r is Some <==> valid_utf8(bytes@),
        r matches Some(s) ==> s@ == decode_utf8(bytes@),
{
    String::from_utf8(bytes).ok()
}

/// The string at `pos`, a `VarInt` byte length followed by UTF-8 bytes, at
/// most `bound` bytes long, and the position after it.
pub open spec fn spec_string_bounded(s: Seq<u8>, pos: int, bound: int) -> Result<(Seq<char>, int), ReadingError> {
    match spec_var_int(s, pos) {
        Err(e) => Err(e),
        Ok((n, p)) => if n < 0 || n > bound {
            Err(ReadingError::TooLarge)
        } else {
            match spec_bytes(s, p, n) {
                Err(e) => Err(e),
                Ok((b, end)) => if valid_utf8(b) {
                    Ok((decode_utf8(b), end))
                } else {
                    Err(ReadingError::InvalidUtf8)
                },
            }
        },
    }
}

/// Reads the string at `pos`, refusing one longer than `bound` bytes.
pub fn read_string_bounded(data: &[u8], pos: usize, bound: usize) -> (r: Result<(String, usize), ReadingError>)
    requires
        pos <= data@.len(),
        bound <= i32::MAX,
    ensures
        match r {
            Ok((v, end)) => spec_string_bounded(data@, pos as int, bound as int) == Ok::<(Seq<char>, int), ReadingError>((v@, end as int)),
            Err(e) => spec_string_bounded(data@, pos as int, bound as int) == Err::<(Seq<char>, int), ReadingError>(e),
        },
{
    let (n, p) = match VarInt::decode(data, pos) {
        Ok(x) => x,
        Err(e) => return Err(e),
    };
    if n.0 < 0 || n.0 as usize > bound {
        return Err(ReadingError::TooLarge);
    }
    let (b, end) = match read_bytes(data, p, n.0 as usize) {
        Ok(x) => x,
        Err(e) => return Err(e),
    };
    match string_from_utf8(b) {
        Some(text) => Ok((text, end)),
        None => Err(ReadingError::InvalidUtf8),
    }
}

/// A fixed-size bit set of `bits` bits at `pos`: as many whole bytes as the
/// bits fill, and the position after them.
pub open spec fn spec_fixed_bitset(s: Seq<u8>, pos: int, bits: int) -> Result<(Seq<u8>, int), ReadingError> {
    spec_bytes(s, pos, (bits + 7) / 8)
}

/// Reads a fixed-size bit set of `bits` bits.
pub fn read_fixed_bitset(data: &[u8], pos: usize, bits: usize) -> (r: Result<(Vec<u8>, usize), ReadingError>)
    requires
        pos <= data@.len(),
        bits <= usize::MAX - 7,
    ensures
        match r {
            Ok((v, end)) => spec_fixed_bitset(data@, pos as int, bits as int) == Ok::<(Seq<u8>, int), ReadingError>((v@, end as int)),
            Err(e) => spec_fixed_bitset(data@, pos as int, bits as int) == Err::<(Seq<u8>, int), ReadingError>(e),
        },
{
    read_bytes(data, pos, (bits + 7) / 8)
}

proof fn lemma_var_int_groups_prefix(s: Seq<u8>, t: Seq<u8>, pos: int, i: nat)
    requires
        0 <= pos,
        i <= 5,
    ensures
        spec_var_int_groups(s, pos, i) matches Ok((v, end)) ==> spec_var_int_groups(s + t, pos, i)
            == spec_var_int_groups(s, pos, i) && pos <= end <= s.len(),
    decreases 5 - i,
{
    if i < 5 && pos + i < s.len() {
        assert((s + t)[pos + i] == s[pos + i]);
        lemma_var_int_groups_prefix(s, t, pos, i + 1);
    }
}

/// A `VarInt` read from the start of some bytes is read the same when more
/// bytes follow, and ends within the bytes it was read from.
pub proof fn lemma_var_int_prefix(s: Seq<u8>, t: Seq<u8>, pos: int)
    requires
        0 <= pos,
    ensures
        spec_var_int(s, pos) matches Ok((v, end)) ==> spec_var_int(s + t, pos) == spec_var_int(s, pos)
            && pos <= end <= s.len(),
{
    lemma_var_int_groups_prefix(s, t, pos, 0);
}

/// Bytes read from the start of some bytes are read the same when more bytes
/// follow.
pub proof fn lemma_bytes_prefix(s: Seq<u8>, t: Seq<u8>, pos: int, n: int)
    ensures
        spec_bytes(s, pos, n) matches Ok((v, end)) ==> spec_bytes(s + t, pos, n) == spec_bytes(s, pos, n)
            && pos <= end <= s.len(),
{
    if 0 <= pos && 0 <= n && pos + n <= s.len() {
        assert((s + t).subrange(pos, pos + n) =~= s.subrange(pos, pos + n));
    }
}

/// A byte read from some bytes is read the same when more bytes follow.
pub proof fn lemma_u8_prefix(s: Seq<u8>, t: Seq<u8>, pos: int)
    ensures
        spec_u8(s, pos) matches Ok((v, end)) ==> spec_u8(s + t, pos) == spec_u8(s, pos) && pos <= end <= s.len(),
{
}

/// A 64-bit integer read from some bytes is read the same when more bytes
/// follow.
pub proof fn lemma_i64_be_prefix(s: Seq<u8>, t: Seq<u8>, pos: int)
    ensures
        spec_i64_be(s, pos) matches Ok((v, end)) ==> spec_i64_be(s + t, pos) == spec_i64_be(s, pos)
            && pos <= end <= s.len(),
{
    lemma_bytes_prefix(s, t, pos, 8);
}

/// A string read from some bytes is read the same when more bytes follow.
pub proof fn lemma_string_bounded_prefix(s: Seq<u8>, t: Seq<u8>, pos: int, bound: int)
    requires
        0 <= pos,
    ensures
        spec_string_bounded(s, pos, bound) matches Ok((v, end)) ==> spec_string_bounded(s + t, pos, bound)
            == spec_string_bounded(s, pos, bound) && pos <= end <= s.len(),
{
    lemma_var_int_prefix(s, t, pos);
    if let Ok((n, p)) = spec_var_int(s, pos) {
        lemma_bytes_prefix(s, t, p, n);
    }
}

/// A bit set read from some bytes is read the same when more bytes follow.
pub proof fn lemma_fixed_bitset_prefix(s: Seq<u8>, t: Seq<u8>, pos: int, bits: int)
    ensures
        spec_fixed_bitset(s, pos, bits) matches Ok((v, end)) ==> spec_fixed_bitset(s + t, pos, bits)
            == spec_fixed_bitset(s, pos, bits) && pos <= end <= s.len(),
{
    lemma_bytes_prefix(s, t, pos, (bits + 7) / 8);
}

/// The bytes of the seven-bit groups of `raw`, least significant first, the
/// high bit set on every byte but the last.
pub open spec fn var_int_group_bytes(raw: nat) -> Seq<u8>
    decreases raw,
{
    if raw < 128 {
        seq![raw as u8]
    } else {
        seq![(raw % 128 + 128) as u8] + var_int_group_bytes(raw / 128)
    }
}

/// The bytes of `v` written as a `VarInt`: the groups of its 32-bit two's
/// complement.
pub open spec fn encode_var_int(v: int) -> Seq<u8> {
    var_int_group_bytes(
        if v < 0 {
            (v + 0x1_0000_0000) as nat
        } else {
            v as nat
        },
    )
}

/// The `n` low bytes of `x`, most significant first.
pub open spec fn be_bytes(x: nat, n: nat) -> Seq<u8>
    decreases n,
{
    if n == 0 {
        Seq::empty()
    } else {
        be_bytes(x / 256, (n - 1) as nat).push((x % 256) as u8)
    }
}

/// The eight bytes of `v` written as a big-endian 64-bit two's complement.
pub open spec fn encode_i64_be(v: int) -> Seq<u8> {
    be_bytes(
        if v < 0 {
            (v + 0x1_0000_0000_0000_0000) as nat
        } else {
            v as nat
        },
        8,
    )
}

/// The bytes of `x` written as a string: the length of its UTF-8 encoding as
/// a `VarInt`, then that encoding.
pub open spec fn encode_string(x: Seq<char>) -> Seq<u8> {
    encode_var_int(encode_utf8(x).len() as int) + encode_utf8(x)
}

/// Where `x + y` stands in `s` at `a`, `x` stands at `a` and `y` right after it.
pub proof fn lemma_subrange_split(s: Seq<u8>, a: int, x: Seq<u8>, y: Seq<u8>)
    requires
        0 <= a,
        a + x.len() + y.len() <= s.len(),
        s.subrange(a, a + x.len() + y.len()) == x + y,
    ensures
        s.subrange(a, a + x.len()) == x,
        s.subrange(a + x.len(), a + x.len() + y.len()) == y,
{
    let whole = s.subrange(a, a + x.len() + y.len());
    assert forall|j: int| 0 <= j < x.len() implies s.subrange(a, a + x.len())[j] == x[j] by {
        assert(whole[j] == (x + y)[j]);
    }
    assert forall|j: int| 0 <= j < y.len() implies s.subrange(a + x.len(), a + x.len() + y.len())[j] == y[j] by {
        assert(whole[x.len() + j] == (x + y)[x.len() + j]);
    }
    assert(s.subrange(a, a + x.len()) =~= x);
    assert(s.subrange(a + x.len(), a + x.len() + y.len()) =~= y);
}

proof fn lemma_var_int_groups_encoded(s: Seq<u8>, pos: int, i: nat, raw: nat)
    requires
        0 <= pos,
        i < 5,
        raw < groups_bound(i),
        pos + i + var_int_group_bytes(raw).len() <= s.len(),
        s.subrange(pos + i, pos + i + var_int_group_bytes(raw).len()) == var_int_group_bytes(raw),
    ensures
        spec_var_int_groups(s, pos, i) == Ok::<(nat, int), ReadingError>(
            (raw, pos + i + var_int_group_bytes(raw).len()),
        ),
    decreases raw,
{
    let e = var_int_group_bytes(raw);
    assert(s[pos + i] == s.subrange(pos + i, pos + i + e.len())[0]);
    if raw >= 128 {
        let rest = raw / 128;
        let er = var_int_group_bytes(rest);
        assert(groups_bound(i) == 128 * groups_bound(i + 1));
        lemma_groups_bound(i + 1);
        if i + 1 >= 5 {
            assert(groups_bound(i + 1) == 1);
        }
        assert(e == seq![(raw % 128 + 128) as u8] + er);
        lemma_subrange_split(s, pos + i, seq![(raw % 128 + 128) as u8], er);
        lemma_var_int_groups_encoded(s, pos, i + 1, rest);
    }
}

/// A `VarInt` written at `pos` is read back as the same value, and the
/// reading ends right after the bytes written.
pub proof fn lemma_var_int_round_trip(s: Seq<u8>, pos: int, v: int)
    requires
        0 <= pos,
        i32::MIN <= v <= i32::MAX,
        pos + encode_var_int(v).len() <= s.len(),
        s.subrange(pos, pos + encode_var_int(v).len()) == encode_var_int(v),
    ensures
        spec_var_int(s, pos) == Ok::<(int, int), ReadingError>((v, pos + encode_var_int(v).len())),
{
    let raw: nat = if v < 0 {
        (v + 0x1_0000_0000) as nat
    } else {
        v as nat
    };
    reveal_with_fuel(groups_bound, 6);
    assert(groups_bound(0) == 0x8_0000_0000);
    lemma_var_int_groups_encoded(s, pos, 0, raw);
    lemma_small_mod(raw, 0x1_0000_0000);
}

proof fn lemma_be_bytes(x: nat, n: nat)
    ensures
        be_bytes(x, n).len() == n,
        be_value(be_bytes(x, n)) == x % pow256(n),
        pow256(n) > 0,
    decreases n,
{
    if n == 0 {
        assert(x % 1 == 0);
    } else {
        lemma_be_bytes(x / 256, (n - 1) as nat);
        let b = be_bytes(x, n);
        assert(b.drop_last() == be_bytes(x / 256, (n - 1) as nat));
        lemma_mod_breakdown(x as int, 256, pow256((n - 1) as nat) as int);
    }
}

/// A 64-bit integer written big-endian at `pos` is read back as the same
/// value, and the reading ends right after its eight bytes.
pub proof fn lemma_i64_be_round_trip(s: Seq<u8>, pos: int, v: int)
    requires
        0 <= pos,
        i64::MIN <= v <= i64::MAX,
        pos + encode_i64_be(v).len() <= s.len(),
        s.subrange(pos, pos + encode_i64_be(v).len()) == encode_i64_be(v),
    ensures
        encode_i64_be(v).len() == 8,
        spec_i64_be(s, pos) == Ok::<(int, int), ReadingError>((v, pos + 8)),
{
    let raw: nat = if v < 0 {
        (v + 0x1_0000_0000_0000_0000) as nat
    } else {
        v as nat
    };
    lemma_be_bytes(raw, 8);
    reveal_with_fuel(pow256, 9);
    lemma_small_mod(raw, pow256(8));
}

/// A string written at `pos` is read back as the same characters when its
/// encoding fits the bound, and the reading ends right after its bytes.
pub proof fn lemma_string_round_trip(s: Seq<u8>, pos: int, x: Seq<char>, bound: int)
    requires
        0 <= pos,
        encode_utf8(x).len() <= bound <= i32::MAX,
        pos + encode_string(x).len() <= s.len(),
        s.subrange(pos, pos + encode_string(x).len()) == encode_string(x),
    ensures
        spec_string_bounded(s, pos, bound) == Ok::<(Seq<char>, int), ReadingError>(
            (x, pos + encode_string(x).len()),
        ),
{
    let bytes = encode_utf8(x);
    let n = encode_var_int(bytes.len() as int);
    lemma_subrange_split(s, pos, n, bytes);
    lemma_var_int_round_trip(s, pos, bytes.len() as int);
    vstd::utf8::encode_utf8_valid_utf8(x);
    vstd::utf8::encode_utf8_decode_utf8(x);
}

} // verus!
