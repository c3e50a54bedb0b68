//! The protocol buffer wire format: how a message's bytes split into fields,
//! and the primitive readers of `quick_protobuf` that read one value each.
use vstd::arithmetic::power::pow;
use vstd::prelude::*;
use vstd::slice::slice_subrange;
use vstd::slice::slice_to_vec;
use vstd::utf8::decode_utf8;
use vstd::utf8::valid_utf8;

verus! {

/// The length of the varint at the start of `s`, looking from byte `i` on:
/// a varint ends at its first byte below 0x80, and has at most ten bytes.
pub open spec fn varint_len_from(s: Seq<u8>, i: nat) -> Option<nat>
    decreases 10 - i,
{
    if i >= 10 || i >= s.len() {
        None
    } else if s[i as int] < 0x80 {
        Some(i + 1)
    } else {
        varint_len_from(s, i + 1)
    }
}

/// The length of the varint at the start of `s`, if one ends within `s`
/// and within ten bytes.
pub open spec fn varint_len(s: Seq<u8>) -> Option<nat> {
    varint_len_from(s, 0)
}

/// The number that the first `n` bytes of a varint stand for: the low seven
/// bits of each byte, least significant group first.
pub open spec fn varint_sum(s: Seq<u8>, n: nat) -> nat
    decreases n,
{
    if n == 0 {
        0
    } else {
        (varint_sum(s, (n - 1) as nat) + (s[n - 1] % 128) as nat * pow(128, (n - 1) as nat)) as nat
    }
}

/// The varint at the start of `s` read as a 64-bit number (higher bits are
/// dropped), with its length.
pub open spec fn spec_varint64(s: Seq<u8>) -> Option<(u64, nat)> {
    match varint_len(s) {
        Some(n) => Some(((varint_sum(s, n) % 0x1_0000_0000_0000_0000) as u64, n)),
        None => None,
    }
}

/// The varint at the start of `s` read as a 32-bit number (higher bits are
/// dropped), with its length.
pub open spec fn spec_varint32(s: Seq<u8>) -> Option<(u32, nat)> {
    match varint_len(s) {
        Some(n) => Some(((varint_sum(s, n) % 0x1_0000_0000) as u32, n)),
        None => None,
    }
}

/// The number whose little-endian encoding is the first `n` bytes of `s`.
pub open spec fn little_endian(s: Seq<u8>, n: nat) -> nat
    decreases n,
{
    if n == 0 {
        0
    } else {
        (little_endian(s, (n - 1) as nat) + s[n - 1] as nat * pow(256, (n - 1) as nat)) as nat
    }
}

/// The little-endian 32-bit number at the start of `s`.
pub open spec fn spec_fixed32(s: Seq<u8>) -> Option<(u32, nat)> {
    if s.len() >= 4 {
        Some((little_endian(s, 4) as u32, 4))
    } else {
        None
    }
}

/// The little-endian 64-bit number at the start of `s`.
pub open spec fn spec_fixed64(s: Seq<u8>) -> Option<(u64, nat)> {
    if s.len() >= 8 {
        Some((little_endian(s, 8) as u64, 8))
    } else {
        None
    }
}

/// The zig-zag decoding of a 64-bit number: `0, 1, 2, 3, ...` stand for
/// `0, -1, 1, -2, ...`.
pub open spec fn zig_zag64(n: u64) -> int {
    if n % 2 == 0 {
        (n / 2) as int
    } else {
        -((n / 2) as int) - 1
    }
}

/// The bytes of the length-delimited value at the start of `s` (a 32-bit
/// varint length, then that many bytes), with the number of bytes it takes.
pub open spec fn spec_delimited(s: Seq<u8>) -> Option<(Seq<u8>, nat)> {
    match spec_varint32(s) {
        Some((len, n)) => if n + len <= s.len() {
            Some((s.subrange(n as int, n + len), (n + len) as nat))
        } else {
            None
        },
        None => None,
    }
}

/// The string at the start of `s`: a length-delimited value whose bytes are
/// valid UTF-8.
pub open spec fn spec_string(s: Seq<u8>) -> Option<(Seq<char>, nat)> {
    match spec_delimited(s) {
        Some((b, n)) => if valid_utf8(b) {
            Some((decode_utf8(b), n))
        } else {
            None
        },
        None => None,
    }
}

/// The number of bytes that the value of an unknown field with tag `tag`
/// takes at the start of `s`, by the tag's wire type: a varint (0), eight
/// bytes (1), a 64-bit varint length and that many bytes (2), four bytes (5).
/// Groups (3, 4) and the wire types 6 and 7 are refused.
pub open spec fn spec_skip_unknown(s: Seq<u8>, tag: u32) -> Option<nat> {
    let wire = tag % 8;
    if wire == 0 {
        match spec_varint64(s) {
            Some((_, n)) => Some(n),
            None => None,
        }
    } else if wire == 1 {
        if s.len() >= 8 {
            Some(8)
        } else {
            None
        }
    } else if wire == 5 {
        if s.len() >= 4 {
            Some(4)
        } else {
            None
        }
    } else if wire == 2 {
        match spec_varint64(s) {
            Some((len, n)) => if n + len <= s.len() {
                Some((n + len) as nat)
            } else {
                None
            },
            None => None,
        }
    } else {
        None
    }
}

/// Splits `s` into consecutive fields, each read by `field` from the bytes
/// that remain before it (its value and the number of bytes it takes).
/// `None` when a field cannot be read.
pub open spec fn parse_fields<F>(s: Seq<u8>, field: spec_fn(Seq<u8>) -> Option<(F, nat)>) -> Option<
    Seq<F>,
>
    decreases s.len(),
{
    if s.len() == 0 {
        Some(Seq::empty())
    } else {
        match field(s) {
            Some((f, n)) => if 0 < n <= s.len() {
                match parse_fields(s.skip(n as int), field) {
                    Some(rest) => Some(seq![f] + rest),
                    None => None,
                }
            } else {
                None
            },
            None => None,
        }
    }
}

/// A field read as a tag (a 32-bit varint) followed by a value that `value`
/// reads from the bytes after the tag, given the tag.
pub open spec fn tagged_field<F>(s: Seq<u8>, value: spec_fn(Seq<u8>, u32) -> Option<(F, nat)>) -> Option<
    (F, nat),
> {
    match spec_varint32(s) {
        Some((tag, tn)) => match value(s.skip(tn as int), tag) {
            Some((f, vn)) => Some((f, tn + vn)),
            None => None,
        },
        None => None,
    }
}

/// `r` with `done` in front of it, when there is an `r`.
pub open spec fn prefixed<F>(done: Seq<F>, r: Option<Seq<F>>) -> Option<Seq<F>> {
    match r {
        Some(x) => Some(done + x),
        None => None,
    }
}

/// The elements of a packed repeated field of 32-bit varints.
pub open spec fn varint32_field_fn() -> spec_fn(Seq<u8>) -> Option<(u32, nat)> {
    |s: Seq<u8>| spec_varint32(s)
}

/// The packed repeated field of 32-bit varints at the start of `s`, with the
/// number of bytes it takes.
pub open spec fn spec_packed_u32(s: Seq<u8>) -> Option<(Seq<u32>, nat)> {
    match spec_delimited(s) {
        Some((b, n)) => match parse_fields(b, varint32_field_fn()) {
            Some(vs) => Some((vs, n)),
            None => None,
        },
        None => None,
    }
}

pub proof fn lemma_varint_len_from(s: Seq<u8>, i: nat)
    ensures
        varint_len_from(s, i) matches Some(n) ==> i < n <= s.len() && n <= 10,
    decreases 10 - i,
{
    if i < 10 && i < s.len() && s[i as int] >= 0x80 {
        lemma_varint_len_from(s, i + 1);
    }
}

/// Every reader takes at least one byte, and no more than there are.
pub proof fn lemma_varint_len(s: Seq<u8>)
    ensures
        spec_varint32(s) matches Some((_, n)) ==> 0 < n <= s.len(),
        spec_varint64(s) matches Some((_, n)) ==> 0 < n <= s.len(),
        spec_fixed32(s) matches Some((_, n)) ==> 0 < n <= s.len(),
        spec_fixed64(s) matches Some((_, n)) ==> 0 < n <= s.len(),
        spec_delimited(s) matches Some((_, n)) ==> 0 < n <= s.len(),
        spec_string(s) matches Some((_, n)) ==> 0 < n <= s.len(),
        spec_packed_u32(s) matches Some((_, n)) ==> 0 < n <= s.len(),
        forall|tag: u32| #[trigger] spec_skip_unknown(s, tag) matches Some(n) ==> 0 < n <= s.len(),
{
    lemma_varint_len_from(s, 0);
}

/// One step of `parse_fields`: after a field `f` of `n` bytes at `pos`,
/// what remains to parse starts at `pos + n`.
pub proof fn lemma_parse_fields_step<F>(
    s: Seq<u8>,
    field: spec_fn(Seq<u8>) -> Option<(F, nat)>,
    pos: int,
    done: Seq<F>,
    f: F,
    n: nat,
)
    requires
        0 <= pos < s.len(),
        field(s.skip(pos)) == Some((f, n)),
        0 < n,
        pos + n <= s.len(),
    ensures
        prefixed(done, parse_fields(s.skip(pos), field)) == prefixed(
            done.push(f),
            parse_fields(s.skip(pos + n), field),
        ),
{
    let r = s.skip(pos);
    assert(r.skip(n as int) =~= s.skip(pos + n));
    match parse_fields(s.skip(pos + n), field) {
        Some(rest) => {
            assert(done + (seq![f] + rest) =~= done.push(f) + rest);
        },
        None => {},
    }
}

/// `parse_fields` of the whole of `s` once every byte is parsed.
pub proof fn lemma_parse_fields_end<F>(
    s: Seq<u8>,
    field: spec_fn(Seq<u8>) -> Option<(F, nat)>,
    done: Seq<F>,
)
    ensures
        prefixed(done, parse_fields(s.skip(s.len() as int), field)) == Some(done),
{
    assert(s.skip(s.len() as int) =~= Seq::<u8>::empty());
    assert(done + Seq::<F>::empty() =~= done);
}

/// `parse_fields` of `s` seen from its start.
pub proof fn lemma_parse_fields_start<F>(s: Seq<u8>, field: spec_fn(Seq<u8>) -> Option<(F, nat)>)
    ensures
        prefixed(Seq::<F>::empty(), parse_fields(s.skip(0), field)) == parse_fields(s, field),
{
    assert(s.skip(0) =~= s);
    match parse_fields(s, field) {
        Some(x) => {
            assert(Seq::<F>::empty() + x =~= x);
        },
        None => {},
    }
}

/// Folding one more field into an accumulated value.
pub proof fn lemma_fold_push<F, B>(done: Seq<F>, f: F, b: B, g: spec_fn(B, F) -> B)
    ensures
        done.push(f).fold_left(b, g) == g(done.fold_left(b, g), f),
{
    assert(done.push(f).drop_last() =~= done);
}

proof fn lemma_varint_len_from_stable(a: Seq<u8>, b: Seq<u8>, i: nat)
    requires
        varint_len_from(a, i) is Some,
    ensures
        varint_len_from(a + b, i) == varint_len_from(a, i),
    decreases 10 - i,
{
    lemma_varint_len_from(a, i);
    assert((a + b)[i as int] == a[i as int]);
    if a[i as int] >= 0x80 {
        lemma_varint_len_from_stable(a, b, i + 1);
    }
}

proof fn lemma_varint_sum_stable(a: Seq<u8>, b: Seq<u8>, n: nat)
    requires
        n <= a.len(),
    ensures
        varint_sum(a + b, n) == varint_sum(a, n),
    decreases n,
{
    if n > 0 {
        lemma_varint_sum_stable(a, b, (n - 1) as nat);
        assert((a + b)[n - 1] == a[n - 1]);
    }
}

proof fn lemma_little_endian_stable(a: Seq<u8>, b: Seq<u8>, n: nat)
    requires
        n <= a.len(),
    ensures
        little_endian(a + b, n) == little_endian(a, n),
    decreases n,
{
    if n > 0 {
        lemma_little_endian_stable(a, b, (n - 1) as nat);
        assert((a + b)[n - 1] == a[n - 1]);
    }
}

proof fn lemma_varint_stable(a: Seq<u8>, b: Seq<u8>)
    ensures
        spec_varint32(a) is Some ==> spec_varint32(a + b) == spec_varint32(a),
        spec_varint64(a) is Some ==> spec_varint64(a + b) == spec_varint64(a),
{
    lemma_varint_len_from(a, 0);
    if varint_len(a) is Some {
        lemma_varint_len_from_stable(a, b, 0);
        lemma_varint_sum_stable(a, b, varint_len(a).unwrap());
    }
}

/// Each reader gives the same value, taking the same bytes, when more
/// bytes follow.
pub proof fn lemma_readers_stable(a: Seq<u8>, b: Seq<u8>)
    ensures
        spec_varint32(a) is Some ==> spec_varint32(a + b) == spec_varint32(a),
        spec_varint64(a) is Some ==> spec_varint64(a + b) == spec_varint64(a),
        spec_fixed32(a) is Some ==> spec_fixed32(a + b) == spec_fixed32(a),
        spec_fixed64(a) is Some ==> spec_fixed64(a + b) == spec_fixed64(a),
        spec_delimited(a) is Some ==> spec_delimited(a + b) == spec_delimited(a),
        spec_string(a) is Some ==> spec_string(a + b) == spec_string(a),
        spec_packed_u32(a) is Some ==> spec_packed_u32(a + b) == spec_packed_u32(a),
        forall|tag: u32|
            #[trigger] spec_skip_unknown(a, tag) is Some ==> spec_skip_unknown(a + b, tag)
                == spec_skip_unknown(a, tag),
{
    lemma_varint_len_from(a, 0);
    if varint_len(a) is Some {
        lemma_varint_len_from_stable(a, b, 0);
        lemma_varint_sum_stable(a, b, varint_len(a).unwrap());
    }
    if a.len() >= 8 {
        lemma_little_endian_stable(a, b, 8);
    }
    if a.len() >= 4 {
        lemma_little_endian_stable(a, b, 4);
    }
    if spec_delimited(a) is Some {
        let (len, n) = spec_varint32(a).unwrap();
        assert((a + b).subrange(n as int, n + len) =~= a.subrange(n as int, n + len));
    }
}

/// A field read as a tag and a value is stable when its value is.
pub proof fn lemma_tagged_field_stable<F>(
    value: spec_fn(Seq<u8>, u32) -> Option<(F, nat)>,
    a: Seq<u8>,
    b: Seq<u8>,
)
    requires
        forall|r: Seq<u8>, tag: u32|
            #![trigger value(r + b, tag)]
            value(r, tag) is Some ==> value(r + b, tag) == value(r, tag),
        tagged_field(a, value) is Some,
    ensures
        tagged_field(a + b, value) == tagged_field(a, value),
{
    lemma_varint_stable(a, b);
    lemma_varint_len(a);
    let (tag, tn) = spec_varint32(a).unwrap();
    assert((a + b).skip(tn as int) =~= a.skip(tn as int) + b);
    assert(value(a.skip(tn as int), tag) is Some);
}

/// Fields parse across a concatenation: the fields of two byte strings
/// one after the other are the fields of the first, then those of the
/// second, for a field reader that does not look past its field.
pub proof fn lemma_parse_fields_concat<F>(
    field: spec_fn(Seq<u8>) -> Option<(F, nat)>,
    a: Seq<u8>,
    b: Seq<u8>,
)
    requires
        forall|x: Seq<u8>| #![trigger field(x + b)] field(x) is Some ==> field(x + b) == field(x),
        parse_fields(a, field) is Some,
        parse_fields(b, field) is Some,
    ensures
        parse_fields(a + b, field) == Some(
            parse_fields(a, field).unwrap() + parse_fields(b, field).unwrap(),
        ),
    decreases a.len(),
{
    let fb = parse_fields(b, field).unwrap();
    if a.len() == 0 {
        assert(a + b =~= b);
        assert(Seq::<F>::empty() + fb =~= fb);
    } else {
        let (f, n) = field(a).unwrap();
        assert(field(a + b) == field(a));
        assert((a + b).skip(n as int) =~= a.skip(n as int) + b);
        lemma_parse_fields_concat(field, a.skip(n as int), b);
        let ra = parse_fields(a.skip(n as int), field).unwrap();
        assert(seq![f] + (ra + fb) =~= (seq![f] + ra) + fb);
    }
}

/// Reads the 32-bit varint at the start of `buf`.
///
/// Calls `quick_protobuf::BytesReader::read_varint32` (which `next_tag` and
/// `read_uint32` also are): it reads bytes up to the first one below 0x80,
/// at most ten, keeps the low 32 bits of the number, and fails when the
/// buffer ends first or all ten bytes are continuation bytes. The second
/// value returned is the number of bytes left after the varint.
#[verifier::external_body]
pub(crate) fn read_varint32(buf: &[u8]) -> (res: Option<(u32, usize)>)
    ensures
        match spec_varint32(buf@) {
            Some((v, n)) => res == Some((v, (buf@.len() - n) as usize)),
            None => res is None,
        },
{
    let mut r = quick_protobuf::BytesReader::from_bytes(buf);
    match r.read_varint32(buf) {
        Ok(v) => Some((v, r.len())),
        Err(_) => None,
    }
}

/// Reads a `uint64` field value at the start of `buf`.
///
/// Calls `quick_protobuf::BytesReader::read_uint64`, which is its
/// `read_varint64`: the same bytes as a 32-bit varint, the low 64 bits of
/// the number. The second value returned is the number of bytes left.
#[verifier::external_body]
pub(crate) fn read_uint64(buf: &[u8]) -> (res: Option<(u64, usize)>)
    ensures
        match spec_varint64(buf@) {
            Some((v, n)) => res == Some((v, (buf@.len() - n) as usize)),
            None => res is None,
        },
{
    let mut r = quick_protobuf::BytesReader::from_bytes(buf);
    match r.read_uint64(buf) {
        Ok(v) => Some((v, r.len())),
        Err(_) => None,
    }
}

/// Reads an `int64` field value at the start of `buf`.
///
/// Calls `quick_protobuf::BytesReader::read_int64`: the 64-bit varint
/// reinterpreted as a signed number. The second value returned is the
/// number of bytes left.
#[verifier::external_body]
pub(crate) fn read_int64(buf: &[u8]) -> (res: Option<(i64, usize)>)
    ensures
        match spec_varint64(buf@) {
            Some((v, n)) => res == Some((v as i64, (buf@.len() - n) as usize)),
            None => res is None,
        },
{
    let mut r = quick_protobuf::BytesReader::from_bytes(buf);
    match r.read_int64(buf) {
        Ok(v) => Some((v, r.len())),
        Err(_) => None,
    }
}

/// Reads a `sint64` field value at the start of `buf`.
///
/// Calls `quick_protobuf::BytesReader::read_sint64`: the zig-zag decoding
/// of the 64-bit varint. The second value returned is the number of bytes
/// left.
#[verifier::external_body]
pub(crate) fn read_sint64(buf: &[u8]) -> (res: Option<(i64, usize)>)
    ensures
        match spec_varint64(buf@) {
            Some((v, n)) => res matches Some((x, rem)) && x as int == zig_zag64(v) && rem == (
            buf@.len() - n) as usize,
            None => res is None,
        },
{
    let mut r = quick_protobuf::BytesReader::from_bytes(buf);
    match r.read_sint64(buf) {
        Ok(v) => Some((v, r.len())),
        Err(_) => None,
    }
}

/// Reads a `bool` field value at the start of `buf`.
///
/// Calls `quick_protobuf::BytesReader::read_bool`: whether the 32-bit
/// varint is not zero. The second value returned is the number of bytes
/// left.
#[verifier::external_body]
pub(crate) fn read_bool(buf: &[u8]) -> (res: Option<(bool, usize)>)
    ensures
        match spec_varint32(buf@) {
            Some((v, n)) => res == Some((v != 0, (buf@.len() - n) as usize)),
            None => res is None,
        },
{
    let mut r = quick_protobuf::BytesReader::from_bytes(buf);
    match r.read_bool(buf) {
        Ok(v) => Some((v, r.len())),
        Err(_) => None,
    }
}

/// Reads an `int32` (or enum) field value at the start of `buf`.
///
/// Calls `quick_protobuf::BytesReader::read_int32`: the 32-bit varint
/// reinterpreted as a signed number. The second value returned is the
/// number of bytes left.
#[verifier::external_body]
pub(crate) fn read_int32(buf: &[u8]) -> (res: Option<(i32, usize)>)
    ensures
        match spec_varint32(buf@) {
            Some((v, n)) => res == Some((v as i32, (buf@.len() - n) as usize)),
            None => res is None,
        },
{
    let mut r = quick_protobuf::BytesReader::from_bytes(buf);
    match r.read_int32(buf) {
        Ok(v) => Some((v, r.len())),
        Err(_) => None,
    }
}

/// Reads a `fixed32` value (the bits of a `float` field) at the start of
/// `buf`.
///
/// Calls `quick_protobuf::BytesReader::read_fixed32`: the first four bytes
/// read as a little-endian number, failing when fewer remain. The second
/// value returned is the number of bytes left.
#[verifier::external_body]
pub(crate) fn read_fixed32(buf: &[u8]) -> (res: Option<(u32, usize)>)
    ensures
        match spec_fixed32(buf@) {
            Some((v, n)) => res == Some((v, (buf@.len() - n) as usize)),
            None => res is None,
        },
{
    let mut r = quick_protobuf::BytesReader::from_bytes(buf);
    match r.read_fixed32(buf) {
        Ok(v) => Some((v, r.len())),
        Err(_) => None,
    }
}

/// Reads a `fixed64` value (the bits of a `double` field) at the start of
/// `buf`.
///
/// Calls `quick_protobuf::BytesReader::read_fixed64`: the first eight bytes
/// read as a little-endian number, failing when fewer remain. The second
/// value returned is the number of bytes left.
#[verifier::external_body]
pub(crate) fn read_fixed64(buf: &[u8]) -> (res: Option<(u64, usize)>)
    ensures
        match spec_fixed64(buf@) {
            Some((v, n)) => res == Some((v, (buf@.len() - n) as usize)),
            None => res is None,
        },
{
    let mut r = quick_protobuf::BytesReader::from_bytes(buf);
    match r.read_fixed64(buf) {
        Ok(v) => Some((v, r.len())),
        Err(_) => None,
    }
}

/// Skips the value of a field with an unknown tag at the start of `buf`.
///
/// Calls `quick_protobuf::BytesReader::read_unknown`, which skips by the
/// tag's wire type (see `spec_skip_unknown`) and fails on groups, on wire
/// types 6 and 7, and when the value runs past the buffer. Returns the
/// number of bytes left.
#[verifier::external_body]
pub(crate) fn skip_unknown(buf: &[u8], tag: u32) -> (res: Option<usize>)
    ensures
        match spec_skip_unknown(buf@, tag) {
            Some(n) => res == Some((buf@.len() - n) as usize),
            None => res is None,
        },
{
    let mut r = quick_protobuf::BytesReader::from_bytes(buf);
    match r.read_unknown(buf, tag) {
        Ok(()) => Some(r.len()),
        Err(_) => None,
    }
}

/// Reads `bytes` as UTF-8.
///
/// Calls `core::str::from_utf8`, which succeeds exactly when the bytes are
/// valid UTF-8, and then holds the characters they encode.
#[verifier::external_body]
pub(crate) fn str_from_utf8(bytes: &[u8]) -> (res: Option<&str>)
    ensures
        res is Some <==> valid_utf8(bytes@),
        res matches Some(s) ==> s@ == decode_utf8(bytes@),
{
    core::str::from_utf8(bytes).ok()
}

/// The bytes after the first `buf.len() - rem` of `buf`.
pub(crate) fn rest_of(buf: &[u8], rem: usize) -> (r: &[u8])
    requires
        rem <= buf@.len(),
    ensures
        r@ == buf@.skip(buf@.len() - rem),
{
    let r = slice_subrange(buf, buf.len() - rem, buf.len());
    assert(r@ =~= buf@.skip(buf@.len() - rem));
    r
}

/// Reads the length-delimited value at the start of `buf`: its bytes, and
/// the number of bytes left after it.
pub fn read_delimited(buf: &[u8]) -> (res: Option<(&[u8], usize)>)
    ensures
        match spec_delimited(buf@) {
            Some((b, n)) => res matches Some((x, rem)) && x@ == b && rem == buf@.len() - n,
            None => res is None,
        },
{
    let blen = buf.len();
    match read_varint32(buf) {
        None => None,
        Some((len, rem)) => {
            proof {
                lemma_varint_len(buf@);
            }
            if (len as usize) > rem {
                None
            } else {
                let start = buf.len() - rem;
                let end = start + len as usize;
                let b = slice_subrange(buf, start, end);
                Some((b, rem - len as usize))
            }
        },
    }
}

/// Reads the string at the start of `buf`, and the number of bytes left
/// after it.
pub fn read_string(buf: &[u8]) -> (res: Option<(String, usize)>)
    ensures
        match spec_string(buf@) {
            Some((c, n)) => res matches Some((x, rem)) && x@ == c && rem == buf@.len() - n,
            None => res is None,
        },
{
    match read_delimited(buf) {
        None => None,
        Some((b, rem)) => match str_from_utf8(b) {
            None => None,
            Some(s) => Some((s.to_owned(), rem)),
        },
    }
}

/// Reads the packed repeated field of 32-bit varints at the start of `buf`,
/// and the number of bytes left after it.
pub fn read_packed_u32(buf: &[u8]) -> (res: Option<(Vec<u32>, usize)>)
    ensures
        match spec_packed_u32(buf@) {
            Some((vs, n)) => res matches Some((x, rem)) && x@ == vs && rem == buf@.len() - n,
            None => res is None,
        },
{
    let (b, rem) = match read_delimited(buf) {
        None => {
            return None;
        },
        Some(p) => p,
    };
    let mut out: Vec<u32> = Vec::new();
    let len = b.len();
    let mut pos: usize = 0;
    proof {
        lemma_parse_fields_start(b@, varint32_field_fn());
    }
    while pos < len
        invariant
            len == b@.len(),
            pos <= len,
            spec_delimited(buf@) == Some((b@, (buf@.len() - rem) as nat)),
            parse_fields(b@, varint32_field_fn()) == prefixed(
                out@,
                parse_fields(b@.skip(pos as int), varint32_field_fn()),
            ),
        decreases len - pos,
    {
        let r = slice_subrange(b, pos, len);
        assert(r@ =~= b@.skip(pos as int));
        match read_varint32(r) {
            None => {
                assert(parse_fields(b@.skip(pos as int), varint32_field_fn()) is None);
                return None;
            },
            Some((v, rrem)) => {
                proof {
                    lemma_varint_len(r@);
                    let n = (r@.len() - rrem) as nat;
                    lemma_parse_fields_step(b@, varint32_field_fn(), pos as int, out@, v, n);
                }
                out.push(v);
                pos = len - rrem;
            },
        }
    }
    proof {
        lemma_parse_fields_end(b@, varint32_field_fn(), out@);
    }
    Some((out, rem))
}

} // verus!
