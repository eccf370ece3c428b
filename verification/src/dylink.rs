//! Parser for the linking-metadata (`dylink`) section of a module binary.
//!
//! The section must be the first section after the format header.  It is
//! decoded as: a 4-byte magic header, an unsigned LEB128 section length, a
//! fixed 6-byte name tag, four unsigned LEB128 values (`mem_size`,
//! `mem_align`, `table_size`, `table_align`), and a LEB128-counted list of
//! dependency-library names, each a LEB128 length followed by that many raw
//! bytes interpreted as UTF-8.

use vstd::prelude::*;
use vstd::slice::slice_subrange;
use vstd::slice::slice_to_vec;
use vstd::utf8::decode_utf8;
use vstd::utf8::valid_utf8;

use crate::error::Error;

verus! {

// ---------------------------------------------------------------------------
// Unsigned LEB128
// ---------------------------------------------------------------------------

/// 128 raised to `n`.
pub open spec fn pow128(n: nat) -> nat
    decreases n,
{
    if n == 0 {
        1
    } else {
        128 * pow128((n - 1) as nat)
    }
}

/// Among the `max` bytes starting at `i` there is a terminating byte (high
/// bit clear), and everything up to it lies inside the buffer.
pub open spec fn leb_terminated(s: Seq<u8>, i: int, max: int) -> bool
    decreases max,
{
    if max <= 0 || i < 0 || i >= s.len() {
        false
    } else if s[i] < 0x80 {
        true
    } else {
        leb_terminated(s, i + 1, max - 1)
    }
}

/// The number of bytes of the encoding that starts at `i`.
pub open spec fn leb_len(s: Seq<u8>, i: int) -> int
    decreases s.len() - i,
{
    if i < 0 || i >= s.len() {
        0
    } else if s[i] < 0x80 {
        1
    } else {
        1 + leb_len(s, i + 1)
    }
}

/// The value of the encoding that starts at `i`: seven low bits per byte,
/// least significant group first.
pub open spec fn leb_value(s: Seq<u8>, i: int) -> nat
    decreases s.len() - i,
{
    if i < 0 || i >= s.len() {
        0
    } else if s[i] < 0x80 {
        s[i] as nat
    } else {
        ((s[i] - 0x80) as nat) + 0x80 * leb_value(s, i + 1)
    }
}

/// A well-formed encoding of a 32-bit magnitude starts at `i`: terminated
/// within five bytes, in bounds, and its value fits in a `u32`.
pub open spec fn leb_wf(s: Seq<u8>, i: int) -> bool {
    leb_terminated(s, i, 5) && leb_value(s, i) <= u32::MAX
}

proof fn lemma_leb_terminated_bounds(s: Seq<u8>, i: int, max: int)
    requires
        leb_terminated(s, i, max),
    ensures
        1 <= leb_len(s, i) <= max,
        i + leb_len(s, i) <= s.len(),
    decreases max,
{
    if s[i] >= 0x80 {
        lemma_leb_terminated_bounds(s, i + 1, max - 1);
    }
}

/// A well-formed encoding lies entirely inside the buffer and spans one to
/// five bytes.
pub proof fn lemma_leb_bounds(s: Seq<u8>, i: int)
    requires
        leb_wf(s, i),
    ensures
        0 <= i < s.len(),
        1 <= leb_len(s, i) <= 5,
        i + leb_len(s, i) <= s.len(),
{
    lemma_leb_terminated_bounds(s, i, 5);
}

proof fn lemma_pow128_bound(n: nat)
    requires
        n <= 5,
    ensures
        pow128(n) <= 0x800000000,
    decreases n,
{
    reveal_with_fuel(pow128, 6);
    if n == 0 {
    } else if n == 1 {
    } else if n == 2 {
    } else if n == 3 {
    } else if n == 4 {
    } else {
        assert(n == 5);
    }
}

/// Read one unsigned LEB128 value whose first byte sits at `start`.
/// Returns the value and the position one past the encoding, or `None`
/// exactly when no well-formed 32-bit encoding starts there.
fn try_leb128(binary: &[u8], start: usize) -> (r: Option<(u32, usize)>)
    ensures
        r is Some <==> leb_wf(binary@, start as int),
        r matches Some(p) ==> p.0 == leb_value(binary@, start as int) && p.1 == start + leb_len(
            binary@,
            start as int,
        ),
{
    let ghost s = binary@;
    let len = binary.len();
    let mut idx: usize = start;
    let mut acc: u64 = 0;
    let mut mul: u64 = 1;
    let mut count: usize = 0;
    loop
        invariant
            len == s.len(),
            s == binary@,
            idx == start + count,
            count <= 5,
            mul == pow128(count as nat),
            acc < mul,
            leb_terminated(s, start as int, 5) <==> leb_terminated(s, idx as int, 5 - count),
            leb_terminated(s, idx as int, 5 - count) ==> leb_value(s, start as int) == acc
                + mul * leb_value(s, idx as int) && leb_len(s, start as int) == count + leb_len(
                s,
                idx as int,
            ),
        decreases 5 - count,
    {
        proof {
            lemma_pow128_bound(count as nat);
        }
        if count >= 5 {
            return None;
        }
        if idx >= len {
            return None;
        }
        let byte = binary[idx];
        proof {
            assert((byte as u64) * mul <= 0xff * 0x8000000000u64) by (nonlinear_arith)
                requires
                    (byte as u64) <= 0xff,
                    mul <= 0x8000000000u64,
            ;
        }
        if byte < 0x80 {
            let value = acc + (byte as u64) * mul;
            proof {
                assert(leb_terminated(s, idx as int, 5 - count));
                assert(leb_value(s, idx as int) == byte as nat);
                assert(leb_len(s, idx as int) == 1);
                assert(leb_terminated(s, start as int, 5));
                assert(leb_value(s, start as int) == acc + mul * leb_value(s, idx as int));
                assert(leb_value(s, start as int) == acc + mul * (byte as nat));
                assert(byte as nat == byte as u64);
                assert(value == acc + (byte as u64) * mul);
                assert((byte as u64) * mul == mul * (byte as nat)) by (nonlinear_arith)
                    requires
                        byte as nat == byte as u64,
                ;
                assert(value == acc + mul * (byte as nat));
                assert(leb_value(s, start as int) == value);
                assert(leb_len(s, start as int) == count + 1);
            }
            if value > 0xffff_ffff {
                return None;
            }
            return Some((value as u32, idx + 1));
        }
        let ghost old_acc = acc;
        let ghost old_mul = mul;
        let ghost old_count = count;
        proof {
            assert(((byte - 0x80) as u64) * mul <= 0xff * 0x8000000000u64) by (nonlinear_arith)
                requires
                    ((byte - 0x80) as u64) <= 0xff,
                    mul <= 0x8000000000u64,
            ;
            assert(acc + ((byte - 0x80) as u64) * mul < mul * 0x80) by (nonlinear_arith)
                requires
                    acc < mul,
                    ((byte - 0x80) as u64) < 0x80,
            ;
        }
        acc = acc + ((byte - 0x80) as u64) * mul;
        mul = mul * 0x80;
        idx = idx + 1;
        count = count + 1;
        proof {
            assert(leb_terminated(s, (idx - 1) as int, 5 - old_count) <==> leb_terminated(
                s,
                idx as int,
                5 - count,
            ));
            if leb_terminated(s, idx as int, 5 - count) {
                assert(leb_value(s, (idx - 1) as int) == ((s[idx - 1] - 0x80) as nat) + 0x80
                    * leb_value(s, idx as int));
                assert(old_acc + old_mul * (((s[idx - 1] - 0x80) as nat) + 0x80 * leb_value(
                    s,
                    idx as int,
                )) == acc + mul * leb_value(s, idx as int)) by (nonlinear_arith)
                    requires
                        acc == old_acc + ((s[idx - 1] - 0x80) as nat) * old_mul,
                        mul == old_mul * 0x80,
                ;
            }
        }
    }
}

// ---------------------------------------------------------------------------
// The section grammar
// ---------------------------------------------------------------------------

/// The first eight bytes are the format header (magic plus version); the
/// ninth must announce a custom section, so that the linking metadata is the
/// first section of the binary.
pub open spec fn spec_magic_ok(s: Seq<u8>) -> bool {
    &&& s.len() >= 9
    &&& s[0] == 0x00u8
    &&& s[1] == 0x61u8
    &&& s[2] == 0x73u8
    &&& s[3] == 0x6du8
    &&& s[8] == 0x00u8
}

/// The six bytes of the section name.
pub open spec fn dylink_tag() -> Seq<u8> {
    seq![0x64u8, 0x79u8, 0x6cu8, 0x69u8, 0x6eu8, 0x6bu8]
}

/// Where the name tag of the section starts: right after the section length,
/// which is encoded from offset 9 on.
pub open spec fn spec_tag_pos(s: Seq<u8>) -> int {
    9 + leb_len(s, 9)
}

/// The section name: a length byte holding six, then the tag itself.
pub open spec fn spec_tag_ok(s: Seq<u8>) -> bool {
    &&& spec_tag_pos(s) + 7 <= s.len()
    &&& s[spec_tag_pos(s)] == 6u8
    &&& s.subrange(spec_tag_pos(s) + 1, spec_tag_pos(s) + 7) == dylink_tag()
}

/// Where the `k`-th of the five counted values of the section starts
/// (`mem_size`, `mem_align`, `table_size`, `table_align`, and the number of
/// dependency names); `k == 5` is where the name list starts.
pub open spec fn field_pos(s: Seq<u8>, k: nat) -> int
    decreases k,
{
    if k == 0 {
        spec_tag_pos(s) + 7
    } else {
        let p = field_pos(s, (k - 1) as nat);
        p + leb_len(s, p)
    }
}

/// `count` name entries start at `i`: each is a well-formed length followed
/// by that many bytes, all inside the buffer.
pub open spec fn names_wf(s: Seq<u8>, i: int, count: nat) -> bool
    decreases count,
{
    if count == 0 {
        true
    } else {
        &&& leb_wf(s, i)
        &&& i + leb_len(s, i) + leb_value(s, i) <= s.len()
        &&& names_wf(s, i + leb_len(s, i) + leb_value(s, i), (count - 1) as nat)
    }
}

/// The raw bytes of the `k`-th name entry of the list starting at `i`.
pub open spec fn name_bytes(s: Seq<u8>, i: int, k: nat) -> Seq<u8>
    decreases k,
{
    let b = i + leb_len(s, i);
    if k == 0 {
        s.subrange(b, b + leb_value(s, i))
    } else {
        name_bytes(s, b + leb_value(s, i), (k - 1) as nat)
    }
}

/// A structurally well-formed linking-metadata section sits at the front of
/// the binary.
pub open spec fn dylink_wf(s: Seq<u8>) -> bool {
    &&& spec_magic_ok(s)
    &&& leb_wf(s, 9)
    &&& spec_tag_ok(s)
    &&& leb_wf(s, field_pos(s, 0))
    &&& leb_wf(s, field_pos(s, 1))
    &&& leb_wf(s, field_pos(s, 2))
    &&& leb_wf(s, field_pos(s, 3))
    &&& leb_wf(s, field_pos(s, 4))
    &&& names_wf(s, field_pos(s, 5), leb_value(s, field_pos(s, 4)))
}

pub open spec fn spec_mem_size(s: Seq<u8>) -> nat {
    leb_value(s, field_pos(s, 0))
}

pub open spec fn spec_mem_align(s: Seq<u8>) -> nat {
    leb_value(s, field_pos(s, 1))
}

pub open spec fn spec_table_size(s: Seq<u8>) -> nat {
    leb_value(s, field_pos(s, 2))
}

pub open spec fn spec_table_align(s: Seq<u8>) -> nat {
    leb_value(s, field_pos(s, 3))
}

pub open spec fn spec_needed_count(s: Seq<u8>) -> nat {
    leb_value(s, field_pos(s, 4))
}

/// The raw bytes of the `k`-th dependency name of the section.
pub open spec fn spec_needed(s: Seq<u8>, k: nat) -> Seq<u8> {
    name_bytes(s, field_pos(s, 5), k)
}

/// The binary parses: the section is structurally well formed and every
/// dependency name is valid UTF-8.
pub open spec fn dylink_ok(s: Seq<u8>) -> bool {
    &&& dylink_wf(s)
    &&& forall|k: nat| k < spec_needed_count(s) ==> valid_utf8(#[trigger] spec_needed(s, k))
}

// ---------------------------------------------------------------------------
// The parser
// ---------------------------------------------------------------------------

/// Relies on `String::from_utf8`: it succeeds exactly on valid UTF-8 input
/// and decodes it to the corresponding characters.
#[verifier::external_body]
fn string_from_utf8(bytes: Vec<u8>) -> (r: Option<String>)
    ensures
        r is Some <==> valid_utf8(bytes@),
        r matches Some(text) ==> text@ == decode_utf8(bytes@),
{
    match String::from_utf8(bytes) {
        Ok(text) => Some(text),
        Err(_) => None,
    }
}

/// The linking metadata carried by one module binary: how much shared
/// memory and table space the module needs, its alignment demands, and the
/// names of the libraries it depends on.
#[derive(Debug)]
pub struct Dylink {
    pub mem_size: u32,
    pub mem_align: u32,
    pub table_size: u32,
    pub table_align: u32,
    pub needed_dynlibs: Vec<String>,
}

/// Mathematical image of a [`Dylink`].
pub struct DylinkView {
    pub mem_size: u32,
    pub mem_align: u32,
    pub table_size: u32,
    pub table_align: u32,
    pub needed_dynlibs: Seq<Seq<char>>,
}

impl View for Dylink {
    type V = DylinkView;

    open spec fn view(&self) -> DylinkView {
        DylinkView {
            mem_size: self.mem_size,
            mem_align: self.mem_align,
            table_size: self.table_size,
            table_align: self.table_align,
            needed_dynlibs: self.needed_dynlibs.deep_view(),
        }
    }
}

impl Dylink {
    /// Read one unsigned LEB128 value.  The cursor is pre-increment: the
    /// first byte of the encoding sits one past `*position`, and on return
    /// `*position` rests on the last byte consumed.
    pub fn get_leb128(binary: &[u8], position: &mut usize) -> (ret: u32)
        requires
            *old(position) < usize::MAX,
            leb_wf(binary@, *old(position) + 1),
        ensures
            ret == leb_value(binary@, *old(position) + 1),
            *final(position) == *old(position) + leb_len(binary@, *old(position) + 1),
    {
        let start = *position + 1;
        proof {
            lemma_leb_bounds(binary@, start as int);
        }
        match try_leb128(binary, start) {
            Some(p) => {
                *position = p.1 - 1;
                p.0
            },
            None => {
                proof {
                    assert(false);
                }
                vstd::pervasive::unreached()
            },
        }
    }

    /// Advance past the fixed section name tag, whose presence the caller
    /// has already established.  The cursor is pre-increment: the tag
    /// occupies the six bytes after `*position`.
    pub fn iter_section_name(binary: &[u8], position: &mut usize)
        requires
            *old(position) + 7 <= binary@.len(),
            binary@.subrange(*old(position) + 1, *old(position) + 7) == dylink_tag(),
        ensures
            *final(position) == *old(position) + 6,
    {
        let n = binary.len();
        proof {
            assert(*position + 7 <= n);
        }
        *position = *position + 6;
    }

    /// Decode the linking-metadata section at the front of `binary`.
    /// Succeeds exactly on binaries whose section is well formed, and then
    /// returns precisely the encoded sizes, alignments and dependency
    /// names.
    pub fn check_dylink(binary: &[u8]) -> (r: Result<Dylink, Error>)
        ensures
            r is Ok <==> dylink_ok(binary@),
            r matches Ok(d) ==> ({
                &&& d.mem_size == spec_mem_size(binary@)
                &&& d.mem_align == spec_mem_align(binary@)
                &&& d.table_size == spec_table_size(binary@)
                &&& d.table_align == spec_table_align(binary@)
                &&& d.needed_dynlibs@.len() == spec_needed_count(binary@)
                &&& forall|k: int| 0 <= k < d.needed_dynlibs@.len()
                    ==> d.needed_dynlibs@[k]@ == decode_utf8(spec_needed(binary@, k as nat))
            }),
            r matches Err(e) ==> e is MalformedMetadataSection,
    {
        let ghost s = binary@;
        if binary.len() < 9 {
            return Err(Error::MalformedMetadataSection);
        }
        if binary[0] != 0x00 || binary[1] != 0x61 || binary[2] != 0x73 || binary[3] != 0x6d {
            return Err(Error::MalformedMetadataSection);
        }
        if binary[8] != 0x00 {
            return Err(Error::MalformedMetadataSection);
        }
        let section_size = match try_leb128(binary, 9) {
            Some(p) => p,
            None => {
                return Err(Error::MalformedMetadataSection);
            },
        };
        let tag_p = section_size.1;
        proof {
            lemma_leb_bounds(s, 9);
            assert(tag_p == spec_tag_pos(s));
        }
        if binary.len() - tag_p < 7 {
            return Err(Error::MalformedMetadataSection);
        }
        if binary[tag_p] != 6 {
            return Err(Error::MalformedMetadataSection);
        }
        if binary[tag_p + 1] != 0x64 || binary[tag_p + 2] != 0x79 || binary[tag_p + 3] != 0x6c
            || binary[tag_p + 4] != 0x69 || binary[tag_p + 5] != 0x6e || binary[tag_p + 6]
            != 0x6b {
            proof {
                if s.subrange(tag_p + 1, tag_p + 7) == dylink_tag() {
                    assert(s[tag_p + 1] == s.subrange(tag_p + 1, tag_p + 7)[0]);
                    assert(s[tag_p + 2] == s.subrange(tag_p + 1, tag_p + 7)[1]);
                    assert(s[tag_p + 3] == s.subrange(tag_p + 1, tag_p + 7)[2]);
                    assert(s[tag_p + 4] == s.subrange(tag_p + 1, tag_p + 7)[3]);
                    assert(s[tag_p + 5] == s.subrange(tag_p + 1, tag_p + 7)[4]);
                    assert(s[tag_p + 6] == s.subrange(tag_p + 1, tag_p + 7)[5]);
                }
            }
            return Err(Error::MalformedMetadataSection);
        }
        proof {
            assert(s.subrange(tag_p + 1, tag_p + 7) =~= dylink_tag());
        }
        let mut position: usize = tag_p;
        Dylink::iter_section_name(binary, &mut position);
        let q0 = position + 1;
        proof {
            assert(q0 == field_pos(s, 0));
        }
        let f0 = match try_leb128(binary, q0) {
            Some(p) => p,
            None => {
                return Err(Error::MalformedMetadataSection);
            },
        };
        proof {
            assert(f0.1 == field_pos(s, 1));
        }
        let f1 = match try_leb128(binary, f0.1) {
            Some(p) => p,
            None => {
                return Err(Error::MalformedMetadataSection);
            },
        };
        proof {
            assert(f1.1 == field_pos(s, 2));
        }
        let f2 = match try_leb128(binary, f1.1) {
            Some(p) => p,
            None => {
                return Err(Error::MalformedMetadataSection);
            },
        };
        proof {
            assert(f2.1 == field_pos(s, 3));
        }
        let f3 = match try_leb128(binary, f2.1) {
            Some(p) => p,
            None => {
                return Err(Error::MalformedMetadataSection);
            },
        };
        proof {
            assert(f3.1 == field_pos(s, 4));
        }
        let f4 = match try_leb128(binary, f3.1) {
            Some(p) => p,
            None => {
                return Err(Error::MalformedMetadataSection);
            },
        };
        proof {
            assert(f4.1 == field_pos(s, 5));
        }
        let needed_count = f4.0;
        let q5 = f4.1;
        let mut needed_dynlibs: Vec<String> = Vec::new();
        let mut cursor: usize = q5;
        let mut j: u32 = 0;
        while j < needed_count
            invariant
                s == binary@,
                j <= needed_count,
                q5 == field_pos(s, 5),
                needed_count == spec_needed_count(s),
                names_wf(s, q5 as int, needed_count as nat) <==> names_wf(
                    s,
                    cursor as int,
                    (needed_count - j) as nat,
                ),
                forall|t: nat| j <= t < needed_count ==> #[trigger] name_bytes(s, q5 as int, t)
                    == name_bytes(s, cursor as int, (t - j) as nat),
                needed_dynlibs@.len() == j,
                forall|t: nat| t < j ==> needed_dynlibs@[t as int]@ == decode_utf8(
                    #[trigger] name_bytes(s, q5 as int, t),
                ),
                forall|t: nat| t < j ==> valid_utf8(#[trigger] name_bytes(s, q5 as int, t)),
            decreases needed_count - j,
        {
            let entry = match try_leb128(binary, cursor) {
                Some(p) => p,
                None => {
                    return Err(Error::MalformedMetadataSection);
                },
            };
            let l = entry.0;
            let b = entry.1;
            proof {
                lemma_leb_bounds(s, cursor as int);
            }
            if (binary.len() - b) < l as usize {
                return Err(Error::MalformedMetadataSection);
            }
            let raw = slice_subrange(binary, b, b + l as usize);
            let name_vec = slice_to_vec(raw);
            proof {
                assert(name_bytes(s, cursor as int, 0) == s.subrange(b as int, b + l));
                assert(name_bytes(s, q5 as int, j as nat) == name_bytes(s, cursor as int, 0));
            }
            let name = match string_from_utf8(name_vec) {
                Some(n) => n,
                None => {
                    proof {
                        assert(!valid_utf8(spec_needed(s, j as nat)));
                    }
                    return Err(Error::MalformedMetadataSection);
                },
            };
            needed_dynlibs.push(name);
            let ghost prev_cursor = cursor;
            let ghost prev_j = j;
            cursor = b + l as usize;
            j = j + 1;
            proof {
                assert(names_wf(s, prev_cursor as int, (needed_count - prev_j) as nat)
                    <==> names_wf(s, cursor as int, (needed_count - j) as nat));
                assert forall|t: nat| j <= t < needed_count implies #[trigger] name_bytes(
                    s,
                    q5 as int,
                    t,
                ) == name_bytes(s, cursor as int, (t - j) as nat) by {
                    assert(name_bytes(s, q5 as int, t) == name_bytes(
                        s,
                        prev_cursor as int,
                        (t - prev_j) as nat,
                    ));
                    assert(name_bytes(s, prev_cursor as int, (t - prev_j) as nat) == name_bytes(
                        s,
                        cursor as int,
                        (t - j) as nat,
                    ));
                }
            }
        }
        proof {
            assert(names_wf(s, cursor as int, 0));
            assert(names_wf(s, q5 as int, needed_count as nat));
            assert(dylink_wf(s));
            assert forall|k: nat| k < spec_needed_count(s) implies valid_utf8(
                #[trigger] spec_needed(s, k),
            ) by {
                assert(valid_utf8(name_bytes(s, q5 as int, k)));
            }
            assert forall|k: int| 0 <= k < needed_dynlibs@.len() implies needed_dynlibs@[k]@
                == decode_utf8(spec_needed(s, k as nat)) by {
                assert(needed_dynlibs@[(k as nat) as int]@ == decode_utf8(
                    name_bytes(s, q5 as int, k as nat),
                ));
            }
        }
        Ok(
            Dylink {
                mem_size: f0.0,
                mem_align: f1.0,
                table_size: f2.0,
                table_align: f3.0,
                needed_dynlibs,
            },
        )
    }
}



// ---------------------------------------------------------------------------
// Round trip
// ---------------------------------------------------------------------------

/// The canonical encoding of a value: seven bits per byte, least
/// significant group first, the high bit marking continuation.
pub open spec fn leb_encode(v: nat) -> Seq<u8>
    decreases v,
{
    if v < 0x80 {
        seq![v as u8]
    } else {
        seq![(v % 0x80 + 0x80) as u8] + leb_encode(v / 0x80)
    }
}

proof fn lemma_leb_encode_len_bound(v: nat, k: nat)
    requires
        k >= 1,
        v < pow128(k),
    ensures
        1 <= leb_encode(v).len() <= k,
    decreases k,
{
    if v >= 0x80 {
        assert(pow128(k) == 128 * pow128((k - 1) as nat));
        assert(v / 0x80 < pow128((k - 1) as nat)) by (nonlinear_arith)
            requires
                v < 128 * pow128((k - 1) as nat),
        ;
        lemma_leb_encode_len_bound(v / 0x80, (k - 1) as nat);
    }
}

proof fn lemma_leb_terminated_mono(s: Seq<u8>, i: int, m1: int, m2: int)
    requires
        leb_terminated(s, i, m1),
        m1 <= m2,
    ensures
        leb_terminated(s, i, m2),
    decreases m1,
{
    if s[i] >= 0x80 {
        lemma_leb_terminated_mono(s, i + 1, m1 - 1, m2 - 1);
    }
}

proof fn lemma_leb_decode_encode(s: Seq<u8>, i: int, v: nat)
    requires
        0 <= i,
        i + leb_encode(v).len() <= s.len(),
        s.subrange(i, i + leb_encode(v).len()) == leb_encode(v),
    ensures
        leb_terminated(s, i, leb_encode(v).len() as int),
        leb_value(s, i) == v,
        leb_len(s, i) == leb_encode(v).len(),
    decreases v,
{
    let e = leb_encode(v);
    assert(s[i] == s.subrange(i, i + e.len() as int)[0]);
    if v < 0x80 {
        assert(s[i] == v as u8);
    } else {
        assert(s[i] == (v % 0x80 + 0x80) as u8);
        let rest = leb_encode(v / 0x80);
        assert(e == seq![(v % 0x80 + 0x80) as u8] + rest);
        assert forall|t: int| 0 <= t < rest.len() implies s.subrange(
            i + 1,
            i + 1 + rest.len() as int,
        )[t] == rest[t] by {
            assert(s.subrange(i, i + e.len() as int)[t + 1] == e[t + 1]);
            assert(e[t + 1] == rest[t]);
        }
        assert(s.subrange(i + 1, i + 1 + rest.len() as int) =~= rest);
        lemma_leb_decode_encode(s, i + 1, v / 0x80);
        assert(leb_value(s, i) == (s[i] - 0x80) as nat + 0x80 * leb_value(s, i + 1));
        assert((s[i] - 0x80) as nat == v % 0x80);
        assert(v % 0x80 + 0x80 * (v / 0x80) == v);
    }
}

/// The round trip at the level of one counted value: a canonical encoding
/// of a 32-bit magnitude, embedded anywhere in a buffer, is well formed
/// there and decodes to the value it encodes.
pub proof fn lemma_leb_round_trip(s: Seq<u8>, i: int, v: nat)
    requires
        v <= u32::MAX,
        0 <= i,
        i + leb_encode(v).len() <= s.len(),
        s.subrange(i, i + leb_encode(v).len()) == leb_encode(v),
    ensures
        leb_wf(s, i),
        leb_value(s, i) == v,
        leb_len(s, i) == leb_encode(v).len(),
        1 <= leb_encode(v).len() <= 5,
{
    reveal_with_fuel(pow128, 6);
    assert(pow128(5) == 0x800000000);
    lemma_leb_encode_len_bound(v, 5);
    lemma_leb_decode_encode(s, i, v);
    lemma_leb_terminated_mono(s, i, leb_encode(v).len() as int, 5);
}

/// The canonical encoding of the dependency-name list: each name as a
/// counted length followed by its raw bytes.
pub open spec fn encode_names(names: Seq<Seq<u8>>) -> Seq<u8>
    decreases names.len(),
{
    if names.len() == 0 {
        Seq::empty()
    } else {
        leb_encode(names[0].len()) + names[0] + encode_names(names.drop_first())
    }
}

/// The content of a canonical linking-metadata section: the name tag,
/// the four counted values, and the counted name list.
pub open spec fn dylink_payload(
    mem_size: u32,
    mem_align: u32,
    table_size: u32,
    table_align: u32,
    needed: Seq<Seq<u8>>,
) -> Seq<u8> {
    seq![6u8] + dylink_tag() + leb_encode(mem_size as nat) + leb_encode(mem_align as nat)
        + leb_encode(table_size as nat) + leb_encode(table_align as nat) + leb_encode(
        needed.len(),
    ) + encode_names(needed)
}

/// A canonical module binary around the given linking metadata: the format
/// header, the custom-section announcement, the section length, and the
/// section content.
pub open spec fn encode_dylink(
    mem_size: u32,
    mem_align: u32,
    table_size: u32,
    table_align: u32,
    needed: Seq<Seq<u8>>,
) -> Seq<u8> {
    let payload = dylink_payload(mem_size, mem_align, table_size, table_align, needed);
    seq![0x00u8, 0x61u8, 0x73u8, 0x6du8, 0x01u8, 0x00u8, 0x00u8, 0x00u8, 0x00u8] + leb_encode(
        payload.len(),
    ) + payload
}

proof fn lemma_names_round_trip(s: Seq<u8>, i: int, names: Seq<Seq<u8>>)
    requires
        0 <= i,
        forall|k: int| 0 <= k < names.len() ==> (#[trigger] names[k]).len() <= u32::MAX,
        i + encode_names(names).len() <= s.len(),
        s.subrange(i, i + encode_names(names).len()) == encode_names(names),
    ensures
        names_wf(s, i, names.len() as nat),
        forall|k: nat| k < names.len() ==> name_bytes(s, i, k) == names[k as int],
    decreases names.len(),
{
    if names.len() > 0 {
        let head = names[0];
        let e = leb_encode(head.len());
        let whole = encode_names(names);
        let rest = encode_names(names.drop_first());
        assert(whole == e + head + rest);
        assert forall|t: int| 0 <= t < e.len() implies s.subrange(i, i + e.len() as int)[t]
            == e[t] by {
            assert(s.subrange(i, i + whole.len() as int)[t] == whole[t]);
            assert(whole[t] == e[t]);
        }
        assert(s.subrange(i, i + e.len() as int) =~= e);
        lemma_leb_round_trip(s, i, head.len());
        let b = i + e.len() as int;
        assert forall|t: int| 0 <= t < head.len() implies s.subrange(b, b + head.len() as int)[t]
            == head[t] by {
            assert(s.subrange(i, i + whole.len() as int)[e.len() + t] == whole[e.len() + t]);
            assert(whole[e.len() + t] == head[t]);
        }
        assert(s.subrange(b, b + head.len() as int) =~= head);
        let after = b + head.len() as int;
        assert forall|t: int| 0 <= t < rest.len() implies s.subrange(
            after,
            after + rest.len() as int,
        )[t] == rest[t] by {
            assert(s.subrange(i, i + whole.len() as int)[e.len() + head.len() + t] == whole[e.len()
                + head.len() + t]);
            assert(whole[e.len() + head.len() + t] == rest[t]);
        }
        assert(s.subrange(after, after + rest.len() as int) =~= rest);
        assert(forall|k: int| 0 <= k < names.drop_first().len() ==> (
        #[trigger] names.drop_first()[k]).len() <= u32::MAX);
        lemma_names_round_trip(s, after, names.drop_first());
        assert(leb_len(s, i) == e.len() && leb_value(s, i) == head.len());
        assert(name_bytes(s, i, 0) == s.subrange(b, b + head.len() as int));
        assert forall|k: nat| k < names.len() implies name_bytes(s, i, k) == names[k as int] by {
            if k > 0 {
                assert(name_bytes(s, i, k) == name_bytes(s, after, (k - 1) as nat));
                assert(name_bytes(s, after, (k - 1) as nat) == names.drop_first()[k - 1]);
                assert(names.drop_first()[k - 1] == names[k as int]);
            }
        }
    }
}

/// The round trip of the whole section: a canonical linking-metadata
/// section parses, and it parses to exactly the sizes, the alignments and
/// the raw dependency names it was built from.
#[verifier::rlimit(100)]
pub proof fn lemma_dylink_round_trip(
    mem_size: u32,
    mem_align: u32,
    table_size: u32,
    table_align: u32,
    needed: Seq<Seq<u8>>,
)
    requires
        needed.len() <= u32::MAX,
        forall|k: int| 0 <= k < needed.len() ==> (#[trigger] needed[k]).len() <= u32::MAX,
        dylink_payload(mem_size, mem_align, table_size, table_align, needed).len() <= u32::MAX,
    ensures
        ({
            let b = encode_dylink(mem_size, mem_align, table_size, table_align, needed);
            &&& dylink_wf(b)
            &&& spec_mem_size(b) == mem_size
            &&& spec_mem_align(b) == mem_align
            &&& spec_table_size(b) == table_size
            &&& spec_table_align(b) == table_align
            &&& spec_needed_count(b) == needed.len()
            &&& forall|k: nat| k < needed.len() ==> spec_needed(b, k) == needed[k as int]
        }),
{
    let payload = dylink_payload(mem_size, mem_align, table_size, table_align, needed);
    let b = encode_dylink(mem_size, mem_align, table_size, table_align, needed);
    let header = seq![0x00u8, 0x61u8, 0x73u8, 0x6du8, 0x01u8, 0x00u8, 0x00u8, 0x00u8, 0x00u8];
    let size_enc = leb_encode(payload.len());
    assert(b == header + size_enc + payload);
    assert(b[0] == 0x00u8 && b[1] == 0x61u8 && b[2] == 0x73u8 && b[3] == 0x6du8 && b[8]
        == 0x00u8);
    assert forall|t: int| 0 <= t < size_enc.len() implies b.subrange(
        9,
        9 + size_enc.len() as int,
    )[t] == size_enc[t] by {
        assert(b[9 + t] == size_enc[t]);
    }
    assert(b.subrange(9, 9 + size_enc.len() as int) =~= size_enc);
    lemma_leb_round_trip(b, 9, payload.len());
    let p = 9 + leb_len(b, 9);
    assert(p == 9 + size_enc.len());
    assert(spec_tag_pos(b) == p);
    assert forall|t: int| 0 <= t < payload.len() implies b[p + t] == payload[t] by {
        assert(b[9 + size_enc.len() + t] == payload[t]);
    }
    assert(b[p] == 6u8);
    assert forall|t: int| 0 <= t < 6 implies b.subrange(p + 1, p + 7)[t] == dylink_tag()[t] by {
        assert(b[p + 1 + t] == payload[1 + t]);
        assert(payload[1 + t] == dylink_tag()[t]);
    }
    assert(b.subrange(p + 1, p + 7) =~= dylink_tag());
    assert(spec_tag_ok(b));
    let f0 = p + 7;
    let e0 = leb_encode(mem_size as nat);
    let e1 = leb_encode(mem_align as nat);
    let e2 = leb_encode(table_size as nat);
    let e3 = leb_encode(table_align as nat);
    let e4 = leb_encode(needed.len());
    let en = encode_names(needed);
    assert(payload == seq![6u8] + dylink_tag() + e0 + e1 + e2 + e3 + e4 + en);
    assert(field_pos(b, 0) == f0);
    assert forall|t: int| 0 <= t < e0.len() implies b.subrange(f0, f0 + e0.len() as int)[t]
        == e0[t] by {
        assert(b[p + (7 + t)] == payload[7 + t]);
        assert(payload[7 + t] == e0[t]);
    }
    assert(b.subrange(f0, f0 + e0.len() as int) =~= e0);
    lemma_leb_round_trip(b, f0, mem_size as nat);
    let f1 = f0 + e0.len() as int;
    assert(field_pos(b, 1) == f1);
    assert forall|t: int| 0 <= t < e1.len() implies b.subrange(f1, f1 + e1.len() as int)[t]
        == e1[t] by {
        assert(b[p + (7 + e0.len() + t)] == payload[7 + e0.len() + t]);
        assert(payload[7 + e0.len() + t] == e1[t]);
    }
    assert(b.subrange(f1, f1 + e1.len() as int) =~= e1);
    lemma_leb_round_trip(b, f1, mem_align as nat);
    let f2 = f1 + e1.len() as int;
    assert(field_pos(b, 2) == f2);
    assert forall|t: int| 0 <= t < e2.len() implies b.subrange(f2, f2 + e2.len() as int)[t]
        == e2[t] by {
        assert(b[p + (7 + e0.len() + e1.len() + t)] == payload[7 + e0.len() + e1.len() + t]);
        assert(payload[7 + e0.len() + e1.len() + t] == e2[t]);
    }
    assert(b.subrange(f2, f2 + e2.len() as int) =~= e2);
    lemma_leb_round_trip(b, f2, table_size as nat);
    let f3 = f2 + e2.len() as int;
    assert(field_pos(b, 3) == f3);
    assert forall|t: int| 0 <= t < e3.len() implies b.subrange(f3, f3 + e3.len() as int)[t]
        == e3[t] by {
        assert(b[p + (7 + e0.len() + e1.len() + e2.len() + t)] == payload[7 + e0.len() + e1.len()
            + e2.len() + t]);
        assert(payload[7 + e0.len() + e1.len() + e2.len() + t] == e3[t]);
    }
    assert(b.subrange(f3, f3 + e3.len() as int) =~= e3);
    lemma_leb_round_trip(b, f3, table_align as nat);
    let f4 = f3 + e3.len() as int;
    assert(field_pos(b, 4) == f4);
    assert forall|t: int| 0 <= t < e4.len() implies b.subrange(f4, f4 + e4.len() as int)[t]
        == e4[t] by {
        assert(b[p + (7 + e0.len() + e1.len() + e2.len() + e3.len() + t)] == payload[7 + e0.len()
            + e1.len() + e2.len() + e3.len() + t]);
        assert(payload[7 + e0.len() + e1.len() + e2.len() + e3.len() + t] == e4[t]);
    }
    assert(b.subrange(f4, f4 + e4.len() as int) =~= e4);
    lemma_leb_round_trip(b, f4, needed.len());
    let f5 = f4 + e4.len() as int;
    assert(field_pos(b, 5) == f5);
    assert forall|t: int| 0 <= t < en.len() implies b.subrange(f5, f5 + en.len() as int)[t]
        == en[t] by {
        assert(b[p + (7 + e0.len() + e1.len() + e2.len() + e3.len() + e4.len() + t)] == payload[7
            + e0.len() + e1.len() + e2.len() + e3.len() + e4.len() + t]);
        assert(payload[7 + e0.len() + e1.len() + e2.len() + e3.len() + e4.len() + t] == en[t]);
    }
    assert(b.subrange(f5, f5 + en.len() as int) =~= en);
    lemma_names_round_trip(b, f5, needed);
}


} // verus!
