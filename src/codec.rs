//! Binary encoding of the commands kept in a segment.
//!
//! A record is self-delimiting: a 4-byte little-endian tag (0 for `Put`,
//! 1 for `Remove`), then the key and the value, each as an 8-byte
//! little-endian length followed by that many UTF-8 bytes. A `Remove`
//! carries an empty value.

use vstd::prelude::*;
use vstd::utf8::*;

verus! {

broadcast use group_utf8_lib;

/// A command as it is read back from a segment: keys and values are the
/// UTF-8 bytes of their strings.
pub enum Cmd {
    Put { key: Seq<u8>, value: Seq<u8> },
    Remove { key: Seq<u8> },
}

impl Cmd {
    pub open spec fn key(self) -> Seq<u8> {
        match self {
            Cmd::Put { key, .. } => key,
            Cmd::Remove { key } => key,
        }
    }
}

/// An executable command; its key and value are UTF-8 bytes.
pub enum Command {
    Put { key: Vec<u8>, value: Vec<u8> },
    Remove { key: Vec<u8> },
}

impl View for Command {
    type V = Cmd;

    open spec fn view(&self) -> Cmd {
        match self {
            Command::Put { key, value } => Cmd::Put { key: key@, value: value@ },
            Command::Remove { key } => Cmd::Remove { key: key@ },
        }
    }
}

pub open spec fn le32(n: u32) -> Seq<u8> {
    seq![n as u8, (n >> 8) as u8, (n >> 16) as u8, (n >> 24) as u8]
}

pub open spec fn le64(n: u64) -> Seq<u8> {
    seq![
        n as u8, (n >> 8) as u8, (n >> 16) as u8, (n >> 24) as u8,
        (n >> 32) as u8, (n >> 40) as u8, (n >> 48) as u8, (n >> 56) as u8,
    ]
}

/// The little-endian `u32` stored at `b[i..i + 4]`.
pub open spec fn u32_at(b: Seq<u8>, i: int) -> u32 {
    (b[i] as u32) | ((b[i + 1] as u32) << 8u32) | ((b[i + 2] as u32) << 16u32) | ((b[i + 3] as u32)
        << 24u32)
}

/// The little-endian `u64` stored at `b[i..i + 8]`.
pub open spec fn u64_at(b: Seq<u8>, i: int) -> u64 {
    (b[i] as u64) | ((b[i + 1] as u64) << 8u64) | ((b[i + 2] as u64) << 16u64) | ((b[i + 3] as u64)
        << 24u64) | ((b[i + 4] as u64) << 32u64) | ((b[i + 5] as u64) << 40u64) | ((b[i + 6] as u64)
        << 48u64) | ((b[i + 7] as u64) << 56u64)
}

/// The bytes of one record.
pub open spec fn encode(c: Cmd) -> Seq<u8> {
    match c {
        Cmd::Put { key, value } => le32(0) + le64(key.len() as u64) + key + le64(
            value.len() as u64,
        ) + value,
        Cmd::Remove { key } => le32(1) + le64(key.len() as u64) + key + le64(0),
    }
}

/// Whether a command can be written as a record: its strings are UTF-8 and
/// their lengths fit the length fields.
pub open spec fn encodable(c: Cmd) -> bool {
    match c {
        Cmd::Put { key, value } => valid_utf8(key) && valid_utf8(value) && key.len() <= u64::MAX
            && value.len() <= u64::MAX,
        Cmd::Remove { key } => valid_utf8(key) && key.len() <= u64::MAX,
    }
}

/// The record at the start of `b`, with its length in bytes; `None` where
/// `b` does not start with a whole, well-formed record.
pub open spec fn decode(b: Seq<u8>) -> Option<(Cmd, nat)> {
    if b.len() < 12 {
        None
    } else {
        let tag = u32_at(b, 0);
        let kl = u64_at(b, 4) as int;
        if tag > 1 || b.len() < 20 + kl {
            None
        } else {
            let vl = u64_at(b, 12 + kl) as int;
            if b.len() < 20 + kl + vl {
                None
            } else {
                let key = b.subrange(12, 12 + kl);
                let value = b.subrange(20 + kl, 20 + kl + vl);
                if !valid_utf8(key) || !valid_utf8(value) {
                    None
                } else if tag == 0 {
                    Some((Cmd::Put { key, value }, (20 + kl + vl) as nat))
                } else {
                    Some((Cmd::Remove { key }, (20 + kl + vl) as nat))
                }
            }
        }
    }
}

proof fn lemma_le32(n: u32)
    ensures
        u32_at(le32(n), 0) == n,
{
    let b = le32(n);
    let (b0, b1, b2, b3) = (b[0], b[1], b[2], b[3]);
    assert((b0 as u32) | ((b1 as u32) << 8u32) | ((b2 as u32) << 16u32) | ((b3 as u32) << 24u32)
        == n) by (bit_vector)
        requires
            b0 == n as u8,
            b1 == (n >> 8) as u8,
            b2 == (n >> 16) as u8,
            b3 == (n >> 24) as u8,
    ;
}

proof fn lemma_le64(n: u64)
    ensures
        u64_at(le64(n), 0) == n,
{
    let b = le64(n);
    let (b0, b1, b2, b3, b4, b5, b6, b7) = (b[0], b[1], b[2], b[3], b[4], b[5], b[6], b[7]);
    assert((b0 as u64) | ((b1 as u64) << 8u64) | ((b2 as u64) << 16u64) | ((b3 as u64) << 24u64)
        | ((b4 as u64) << 32u64) | ((b5 as u64) << 40u64) | ((b6 as u64) << 48u64) | ((b7 as u64)
        << 56u64) == n) by (bit_vector)
        requires
            b0 == n as u8,
            b1 == (n >> 8) as u8,
            b2 == (n >> 16) as u8,
            b3 == (n >> 24) as u8,
            b4 == (n >> 32) as u8,
            b5 == (n >> 40) as u8,
            b6 == (n >> 48) as u8,
            b7 == (n >> 56) as u8,
    ;
}

proof fn lemma_u64_at_shift(a: Seq<u8>, b: Seq<u8>, i: int, j: int)
    requires
        0 <= i,
        i + 8 <= a.len(),
        0 <= j,
        j + 8 <= b.len(),
        a.subrange(i, i + 8) == b.subrange(j, j + 8),
    ensures
        u64_at(a, i) == u64_at(b, j),
{
    let s = a.subrange(i, i + 8);
    assert(a[i + 0] == s[0] && b[j + 0] == s[0]);
    assert(a[i + 1] == s[1] && b[j + 1] == s[1]);
    assert(a[i + 2] == s[2] && b[j + 2] == s[2]);
    assert(a[i + 3] == s[3] && b[j + 3] == s[3]);
    assert(a[i + 4] == s[4] && b[j + 4] == s[4]);
    assert(a[i + 5] == s[5] && b[j + 5] == s[5]);
    assert(a[i + 6] == s[6] && b[j + 6] == s[6]);
    assert(a[i + 7] == s[7] && b[j + 7] == s[7]);
}

/// A record followed by anything decodes to its command and its own length.
pub proof fn lemma_decode_encode(c: Cmd, rest: Seq<u8>)
    requires
        encodable(c),
    ensures
        decode(encode(c) + rest) == Some((c, encode(c).len())),
        encode(c).len() >= 20,
{
    let b = encode(c) + rest;
    let key = c.key();
    let kl = key.len() as int;
    lemma_le32(if c is Put { 0u32 } else { 1u32 });
    lemma_le64(kl as u64);
    let t = if c is Put { le32(0) } else { le32(1) };
    assert(u32_at(b, 0) == u32_at(t, 0));
    assert(b.subrange(4, 12) =~= le64(kl as u64).subrange(0, 8));
    lemma_u64_at_shift(b, le64(kl as u64), 4, 0);
    assert(b.subrange(12, 12 + kl) =~= key);
    match c {
        Cmd::Put { key, value } => {
            lemma_le64(value.len() as u64);
            assert(b.subrange(12 + kl, 20 + kl) =~= le64(value.len() as u64).subrange(0, 8));
            lemma_u64_at_shift(b, le64(value.len() as u64), 12 + kl, 0);
            assert(b.subrange(20 + kl, 20 + kl + value.len()) =~= value);
        },
        Cmd::Remove { key } => {
            lemma_le64(0);
            assert(b.subrange(12 + kl, 20 + kl) =~= le64(0).subrange(0, 8));
            lemma_u64_at_shift(b, le64(0), 12 + kl, 0);
            assert(b.subrange(20 + kl, 20 + kl) =~= Seq::<u8>::empty());
        },
    }
}

/// A record is at least 20 bytes long and lies within the bytes it was read from.
pub proof fn lemma_decode_len(b: Seq<u8>)
    ensures
        decode(b) matches Some((_, n)) ==> 20 <= n <= b.len(),
{
}

/// A record read back can be written again, and a `Put` record is written
/// with the same bytes it was read from.
pub proof fn lemma_decode_encodable(b: Seq<u8>)
    ensures
        decode(b) matches Some((c, n)) ==> encodable(c) && (c is Put ==> encode(c).len() == n),
{
}

/// Bytes after a whole record do not change how it decodes.
pub proof fn lemma_decode_prefix(b: Seq<u8>, x: Seq<u8>)
    requires
        decode(b) is Some,
    ensures
        decode(b + x) == decode(b),
{
    let bx = b + x;
    assert(u32_at(bx, 0) == u32_at(b, 0));
    assert(bx.subrange(4, 12) =~= b.subrange(4, 12));
    lemma_u64_at_shift(bx, b, 4, 4);
    let kl = u64_at(b, 4) as int;
    assert(bx.subrange(12 + kl, 20 + kl) =~= b.subrange(12 + kl, 20 + kl));
    lemma_u64_at_shift(bx, b, 12 + kl, 12 + kl);
    let vl = u64_at(b, 12 + kl) as int;
    assert(bx.subrange(12, 12 + kl) =~= b.subrange(12, 12 + kl));
    assert(bx.subrange(20 + kl, 20 + kl + vl) =~= b.subrange(20 + kl, 20 + kl + vl));
}

/// Relies on `std::str::from_utf8`: it succeeds exactly on valid UTF-8.
#[verifier::external_body]
fn is_utf8(b: &[u8]) -> (r: bool)
    ensures
        r == valid_utf8(b@),
{
    std::str::from_utf8(b).is_ok()
}

/// Relies on `String::from_utf8`: on valid UTF-8 it returns the string of
/// exactly those bytes.
#[verifier::external_body]
pub(crate) fn string_from_utf8(b: Vec<u8>) -> (r: String)
    requires
        valid_utf8(b@),
    ensures
        encode_utf8(r@) == b@,
{
    String::from_utf8(b).unwrap_or_default()
}

fn push_u32(out: &mut Vec<u8>, n: u32)
    ensures
        final(out)@ == old(out)@ + le32(n),
{
    out.push(n as u8);
    out.push((n >> 8) as u8);
    out.push((n >> 16) as u8);
    out.push((n >> 24) as u8);
    assert(final(out)@ =~= old(out)@ + le32(n));
}

fn push_u64(out: &mut Vec<u8>, n: u64)
    ensures
        final(out)@ == old(out)@ + le64(n),
{
    out.push(n as u8);
    out.push((n >> 8) as u8);
    out.push((n >> 16) as u8);
    out.push((n >> 24) as u8);
    out.push((n >> 32) as u8);
    out.push((n >> 40) as u8);
    out.push((n >> 48) as u8);
    out.push((n >> 56) as u8);
    assert(final(out)@ =~= old(out)@ + le64(n));
}

pub fn push_bytes(out: &mut Vec<u8>, b: &Vec<u8>)
    ensures
        final(out)@ == old(out)@ + b@,
{
    let mut i: usize = 0;
    while i < b.len()
        invariant
            i <= b@.len(),
            out@ == old(out)@ + b@.subrange(0, i as int),
        decreases b@.len() - i,
    {
        out.push(b[i]);
        i += 1;
        assert(out@ =~= old(out)@ + b@.subrange(0, i as int));
    }
    assert(b@.subrange(0, b@.len() as int) =~= b@);
}

/// The bytes `b[start..end]` as a new vector.
pub fn copy_range(b: &Vec<u8>, start: usize, end: usize) -> (r: Vec<u8>)
    requires
        start <= end <= b@.len(),
    ensures
        r@ == b@.subrange(start as int, end as int),
{
    let mut r: Vec<u8> = Vec::new();
    let mut i: usize = start;
    while i < end
        invariant
            start <= i <= end <= b@.len(),
            r@ == b@.subrange(start as int, i as int),
        decreases end - i,
    {
        r.push(b[i]);
        i += 1;
        assert(r@ =~= b@.subrange(start as int, i as int));
    }
    r
}

/// Writes the record of `c`.
pub fn encode_command(c: &Command) -> (r: Vec<u8>)
    ensures
        r@ == encode(c@),
{
    let mut out: Vec<u8> = Vec::new();
    match c {
        Command::Put { key, value } => {
            push_u32(&mut out, 0);
            push_u64(&mut out, key.len() as u64);
            push_bytes(&mut out, key);
            push_u64(&mut out, value.len() as u64);
            push_bytes(&mut out, value);
        },
        Command::Remove { key } => {
            push_u32(&mut out, 1);
            push_u64(&mut out, key.len() as u64);
            push_bytes(&mut out, key);
            push_u64(&mut out, 0);
        },
    }
    assert(out@ =~= encode(c@));
    out
}

fn read_u32(b: &Vec<u8>, i: usize) -> (r: u32)
    requires
        i + 4 <= b@.len(),
    ensures
        r == u32_at(b@, i as int),
{
    let _n = b.len();
    (b[i] as u32) | ((b[i + 1] as u32) << 8u32) | ((b[i + 2] as u32) << 16u32) | ((b[i + 3] as u32)
        << 24u32)
}

fn read_u64(b: &Vec<u8>, i: usize) -> (r: u64)
    requires
        i + 8 <= b@.len(),
    ensures
        r == u64_at(b@, i as int),
{
    let _n = b.len();
    (b[i] as u64) | ((b[i + 1] as u64) << 8u64) | ((b[i + 2] as u64) << 16u64) | ((b[i + 3] as u64)
        << 24u64) | ((b[i + 4] as u64) << 32u64) | ((b[i + 5] as u64) << 40u64) | ((b[i + 6] as u64)
        << 48u64) | ((b[i + 7] as u64) << 56u64)
}

/// Reads the record that starts at `off` in `seg`.
pub fn decode_at(seg: &Vec<u8>, off: usize) -> (r: Option<(Command, usize)>)
    requires
        off <= seg@.len(),
    ensures
        match r {
            Some((c, n)) => decode(seg@.subrange(off as int, seg@.len() as int)) == Some((c@, n as nat)),
            None => decode(seg@.subrange(off as int, seg@.len() as int)) is None,
        },
{
    let ghost b = seg@.subrange(off as int, seg@.len() as int);
    let len = seg.len();
    if len - off < 12 {
        return None;
    }
    let tag = read_u32(seg, off);
    let kl = read_u64(seg, off + 4);
    assert(u32_at(b, 0) == tag);
    assert(u64_at(b, 4) == kl);
    if len - off < 20 || tag > 1 || ((len - off - 20) as u64) < kl {
        return None;
    }
    let ks = off + 12;
    let ke = ks + kl as usize;
    let vl = read_u64(seg, ke);
    assert(u64_at(b, 12 + kl) == vl);
    if ((len - ke - 8) as u64) < vl {
        return None;
    }
    let ve = ke + 8 + vl as usize;
    let key = copy_range(seg, ks, ke);
    let value = copy_range(seg, ke + 8, ve);
    assert(key@ =~= b.subrange(12, 12 + kl));
    assert(value@ =~= b.subrange(20 + kl, 20 + kl + vl));
    if !is_utf8(key.as_slice()) || !is_utf8(value.as_slice()) {
        return None;
    }
    let n = ve - off;
    if tag == 0 {
        Some((Command::Put { key, value }, n))
    } else {
        Some((Command::Remove { key }, n))
    }
}

} // verus!
