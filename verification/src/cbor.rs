//! The canonical CBOR codec for linked data: deterministic encoding of
//! structured values, with links carried as tag 42.
//!
//! The canonical form uses shortest-form heads, definite lengths only,
//! map entries sorted by the byte order of their keys, and links encoded
//! as a tag 42 byte string holding a zero byte followed by the identifier's
//! binary form.
use vstd::prelude::*;

use crate::cid::{Cid, CidV, DAG_PB, SHA2_256};
use crate::error::{BlockError, CodecFault};
use crate::ipld::{
    lemma_view_entries, lemma_view_entries_push, lemma_view_seq, lemma_view_seq_push, view_entries,
    view_seq, Ipld, IpldV,
};

verus! {

/// Unsigned little-endian base-128 form of an integer.
pub open spec fn varint_bytes(n: nat) -> Seq<u8>
    decreases n,
{
    if n < 0x80 {
        seq![n as u8]
    } else {
        seq![(n % 0x80 + 0x80) as u8] + varint_bytes(n / 0x80)
    }
}

/// The binary form of a content identifier: a version 0 identifier is its
/// bare multihash, a version 1 identifier is the version, codec and
/// multihash, each length or code as a base-128 integer.
pub open spec fn cid_bytes(c: CidV) -> Seq<u8> {
    if c.version == 0 {
        seq![SHA2_256 as u8, 32u8] + c.digest
    } else {
        varint_bytes(1) + varint_bytes(c.codec as nat) + varint_bytes(c.hash_code as nat)
            + varint_bytes(c.digest.len()) + c.digest
    }
}

/// Whether a content identifier can stand in a canonical encoding.
pub open spec fn cid_encodable(c: CidV) -> bool {
    &&& (c.version == 0 || c.version == 1)
    &&& (c.version == 0 ==> c.codec == DAG_PB && c.hash_code == SHA2_256 && c.digest.len() == 32)
    &&& c.digest.len() < 0x8000_0000_0000_0000
}

/// The shortest-form head of a major type and its argument.
pub open spec fn head_bytes(major: u8, n: u64) -> Seq<u8> {
    let lead = (major * 32) as u8;
    if n < 24 {
        seq![(lead + n) as u8]
    } else if n < 0x100 {
        seq![(lead + 24) as u8, n as u8]
    } else if n < 0x10000 {
        seq![(lead + 25) as u8, (n / 0x100) as u8, (n % 0x100) as u8]
    } else if n < 0x1_0000_0000 {
        seq![
            (lead + 26) as u8,
            (n / 0x100_0000) as u8,
            ((n / 0x1_0000) % 0x100) as u8,
            ((n / 0x100) % 0x100) as u8,
            (n % 0x100) as u8,
        ]
    } else {
        seq![
            (lead + 27) as u8,
            (n / 0x100_0000_0000_0000) as u8,
            ((n / 0x1_0000_0000_0000) % 0x100) as u8,
            ((n / 0x100_0000_0000) % 0x100) as u8,
            ((n / 0x1_0000_0000) % 0x100) as u8,
            ((n / 0x100_0000) % 0x100) as u8,
            ((n / 0x1_0000) % 0x100) as u8,
            ((n / 0x100) % 0x100) as u8,
            (n % 0x100) as u8,
        ]
    }
}

/// Strict byte-wise lexicographic order on key byte sequences.
pub open spec fn bytes_lt(a: Seq<u8>, b: Seq<u8>) -> bool
    decreases a.len(),
{
    if b.len() == 0 {
        false
    } else if a.len() == 0 {
        true
    } else if a[0] < b[0] {
        true
    } else if a[0] > b[0] {
        false
    } else {
        bytes_lt(a.drop_first(), b.drop_first())
    }
}

/// Whether each map key stands in strictly smaller byte order than the next.
pub open spec fn keys_sorted(es: Seq<(Seq<char>, IpldV)>) -> bool {
    forall|i: int| #![trigger es[i].0]
        0 <= i < es.len() - 1 ==> bytes_lt(
            vstd::utf8::encode_utf8(es[i].0),
            vstd::utf8::encode_utf8(es[i + 1].0),
        )
}

/// Whether a value fits the canonical encoding: integers within the range
/// a head can carry, lengths below the 64-bit bound, link identifiers
/// well-formed, and map keys strictly sorted, recursively.
pub open spec fn encodable(v: IpldV) -> bool
    decreases v,
{
    match v {
        IpldV::Null => true,
        IpldV::Bool(_) => true,
        IpldV::Integer(i) => -0x1_0000_0000_0000_0000 <= i < 0x1_0000_0000_0000_0000,
        IpldV::Str(s) => vstd::utf8::encode_utf8(s).len() < 0x1_0000_0000_0000_0000,
        IpldV::Bytes(b) => b.len() < 0x1_0000_0000_0000_0000,
        IpldV::List(items) => items.len() < 0x1_0000_0000_0000_0000 && encodable_seq(items),
        IpldV::Dict(es) => es.len() < 0x1_0000_0000_0000_0000 && keys_sorted(es)
            && encodable_entries(es),
        IpldV::Link(c) => cid_encodable(c),
    }
}

/// Whether every value of a sequence fits the canonical encoding.
pub open spec fn encodable_seq(items: Seq<IpldV>) -> bool
    decreases items,
{
    if items.len() == 0 {
        true
    } else {
        encodable_seq(items.drop_last()) && encodable(items.last())
    }
}

/// Whether every entry of a map fits the canonical encoding.
pub open spec fn encodable_entries(es: Seq<(Seq<char>, IpldV)>) -> bool
    decreases es,
{
    if es.len() == 0 {
        true
    } else {
        encodable_entries(es.drop_last()) && vstd::utf8::encode_utf8(es.last().0).len()
            < 0x1_0000_0000_0000_0000 && encodable(es.last().1)
    }
}

/// The canonical encoding of a value.
pub open spec fn enc(v: IpldV) -> Seq<u8>
    decreases v,
{
    match v {
        IpldV::Null => seq![0xf6u8],
        IpldV::Bool(b) => if b {
            seq![0xf5u8]
        } else {
            seq![0xf4u8]
        },
        IpldV::Integer(i) => if i >= 0 {
            head_bytes(0, i as u64)
        } else {
            head_bytes(1, (-1 - i) as u64)
        },
        IpldV::Str(s) => head_bytes(3, vstd::utf8::encode_utf8(s).len() as u64)
            + vstd::utf8::encode_utf8(s),
        IpldV::Bytes(b) => head_bytes(2, b.len() as u64) + b,
        IpldV::List(items) => head_bytes(4, items.len() as u64) + enc_seq(items),
        IpldV::Dict(es) => head_bytes(5, es.len() as u64) + enc_entries(es),
        IpldV::Link(c) => seq![0xd8u8, 42u8] + head_bytes(2, (cid_bytes(c).len() + 1) as u64)
            + seq![0u8] + cid_bytes(c),
    }
}

/// The concatenated canonical encodings of a sequence of values.
pub open spec fn enc_seq(items: Seq<IpldV>) -> Seq<u8>
    decreases items,
{
    if items.len() == 0 {
        Seq::empty()
    } else {
        enc_seq(items.drop_last()) + enc(items.last())
    }
}

/// The concatenated canonical encodings of a map's entries, each a key
/// string followed by its value.
pub open spec fn enc_entries(es: Seq<(Seq<char>, IpldV)>) -> Seq<u8>
    decreases es,
{
    if es.len() == 0 {
        Seq::empty()
    } else {
        enc_entries(es.drop_last()) + head_bytes(
            3,
            vstd::utf8::encode_utf8(es.last().0).len() as u64,
        ) + vstd::utf8::encode_utf8(es.last().0) + enc(es.last().1)
    }
}

/// Reads one base-128 integer from the front of a byte sequence, with its
/// consumed length; the shortest form only.
pub open spec fn dec_varint(s: Seq<u8>) -> Option<(u64, int)>
    decreases s.len(),
{
    if s.len() == 0 {
        None
    } else if s[0] < 0x80 {
        Some((s[0] as u64, 1))
    } else {
        match dec_varint(s.drop_first()) {
            None => None,
            Some((m, c)) => {
                if m == 0 || (s[0] - 0x80) + 0x80 * (m as int) >= 0x1_0000_0000_0000_0000 {
                    None
                } else {
                    Some((((s[0] - 0x80) + 0x80 * (m as int)) as u64, c + 1))
                }
            },
        }
    }
}

/// Reads a content identifier from its binary form; the whole sequence
/// must be consumed, in the canonical form.
pub open spec fn dec_cid(b: Seq<u8>) -> Option<CidV> {
    if b.len() == 34 && b[0] == SHA2_256 as u8 && b[1] == 32 {
        Some(CidV { version: 0, codec: DAG_PB, hash_code: SHA2_256, digest: b.subrange(2, 34) })
    } else {
        match dec_varint(b) {
            None => None,
            Some((ver, c1)) => {
                if ver != 1 {
                    None
                } else {
                    match dec_varint(b.skip(c1)) {
                        None => None,
                        Some((codec, c2)) => match dec_varint(b.skip(c1 + c2)) {
                            None => None,
                            Some((hash, c3)) => match dec_varint(b.skip(c1 + c2 + c3)) {
                                None => None,
                                Some((dlen, c4)) => {
                                    if dlen < 0x8000_0000_0000_0000 && b.len() == c1 + c2 + c3 + c4
                                        + dlen {
                                        Some(
                                            CidV {
                                                version: 1,
                                                codec,
                                                hash_code: hash,
                                                digest: b.skip(c1 + c2 + c3 + c4),
                                            },
                                        )
                                    } else {
                                        None
                                    }
                                },
                            },
                        },
                    }
                }
            },
        }
    }
}

/// Reads one head from the front of a byte sequence: major type, argument
/// and consumed length; the shortest form only.
pub open spec fn dec_head(s: Seq<u8>) -> Option<(u8, u64, int)> {
    if s.len() == 0 {
        None
    } else {
        let major = s[0] / 32;
        let ai = s[0] % 32;
        if ai < 24 {
            Some((major, ai as u64, 1))
        } else if ai == 24 {
            if s.len() >= 2 && s[1] >= 24 {
                Some((major, s[1] as u64, 2))
            } else {
                None
            }
        } else if ai == 25 {
            if s.len() >= 3 && s[1] as int * 0x100 + s[2] as int >= 0x100 {
                Some((major, (s[1] as int * 0x100 + s[2] as int) as u64, 3))
            } else {
                None
            }
        } else if ai == 26 {
            if s.len() >= 5 && s[1] as int * 0x100_0000 + s[2] as int * 0x1_0000 + s[3] as int
                * 0x100 + s[4] as int >= 0x10000 {
                Some(
                    (
                        major,
                        (s[1] as int * 0x100_0000 + s[2] as int * 0x1_0000 + s[3] as int * 0x100
                            + s[4] as int) as u64,
                        5,
                    ),
                )
            } else {
                None
            }
        } else if ai == 27 {
            if s.len() >= 9 && s[1] as int * 0x100_0000_0000_0000 + s[2] as int * 0x1_0000_0000_0000
                + s[3] as int * 0x100_0000_0000 + s[4] as int * 0x1_0000_0000 + s[5] as int
                * 0x100_0000 + s[6] as int * 0x1_0000 + s[7] as int * 0x100 + s[8] as int
                >= 0x1_0000_0000 {
                Some(
                    (
                        major,
                        (s[1] as int * 0x100_0000_0000_0000 + s[2] as int * 0x1_0000_0000_0000
                            + s[3] as int * 0x100_0000_0000 + s[4] as int * 0x1_0000_0000
                            + s[5] as int * 0x100_0000 + s[6] as int * 0x1_0000 + s[7] as int
                            * 0x100 + s[8] as int) as u64,
                        9,
                    ),
                )
            } else {
                None
            }
        } else {
            None
        }
    }
}

/// Reads one value from the front of a byte sequence, with its consumed
/// length; the canonical form only.
pub open spec fn dec(s: Seq<u8>) -> Option<(IpldV, int)>
    decreases s.len(), 0int,
{
    if s.len() == 0 {
        None
    } else if s[0] == 0xf6 {
        Some((IpldV::Null, 1))
    } else if s[0] == 0xf4 {
        Some((IpldV::Bool(false), 1))
    } else if s[0] == 0xf5 {
        Some((IpldV::Bool(true), 1))
    } else {
        match dec_head(s) {
            None => None,
            Some((major, n, hl)) => {
                if hl < 1 {
                    None
                } else if major == 0 {
                    Some((IpldV::Integer(n as int), hl))
                } else if major == 1 {
                    Some((IpldV::Integer(-1 - n as int), hl))
                } else if major == 2 {
                    if s.len() >= hl + n {
                        Some((IpldV::Bytes(s.subrange(hl, hl + n)), hl + n))
                    } else {
                        None
                    }
                } else if major == 3 {
                    if s.len() >= hl + n && vstd::utf8::valid_utf8(s.subrange(hl, hl + n)) {
                        Some(
                            (
                                IpldV::Str(vstd::utf8::decode_utf8(s.subrange(hl, hl + n))),
                                hl + n,
                            ),
                        )
                    } else {
                        None
                    }
                } else if major == 4 {
                    match dec_seq(s.skip(hl), n as nat) {
                        None => None,
                        Some((items, c)) => Some((IpldV::List(items), hl + c)),
                    }
                } else if major == 5 {
                    match dec_entries(s.skip(hl), n as nat) {
                        None => None,
                        Some((es, c)) => {
                            if keys_sorted(es) {
                                Some((IpldV::Dict(es), hl + c))
                            } else {
                                None
                            }
                        },
                    }
                } else if major == 6 {
                    if n != 42 {
                        None
                    } else {
                        match dec_head(s.skip(hl)) {
                            None => None,
                            Some((m2, bn, hl2)) => {
                                if m2 != 2 || bn < 1 || s.skip(hl).len() < hl2 + bn {
                                    None
                                } else if s.skip(hl)[hl2] != 0 {
                                    None
                                } else {
                                    match dec_cid(s.skip(hl).subrange(hl2 + 1, hl2 + bn)) {
                                        None => None,
                                        Some(c) => Some((IpldV::Link(c), hl + hl2 + bn)),
                                    }
                                }
                            },
                        }
                    }
                } else {
                    None
                }
            },
        }
    }
}

/// Reads `n` values from the front of a byte sequence.
pub open spec fn dec_seq(s: Seq<u8>, n: nat) -> Option<(Seq<IpldV>, int)>
    decreases s.len(), 1 + n,
{
    if n == 0 {
        Some((Seq::empty(), 0))
    } else {
        match dec(s) {
            None => None,
            Some((v, c)) => {
                if c < 1 || c > s.len() {
                    None
                } else {
                    match dec_seq(s.skip(c), (n - 1) as nat) {
                        None => None,
                        Some((vs, c2)) => Some((seq![v] + vs, c + c2)),
                    }
                }
            },
        }
    }
}

/// Reads `n` key-value entries from the front of a byte sequence.
pub open spec fn dec_entries(s: Seq<u8>, n: nat) -> Option<(Seq<(Seq<char>, IpldV)>, int)>
    decreases s.len(), 1 + n,
{
    if n == 0 {
        Some((Seq::empty(), 0))
    } else {
        match dec(s) {
            Some((IpldV::Str(k), c)) => {
                if c < 1 || c > s.len() {
                    None
                } else {
                    match dec(s.skip(c)) {
                        None => None,
                        Some((v, c2)) => {
                            if c2 < 1 || c + c2 > s.len() {
                                None
                            } else {
                                match dec_entries(s.skip(c + c2), (n - 1) as nat) {
                                    None => None,
                                    Some((es, c3)) => Some((seq![(k, v)] + es, c + c2 + c3)),
                                }
                            }
                        },
                    }
                }
            },
            _ => None,
        }
    }
}

/// A base-128 integer takes at most ten bytes below 2^70.
pub proof fn lemma_varint_len(n: nat)
    ensures
        1 <= varint_bytes(n).len(),
        n < 0x80 ==> varint_bytes(n).len() <= 1,
        n < 0x4000 ==> varint_bytes(n).len() <= 2,
        n < 0x20_0000 ==> varint_bytes(n).len() <= 3,
        n < 0x1000_0000 ==> varint_bytes(n).len() <= 4,
        n < 0x8_0000_0000 ==> varint_bytes(n).len() <= 5,
        n < 0x400_0000_0000 ==> varint_bytes(n).len() <= 6,
        n < 0x2_0000_0000_0000 ==> varint_bytes(n).len() <= 7,
        n < 0x100_0000_0000_0000 ==> varint_bytes(n).len() <= 8,
        n < 0x8000_0000_0000_0000 ==> varint_bytes(n).len() <= 9,
        n < 0x40_0000_0000_0000_0000 ==> varint_bytes(n).len() <= 10,
    decreases n,
{
    if n >= 0x80 {
        lemma_varint_len(n / 0x80);
    }
}

/// Appends the bytes of a slice to a buffer.
fn push_slice(out: &mut Vec<u8>, b: &[u8])
    ensures
        final(out)@ == old(out)@ + b@,
{
    let n: usize = b.len();
    let mut i: usize = 0;
    while i < n
        invariant
            n == b@.len(),
            i <= n,
            out@ == old(out)@ + b@.take(i as int),
        decreases n - i,
    {
        out.push(b[i]);
        assert(out@ =~= old(out)@ + b@.take(i as int + 1));
        i += 1;
    }
    assert(out@ =~= old(out)@ + b@);
}

/// Appends the base-128 form of an integer to a buffer.
fn push_varint(out: &mut Vec<u8>, n: u64)
    ensures
        final(out)@ == old(out)@ + varint_bytes(n as nat),
    decreases n,
{
    if n < 0x80 {
        out.push(n as u8);
        assert(out@ =~= old(out)@ + varint_bytes(n as nat));
    } else {
        out.push((n % 0x80 + 0x80) as u8);
        push_varint(out, n / 0x80);
        assert(out@ =~= old(out)@ + varint_bytes(n as nat));
    }
}

/// Appends the shortest-form head of a major type and argument.
fn push_head(out: &mut Vec<u8>, major: u8, n: u64)
    requires
        major < 8,
    ensures
        final(out)@ == old(out)@ + head_bytes(major, n),
{
    let lead: u8 = major * 32;
    if n < 24 {
        out.push(lead + (n as u8));
    } else if n < 0x100 {
        out.push(lead + 24);
        out.push(n as u8);
    } else if n < 0x10000 {
        out.push(lead + 25);
        out.push((n / 0x100) as u8);
        out.push((n % 0x100) as u8);
    } else if n < 0x1_0000_0000 {
        out.push(lead + 26);
        out.push((n / 0x100_0000) as u8);
        out.push(((n / 0x1_0000) % 0x100) as u8);
        out.push(((n / 0x100) % 0x100) as u8);
        out.push((n % 0x100) as u8);
    } else {
        out.push(lead + 27);
        out.push((n / 0x100_0000_0000_0000) as u8);
        out.push(((n / 0x1_0000_0000_0000) % 0x100) as u8);
        out.push(((n / 0x100_0000_0000) % 0x100) as u8);
        out.push(((n / 0x1_0000_0000) % 0x100) as u8);
        out.push(((n / 0x100_0000) % 0x100) as u8);
        out.push(((n / 0x1_0000) % 0x100) as u8);
        out.push(((n / 0x100) % 0x100) as u8);
        out.push((n % 0x100) as u8);
    }
    assert(out@ =~= old(out)@ + head_bytes(major, n));
}

impl Cid {
    /// The binary form of this identifier.
    pub fn to_bytes(&self) -> (r: Vec<u8>)
        ensures
            r@ == cid_bytes(self@),
    {
        let mut out: Vec<u8> = Vec::new();
        if self.version() == 0 {
            out.push(SHA2_256 as u8);
            out.push(32);
            push_slice(&mut out, self.digest().as_slice());
        } else {
            push_varint(&mut out, 1);
            push_varint(&mut out, self.codec());
            push_varint(&mut out, self.hash_code());
            push_varint(&mut out, self.digest().len() as u64);
            push_slice(&mut out, self.digest().as_slice());
        }
        assert(out@ =~= cid_bytes(self@));
        out
    }
}

/// Taking one more element appends that element's encoding.
pub proof fn lemma_enc_seq_snoc(s: Seq<IpldV>, i: int)
    requires
        0 <= i < s.len(),
    ensures
        enc_seq(s.take(i + 1)) == enc_seq(s.take(i)) + enc(s[i]),
        encodable_seq(s.take(i + 1)) == (encodable_seq(s.take(i)) && encodable(s[i])),
{
    assert(s.take(i + 1).drop_last() =~= s.take(i));
    assert(s.take(i + 1).last() == s[i]);
}

/// Taking one more entry appends that entry's key and value encodings.
pub proof fn lemma_enc_entries_snoc(s: Seq<(Seq<char>, IpldV)>, i: int)
    requires
        0 <= i < s.len(),
    ensures
        enc_entries(s.take(i + 1)) == enc_entries(s.take(i)) + head_bytes(
            3,
            vstd::utf8::encode_utf8(s[i].0).len() as u64,
        ) + vstd::utf8::encode_utf8(s[i].0) + enc(s[i].1),
        encodable_entries(s.take(i + 1)) == (encodable_entries(s.take(i))
            && vstd::utf8::encode_utf8(s[i].0).len() < 0x1_0000_0000_0000_0000 && encodable(
            s[i].1,
        )),
{
    assert(s.take(i + 1).drop_last() =~= s.take(i));
    assert(s.take(i + 1).last() == s[i]);
}

/// Every element of an encodable sequence is encodable.
pub proof fn lemma_encodable_seq_index(s: Seq<IpldV>, i: int)
    requires
        encodable_seq(s),
        0 <= i < s.len(),
    ensures
        encodable(s[i]),
    decreases s.len(),
{
    if i < s.len() - 1 {
        lemma_encodable_seq_index(s.drop_last(), i);
        assert(s.drop_last()[i] == s[i]);
    }
}

/// Every value of an encodable run of entries is encodable.
pub proof fn lemma_encodable_entries_index(s: Seq<(Seq<char>, IpldV)>, i: int)
    requires
        encodable_entries(s),
        0 <= i < s.len(),
    ensures
        encodable(s[i].1),
    decreases s.len(),
{
    if i < s.len() - 1 {
        lemma_encodable_entries_index(s.drop_last(), i);
        assert(s.drop_last()[i] == s[i]);
    }
}

/// Decides the strict byte-wise order of two key byte slices.
fn bytes_less(a: &[u8], b: &[u8]) -> (r: bool)
    ensures
        r == bytes_lt(a@, b@),
{
    let an: usize = a.len();
    let bn: usize = b.len();
    let mut i: usize = 0;
    proof {
        assert(a@.skip(0) =~= a@);
        assert(b@.skip(0) =~= b@);
    }
    while i < an && i < bn
        invariant
            an == a@.len(),
            bn == b@.len(),
            i <= an,
            i <= bn,
            bytes_lt(a@, b@) == bytes_lt(a@.skip(i as int), b@.skip(i as int)),
        decreases an - i,
    {
        if a[i] < b[i] {
            assert(bytes_lt(a@.skip(i as int), b@.skip(i as int)));
            return true;
        }
        if a[i] > b[i] {
            assert(!bytes_lt(a@.skip(i as int), b@.skip(i as int)));
            return false;
        }
        proof {
            assert(a@.skip(i as int).drop_first() =~= a@.skip(i as int + 1));
            assert(b@.skip(i as int).drop_first() =~= b@.skip(i as int + 1));
        }
        i += 1;
    }
    let r = a.len() < b.len();
    proof {
        if a@.len() < b@.len() {
            assert(bytes_lt(a@.skip(i as int), b@.skip(i as int)));
        } else {
            assert(!bytes_lt(a@.skip(i as int), b@.skip(i as int)));
        }
    }
    r
}

/// Appends the canonical encoding of a value to a buffer. Returns an error,
/// and writes an unspecified prefix, exactly when the value does not fit
/// the canonical form.
#[verifier::loop_isolation(false)]
#[verifier::rlimit(90)]
pub fn encode_ipld(v: &Ipld, out: &mut Vec<u8>) -> (r: Result<(), BlockError>)
    ensures
        r is Ok <==> encodable(v@),
        r is Ok ==> final(out)@ == old(out)@ + enc(v@),
        r matches Err(e) ==> e matches BlockError::CodecError(_),
    decreases v,
{
    match v {
        Ipld::Null => {
            out.push(0xf6);
            assert(final(out)@ =~= old(out)@ + enc(v@));
            Ok(())
        },
        Ipld::Bool(b) => {
            out.push(if *b { 0xf5 } else { 0xf4 });
            assert(final(out)@ =~= old(out)@ + enc(v@));
            Ok(())
        },
        Ipld::Integer(i) => {
            if *i >= 0 {
                if *i < 0x1_0000_0000_0000_0000i128 {
                    push_head(out, 0, *i as u64);
                    Ok(())
                } else {
                    Err(BlockError::CodecError(CodecFault::NumberOutOfRange))
                }
            } else {
                let m: i128 = -1 - *i;
                if m < 0x1_0000_0000_0000_0000i128 {
                    push_head(out, 1, m as u64);
                    Ok(())
                } else {
                    Err(BlockError::CodecError(CodecFault::NumberOutOfRange))
                }
            }
        },
        Ipld::String(s) => {
            let b: &[u8] = s.as_str().as_bytes();
            push_head(out, 3, b.len() as u64);
            push_slice(out, b);
            assert(final(out)@ =~= old(out)@ + enc(v@));
            Ok(())
        },
        Ipld::Bytes(b) => {
            push_head(out, 2, b.len() as u64);
            push_slice(out, b.as_slice());
            assert(final(out)@ =~= old(out)@ + enc(v@));
            Ok(())
        },
        Ipld::List(items) => {
            let n: usize = items.len();
            push_head(out, 4, n as u64);
            proof {
                lemma_view_seq(items@);
            }
            let ghost items_v = view_seq(items@);
            let mut i: usize = 0;
            while i < n
                invariant
                    i <= n,
                    out@ == old(out)@ + head_bytes(4, n as u64) + enc_seq(items_v.take(i as int)),
                    encodable_seq(items_v.take(i as int)),
                decreases n - i,
            {
                proof {
                    assert(decreases_to!(*v => *items));
                    assert(decreases_to!(*items => items@));
                    assert(decreases_to!(items@ => items@[i as int]));
                }
                let child_r = encode_ipld(&items[i], out);
                proof {
                    lemma_enc_seq_snoc(items_v, i as int);
                }
                if child_r.is_err() {
                    proof {
                        if encodable(v@) {
                            lemma_encodable_seq_index(items_v, i as int);
                        }
                    }
                    return Err(BlockError::CodecError(CodecFault::NumberOutOfRange));
                }
                i += 1;
            }
            proof {
                assert(items_v.take(n as int) =~= items_v);
                assert(out@ =~= old(out)@ + enc(v@));
            }
            Ok(())
        },
        Ipld::Dict(entries) => {
            let n: usize = entries.len();
            push_head(out, 5, n as u64);
            proof {
                lemma_view_entries(entries@);
            }
            let ghost es = view_entries(entries@);
            let mut i: usize = 0;
            while i < n
                invariant
                    i <= n,
                    out@ == old(out)@ + head_bytes(5, n as u64) + enc_entries(es.take(i as int)),
                    encodable_entries(es.take(i as int)),
                    forall|j: int| #![trigger es[j].0]
                        0 <= j < i - 1 ==> bytes_lt(
                            vstd::utf8::encode_utf8(es[j].0),
                            vstd::utf8::encode_utf8(es[j + 1].0),
                        ),
                decreases n - i,
            {
                if i > 0 {
                    let sorted = bytes_less(
                        entries[i - 1].0.as_str().as_bytes(),
                        entries[i].0.as_str().as_bytes(),
                    );
                    if !sorted {
                        proof {
                            assert(!keys_sorted(es));
                        }
                        return Err(BlockError::CodecError(CodecFault::KeysUnsorted));
                    }
                }
                let kb: &[u8] = entries[i].0.as_str().as_bytes();
                push_head(out, 3, kb.len() as u64);
                push_slice(out, kb);
                proof {
                    assert(decreases_to!(*v => *entries));
                    assert(decreases_to!(*entries => entries@));
                    assert(decreases_to!(entries@ => entries@[i as int]));
                    assert(decreases_to!(entries@[i as int] => entries@[i as int].1));
                }
                let child_r = encode_ipld(&entries[i].1, out);
                proof {
                    lemma_enc_entries_snoc(es, i as int);
                }
                if child_r.is_err() {
                    proof {
                        if encodable(v@) {
                            lemma_encodable_entries_index(es, i as int);
                        }
                    }
                    return Err(BlockError::CodecError(CodecFault::NumberOutOfRange));
                }
                i += 1;
            }
            proof {
                assert(es.take(n as int) =~= es);
                assert(out@ =~= old(out)@ + enc(v@));
            }
            Ok(())
        },
        Ipld::Link(cid) => {
            let dn: usize = cid.digest().len();
            let version_ok = cid.version() == 1 || (cid.version() == 0 && cid.codec() == DAG_PB
                && cid.hash_code() == SHA2_256 && dn == 32);
            if !version_ok || !((dn as u64) < 0x8000_0000_0000_0000u64) {
                return Err(BlockError::CodecError(CodecFault::Link));
            }
            out.push(0xd8);
            out.push(42);
            let cb = cid.to_bytes();
            proof {
                lemma_varint_len(cid@.codec as nat);
                lemma_varint_len(cid@.hash_code as nat);
                lemma_varint_len(cid@.digest.len());
            }
            push_head(out, 2, (cb.len() as u64) + 1);
            out.push(0);
            push_slice(out, cb.as_slice());
            assert(final(out)@ =~= old(out)@ + enc(v@));
            Ok(())
        },
    }
}

/// Relies on String::from_utf8: it succeeds exactly on valid UTF-8 and
/// returns the string of the decoded characters.
#[verifier::external_body]
fn string_from_utf8(bytes: Vec<u8>) -> (r: Option<String>)
    ensures
        match r {
            Some(st) => vstd::utf8::valid_utf8(bytes@) && st@ == vstd::utf8::decode_utf8(bytes@),
            None => !vstd::utf8::valid_utf8(bytes@),
        },
{
    String::from_utf8(bytes).ok()
}

/// Copies `n` bytes starting at `pos` out of a buffer.
fn read_exact(data: &Vec<u8>, pos: usize, n: usize) -> (r: Vec<u8>)
    requires
        pos + n <= data@.len(),
    ensures
        r@ == data@.subrange(pos as int, pos as int + n as int),
{
    let dl: usize = data.len();
    let mut out: Vec<u8> = Vec::new();
    let mut i: usize = 0;
    while i < n
        invariant
            pos + n <= data@.len(),
            data@.len() == dl,
            i <= n,
            out@ == data@.subrange(pos as int, pos as int + i as int),
        decreases n - i,
    {
        out.push(data[pos + i]);
        assert(out@ =~= data@.subrange(pos as int, pos as int + i as int + 1));
        i += 1;
    }
    out
}

/// Reads one head at `pos`: major type, argument and the next position.
fn parse_head(data: &Vec<u8>, pos: usize) -> (r: Result<(u8, u64, usize), BlockError>)
    requires
        pos <= data@.len(),
    ensures
        match r {
            Ok((major, n, np)) => pos < np <= data@.len() && dec_head(data@.skip(pos as int))
                == Some((major, n, np - pos)),
            Err(e) => dec_head(data@.skip(pos as int)) is None && e matches BlockError::CodecError(
                _,
            ),
        },
{
    let ghost s = data@.skip(pos as int);
    if pos == data.len() {
        return Err(BlockError::CodecError(CodecFault::Eof));
    }
    let b0 = data[pos];
    assert(s[0] == b0);
    let major: u8 = b0 / 32;
    let ai: u8 = b0 % 32;
    if ai < 24 {
        Ok((major, ai as u64, pos + 1))
    } else if ai == 24 {
        if data.len() - pos >= 2 && data[pos + 1] >= 24 {
            assert(s[1] == data@[pos + 1]);
            Ok((major, data[pos + 1] as u64, pos + 2))
        } else {
            Err(BlockError::CodecError(CodecFault::Malformed))
        }
    } else if ai == 25 {
        if data.len() - pos >= 3 {
            let n: u64 = (data[pos + 1] as u64) * 0x100 + (data[pos + 2] as u64);
            assert(s[1] == data@[pos + 1] && s[2] == data@[pos + 2]);
            if n >= 0x100 {
                Ok((major, n, pos + 3))
            } else {
                Err(BlockError::CodecError(CodecFault::Malformed))
            }
        } else {
            Err(BlockError::CodecError(CodecFault::Eof))
        }
    } else if ai == 26 {
        if data.len() - pos >= 5 {
            let n: u64 = (data[pos + 1] as u64) * 0x100_0000 + (data[pos + 2] as u64) * 0x1_0000 + (
            data[pos + 3] as u64) * 0x100 + (data[pos + 4] as u64);
            assert(s[1] == data@[pos + 1] && s[2] == data@[pos + 2] && s[3] == data@[pos + 3]
                && s[4] == data@[pos + 4]);
            if n >= 0x10000 {
                Ok((major, n, pos + 5))
            } else {
                Err(BlockError::CodecError(CodecFault::Malformed))
            }
        } else {
            Err(BlockError::CodecError(CodecFault::Eof))
        }
    } else if ai == 27 {
        if data.len() - pos >= 9 {
            let n: u64 = (data[pos + 1] as u64) * 0x100_0000_0000_0000 + (data[pos + 2] as u64)
                * 0x1_0000_0000_0000 + (data[pos + 3] as u64) * 0x100_0000_0000 + (data[pos
                + 4] as u64) * 0x1_0000_0000 + (data[pos + 5] as u64) * 0x100_0000 + (data[pos
                + 6] as u64) * 0x1_0000 + (data[pos + 7] as u64) * 0x100 + (data[pos + 8] as u64);
            assert(s[1] == data@[pos + 1] && s[2] == data@[pos + 2] && s[3] == data@[pos + 3]
                && s[4] == data@[pos + 4] && s[5] == data@[pos + 5] && s[6] == data@[pos + 6]
                && s[7] == data@[pos + 7] && s[8] == data@[pos + 8]);
            if n >= 0x1_0000_0000 {
                Ok((major, n, pos + 9))
            } else {
                Err(BlockError::CodecError(CodecFault::Malformed))
            }
        } else {
            Err(BlockError::CodecError(CodecFault::Eof))
        }
    } else {
        Err(BlockError::CodecError(CodecFault::Malformed))
    }
}

/// Reads one base-128 integer at `pos`, returning it with the next position.
fn parse_varint(b: &Vec<u8>, pos: usize) -> (r: Option<(u64, usize)>)
    requires
        pos <= b@.len(),
    ensures
        match r {
            Some((v, np)) => pos < np <= b@.len() && dec_varint(b@.skip(pos as int)) == Some(
                (v, np - pos),
            ),
            None => dec_varint(b@.skip(pos as int)) is None,
        },
    decreases b@.len() - pos,
{
    if pos == b.len() {
        return None;
    }
    let byte = b[pos];
    assert(b@.skip(pos as int)[0] == byte);
    if byte < 0x80 {
        return Some((byte as u64, pos + 1));
    }
    proof {
        assert(b@.skip(pos as int).drop_first() =~= b@.skip(pos as int + 1));
    }
    match parse_varint(b, pos + 1) {
        None => None,
        Some((m, np)) => {
            if m == 0 {
                return None;
            }
            let low: u64 = (byte - 0x80) as u64;
            let val: u128 = (low as u128) + 0x80u128 * (m as u128);
            if val >= 0x1_0000_0000_0000_0000u128 {
                None
            } else {
                Some((val as u64, np))
            }
        },
    }
}

/// Reads a content identifier out of its binary form; the whole buffer
/// must be consumed.
pub fn cid_from_bytes(b: &Vec<u8>) -> (r: Result<Cid, BlockError>)
    ensures
        match r {
            Ok(c) => dec_cid(b@) == Some(c@),
            Err(e) => dec_cid(b@) is None && e matches BlockError::CodecError(_),
        },
{
    if b.len() == 34 {
        let b0 = b[0];
        let b1 = b[1];
        if b0 == SHA2_256 as u8 && b1 == 32 {
            let digest = read_exact(b, 2, 32);
            let c = Cid::new_v0(digest);
            assert(c@.digest =~= b@.subrange(2, 34));
            return Ok(c);
        }
    }
    match parse_varint(b, 0) {
        None => Err(BlockError::CodecError(CodecFault::Link)),
        Some((ver, p1)) => {
            proof {
                assert(b@.skip(0) =~= b@);
            }
            if ver != 1 {
                return Err(BlockError::CodecError(CodecFault::Link));
            }
            match parse_varint(b, p1) {
                None => Err(BlockError::CodecError(CodecFault::Link)),
                Some((codec, p2)) => {
                    match parse_varint(b, p2) {
                        None => {
                            proof {
                                assert(b@.skip(p1 as int).skip((p2 - p1) as int) =~= b@.skip(
                                    p2 as int,
                                ));
                            }
                            Err(BlockError::CodecError(CodecFault::Link))
                        },
                        Some((hash, p3)) => {
                            proof {
                                assert(b@.skip(p1 as int).skip((p2 - p1) as int) =~= b@.skip(
                                    p2 as int,
                                ));
                                assert(b@.skip(p2 as int).skip((p3 - p2) as int) =~= b@.skip(
                                    p3 as int,
                                ));
                            }
                            match parse_varint(b, p3) {
                                None => Err(BlockError::CodecError(CodecFault::Link)),
                                Some((dlen, p4)) => {
                                    proof {
                                        assert(b@.skip(p3 as int).skip((p4 - p3) as int) =~= b@.skip(
                                            p4 as int,
                                        ));
                                    }
                                    if dlen < 0x8000_0000_0000_0000u64 && (dlen as u128) == ((
                                    b.len() - p4) as u128) {
                                        let digest = read_exact(b, p4, b.len() - p4);
                                        let c = Cid::new_v1(codec, hash, digest);
                                        assert(c@.digest =~= b@.skip(p4 as int));
                                        Ok(c)
                                    } else {
                                        Err(BlockError::CodecError(CodecFault::Link))
                                    }
                                },
                            }
                        },
                    }
                },
            }
        },
    }
}

/// Decides whether the keys of a parsed map stand in strictly increasing
/// byte order.
#[verifier::loop_isolation(false)]
fn check_sorted(entries: &Vec<(String, Ipld)>) -> (r: bool)
    ensures
        r == keys_sorted(view_entries(entries@)),
{
    proof {
        lemma_view_entries(entries@);
    }
    let ghost es = view_entries(entries@);
    let n: usize = entries.len();
    if n < 2 {
        return true;
    }
    let mut j: usize = 1;
    while j < n
        invariant
            1 <= j <= n,
            forall|k: int| #![trigger es[k].0]
                0 <= k < j - 1 ==> bytes_lt(
                    vstd::utf8::encode_utf8(es[k].0),
                    vstd::utf8::encode_utf8(es[k + 1].0),
                ),
        decreases n - j,
    {
        let ok = bytes_less(entries[j - 1].0.as_str().as_bytes(), entries[j].0.as_str().as_bytes());
        if !ok {
            proof {
                assert(es[j - 1].0 == entries@[j - 1].0@);
                assert(es[j as int].0 == entries@[j as int].0@);
                assert(!keys_sorted(es));
            }
            return false;
        }
        j += 1;
    }
    true
}

/// Reads `count` values starting at `np`, returning them with the next
/// position.
#[verifier::loop_isolation(false)]
fn parse_many(data: &Vec<u8>, np: usize, count: u64) -> (r: Result<(Vec<Ipld>, usize), BlockError>)
    requires
        np <= data@.len(),
    ensures
        match r {
            Ok((items, cur)) => np <= cur <= data@.len() && dec_seq(
                data@.skip(np as int),
                count as nat,
            ) == Some((view_seq(items@), (cur - np) as int)),
            Err(e) => dec_seq(data@.skip(np as int), count as nat) is None && e
                matches BlockError::CodecError(_),
        },
    decreases data@.len() - np, 1 + count,
{
    let ghost base = data@.skip(np as int);
    let mut items: Vec<Ipld> = Vec::new();
    let mut cur: usize = np;
    let mut i: u64 = 0;
    while i < count
        invariant
            i <= count,
            np <= cur <= data@.len(),
            items@.len() == i,
            (match dec_seq(data@.skip(cur as int), (count - i) as nat) {
                Some((vs, c)) => dec_seq(base, count as nat) == Some(
                    (view_seq(items@) + vs, (cur - np) + c),
                ),
                None => dec_seq(base, count as nat) is None,
            }),
        decreases count - i,
    {
        match parse_ipld(data, cur) {
            Ok((child, np2)) => {
                proof {
                    assert(data@.skip(cur as int).skip((np2 - cur) as int) =~= data@.skip(
                        np2 as int,
                    ));
                    lemma_view_seq_push(items@, child);
                    assert(view_seq(items@).push(child@) =~= view_seq(items@) + seq![child@]);
                    assert(match dec_seq(data@.skip(np2 as int), (count - (i + 1)) as nat) {
                        Some((vs, c)) => {
                            (view_seq(items@) + seq![child@]) + vs =~= view_seq(items@) + (seq![
                                child@,
                            ] + vs)
                        },
                        None => true,
                    });
                }
                items.push(child);
                cur = np2;
                i += 1;
            },
            Err(e) => {
                return Err(e);
            },
        }
    }
    proof {
        assert(view_seq(items@) + Seq::<IpldV>::empty() =~= view_seq(items@));
    }
    Ok((items, cur))
}

/// Reads `count` key-value entries starting at `np`, returning them with
/// the next position.
#[verifier::loop_isolation(false)]
#[verifier::rlimit(100)]
#[verifier::spinoff_prover]
fn parse_pairs(data: &Vec<u8>, np: usize, count: u64) -> (r: Result<
    (Vec<(String, Ipld)>, usize),
    BlockError,
>)
    requires
        np <= data@.len(),
    ensures
        match r {
            Ok((entries, cur)) => np <= cur <= data@.len() && dec_entries(
                data@.skip(np as int),
                count as nat,
            ) == Some((view_entries(entries@), (cur - np) as int)),
            Err(e) => dec_entries(data@.skip(np as int), count as nat) is None && e
                matches BlockError::CodecError(_),
        },
    decreases data@.len() - np, 1 + count,
{
    let ghost base = data@.skip(np as int);
    let mut entries: Vec<(String, Ipld)> = Vec::new();
    let mut cur: usize = np;
    let mut i: u64 = 0;
    while i < count
        invariant
            i <= count,
            np <= cur <= data@.len(),
            entries@.len() == i,
            (match dec_entries(data@.skip(cur as int), (count - i) as nat) {
                Some((es2, c)) => dec_entries(base, count as nat) == Some(
                    (view_entries(entries@) + es2, (cur - np) + c),
                ),
                None => dec_entries(base, count as nat) is None,
            }),
        decreases count - i,
    {
        let (key, npk) = match parse_ipld(data, cur) {
            Ok(t) => t,
            Err(e) => {
                return Err(e);
            },
        };
        let ks = match key {
            Ipld::String(ks) => ks,
            _ => {
                return Err(BlockError::CodecError(CodecFault::Malformed));
            },
        };
        proof {
            assert(dec(data@.skip(cur as int)) == Some((IpldV::Str(ks@), (npk - cur) as int)));
            assert(data@.skip(cur as int).skip((npk - cur) as int) =~= data@.skip(npk as int));
        }
        let (val, npv) = match parse_ipld(data, npk) {
            Ok(t) => t,
            Err(e) => {
                return Err(e);
            },
        };
        proof {
            assert(data@.skip(npk as int).skip((npv - npk) as int) =~= data@.skip(npv as int));
            assert(data@.skip(cur as int).skip((npv - cur) as int) =~= data@.skip(npv as int));
            lemma_view_entries_push(entries@, ks, val);
            assert(view_entries(entries@).push((ks@, val@)) =~= view_entries(entries@) + seq![
                (ks@, val@),
            ]);
            assert(match dec_entries(data@.skip(npv as int), (count - (i + 1)) as nat) {
                Some((es2, c)) => {
                    (view_entries(entries@) + seq![(ks@, val@)]) + es2 =~= view_entries(entries@)
                        + (seq![(ks@, val@)] + es2)
                },
                None => true,
            });
        }
        entries.push((ks, val));
        cur = npv;
        i += 1;
    }
    proof {
        assert(view_entries(entries@) + Seq::<(Seq<char>, IpldV)>::empty() =~= view_entries(
            entries@,
        ));
    }
    Ok((entries, cur))
}

/// Reads one value at `pos`, returning it with the next position. Returns
/// an error exactly when no canonical value starts there.
#[verifier::loop_isolation(false)]
#[verifier::rlimit(90)]
pub fn parse_ipld(data: &Vec<u8>, pos: usize) -> (r: Result<(Ipld, usize), BlockError>)
    requires
        pos <= data@.len(),
    ensures
        match r {
            Ok((v, np)) => pos < np <= data@.len() && dec(data@.skip(pos as int)) == Some(
                (v@, (np - pos) as int),
            ),
            Err(e) => dec(data@.skip(pos as int)) is None && e matches BlockError::CodecError(_),
        },
    decreases data@.len() - pos, 0int,
{
    let ghost s = data@.skip(pos as int);
    if pos == data.len() {
        return Err(BlockError::CodecError(CodecFault::Eof));
    }
    let b0 = data[pos];
    assert(s[0] == b0);
    if b0 == 0xf6 {
        return Ok((Ipld::Null, pos + 1));
    }
    if b0 == 0xf4 {
        return Ok((Ipld::Bool(false), pos + 1));
    }
    if b0 == 0xf5 {
        return Ok((Ipld::Bool(true), pos + 1));
    }
    let (major, n, np) = match parse_head(data, pos) {
        Ok(t) => t,
        Err(e) => {
            return Err(e);
        },
    };
    if major == 0 {
        return Ok((Ipld::Integer(n as i128), np));
    }
    if major == 1 {
        return Ok((Ipld::Integer(-1i128 - (n as i128)), np));
    }
    if major == 2 || major == 3 {
        if (n as u128) > ((data.len() - np) as u128) {
            return Err(BlockError::CodecError(CodecFault::Eof));
        }
        let nn = n as usize;
        let content = read_exact(data, np, nn);
        proof {
            assert(content@ =~= s.subrange((np - pos) as int, (np - pos) as int + n as int));
        }
        if major == 2 {
            return Ok((Ipld::Bytes(content), np + nn));
        }
        match string_from_utf8(content) {
            Some(st) => {
                return Ok((Ipld::String(st), np + nn));
            },
            None => {
                return Err(BlockError::CodecError(CodecFault::Utf8));
            },
        }
    }
    if major == 4 {
        proof {
            assert(data@.skip(np as int) =~= s.skip((np - pos) as int));
        }
        match parse_many(data, np, n) {
            Ok((items, cur)) => {
                return Ok((Ipld::List(items), cur));
            },
            Err(e) => {
                return Err(e);
            },
        }
    }
    if major == 5 {
        proof {
            assert(data@.skip(np as int) =~= s.skip((np - pos) as int));
        }
        match parse_pairs(data, np, n) {
            Ok((entries, cur)) => {
                if !check_sorted(&entries) {
                    return Err(BlockError::CodecError(CodecFault::KeysUnsorted));
                }
                return Ok((Ipld::Dict(entries), cur));
            },
            Err(e) => {
                return Err(e);
            },
        }
    }
    if major == 6 {
        if n != 42 {
            return Err(BlockError::CodecError(CodecFault::Malformed));
        }
        let (m2, bn, np2) = match parse_head(data, np) {
            Ok(t) => t,
            Err(e) => {
                proof {
                    assert(data@.skip(np as int) =~= s.skip((np - pos) as int));
                }
                return Err(e);
            },
        };
        proof {
            assert(data@.skip(np as int) =~= s.skip((np - pos) as int));
        }
        if m2 != 2 || bn < 1 {
            return Err(BlockError::CodecError(CodecFault::Link));
        }
        if (bn as u128) > ((data.len() - np2) as u128) {
            return Err(BlockError::CodecError(CodecFault::Eof));
        }
        let bnu = bn as usize;
        if data[np2] != 0 {
            assert(s.skip((np - pos) as int)[(np2 - np) as int] == data@[np2 as int]);
            return Err(BlockError::CodecError(CodecFault::Link));
        }
        assert(s.skip((np - pos) as int)[(np2 - np) as int] == data@[np2 as int]);
        let content = read_exact(data, np2 + 1, bnu - 1);
        proof {
            assert(content@ =~= s.skip((np - pos) as int).subrange(
                (np2 - np) as int + 1,
                (np2 - np) as int + bn as int,
            ));
        }
        match cid_from_bytes(&content) {
            Ok(c) => {
                return Ok((Ipld::Link(c), np2 + bnu));
            },
            Err(_) => {
                return Err(BlockError::CodecError(CodecFault::Link));
            },
        }
    }
    Err(BlockError::CodecError(CodecFault::Malformed))
}

/// Decodes a value from its canonical byte form; the whole buffer must be
/// one canonical value. Returns an error exactly when it is not.
pub fn decode(data: &Vec<u8>) -> (r: Result<Ipld, BlockError>)
    ensures
        match r {
            Ok(v) => dec(data@) == Some((v@, data@.len() as int)),
            Err(e) => !(dec(data@) matches Some((v, c)) && c == data@.len()) && e
                matches BlockError::CodecError(_),
        },
{
    proof {
        assert(data@.skip(0) =~= data@);
    }
    match parse_ipld(data, 0) {
        Ok((v, np)) => {
            if np == data.len() {
                Ok(v)
            } else {
                Err(BlockError::CodecError(CodecFault::Trailing))
            }
        },
        Err(e) => Err(e),
    }
}

/// Encodes a value into its canonical byte form. Returns an error exactly
/// when the value does not fit the canonical form.
pub fn encode(v: &Ipld) -> (r: Result<Vec<u8>, BlockError>)
    ensures
        r matches Ok(bytes) ==> encodable(v@) && bytes@ == enc(v@),
        r is Err <==> !encodable(v@),
        r matches Err(e) ==> e matches BlockError::CodecError(_),
{
    let mut out: Vec<u8> = Vec::new();
    match encode_ipld(v, &mut out) {
        Ok(()) => Ok(out),
        Err(e) => Err(e),
    }
}

} // verus!
