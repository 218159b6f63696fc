//! Deterministic binary encoding for every on-wire and on-disk type.
//!
//! Integers are little-endian and fixed-width, sequences carry a compact
//! length prefix, and tagged unions carry one discriminant byte per level.
//! Every encoder is pinned to a spec-level byte sequence, every decoder to a
//! spec-level partial inverse, and the round trip is proved.

use vstd::prelude::*;

use crate::account::AccountId32;
use crate::balances;
use crate::proof_of_existence;
use crate::runtime::{CallView, RuntimeCall};
use vstd::utf8::{decode_utf8, encode_utf8, valid_utf8};

verus! {

/// 256 raised to the `n`-th power: the number of values of an `n`-byte field.
pub open spec fn pow256(n: nat) -> nat
    decreases n,
{
    if n == 0 {
        1
    } else {
        256 * pow256((n - 1) as nat)
    }
}

/// The `n` little-endian bytes of `v` (low byte first).
pub open spec fn le_bytes(v: nat, n: nat) -> Seq<u8>
    decreases n,
{
    if n == 0 {
        Seq::empty()
    } else {
        seq![(v % 256) as u8] + le_bytes(v / 256, (n - 1) as nat)
    }
}

/// Reading `n` little-endian bytes of `s` starting at `pos`:
/// the value and the position after it, or `None` if `s` is too short.
pub open spec fn spec_decode_le(s: Seq<u8>, pos: int, n: nat) -> Option<(nat, int)>
    decreases n,
{
    if n == 0 {
        Some(((0 as nat), pos))
    } else if 0 <= pos < s.len() {
        match spec_decode_le(s, pos + 1, (n - 1) as nat) {
            Some(hi) => Some(((s[pos] + 256 * hi.0) as nat, hi.1)),
            None => None,
        }
    } else {
        None
    }
}

pub proof fn lemma_le_bytes_len(v: nat, n: nat)
    ensures
        le_bytes(v, n).len() == n,
    decreases n,
{
    if n > 0 {
        lemma_le_bytes_len(v / 256, (n - 1) as nat);
    }
}

pub proof fn lemma_decode_le_bound(s: Seq<u8>, pos: int, n: nat)
    ensures
        match spec_decode_le(s, pos, n) {
            Some(r) => r.0 < pow256(n) && r.1 == pos + n && (n > 0 ==> 0 <= pos && r.1
                <= s.len()),
            None => true,
        },
    decreases n,
{
    if n > 0 && 0 <= pos < s.len() {
        lemma_decode_le_bound(s, pos + 1, (n - 1) as nat);
        match spec_decode_le(s, pos + 1, (n - 1) as nat) {
            Some(hi) => {
                assert(s[pos] + 256 * hi.0 < 256 * pow256((n - 1) as nat)) by (nonlinear_arith)
                    requires
                        hi.0 < pow256((n - 1) as nat),
                        s[pos] < 256,
                        pow256((n - 1) as nat) >= 1,
                ;
                lemma_pow256_pos((n - 1) as nat);
            },
            None => {},
        }
    }
}

pub proof fn lemma_pow256_pos(n: nat)
    ensures
        pow256(n) >= 1,
    decreases n,
{
    if n > 0 {
        lemma_pow256_pos((n - 1) as nat);
    }
}

/// Decoding the little-endian bytes of `v` recovers `v` exactly.
pub proof fn lemma_decode_le_of_encode(s: Seq<u8>, pos: int, v: nat, n: nat)
    requires
        v < pow256(n),
        0 <= pos,
        pos + n <= s.len(),
        s.subrange(pos, pos + n) == le_bytes(v, n),
    ensures
        spec_decode_le(s, pos, n) == Some((v, pos + n)),
    decreases n,
{
    lemma_le_bytes_len(v, n);
    if n > 0 {
        lemma_le_bytes_len(v / 256, (n - 1) as nat);
        assert(s[pos] == le_bytes(v, n)[0]);
        assert(s[pos] == v % 256);
        assert(v / 256 < pow256((n - 1) as nat)) by (nonlinear_arith)
            requires
                v < 256 * pow256((n - 1) as nat),
        ;
        assert(s.subrange(pos + 1, pos + n) =~= le_bytes(v / 256, (n - 1) as nat)) by {
            assert forall|i: int| 0 <= i < n - 1 implies #[trigger] s.subrange(pos + 1, pos + n)[i]
                == le_bytes(v / 256, (n - 1) as nat)[i] by {
                assert(s.subrange(pos + 1, pos + n)[i] == s.subrange(pos, pos + n)[i + 1]);
                assert(le_bytes(v, n)[i + 1] == le_bytes(v / 256, (n - 1) as nat)[i]);
            }
        }
        lemma_decode_le_of_encode(s, pos + 1, v / 256, (n - 1) as nat);
        vstd::arithmetic::div_mod::lemma_fundamental_div_mod(v as int, 256);
    } else {
        assert(spec_decode_le(s, pos, 0) == Some((0 as nat, pos)));
    }
}

/// Append the `n` little-endian bytes of `v` to `out`.
pub fn encode_le(v: u128, n: usize, out: &mut Vec<u8>)
    ensures
        final(out)@ == old(out)@ + le_bytes(v as nat, n as nat),
    decreases n,
{
    if n == 0 {
        assert(out@ =~= old(out)@ + le_bytes(v as nat, 0));
    } else {
        let b: u8 = (v % 256) as u8;
        out.push(b);
        encode_le(v / 256, n - 1, out);
        assert(out@ =~= old(out)@ + le_bytes(v as nat, n as nat)) by {
            assert(le_bytes(v as nat, n as nat) == seq![(v as nat % 256) as u8] + le_bytes(
                v as nat / 256,
                (n - 1) as nat,
            ));
            assert(v as nat % 256 == (v % 256) as nat);
            assert(v as nat / 256 == (v / 256) as nat);
        }
    }
}

/// Read `n` little-endian bytes starting at `pos`.
pub fn decode_le(buf: &Vec<u8>, pos: usize, n: usize) -> (r: Option<(u128, usize)>)
    requires
        n <= 16,
    ensures
        match r {
            Some(vp) => spec_decode_le(buf@, pos as int, n as nat) == Some(
                (vp.0 as nat, vp.1 as int),
            ),
            None => spec_decode_le(buf@, pos as int, n as nat) is None,
        },
    decreases n,
{
    if n == 0 {
        Some((0, pos))
    } else if pos < buf.len() {
        let b: u8 = buf[pos];
        match decode_le(buf, pos + 1, n - 1) {
            Some((hi, end)) => {
                proof {
                    lemma_decode_le_bound(buf@, pos as int + 1, (n - 1) as nat);
                    lemma_pow256_mono((n - 1) as nat, 15);
                    assert(pow256(15) == 0x1000000000000000000000000000000) by {
                        reveal_with_fuel(pow256, 16);
                    }
                }
                let v: u128 = b as u128 + 256 * hi;
                Some((v, end))
            },
            None => None,
        }
    } else {
        None
    }
}

/// Compact encoding of a `u32` length or count: the two low bits of the
/// first byte select the width (one, two or four bytes, or a marker byte
/// followed by four value bytes), the remaining bits carry the value.
pub open spec fn spec_compact_u32(v: u32) -> Seq<u8> {
    if v < 64 {
        seq![(v * 4) as u8]
    } else if v < 16384 {
        le_bytes((4 * v + 1) as nat, 2)
    } else if v < 0x40000000 {
        le_bytes((4 * v + 2) as nat, 4)
    } else {
        seq![3u8] + le_bytes(v as nat, 4)
    }
}

/// Reading one compact-encoded `u32` from `s` at `pos`: the value and the
/// position after it, or `None` on a truncated or non-canonical prefix.
pub open spec fn spec_decode_compact_u32(s: Seq<u8>, pos: int) -> Option<(u32, int)> {
    if 0 <= pos < s.len() {
        let b0 = s[pos];
        if b0 % 4 == 0 {
            Some(((b0 / 4) as u32, pos + 1))
        } else if b0 % 4 == 1 {
            match spec_decode_le(s, pos, 2) {
                Some(x) => if x.0 / 4 >= 64 {
                    Some(((x.0 / 4) as u32, x.1))
                } else {
                    None
                },
                None => None,
            }
        } else if b0 % 4 == 2 {
            match spec_decode_le(s, pos, 4) {
                Some(x) => if x.0 / 4 >= 16384 {
                    Some(((x.0 / 4) as u32, x.1))
                } else {
                    None
                },
                None => None,
            }
        } else if b0 == 3 {
            match spec_decode_le(s, pos + 1, 4) {
                Some(x) => if x.0 >= 0x40000000 {
                    Some((x.0 as u32, x.1))
                } else {
                    None
                },
                None => None,
            }
        } else {
            None
        }
    } else {
        None
    }
}

/// Append the compact encoding of `v` to `out`.
pub fn encode_compact_u32(v: u32, out: &mut Vec<u8>)
    ensures
        final(out)@ == old(out)@ + spec_compact_u32(v),
{
    if v < 64 {
        out.push((v * 4) as u8);
        assert(out@ =~= old(out)@ + spec_compact_u32(v));
    } else if v < 16384 {
        encode_le(4 * (v as u128) + 1, 2, out);
    } else if v < 0x40000000 {
        encode_le(4 * (v as u128) + 2, 4, out);
    } else {
        out.push(3u8);
        encode_le(v as u128, 4, out);
        assert(out@ =~= old(out)@ + spec_compact_u32(v));
    }
}

/// Read one compact-encoded `u32` from `buf` at `pos`.
pub fn decode_compact_u32(buf: &Vec<u8>, pos: usize) -> (r: Option<(u32, usize)>)
    ensures
        match r {
            Some(vp) => spec_decode_compact_u32(buf@, pos as int) == Some((vp.0, vp.1 as int)),
            None => spec_decode_compact_u32(buf@, pos as int) is None,
        },
{
    if pos >= buf.len() {
        return None;
    }
    let b0: u8 = buf[pos];
    let tag: u8 = b0 % 4;
    if tag == 0 {
        Some((b0 as u32 / 4, pos + 1))
    } else if tag == 1 {
        match decode_le(buf, pos, 2) {
            Some((x, end)) => {
                proof {
                    lemma_decode_le_bound(buf@, pos as int, 2);
                    assert(pow256(2) == 65536) by {
                        reveal_with_fuel(pow256, 3);
                    }
                }
                if x / 4 >= 64 {
                    Some(((x / 4) as u32, end))
                } else {
                    None
                }
            },
            None => None,
        }
    } else if tag == 2 {
        match decode_le(buf, pos, 4) {
            Some((x, end)) => {
                proof {
                    lemma_decode_le_bound(buf@, pos as int, 4);
                    assert(pow256(4) == 0x100000000) by {
                        reveal_with_fuel(pow256, 5);
                    }
                }
                if x / 4 >= 16384 {
                    Some(((x / 4) as u32, end))
                } else {
                    None
                }
            },
            None => None,
        }
    } else if b0 == 3 {
        match decode_le(buf, pos + 1, 4) {
            Some((x, end)) => {
                proof {
                    lemma_decode_le_bound(buf@, pos as int + 1, 4);
                    assert(pow256(4) == 0x100000000) by {
                        reveal_with_fuel(pow256, 5);
                    }
                }
                if x >= 0x40000000 {
                    Some((x as u32, end))
                } else {
                    None
                }
            },
            None => None,
        }
    } else {
        None
    }
}

/// Decoding the compact encoding of `v` recovers `v` exactly.
pub proof fn lemma_decode_compact_of_encode(s: Seq<u8>, pos: int, v: u32)
    requires
        0 <= pos,
        pos + spec_compact_u32(v).len() <= s.len(),
        s.subrange(pos, pos + spec_compact_u32(v).len() as int) == spec_compact_u32(v),
    ensures
        spec_decode_compact_u32(s, pos) == Some((v, pos + spec_compact_u32(v).len())),
{
    let enc = spec_compact_u32(v);
    if v < 64 {
        assert(s[pos] == enc[0]);
        assert(s[pos] == (v * 4) as u8);
        assert((v * 4) % 256 == v * 4);
        assert(s[pos] % 4 == 0 && s[pos] / 4 == v);
    } else if v < 16384 {
        let x: nat = (4 * v + 1) as nat;
        lemma_le_bytes_len(x, 2);
        assert(pow256(2) == 65536) by {
            reveal_with_fuel(pow256, 3);
        }
        lemma_decode_le_of_encode(s, pos, x, 2);
        assert(s[pos] == enc[0]);
        assert(enc[0] == (x % 256) as u8);
        vstd::arithmetic::div_mod::lemma_mod_mod(x as int, 4, 64);
        assert(s[pos] % 4 == 1);
        assert(x / 4 == v && x % 4 == 1);
    } else if v < 0x40000000 {
        let x: nat = (4 * v + 2) as nat;
        lemma_le_bytes_len(x, 4);
        assert(pow256(4) == 0x100000000) by {
            reveal_with_fuel(pow256, 5);
        }
        lemma_decode_le_of_encode(s, pos, x, 4);
        assert(s[pos] == enc[0]);
        assert(enc[0] == (x % 256) as u8);
        vstd::arithmetic::div_mod::lemma_mod_mod(x as int, 4, 64);
        assert(s[pos] % 4 == 2);
        assert(x / 4 == v && x % 4 == 2);
    } else {
        lemma_le_bytes_len(v as nat, 4);
        assert(pow256(4) == 0x100000000) by {
            reveal_with_fuel(pow256, 5);
        }
        assert(s[pos] == enc[0]);
        assert(s[pos] == 3u8);
        assert(s.subrange(pos + 1, pos + 5) =~= le_bytes(v as nat, 4)) by {
            assert forall|i: int| 0 <= i < 4 implies #[trigger] s.subrange(pos + 1, pos + 5)[i]
                == le_bytes(v as nat, 4)[i] by {
                assert(s.subrange(pos + 1, pos + 5)[i] == s.subrange(pos, pos + 5)[i + 1]);
                assert(enc[i + 1] == le_bytes(v as nat, 4)[i]);
            }
        }
        lemma_decode_le_of_encode(s, pos + 1, v as nat, 4);
    }
}

/// Append every byte of `bytes` to `out`.
pub fn push_bytes(out: &mut Vec<u8>, bytes: &[u8])
    ensures
        final(out)@ == old(out)@ + bytes@,
{
    let n: usize = bytes.len();
    let mut i: usize = 0;
    while i < n
        invariant
            i <= n,
            n == bytes@.len(),
            out@ == old(out)@ + bytes@.subrange(0, i as int),
        decreases n - i,
    {
        out.push(bytes[i]);
        assert(out@ =~= old(out)@ + bytes@.subrange(0, i + 1));
        i += 1;
    }
    assert(out@ =~= old(out)@ + bytes@);
}

/// Relies on `String::from_utf8`: it succeeds exactly on valid UTF-8 input
/// and returns the string read from those bytes.
#[verifier::external_body]
fn string_from_utf8(v: Vec<u8>) -> (r: Option<String>)
    ensures
        match r {
            Some(s) => valid_utf8(v@) && s@ == decode_utf8(v@),
            None => !valid_utf8(v@),
        },
{
    String::from_utf8(v).ok()
}

/// The wire form of a string: a compact byte-length prefix, then its UTF-8
/// bytes.
pub open spec fn spec_encode_string(s: Seq<char>) -> Seq<u8> {
    spec_compact_u32(encode_utf8(s).len() as u32) + encode_utf8(s)
}

/// A string is encodable when its byte length fits the length prefix.
pub open spec fn string_len_ok(s: Seq<char>) -> bool {
    encode_utf8(s).len() <= 0xFFFFFFFF
}

/// Reading one length-prefixed string from `s` at `pos`.
pub open spec fn spec_decode_string(s: Seq<u8>, pos: int) -> Option<(Seq<char>, int)> {
    match spec_decode_compact_u32(s, pos) {
        Some(l) => {
            let n = l.0 as int;
            if l.1 + n <= s.len() {
                let bytes = s.subrange(l.1, l.1 + n);
                if valid_utf8(bytes) {
                    Some((decode_utf8(bytes), l.1 + n))
                } else {
                    None
                }
            } else {
                None
            }
        },
        None => None,
    }
}

/// Append the wire form of `s` to `out`.
pub fn encode_string(s: &String, out: &mut Vec<u8>)
    requires
        string_len_ok(s@),
    ensures
        final(out)@ == old(out)@ + spec_encode_string(s@),
{
    let bytes: &[u8] = s.as_str().as_bytes();
    let n: usize = bytes.len();
    encode_compact_u32(n as u32, out);
    push_bytes(out, bytes);
    assert(out@ =~= old(out)@ + spec_encode_string(s@));
}

/// Read one length-prefixed string from `buf` at `pos`.
pub fn decode_string(buf: &Vec<u8>, pos: usize) -> (r: Option<(String, usize)>)
    ensures
        match r {
            Some(sp) => spec_decode_string(buf@, pos as int) == Some((sp.0@, sp.1 as int)),
            None => spec_decode_string(buf@, pos as int) is None,
        },
{
    match decode_compact_u32(buf, pos) {
        Some((n32, p1)) => {
            let n: usize = n32 as usize;
            let buflen: usize = buf.len();
            if n <= buflen && p1 <= buflen - n {
                let mut bytes: Vec<u8> = Vec::new();
                let mut i: usize = 0;
                while i < n
                    invariant
                        i <= n,
                        p1 + n <= buflen,
                        buflen == buf@.len(),
                        bytes@ == buf@.subrange(p1 as int, p1 + i),
                    decreases n - i,
                {
                    bytes.push(buf[p1 + i]);
                    assert(bytes@ =~= buf@.subrange(p1 as int, p1 + i + 1));
                    i += 1;
                }
                match string_from_utf8(bytes) {
                    Some(st) => Some((st, p1 + n)),
                    None => None,
                }
            } else {
                None
            }
        },
        None => None,
    }
}

/// The wire form of a call: one discriminant byte selecting the module, one
/// selecting that module's call, then the call's fields in order.
pub open spec fn spec_encode_call(c: CallView) -> Seq<u8> {
    match c {
        CallView::Transfer { to, amount } => seq![0u8, 0u8] + to + le_bytes(amount as nat, 16),
        CallView::CreateClaim { claim } => seq![1u8, 0u8] + spec_encode_string(claim),
        CallView::RevokeClaim { claim } => seq![1u8, 1u8] + spec_encode_string(claim),
    }
}

/// A call value that can appear on the wire: account fields are 32 bytes and
/// string fields fit their length prefix.  Calls built from executable values
/// always satisfy this, except for a claim string longer than `u32::MAX`
/// bytes.
pub open spec fn spec_call_ok(c: CallView) -> bool {
    match c {
        CallView::Transfer { to, amount } => to.len() == 32,
        CallView::CreateClaim { claim } => string_len_ok(claim),
        CallView::RevokeClaim { claim } => string_len_ok(claim),
    }
}

/// Reading one call from `s` at `pos`.
pub open spec fn spec_decode_call(s: Seq<u8>, pos: int) -> Option<(CallView, int)> {
    if 0 <= pos && pos + 2 <= s.len() {
        let t1 = s[pos];
        let t2 = s[pos + 1];
        if t1 == 0 && t2 == 0 {
            if pos + 2 + 32 <= s.len() {
                let to = s.subrange(pos + 2, pos + 2 + 32);
                match spec_decode_le(s, pos + 2 + 32, 16) {
                    Some(a) => Some((CallView::Transfer { to, amount: a.0 as u128 }, a.1)),
                    None => None,
                }
            } else {
                None
            }
        } else if t1 == 1 && (t2 == 0 || t2 == 1) {
            match spec_decode_string(s, pos + 2) {
                Some(c) => if t2 == 0 {
                    Some((CallView::CreateClaim { claim: c.0 }, c.1))
                } else {
                    Some((CallView::RevokeClaim { claim: c.0 }, c.1))
                },
                None => None,
            }
        } else {
            None
        }
    } else {
        None
    }
}

/// Append the wire form of `c` to `out`.
pub fn encode_call(c: &RuntimeCall, out: &mut Vec<u8>)
    requires
        spec_call_ok(c@),
    ensures
        final(out)@ == old(out)@ + spec_encode_call(c@),
{
    match c {
        RuntimeCall::balances(balances::Call::transfer { to, amount }) => {
            out.push(0u8);
            out.push(0u8);
            push_bytes(out, to.as_bytes().as_slice());
            encode_le(*amount, 16, out);
            assert(out@ =~= old(out)@ + spec_encode_call(c@));
        },
        RuntimeCall::proof_of_existence(proof_of_existence::Call::create_claim { claim }) => {
            out.push(1u8);
            out.push(0u8);
            encode_string(claim, out);
            assert(out@ =~= old(out)@ + spec_encode_call(c@));
        },
        RuntimeCall::proof_of_existence(proof_of_existence::Call::revoke_claim { claim }) => {
            out.push(1u8);
            out.push(1u8);
            encode_string(claim, out);
            assert(out@ =~= old(out)@ + spec_encode_call(c@));
        },
    }
}

/// Copy 32 bytes out of `buf` starting at `pos`.
pub fn read_bytes32(buf: &Vec<u8>, pos: usize) -> (r: Option<([u8; 32], usize)>)
    ensures
        match r {
            Some(ap) => pos + 32 <= buf@.len() && ap.0@ == buf@.subrange(pos as int, pos + 32)
                && ap.1 == pos + 32,
            None => pos + 32 > buf@.len(),
        },
{
    let buflen: usize = buf.len();
    if buflen >= 32 && pos <= buflen - 32 {
        let mut arr: [u8; 32] = [0u8; 32];
        let mut i: usize = 0;
        while i < 32
            invariant
                i <= 32,
                pos + 32 <= buflen,
                buflen == buf@.len(),
                forall|j: int| 0 <= j < i ==> arr@[j] == buf@[pos + j],
            decreases 32 - i,
        {
            arr[i] = buf[pos + i];
            i += 1;
        }
        assert(arr@ =~= buf@.subrange(pos as int, pos + 32));
        Some((arr, pos + 32))
    } else {
        None
    }
}

/// Read one call from `buf` at `pos`.
pub fn decode_call(buf: &Vec<u8>, pos: usize) -> (r: Option<(RuntimeCall, usize)>)
    ensures
        match r {
            Some(cp) => spec_decode_call(buf@, pos as int) == Some((cp.0@, cp.1 as int)),
            None => spec_decode_call(buf@, pos as int) is None,
        },
{
    if buf.len() < 2 || pos > buf.len() - 2 {
        return None;
    }
    let t1: u8 = buf[pos];
    let t2: u8 = buf[pos + 1];
    if t1 == 0 && t2 == 0 {
        match read_bytes32(buf, pos + 2) {
            Some((to, p1)) => {
                match decode_le(buf, p1, 16) {
                    Some((amount, p2)) => {
                        proof {
                            lemma_decode_le_bound(buf@, p1 as int, 16);
                            lemma_pow256_mono(16, 16);
                        }
                        Some((
                            RuntimeCall::balances(
                                balances::Call::transfer { to: AccountId32(to), amount },
                            ),
                            p2,
                        ))
                    },
                    None => None,
                }
            },
            None => None,
        }
    } else if t1 == 1 && (t2 == 0 || t2 == 1) {
        match decode_string(buf, pos + 2) {
            Some((claim, p1)) => {
                if t2 == 0 {
                    Some((
                        RuntimeCall::proof_of_existence(
                            proof_of_existence::Call::create_claim { claim },
                        ),
                        p1,
                    ))
                } else {
                    Some((
                        RuntimeCall::proof_of_existence(
                            proof_of_existence::Call::revoke_claim { claim },
                        ),
                        p1,
                    ))
                }
            },
            None => None,
        }
    } else {
        None
    }
}

/// The payload an extrinsic's signature is computed over: the encoding of
/// the tuple `(signer bytes, nonce, call)`.
pub open spec fn spec_signing_payload(signer: Seq<u8>, nonce: u32, call: CallView) -> Seq<u8> {
    signer + le_bytes(nonce as nat, 4) + spec_encode_call(call)
}

/// Build the signing payload for `(signer, nonce, call)`.
pub fn encode_signing_payload(signer: &AccountId32, nonce: u32, call: &RuntimeCall) -> (r: Vec<
    u8,
>)
    requires
        spec_call_ok(call@),
    ensures
        r@ == spec_signing_payload(signer@, nonce, call@),
{
    let mut out: Vec<u8> = Vec::new();
    push_bytes(&mut out, signer.as_bytes().as_slice());
    encode_le(nonce as u128, 4, &mut out);
    encode_call(call, &mut out);
    assert(out@ =~= spec_signing_payload(signer@, nonce, call@));
    out
}

/// The wire form of an extrinsic: signer, signature, nonce, call.
pub open spec fn spec_encode_extrinsic(e: crate::extrinsic::ExtrinsicView) -> Seq<u8> {
    e.signer + e.signature + le_bytes(e.nonce as nat, 4) + spec_encode_call(e.call)
}

/// An extrinsic value that can appear on the wire.
pub open spec fn spec_extrinsic_ok(e: crate::extrinsic::ExtrinsicView) -> bool {
    e.signer.len() == 32 && e.signature.len() == 64 && spec_call_ok(e.call)
}

/// Reading one extrinsic from `s` at `pos`.
pub open spec fn spec_decode_extrinsic(s: Seq<u8>, pos: int) -> Option<
    (crate::extrinsic::ExtrinsicView, int),
> {
    if 0 <= pos && pos + 96 <= s.len() {
        let signer = s.subrange(pos, pos + 32);
        let signature = s.subrange(pos + 32, pos + 96);
        match spec_decode_le(s, pos + 96, 4) {
            Some(n) => match spec_decode_call(s, n.1) {
                Some(c) => Some(
                    (
                        crate::extrinsic::ExtrinsicView {
                            signer,
                            signature,
                            nonce: n.0 as u32,
                            call: c.0,
                        },
                        c.1,
                    ),
                ),
                None => None,
            },
            None => None,
        }
    } else {
        None
    }
}

/// Append the wire form of `e` to `out`.
pub fn encode_extrinsic(e: &crate::extrinsic::UncheckedExtrinsic, out: &mut Vec<u8>)
    requires
        spec_call_ok(e.call@),
    ensures
        final(out)@ == old(out)@ + spec_encode_extrinsic(e@),
{
    push_bytes(out, e.signer.as_bytes().as_slice());
    push_bytes(out, e.signature.as_slice());
    encode_le(e.nonce as u128, 4, out);
    encode_call(&e.call, out);
    assert(out@ =~= old(out)@ + spec_encode_extrinsic(e@));
}

/// Copy 64 bytes out of `buf` starting at `pos`.
fn read_bytes64(buf: &Vec<u8>, pos: usize) -> (r: Option<([u8; 64], usize)>)
    ensures
        match r {
            Some(ap) => pos + 64 <= buf@.len() && ap.0@ == buf@.subrange(pos as int, pos + 64)
                && ap.1 == pos + 64,
            None => pos + 64 > buf@.len(),
        },
{
    let buflen: usize = buf.len();
    if buflen >= 64 && pos <= buflen - 64 {
        let mut arr: [u8; 64] = [0u8; 64];
        let mut i: usize = 0;
        while i < 64
            invariant
                i <= 64,
                pos + 64 <= buflen,
                buflen == buf@.len(),
                forall|j: int| 0 <= j < i ==> arr@[j] == buf@[pos + j],
            decreases 64 - i,
        {
            arr[i] = buf[pos + i];
            i += 1;
        }
        assert(arr@ =~= buf@.subrange(pos as int, pos + 64));
        Some((arr, pos + 64))
    } else {
        None
    }
}

/// Read one extrinsic from `buf` at `pos`.
pub fn decode_extrinsic(buf: &Vec<u8>, pos: usize) -> (r: Option<
    (crate::extrinsic::UncheckedExtrinsic, usize),
>)
    ensures
        match r {
            Some(ep) => spec_decode_extrinsic(buf@, pos as int) == Some((ep.0@, ep.1 as int)),
            None => spec_decode_extrinsic(buf@, pos as int) is None,
        },
{
    match read_bytes32(buf, pos) {
        Some((signer, p1)) => {
            match read_bytes64(buf, p1) {
                Some((signature, p2)) => {
                    match decode_le(buf, p2, 4) {
                        Some((nonce, p3)) => {
                            proof {
                                lemma_decode_le_bound(buf@, p2 as int, 4);
                                assert(pow256(4) == 0x100000000) by {
                                    reveal_with_fuel(pow256, 5);
                                }
                            }
                            match decode_call(buf, p3) {
                                Some((call, p4)) => Some(
                                    (
                                        crate::extrinsic::UncheckedExtrinsic {
                                            signer: AccountId32(signer),
                                            signature,
                                            nonce: nonce as u32,
                                            call,
                                        },
                                        p4,
                                    ),
                                ),
                                None => None,
                            }
                        },
                        None => None,
                    }
                },
                None => None,
            }
        },
        None => None,
    }
}

/// The concatenated wire forms of a sequence of extrinsics.
pub open spec fn spec_encode_extrinsics(exts: Seq<crate::extrinsic::ExtrinsicView>) -> Seq<u8>
    decreases exts.len(),
{
    if exts.len() == 0 {
        Seq::empty()
    } else {
        spec_encode_extrinsic(exts[0]) + spec_encode_extrinsics(exts.skip(1))
    }
}

/// Reading `count` consecutive extrinsics from `s` at `pos`.
pub open spec fn spec_decode_extrinsics(s: Seq<u8>, pos: int, count: nat) -> Option<
    (Seq<crate::extrinsic::ExtrinsicView>, int),
>
    decreases count,
{
    if count == 0 {
        Some((Seq::empty(), pos))
    } else {
        match spec_decode_extrinsic(s, pos) {
            Some(e) => match spec_decode_extrinsics(s, e.1, (count - 1) as nat) {
                Some(t) => Some((seq![e.0] + t.0, t.1)),
                None => None,
            },
            None => None,
        }
    }
}

/// The wire form of a block: the header's block number, a compact count of
/// extrinsics, then the extrinsics in order.
pub open spec fn spec_encode_block(b: crate::extrinsic::BlockView) -> Seq<u8> {
    le_bytes(b.block_number as nat, 4) + spec_compact_u32(b.extrinsics.len() as u32)
        + spec_encode_extrinsics(b.extrinsics)
}

/// A block value that can appear on the wire.
pub open spec fn spec_block_ok(b: crate::extrinsic::BlockView) -> bool {
    b.extrinsics.len() <= 0xFFFFFFFF && forall|i: int|
        0 <= i < b.extrinsics.len() ==> spec_extrinsic_ok(#[trigger] b.extrinsics[i])
}

/// Reading one block from `s` at `pos`.
pub open spec fn spec_decode_block(s: Seq<u8>, pos: int) -> Option<
    (crate::extrinsic::BlockView, int),
> {
    match spec_decode_le(s, pos, 4) {
        Some(n) => match spec_decode_compact_u32(s, n.1) {
            Some(c) => match spec_decode_extrinsics(s, c.1, c.0 as nat) {
                Some(e) => Some(
                    (
                        crate::extrinsic::BlockView {
                            block_number: n.0 as u32,
                            extrinsics: e.0,
                        },
                        e.1,
                    ),
                ),
                None => None,
            },
            None => None,
        },
        None => None,
    }
}

/// Encode `b` into a fresh byte vector.
pub fn encode_block(b: &crate::extrinsic::Block) -> (r: Vec<u8>)
    requires
        spec_block_ok(b@),
    ensures
        r@ == spec_encode_block(b@),
{
    let mut out: Vec<u8> = Vec::new();
    encode_le(b.header.block_number as u128, 4, &mut out);
    let count: usize = b.extrinsics.len();
    encode_compact_u32(count as u32, &mut out);
    let mut i: usize = 0;
    while i < count
        invariant
            i <= count,
            count == b.extrinsics@.len(),
            spec_block_ok(b@),
            out@ == le_bytes(b@.block_number as nat, 4) + spec_compact_u32(
                b@.extrinsics.len() as u32,
            ) + spec_encode_extrinsics(b@.extrinsics.take(i as int)),
        decreases count - i,
    {
        assert(b.extrinsics@[i as int]@ == b@.extrinsics[i as int]);
        encode_extrinsic(&b.extrinsics[i], &mut out);
        proof {
            lemma_encode_extrinsics_snoc(b@.extrinsics, i as int);
        }
        i += 1;
    }
    assert(b@.extrinsics.take(count as int) =~= b@.extrinsics);
    out
}

/// Splitting the last element off an encoded prefix of a sequence.
proof fn lemma_encode_extrinsics_snoc(exts: Seq<crate::extrinsic::ExtrinsicView>, i: int)
    requires
        0 <= i < exts.len(),
    ensures
        spec_encode_extrinsics(exts.take(i + 1)) == spec_encode_extrinsics(exts.take(i))
            + spec_encode_extrinsic(exts[i]),
    decreases i,
{
    if i == 0 {
        assert(exts.take(1) =~= seq![exts[0]]);
        assert(exts.take(0) =~= Seq::<crate::extrinsic::ExtrinsicView>::empty());
        assert(seq![exts[0]].skip(1) =~= Seq::<crate::extrinsic::ExtrinsicView>::empty());
        assert(seq![exts[0]][0] == exts[0]);
        assert(spec_encode_extrinsics(Seq::<crate::extrinsic::ExtrinsicView>::empty())
            == Seq::<u8>::empty());
        assert(spec_encode_extrinsic(exts[0]) + Seq::<u8>::empty() =~= spec_encode_extrinsic(
            exts[0],
        ));
        assert(Seq::<u8>::empty() + spec_encode_extrinsic(exts[0]) =~= spec_encode_extrinsic(
            exts[0],
        ));
    } else {
        lemma_encode_extrinsics_snoc(exts.skip(1), i - 1);
        assert(exts.take(i + 1).skip(1) =~= exts.skip(1).take(i));
        assert(exts.take(i).skip(1) =~= exts.skip(1).take(i - 1));
        assert(exts.take(i + 1)[0] == exts[0]);
        assert(exts.take(i)[0] == exts[0]);
        assert(exts.skip(1)[i - 1] == exts[i]);
        assert(spec_encode_extrinsics(exts.take(i + 1)) == spec_encode_extrinsic(exts[0])
            + spec_encode_extrinsics(exts.skip(1).take(i)));
        assert(spec_encode_extrinsics(exts.take(i)) == spec_encode_extrinsic(exts[0])
            + spec_encode_extrinsics(exts.skip(1).take(i - 1)));
        assert((spec_encode_extrinsic(exts[0]) + (spec_encode_extrinsics(exts.skip(1).take(i - 1))
            + spec_encode_extrinsic(exts[i]))) =~= (spec_encode_extrinsic(exts[0])
            + spec_encode_extrinsics(exts.skip(1).take(i - 1))) + spec_encode_extrinsic(exts[i]));
    }
}

/// Read one block from `buf` starting at position 0.  Trailing bytes after
/// the block are ignored, as the wire format allows.
#[verifier::loop_isolation(false)]
pub fn decode_block(buf: &Vec<u8>) -> (r: Option<crate::extrinsic::Block>)
    ensures
        match r {
            Some(b) => spec_decode_block(buf@, 0) is Some && (spec_decode_block(
                buf@,
                0,
            )->Some_0).0 == b@,
            None => spec_decode_block(buf@, 0) is None,
        },
{
    let (n, p1) = match decode_le(buf, 0, 4) {
        Some(x) => x,
        None => {
            return None;
        },
    };
    proof {
        lemma_decode_le_bound(buf@, 0, 4);
        assert(pow256(4) == 0x100000000) by {
            reveal_with_fuel(pow256, 5);
        }
    }
    let bn: u32 = n as u32;
    let (count, p2) = match decode_compact_u32(buf, p1) {
        Some(x) => x,
        None => {
            return None;
        },
    };
    let mut exts: Vec<crate::extrinsic::UncheckedExtrinsic> = Vec::new();
    let mut pos: usize = p2;
    let mut remaining: u32 = count;
    while remaining > 0
        invariant
            spec_decode_extrinsics(buf@, p2 as int, count as nat) == match spec_decode_extrinsics(
                buf@,
                pos as int,
                remaining as nat,
            ) {
                Some(t) => Some((exts.deep_view() + t.0, t.1)),
                None => None::<(Seq<crate::extrinsic::ExtrinsicView>, int)>,
            },
        decreases remaining,
    {
        match decode_extrinsic(buf, pos) {
            Some((e, p)) => {
                proof {
                    let tail = spec_decode_extrinsics(buf@, p as int, (remaining - 1) as nat);
                    if tail is Some {
                        let t = tail.unwrap();
                        assert(exts.deep_view() + (seq![e@] + t.0) =~= exts.deep_view().push(e@)
                            + t.0);
                    }
                }
                exts.push(e);
                pos = p;
                remaining = remaining - 1;
            },
            None => {
                assert(spec_decode_extrinsics(buf@, pos as int, remaining as nat) is None);
                assert(spec_decode_block(buf@, 0) is None);
                return None;
            },
        }
    }
    proof {
        assert(spec_decode_extrinsics(buf@, pos as int, 0) == Some(
            (Seq::<crate::extrinsic::ExtrinsicView>::empty(), pos as int),
        ));
        assert(exts.deep_view() + Seq::<crate::extrinsic::ExtrinsicView>::empty()
            =~= exts.deep_view());
    }
    let b = crate::extrinsic::Block {
        header: crate::extrinsic::Header { block_number: bn },
        extrinsics: exts,
    };
    proof {
        assert(spec_decode_block(buf@, 0) == Some((b@, pos as int)));
    }
    Some(b)
}

/// A successful compact read starts in range and ends within the sequence.
pub proof fn lemma_decode_compact_bound(s: Seq<u8>, pos: int)
    ensures
        match spec_decode_compact_u32(s, pos) {
            Some(r) => 0 <= pos && pos < r.1 && r.1 <= s.len(),
            None => true,
        },
{
    if 0 <= pos < s.len() {
        let b0 = s[pos];
        if b0 % 4 == 0 {
        } else if b0 % 4 == 1 {
            lemma_decode_le_bound(s, pos, 2);
        } else if b0 % 4 == 2 {
            lemma_decode_le_bound(s, pos, 4);
        } else if b0 == 3 {
            lemma_decode_le_bound(s, pos + 1, 4);
        }
    }
}

/// A window of `s` equal to `a + b` splits into two adjacent windows.
pub proof fn lemma_split_concat(s: Seq<u8>, pos: int, a: Seq<u8>, b: Seq<u8>)
    requires
        0 <= pos,
        pos + a.len() + b.len() <= s.len(),
        s.subrange(pos, pos + a.len() + b.len()) == a + b,
    ensures
        s.subrange(pos, pos + a.len()) == a,
        s.subrange(pos + a.len(), pos + a.len() + b.len()) == b,
{
    assert(s.subrange(pos, pos + a.len()) =~= a) by {
        assert forall|i: int| 0 <= i < a.len() implies #[trigger] s.subrange(pos, pos + a.len())[i]
            == a[i] by {
            assert(s.subrange(pos, pos + a.len() + b.len())[i] == (a + b)[i]);
        }
    }
    assert(s.subrange(pos + a.len(), pos + a.len() + b.len()) =~= b) by {
        assert forall|i: int| 0 <= i < b.len() implies #[trigger] s.subrange(
            pos + a.len(),
            pos + a.len() + b.len(),
        )[i] == b[i] by {
            assert(s.subrange(pos + a.len(), pos + a.len() + b.len())[i] == s[pos + a.len() + i]);
            assert(s.subrange(pos, pos + a.len() + b.len())[a.len() + i] == s[pos + a.len() + i]);
            assert((a + b)[a.len() + i] == b[i]);
        }
    }
}

/// Decoding the wire form of a string recovers it exactly.
pub proof fn lemma_decode_string_of_encode(s: Seq<u8>, pos: int, v: Seq<char>)
    requires
        string_len_ok(v),
        0 <= pos,
        pos + spec_encode_string(v).len() <= s.len(),
        s.subrange(pos, pos + spec_encode_string(v).len() as int) == spec_encode_string(v),
    ensures
        spec_decode_string(s, pos) == Some((v, pos + spec_encode_string(v).len())),
{
    let bytes = encode_utf8(v);
    let lenpart = spec_compact_u32(bytes.len() as u32);
    lemma_split_concat(s, pos, lenpart, bytes);
    lemma_decode_compact_of_encode(s, pos, bytes.len() as u32);
    vstd::utf8::encode_utf8_valid_utf8(v);
    vstd::utf8::encode_utf8_decode_utf8(v);
}

/// Decoding the wire form of a call recovers it exactly.
pub proof fn lemma_decode_call_of_encode(s: Seq<u8>, pos: int, c: CallView)
    requires
        spec_call_ok(c),
        0 <= pos,
        pos + spec_encode_call(c).len() <= s.len(),
        s.subrange(pos, pos + spec_encode_call(c).len() as int) == spec_encode_call(c),
    ensures
        spec_decode_call(s, pos) == Some((c, pos + spec_encode_call(c).len())),
{
    match c {
        CallView::Transfer { to, amount } => {
            let tag = seq![0u8, 0u8];
            let amt = le_bytes(amount as nat, 16);
            lemma_le_bytes_len(amount as nat, 16);
            assert(spec_encode_call(c) =~= tag + (to + amt));
            lemma_split_concat(s, pos, tag, to + amt);
            lemma_split_concat(s, pos + 2, to, amt);
            assert(s[pos] == tag[0] && s[pos + 1] == tag[1]) by {
                assert(s.subrange(pos, pos + 2)[0] == tag[0]);
                assert(s.subrange(pos, pos + 2)[1] == tag[1]);
            }
            assert(s.subrange(pos + 2, pos + 2 + 32) == to);
            assert(pow256(16) == 0x100000000000000000000000000000000) by {
                reveal_with_fuel(pow256, 17);
            }
            lemma_decode_le_of_encode(s, pos + 34, amount as nat, 16);
        },
        CallView::CreateClaim { claim } => {
            let tag = seq![1u8, 0u8];
            let body = spec_encode_string(claim);
            assert(spec_encode_call(c) =~= tag + body);
            lemma_split_concat(s, pos, tag, body);
            assert(s[pos] == tag[0] && s[pos + 1] == tag[1]) by {
                assert(s.subrange(pos, pos + 2)[0] == tag[0]);
                assert(s.subrange(pos, pos + 2)[1] == tag[1]);
            }
            lemma_decode_string_of_encode(s, pos + 2, claim);
        },
        CallView::RevokeClaim { claim } => {
            let tag = seq![1u8, 1u8];
            let body = spec_encode_string(claim);
            assert(spec_encode_call(c) =~= tag + body);
            lemma_split_concat(s, pos, tag, body);
            assert(s[pos] == tag[0] && s[pos + 1] == tag[1]) by {
                assert(s.subrange(pos, pos + 2)[0] == tag[0]);
                assert(s.subrange(pos, pos + 2)[1] == tag[1]);
            }
            lemma_decode_string_of_encode(s, pos + 2, claim);
        },
    }
}

/// Decoding the wire form of an extrinsic recovers it exactly.
pub proof fn lemma_decode_extrinsic_of_encode(s: Seq<u8>, pos: int, e: crate::extrinsic::ExtrinsicView)
    requires
        spec_extrinsic_ok(e),
        0 <= pos,
        pos + spec_encode_extrinsic(e).len() <= s.len(),
        s.subrange(pos, pos + spec_encode_extrinsic(e).len() as int) == spec_encode_extrinsic(e),
    ensures
        spec_decode_extrinsic(s, pos) == Some((e, pos + spec_encode_extrinsic(e).len())),
{
    let noncepart = le_bytes(e.nonce as nat, 4);
    let callpart = spec_encode_call(e.call);
    lemma_le_bytes_len(e.nonce as nat, 4);
    assert(spec_encode_extrinsic(e) =~= e.signer + (e.signature + (noncepart + callpart)));
    lemma_split_concat(s, pos, e.signer, e.signature + (noncepart + callpart));
    lemma_split_concat(s, pos + 32, e.signature, noncepart + callpart);
    lemma_split_concat(s, pos + 96, noncepart, callpart);
    assert(pow256(4) == 0x100000000) by {
        reveal_with_fuel(pow256, 5);
    }
    lemma_decode_le_of_encode(s, pos + 96, e.nonce as nat, 4);
    lemma_decode_call_of_encode(s, pos + 100, e.call);
    assert(s.subrange(pos, pos + 32) == e.signer);
    assert(s.subrange(pos + 32, pos + 96) == e.signature);
}

/// Decoding `count` encoded extrinsics recovers them exactly.
pub proof fn lemma_decode_extrinsics_of_encode(
    s: Seq<u8>,
    pos: int,
    exts: Seq<crate::extrinsic::ExtrinsicView>,
)
    requires
        forall|i: int| 0 <= i < exts.len() ==> spec_extrinsic_ok(#[trigger] exts[i]),
        0 <= pos,
        pos + spec_encode_extrinsics(exts).len() <= s.len(),
        s.subrange(pos, pos + spec_encode_extrinsics(exts).len() as int) == spec_encode_extrinsics(
            exts,
        ),
    ensures
        spec_decode_extrinsics(s, pos, exts.len()) == Some(
            (exts, pos + spec_encode_extrinsics(exts).len()),
        ),
    decreases exts.len(),
{
    if exts.len() == 0 {
        assert(exts =~= Seq::<crate::extrinsic::ExtrinsicView>::empty());
    } else {
        let head = spec_encode_extrinsic(exts[0]);
        let tail = spec_encode_extrinsics(exts.skip(1));
        lemma_split_concat(s, pos, head, tail);
        lemma_decode_extrinsic_of_encode(s, pos, exts[0]);
        assert(forall|i: int|
            0 <= i < exts.skip(1).len() ==> spec_extrinsic_ok(#[trigger] exts.skip(1)[i]));
        lemma_decode_extrinsics_of_encode(s, pos + head.len(), exts.skip(1));
        assert(seq![exts[0]] + exts.skip(1) =~= exts);
    }
}

/// The round trip at block level: decoding an encoded block, with any bytes
/// after it, returns the block unchanged.
pub proof fn lemma_decode_block_of_encode(s: Seq<u8>, b: crate::extrinsic::BlockView)
    requires
        spec_block_ok(b),
        spec_encode_block(b).len() <= s.len(),
        s.subrange(0, spec_encode_block(b).len() as int) == spec_encode_block(b),
    ensures
        spec_decode_block(s, 0) == Some((b, spec_encode_block(b).len() as int)),
{
    let bnpart = le_bytes(b.block_number as nat, 4);
    let countpart = spec_compact_u32(b.extrinsics.len() as u32);
    let body = spec_encode_extrinsics(b.extrinsics);
    lemma_le_bytes_len(b.block_number as nat, 4);
    assert(spec_encode_block(b) =~= bnpart + (countpart + body));
    lemma_split_concat(s, 0, bnpart, countpart + body);
    lemma_split_concat(s, 4, countpart, body);
    assert(pow256(4) == 0x100000000) by {
        reveal_with_fuel(pow256, 5);
    }
    lemma_decode_le_of_encode(s, 0, b.block_number as nat, 4);
    lemma_decode_compact_of_encode(s, 4, b.extrinsics.len() as u32);
    lemma_decode_extrinsics_of_encode(s, 4 + countpart.len() as int, b.extrinsics);
}

pub proof fn lemma_pow256_mono(n: nat, m: nat)
    requires
        n <= m,
    ensures
        pow256(n) <= pow256(m),
    decreases m,
{
    if n < m {
        lemma_pow256_mono(n, (m - 1) as nat);
        lemma_pow256_pos((m - 1) as nat);
    }
}

} // verus!

