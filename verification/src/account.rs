use vstd::prelude::*;
use vstd::string::StringSliceAdditionalSpecFns;

verus! {

/// The value of one ASCII hex digit, upper or lower case.
pub open spec fn spec_hex_val(c: u8) -> Option<u8> {
    if 48 <= c && c <= 57 {
        Some((c - 48) as u8)
    } else if 97 <= c && c <= 102 {
        Some((c - 87) as u8)
    } else if 65 <= c && c <= 70 {
        Some((c - 55) as u8)
    } else {
        None
    }
}

/// Whether `b` is exactly 64 hex digits.
pub open spec fn spec_hex_ok(b: Seq<u8>) -> bool {
    b.len() == 64 && forall|i: int| 0 <= i < 64 ==> spec_hex_val(#[trigger] b[i]) is Some
}

/// The `i`-th account byte named by a 64-digit hex string.
pub open spec fn spec_hex_byte(b: Seq<u8>, i: int) -> u8 {
    ((spec_hex_val(b[2 * i])->Some_0) * 16 + (spec_hex_val(b[2 * i + 1])->Some_0)) as u8
}

/// The lower-case ASCII hex digit of a value below 16.
pub open spec fn spec_hex_digit(v: u8) -> u8 {
    if v < 10 {
        (48 + v) as u8
    } else {
        (87 + v) as u8
    }
}

/// A 32-byte Ed25519 public key identifying an account on chain.
///
/// Its mathematical value is the sequence of its 32 bytes.
#[derive(Clone, Copy, Debug)]
pub struct AccountId32(pub [u8; 32]);

impl View for AccountId32 {
    type V = Seq<u8>;

    open spec fn view(&self) -> Seq<u8> {
        self.0@
    }
}

impl AccountId32 {
    pub fn as_bytes(&self) -> (r: &[u8; 32])
        ensures
            r@ == self@,
    {
        &self.0
    }
}

impl PartialEq for AccountId32 {
    fn eq(&self, other: &Self) -> (r: bool) {
        let mut i: usize = 0;
        while i < 32
            invariant
                i <= 32,
                forall|j: int| 0 <= j < i ==> self.0@[j] == other.0@[j],
            decreases 32 - i,
        {
            if self.0[i] != other.0[i] {
                assert(self@[i as int] != other@[i as int]);
                return false;
            }
            i += 1;
        }
        proof {
            assert(self.0@ =~= other.0@);
        }
        true
    }
}

impl Eq for AccountId32 {}

impl vstd::std_specs::cmp::PartialEqSpecImpl for AccountId32 {
    open spec fn obeys_eq_spec() -> bool {
        true
    }

    open spec fn eq_spec(&self, other: &AccountId32) -> bool {
        self@ == other@
    }
}

impl crate::state_map::StateKey for AccountId32 {
    fn key_eq(&self, other: &Self) -> (r: bool) {
        *self == *other
    }
}

impl From<[u8; 32]> for AccountId32 {
    fn from(bytes: [u8; 32]) -> (r: Self) {
        AccountId32(bytes)
    }
}

impl vstd::std_specs::convert::FromSpecImpl<[u8; 32]> for AccountId32 {
    open spec fn obeys_from_spec() -> bool {
        true
    }

    open spec fn from_spec(bytes: [u8; 32]) -> Self {
        AccountId32(bytes)
    }
}

fn hex_val(c: u8) -> (r: Option<u8>)
    ensures
        r == spec_hex_val(c),
{
    if 48 <= c && c <= 57 {
        Some(c - 48)
    } else if 97 <= c && c <= 102 {
        Some(c - 87)
    } else if 65 <= c && c <= 70 {
        Some(c - 55)
    } else {
        None
    }
}

/// Parse a 64-hex-digit account, as the RPC surface names accounts.
#[verifier::loop_isolation(false)]
pub fn account_from_hex(s: &str) -> (r: Option<AccountId32>)
    ensures
        r is Some <==> spec_hex_ok(s.spec_bytes()),
        r is Some ==> (r->Some_0)@ == Seq::new(32, |i: int| spec_hex_byte(s.spec_bytes(), i)),
{
    let b: &[u8] = s.as_bytes();
    if b.len() != 64 {
        return None;
    }
    let mut arr: [u8; 32] = [0u8; 32];
    let mut i: usize = 0;
    while i < 32
        invariant
            i <= 32,
            b@.len() == 64,
            b@ == s.spec_bytes(),
            forall|k: int| 0 <= k < 2 * i ==> spec_hex_val(#[trigger] b@[k]) is Some,
            forall|k: int| 0 <= k < i ==> arr@[k] == spec_hex_byte(b@, k),
        decreases 32 - i,
    {
        let hi = match hex_val(b[2 * i]) {
            Some(v) => v,
            None => {
                proof {
                    assert(spec_hex_val(s.spec_bytes()[2 * i as int]) is None);
                }
                return None;
            },
        };
        let lo = match hex_val(b[2 * i + 1]) {
            Some(v) => v,
            None => {
                proof {
                    assert(spec_hex_val(s.spec_bytes()[2 * i as int + 1]) is None);
                }
                return None;
            },
        };
        arr[i] = hi * 16 + lo;
        proof {
            assert forall|k: int| 0 <= k < 2 * (i + 1) implies spec_hex_val(
                #[trigger] b@[k],
            ) is Some by {
                if k == 2 * i {
                } else if k == 2 * i + 1 {
                }
            }
        }
        i += 1;
    }
    proof {
        assert(arr@ =~= Seq::new(32, |i: int| spec_hex_byte(s.spec_bytes(), i)));
    }
    Some(AccountId32(arr))
}

/// The 64 lower-case hex digits of an account, as the RPC surface and the
/// node's logs name accounts.
pub fn account_to_hex(a: &AccountId32) -> (r: Vec<u8>)
    ensures
        r@.len() == 64,
        forall|i: int|
            0 <= i < 32 ==> r@[2 * i] == spec_hex_digit((a@[i] / 16) as u8) && r@[2 * i + 1]
                == spec_hex_digit((a@[i] % 16) as u8),
{
    let mut out: Vec<u8> = Vec::new();
    let mut i: usize = 0;
    while i < 32
        invariant
            i <= 32,
            out@.len() == 2 * i,
            forall|k: int|
                0 <= k < i ==> out@[2 * k] == spec_hex_digit((a@[k] / 16) as u8) && out@[2 * k + 1]
                    == spec_hex_digit((a@[k] % 16) as u8),
        decreases 32 - i,
    {
        let byte = a.0[i];
        let hi = byte / 16;
        let lo = byte % 16;
        out.push(if hi < 10 {
            48 + hi
        } else {
            87 + hi
        });
        out.push(if lo < 10 {
            48 + lo
        } else {
            87 + lo
        });
        i += 1;
    }
    out
}

} // verus!
