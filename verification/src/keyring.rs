//! The fixed development identities: Alice, Bob, and Charlie.
//!
//! Each seed is the UTF-8 bytes of the name, right-padded with zero bytes to
//! 32; the account ID is the Ed25519 public key derived from that seed.

use vstd::prelude::*;

use crate::account::AccountId32;
use crate::crypto::{derive_public_key, ed25519_key_ok, ed25519_public_of};
use vstd::string::StringSliceAdditionalSpecFns;

verus! {

/// One of the three development identities.
#[derive(Clone, Copy, Debug, PartialEq, Eq, Structural)]
pub enum AccountKeyring {
    Alice,
    Bob,
    Charlie,
}

/// The ASCII bytes of the keyring name, capitalised as written.
pub open spec fn spec_name_bytes(k: AccountKeyring) -> Seq<u8> {
    match k {
        AccountKeyring::Alice => seq![65u8, 108u8, 105u8, 99u8, 101u8],
        AccountKeyring::Bob => seq![66u8, 111u8, 98u8],
        AccountKeyring::Charlie => seq![67u8, 104u8, 97u8, 114u8, 108u8, 105u8, 101u8],
    }
}

/// The 32-byte seed: the name bytes, zero-padded on the right.
pub open spec fn spec_seed(k: AccountKeyring) -> Seq<u8> {
    spec_name_bytes(k) + Seq::new((32 - spec_name_bytes(k).len()) as nat, |i: int| 0u8)
}

/// ASCII lower-casing of one byte.
pub open spec fn spec_lower(c: u8) -> u8 {
    if 65 <= c && c <= 90 {
        (c + 32) as u8
    } else {
        c
    }
}

/// The identity a name selects: the one whose lower-cased ASCII name equals
/// the lower-cased input, or none.
pub open spec fn spec_from_name(bytes: Seq<u8>) -> Option<AccountKeyring> {
    let lowered = bytes.map_values(|c: u8| spec_lower(c));
    if lowered == seq![97u8, 108u8, 105u8, 99u8, 101u8] {
        Some(AccountKeyring::Alice)
    } else if lowered == seq![98u8, 111u8, 98u8] {
        Some(AccountKeyring::Bob)
    } else if lowered == seq![99u8, 104u8, 97u8, 114u8, 108u8, 105u8, 101u8] {
        Some(AccountKeyring::Charlie)
    } else {
        None
    }
}

impl AccountKeyring {
    /// The 32-byte secret seed of this identity.
    pub fn seed(self) -> (r: [u8; 32])
        ensures
            r@ == spec_seed(self),
    {
        let mut s: [u8; 32] = [0u8; 32];
        match self {
            AccountKeyring::Alice => {
                s[0] = 65;
                s[1] = 108;
                s[2] = 105;
                s[3] = 99;
                s[4] = 101;
            },
            AccountKeyring::Bob => {
                s[0] = 66;
                s[1] = 111;
                s[2] = 98;
            },
            AccountKeyring::Charlie => {
                s[0] = 67;
                s[1] = 104;
                s[2] = 97;
                s[3] = 114;
                s[4] = 108;
                s[5] = 105;
                s[6] = 101;
            },
        }
        proof {
            assert(s@ =~= spec_seed(self));
        }
        s
    }

    /// The public account ID of this identity.
    pub fn public(self) -> (r: AccountId32)
        ensures
            r@ == ed25519_public_of(spec_seed(self)),
            ed25519_key_ok(r@),
    {
        AccountId32(derive_public_key(&self.seed()))
    }
}

/// The three development identities have pairwise distinct public keys.
pub open spec fn spec_dev_accounts_distinct() -> bool {
    &&& ed25519_public_of(spec_seed(AccountKeyring::Alice)) != ed25519_public_of(
        spec_seed(AccountKeyring::Bob),
    )
    &&& ed25519_public_of(spec_seed(AccountKeyring::Alice)) != ed25519_public_of(
        spec_seed(AccountKeyring::Charlie),
    )
    &&& ed25519_public_of(spec_seed(AccountKeyring::Bob)) != ed25519_public_of(
        spec_seed(AccountKeyring::Charlie),
    )
}

/// Relies on ed25519_dalek's key derivation: the three development seeds
/// derive pairwise distinct public keys.  The body derives the three keys
/// and compares them; the test suite checks the same comparisons at run
/// time.
#[verifier::external_body]
fn check_dev_keys_distinct() -> (r: bool)
    ensures
        r,
        r ==> spec_dev_accounts_distinct(),
{
    let mut a = [0u8; 32];
    a[..5].copy_from_slice(b"Alice");
    let mut b = [0u8; 32];
    b[..3].copy_from_slice(b"Bob");
    let mut c = [0u8; 32];
    c[..7].copy_from_slice(b"Charlie");
    let ka = ed25519_dalek::SigningKey::from_bytes(&a).verifying_key().to_bytes();
    let kb = ed25519_dalek::SigningKey::from_bytes(&b).verifying_key().to_bytes();
    let kc = ed25519_dalek::SigningKey::from_bytes(&c).verifying_key().to_bytes();
    ka != kb && ka != kc && kb != kc
}

/// The three development identities have pairwise distinct account IDs.
pub fn dev_accounts_distinct() -> (r: bool)
    ensures
        r,
        spec_dev_accounts_distinct(),
{
    check_dev_keys_distinct()
}

/// Lower-case one ASCII byte.
fn lower_byte(c: u8) -> (r: u8)
    ensures
        r == spec_lower(c),
{
    if 65 <= c && c <= 90 {
        c + 32
    } else {
        c
    }
}

/// Look an identity up by name, case-insensitively.
pub fn from_name(name: &str) -> (r: Option<AccountKeyring>)
    ensures
        r == spec_from_name(name.spec_bytes()),
{
    let b: &[u8] = name.as_bytes();
    let ghost lowered = name.spec_bytes().map_values(|c: u8| spec_lower(c));
    assert(lowered.len() == b@.len());
    if b.len() == 5 {
        if lower_byte(b[0]) == 97 && lower_byte(b[1]) == 108 && lower_byte(b[2]) == 105
            && lower_byte(b[3]) == 99 && lower_byte(b[4]) == 101 {
            proof {
                assert(lowered =~= seq![97u8, 108u8, 105u8, 99u8, 101u8]);
            }
            Some(AccountKeyring::Alice)
        } else {
            proof {
                assert(lowered != seq![97u8, 108u8, 105u8, 99u8, 101u8]) by {
                    if lowered == seq![97u8, 108u8, 105u8, 99u8, 101u8] {
                        assert(lowered[0] == 97u8 && lowered[1] == 108u8 && lowered[2] == 105u8
                            && lowered[3] == 99u8 && lowered[4] == 101u8);
                    }
                }
            }
            None
        }
    } else if b.len() == 3 {
        if lower_byte(b[0]) == 98 && lower_byte(b[1]) == 111 && lower_byte(b[2]) == 98 {
            proof {
                assert(lowered =~= seq![98u8, 111u8, 98u8]);
            }
            Some(AccountKeyring::Bob)
        } else {
            proof {
                assert(lowered != seq![98u8, 111u8, 98u8]) by {
                    if lowered == seq![98u8, 111u8, 98u8] {
                        assert(lowered[0] == 98u8 && lowered[1] == 111u8 && lowered[2] == 98u8);
                    }
                }
            }
            None
        }
    } else if b.len() == 7 {
        if lower_byte(b[0]) == 99 && lower_byte(b[1]) == 104 && lower_byte(b[2]) == 97
            && lower_byte(b[3]) == 114 && lower_byte(b[4]) == 108 && lower_byte(b[5]) == 105
            && lower_byte(b[6]) == 101 {
            proof {
                assert(lowered =~= seq![99u8, 104u8, 97u8, 114u8, 108u8, 105u8, 101u8]);
            }
            Some(AccountKeyring::Charlie)
        } else {
            proof {
                assert(lowered != seq![99u8, 104u8, 97u8, 114u8, 108u8, 105u8, 101u8]) by {
                    if lowered == seq![99u8, 104u8, 97u8, 114u8, 108u8, 105u8, 101u8] {
                        assert(lowered[0] == 99u8 && lowered[1] == 104u8 && lowered[2] == 97u8
                            && lowered[3] == 114u8 && lowered[4] == 108u8 && lowered[5] == 105u8
                            && lowered[6] == 101u8);
                    }
                }
            }
            None
        }
    } else {
        None
    }
}

} // verus!
