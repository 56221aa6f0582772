use vstd::prelude::*;

use crate::text::is_hex_digit;

verus! {

/// Logical storage domains. Each one is served by its own isolated service instance, so
/// no domain sees another's storage.
#[derive(Debug, Clone, Copy, PartialEq, Eq, Hash, Structural)]
pub enum StorageDomain {
    WifiProfiles,
}

/// Text in the UUID shape: 36 characters, dashes at positions 8, 13, 18 and 23, and
/// hexadecimal digits everywhere else.
pub open spec fn is_uuid_text(s: Seq<char>) -> bool {
    s.len() == 36 && forall|i: int|
        0 <= i < 36 ==> if i == 8 || i == 13 || i == 18 || i == 23 {
            #[trigger] s[i] == '-'
        } else {
            is_hex_digit(s[i])
        }
}

/// The identifier of the service instance that hosts each domain. The value for
/// `WifiProfiles` is a placeholder: deployments put the identifier provisioned at build
/// time for that service instance here.
pub open spec fn domain_uuid(d: StorageDomain) -> Seq<char> {
    match d {
        StorageDomain::WifiProfiles => "5b9e6a4c-7f0d-4c2e-9a61-3d8f2b0c7e15"@,
    }
}

/// Checks that a text has the UUID shape.
pub fn is_uuid(s: &str) -> (r: bool)
    ensures
        r == is_uuid_text(s@),
{
    let n = s.unicode_len();
    if n != 36 {
        return false;
    }
    let mut i: usize = 0;
    while i < 36
        invariant
            n == s@.len(),
            n == 36,
            i <= 36,
            forall|j: int|
                0 <= j < i ==> if j == 8 || j == 13 || j == 18 || j == 23 {
                    #[trigger] s@[j] == '-'
                } else {
                    is_hex_digit(s@[j])
                },
        decreases 36 - i,
    {
        let c = s.get_char(i);
        let ok = if i == 8 || i == 13 || i == 18 || i == 23 {
            c == '-'
        } else {
            ('0' <= c && c <= '9') || ('a' <= c && c <= 'f') || ('A' <= c && c <= 'F')
        };
        if !ok {
            return false;
        }
        i = i + 1;
    }
    true
}

impl StorageDomain {
    /// The identifier of the isolated service instance that owns this domain's storage
    /// (a placeholder value; see `domain_uuid`).
    pub fn as_uuid(&self) -> (r: &'static str)
        ensures
            r@ == domain_uuid(*self),
            is_uuid_text(r@),
    {
        match self {
            StorageDomain::WifiProfiles => {
                let id = "5b9e6a4c-7f0d-4c2e-9a61-3d8f2b0c7e15";
                proof {
                    reveal_strlit("5b9e6a4c-7f0d-4c2e-9a61-3d8f2b0c7e15");
                }
                id
            },
        }
    }
}

/// Distinct domains are served by distinct service instances, so what one domain stores
/// under a key is never visible under that key in another.
pub proof fn lemma_domains_isolated(a: StorageDomain, b: StorageDomain)
    requires
        a != b,
    ensures
        domain_uuid(a) != domain_uuid(b),
{
}

} // verus!
