//! Key and configuration checks, and the cache's counters.

use vstd::prelude::*;
use vstd::utf8::encode_utf8;
use vstd::string::StringSliceAdditionalSpecFns;
use crate::error::{CacheError, CacheResult};

verus! {

/// Longest key accepted, in UTF-8 bytes.
pub const MAX_KEY_BYTES: usize = 1024;

/// Bytes that no key may hold: ASCII control characters (NUL among them)
/// and the two path separators.
pub open spec fn forbidden_key_byte(b: u8) -> bool {
    b < 0x20 || b == 0x7f || b == 0x2f || b == 0x5c
}

/// A key's UTF-8 form is acceptable: not empty, at most `MAX_KEY_BYTES`
/// long, free of forbidden bytes.
pub open spec fn valid_key_bytes(b: Seq<u8>) -> bool {
    &&& 0 < b.len() <= MAX_KEY_BYTES
    &&& forall|i: int| 0 <= i < b.len() ==> !forbidden_key_byte(#[trigger] b[i])
}

/// A key is acceptable when its UTF-8 form is.
pub open spec fn valid_key(key: Seq<char>) -> bool {
    valid_key_bytes(encode_utf8(key))
}

/// Accepts exactly the valid keys; every other key is `InvalidKey`.
pub fn validate_key(key: &str) -> (r: CacheResult<()>)
    ensures
        r is Ok <==> valid_key(key@),
        r matches Err(e) ==> e == CacheError::InvalidKey,
{
    let bytes = key.as_bytes();
    let n = bytes.len();
    if n == 0 || n > MAX_KEY_BYTES {
        return Err(CacheError::InvalidKey);
    }
    let mut i: usize = 0;
    while i < n
        invariant
            i <= n,
            n == bytes@.len(),
            bytes@ == encode_utf8(key@),
            forall|j: int| 0 <= j < i ==> !forbidden_key_byte(#[trigger] bytes@[j]),
        decreases n - i,
    {
        let b = bytes[i];
        if b < 0x20 || b == 0x7f || b == 0x2f || b == 0x5c {
            return Err(CacheError::InvalidKey);
        }
        i = i + 1;
    }
    Ok(())
}

/// A configuration is acceptable when it names a directory and no limit
/// that is set is zero.
pub open spec fn valid_cache_config(
    max_size: Option<u64>,
    max_entries: Option<u64>,
    directory: Seq<char>,
) -> bool {
    &&& directory.len() > 0
    &&& max_size != Some(0u64)
    &&& max_entries != Some(0u64)
}

/// Accepts exactly the valid configurations; every other one is
/// `InvalidConfig`.
pub fn validate_cache_config(
    max_size: Option<u64>,
    max_entries: Option<u64>,
    directory: &str,
) -> (r: CacheResult<()>)
    ensures
        r is Ok <==> valid_cache_config(max_size, max_entries, directory@),
        r matches Err(e) ==> e == CacheError::InvalidConfig,
{
    if directory.is_empty() {
        return Err(CacheError::InvalidConfig);
    }
    match max_size {
        Some(s) => {
            if s == 0 {
                return Err(CacheError::InvalidConfig);
            }
        },
        None => {},
    }
    match max_entries {
        Some(e) => {
            if e == 0 {
                return Err(CacheError::InvalidConfig);
            }
        },
        None => {},
    }
    Ok(())
}

/// One more, staying at the largest value once it is reached.
pub open spec fn spec_bump(x: u64) -> u64 {
    if x < u64::MAX {
        (x + 1) as u64
    } else {
        x
    }
}

#[verifier::when_used_as_spec(spec_bump)]
pub fn bump(x: u64) -> (r: u64)
    ensures
        r == spec_bump(x),
{
    if x < u64::MAX {
        x + 1
    } else {
        x
    }
}

/// The sum, staying at the largest value once it is passed.
pub open spec fn spec_add_capped(x: u64, y: u64) -> u64 {
    if x + y <= u64::MAX {
        (x + y) as u64
    } else {
        u64::MAX
    }
}

#[verifier::when_used_as_spec(spec_add_capped)]
pub fn add_capped(x: u64, y: u64) -> (r: u64)
    ensures
        r == spec_add_capped(x, y),
{
    if y <= u64::MAX - x {
        x + y
    } else {
        u64::MAX
    }
}

/// Counters kept by the cache. Each one saturates.
#[derive(Debug, Clone, Copy, PartialEq, Eq, Structural)]
pub struct CacheStats {
    pub hits: u64,
    pub misses: u64,
    pub sets: u64,
    pub deletes: u64,
    pub evictions: u64,
    pub errors: u64,
    pub total_size: u64,
    pub entry_count: u64,
}

impl CacheStats {
    /// All counters at zero.
    pub open spec fn spec_new() -> CacheStats {
        CacheStats {
            hits: 0,
            misses: 0,
            sets: 0,
            deletes: 0,
            evictions: 0,
            errors: 0,
            total_size: 0,
            entry_count: 0,
        }
    }

    #[verifier::when_used_as_spec(spec_new)]
    pub fn new() -> (r: CacheStats)
        ensures
            r == CacheStats::spec_new(),
    {
        CacheStats {
            hits: 0,
            misses: 0,
            sets: 0,
            deletes: 0,
            evictions: 0,
            errors: 0,
            total_size: 0,
            entry_count: 0,
        }
    }

    /// Number of lookups counted so far.
    pub open spec fn lookups(self) -> int {
        self.hits + self.misses
    }

    /// Hits per thousand lookups, zero before the first lookup.
    pub open spec fn spec_hit_permille(self) -> u64 {
        if self.hits + self.misses == 0 {
            0
        } else {
            ((self.hits * 1000) / (self.hits + self.misses)) as u64
        }
    }

    #[verifier::when_used_as_spec(spec_hit_permille)]
    pub fn hit_permille(self) -> (r: u64)
        ensures
            r == self.spec_hit_permille(),
            r <= 1000,
    {
        let total: u128 = self.hits as u128 + self.misses as u128;
        if total == 0 {
            0
        } else {
            let scaled: u128 = self.hits as u128 * 1000;
            let q: u128 = scaled / total;
            assert(q <= 1000) by (nonlinear_arith)
                requires
                    q == scaled / total,
                    scaled == self.hits * 1000,
                    total == self.hits + self.misses,
                    total > 0,
            ;
            q as u64
        }
    }
}

} // verus!
