//! Identifying archive files.
//!
//! An archive is a store database file: its first 16 bytes are the store's
//! literal magic header, and it holds a non-empty `item` table. The dual
//! check keeps an unrelated file that happens to use the same storage engine
//! from being misidentified. The header, length and regular-file halves of
//! the check are stated below; the probe half is `Store::has_items`, whose
//! contract ties the report to the store's model one call down.

use vstd::prelude::*;
use crate::Error;
use crate::store::Store;

verus! {

/// The expected first 16 bytes of a store database file.
pub open spec fn spec_sql_header() -> Seq<u8> {
    seq![
        0x53u8,
        0x51u8,
        0x4cu8,
        0x69u8,
        0x74u8,
        0x65u8,
        0x20u8,
        0x66u8,
        0x6fu8,
        0x72u8,
        0x6du8,
        0x61u8,
        0x74u8,
        0x20u8,
        0x33u8,
        0x00u8,
    ]
}

/// The expected header as bytes.
fn sql_header() -> (r: Vec<u8>)
    ensures
        r@ == spec_sql_header(),
{
    let mut v: Vec<u8> = Vec::new();
    v.push(0x53u8);
    v.push(0x51u8);
    v.push(0x4cu8);
    v.push(0x69u8);
    v.push(0x74u8);
    v.push(0x65u8);
    v.push(0x20u8);
    v.push(0x66u8);
    v.push(0x6fu8);
    v.push(0x72u8);
    v.push(0x6du8);
    v.push(0x61u8);
    v.push(0x74u8);
    v.push(0x20u8);
    v.push(0x33u8);
    v.push(0x00u8);
    proof {
        assert(v@ =~= spec_sql_header());
    }
    v
}

/// Whether the given bytes begin with the store's magic header.
pub fn header_matches(header: &[u8]) -> (r: bool)
    ensures
        r <==> header@ == spec_sql_header(),
{
    let n = header.len();
    if n != 16 {
        proof {
            assert(header@ != spec_sql_header());
        }
        return false;
    }
    let magic = sql_header();
    let mut j: usize = 0;
    while j < 16
        invariant
            n == 16 == header@.len(),
            magic@ == spec_sql_header(),
            j <= 16,
            forall|k: int| 0 <= k < j ==> header@[k] == spec_sql_header()[k],
        decreases 16 - j,
    {
        if header[j] != magic[j] {
            proof {
                assert(header@[j as int] != spec_sql_header()[j as int]);
            }
            return false;
        }
        j = j + 1;
    }
    proof {
        assert(header@ =~= spec_sql_header());
    }
    true
}

/// Return `true` if the path refers to a pack file, false otherwise.
///
/// The caller reports what it saw of the file itself: whether it is a
/// regular file, its length, and its first bytes (any prefix of at least 16
/// bytes does; extra bytes make the check fail, as a short file would).
/// Only when all of that fits does the store get opened and its `item`
/// table probed; a missing table reports false, not an error.
pub fn is_pack_file(path: &str, is_regular_file: bool, file_len: u64, header: &[u8]) -> (r: Result<
    bool,
    Error,
>)
    ensures
        (!is_regular_file || file_len <= 16 || header@ != spec_sql_header()) ==> (r matches Ok(b)
            && !b),
        r matches Ok(b) && b ==> is_regular_file && file_len > 16 && header@
            == spec_sql_header(),
{
    if !is_regular_file || file_len <= 16 {
        return Ok(false);
    }
    if !header_matches(header) {
        return Ok(false);
    }
    let store = match Store::open(path) {
        Ok(s) => s,
        Err(e) => {
            return Err(e);
        },
    };
    match store.has_items() {
        Ok(found) => Ok(found),
        Err(e) => Err(e),
    }
}

} // verus!
