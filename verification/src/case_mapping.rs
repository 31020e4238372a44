//! The flat case-conversion tables: every non-ASCII key maps either to a
//! single code point stored inline, or — where the conversion expands to
//! up to three code points — to a masked index into a small auxiliary
//! table of grouped triples.

use vstd::prelude::*;

verus! {

/// Table values carrying this bit are indices into the auxiliary table of
/// triples rather than inline code points; it leaves 22 bits of index room.
pub const INDEX_MASK: u32 = 0x400000;

/// ASCII keys are handled elsewhere and stay out of the tables.
pub open spec fn entry_kept(e: (u32, (u32, u32, u32))) -> bool {
    e.0 > 0x7F
}

/// A conversion that expands to more than one code point: the second or
/// third slot is occupied.
pub open spec fn entry_multi(e: (u32, (u32, u32, u32))) -> bool {
    !(e.1.1 == 0 && e.1.2 == 0)
}

/// The auxiliary table collected from the first `n` entries: the triples
/// of every kept multi-code-point conversion, in input order.
pub open spec fn multis_upto(d: Seq<(u32, (u32, u32, u32))>, n: int) -> Seq<(u32, u32, u32)>
    decreases n,
{
    if n <= 0 {
        Seq::empty()
    } else {
        let p = multis_upto(d, n - 1);
        if entry_kept(d[n - 1]) && entry_multi(d[n - 1]) {
            p.push(d[n - 1].1)
        } else {
            p
        }
    }
}

/// The main table built from the first `n` entries: each kept key paired
/// with its inline value, or with the masked index its triple received in
/// the auxiliary table.
pub open spec fn mappings_upto(d: Seq<(u32, (u32, u32, u32))>, n: int) -> Seq<(u32, u32)>
    decreases n,
{
    if n <= 0 {
        Seq::empty()
    } else {
        let p = mappings_upto(d, n - 1);
        let e = d[n - 1];
        if entry_kept(e) {
            p.push(
                (
                    e.0,
                    if entry_multi(e) {
                        INDEX_MASK | ((multis_upto(d, n).len() - 1) as u32)
                    } else {
                        e.1.0
                    },
                ),
            )
        } else {
            p
        }
    }
}

/// Build both case tables from conversion records `(key, (a, b, c))` in
/// ascending key order: ASCII keys are dropped, single conversions are
/// stored inline, and each expanding conversion is appended to the
/// auxiliary table and referenced through a masked index.
pub fn generate_tables(data: &Vec<(u32, (u32, u32, u32))>) -> (r: (
    Vec<(u32, u32)>,
    Vec<(u32, u32, u32)>,
))
    requires
        data@.len() <= 0x3FFFFF,
    ensures
        r.0@ == mappings_upto(data@, data@.len() as int),
        r.1@ == multis_upto(data@, data@.len() as int),
{
    let mut mappings: Vec<(u32, u32)> = Vec::new();
    let mut multis: Vec<(u32, u32, u32)> = Vec::new();
    let mut k: usize = 0;
    while k < data.len()
        invariant
            data@.len() <= 0x3FFFFF,
            k <= data@.len(),
            mappings@ == mappings_upto(data@, k as int),
            multis@ == multis_upto(data@, k as int),
            multis@.len() <= k,
        decreases data@.len() - k,
    {
        let (key, (a, b, c)) = data[k];
        if key > 0x7F {
            if b == 0 && c == 0 {
                mappings.push((key, a));
            } else {
                multis.push((a, b, c));
                let idx = multis.len() as u32 - 1;
                mappings.push((key, INDEX_MASK | idx));
            }
        }
        k += 1;
    }
    (mappings, multis)
}

} // verus!
