//! The output buffer that the table emitter writes into, with verified
//! helpers for appending text and rendered numbers, and the running count
//! of table bytes the emitted artifacts will occupy.

use vstd::prelude::*;
use vstd::string::StringSliceAdditionalSpecFns;

verus! {

/// Collects the emitted source text and counts the table bytes the
/// emitted data will occupy at run time.
pub struct RawEmitter {
    /// The emitted text, as bytes.
    pub file: Vec<u8>,
    /// Table bytes the emitted artifacts occupy: four per run header plus
    /// one per coded offset.
    pub bytes_used: usize,
}

/// The decimal rendering of a non-negative number, most significant
/// digit first.
pub open spec fn dec_rep(v: int) -> Seq<u8>
    decreases v when v >= 0
{
    if v < 10 {
        seq![(48 + v) as u8]
    } else {
        dec_rep(v / 10).push((48 + v % 10) as u8)
    }
}

/// One lower-case hexadecimal digit.
pub open spec fn hex_digit(d: int) -> u8 {
    if d < 10 {
        (48 + d) as u8
    } else {
        (87 + d) as u8
    }
}

/// The lower-case hexadecimal rendering of a non-negative number, most
/// significant digit first, without a prefix.
pub open spec fn hex_rep(v: int) -> Seq<u8>
    decreases v when v >= 0
{
    if v < 16 {
        seq![hex_digit(v)]
    } else {
        hex_rep(v / 16).push(hex_digit(v % 16))
    }
}

/// A prefix of a sequence stays a prefix after anything is appended.
pub proof fn lemma_prefix_append(p: Seq<u8>, s: Seq<u8>, t: Seq<u8>)
    requires
        p.is_prefix_of(s),
    ensures
        p.is_prefix_of(s + t),
{
    assert(p =~= (s + t).subrange(0, p.len() as int));
}

impl RawEmitter {
    /// A fresh emitter: empty output, no table bytes counted yet.
    pub fn new() -> (r: RawEmitter)
        ensures
            r.file@ == Seq::<u8>::empty(),
            r.bytes_used == 0,
    {
        RawEmitter { file: Vec::new(), bytes_used: 0 }
    }

    /// Append a text fragment to the output.
    pub fn push_str(&mut self, s: &str)
        ensures
            final(self).file@ == old(self).file@ + s.spec_bytes(),
            final(self).bytes_used == old(self).bytes_used,
            forall|p: Seq<u8>|
                #[trigger] p.is_prefix_of(old(self).file@) ==> p.is_prefix_of(final(self).file@),
    {
        let b = s.as_bytes();
        let mut k: usize = 0;
        while k < b.len()
            invariant
                b@ == s.spec_bytes(),
                k <= b@.len(),
                self.file@ == old(self).file@ + b@.take(k as int),
                self.bytes_used == old(self).bytes_used,
            decreases b@.len() - k,
        {
            self.file.push(b[k]);
            proof {
                assert(old(self).file@ + b@.take(k as int + 1)
                    =~= (old(self).file@ + b@.take(k as int)).push(b@[k as int]));
            }
            k += 1;
        }
        proof {
            assert(b@.take(b@.len() as int) =~= b@);
            assert forall|p: Seq<u8>| #[trigger] p.is_prefix_of(old(self).file@)
                implies p.is_prefix_of(self.file@) by {
                lemma_prefix_append(p, old(self).file@, s.spec_bytes());
            }
        }
    }

    /// Append the decimal rendering of a number to the output.
    pub fn push_decimal(&mut self, v: u32)
        ensures
            final(self).file@ == old(self).file@ + dec_rep(v as int),
            final(self).bytes_used == old(self).bytes_used,
            forall|p: Seq<u8>|
                #[trigger] p.is_prefix_of(old(self).file@) ==> p.is_prefix_of(final(self).file@),
        decreases v,
    {
        if v < 10 {
            self.file.push(48 + v as u8);
        } else {
            self.push_decimal(v / 10);
            self.file.push(48 + (v % 10) as u8);
            proof {
                assert(old(self).file@ + dec_rep(v as int)
                    =~= (old(self).file@ + dec_rep(v as int / 10)).push(
                    (48 + v as int % 10) as u8,
                ));
            }
        }
        proof {
            assert forall|p: Seq<u8>| #[trigger] p.is_prefix_of(old(self).file@)
                implies p.is_prefix_of(self.file@) by {
                lemma_prefix_append(p, old(self).file@, dec_rep(v as int));
            }
        }
    }

    /// Append the hexadecimal rendering of a number to the output,
    /// without a prefix.
    pub fn push_hex(&mut self, v: u32)
        ensures
            final(self).file@ == old(self).file@ + hex_rep(v as int),
            final(self).bytes_used == old(self).bytes_used,
            forall|p: Seq<u8>|
                #[trigger] p.is_prefix_of(old(self).file@) ==> p.is_prefix_of(final(self).file@),
        decreases v,
    {
        if v < 16 {
            let d = v as u8;
            if d < 10 {
                self.file.push(48 + d);
            } else {
                self.file.push(87 + d);
            }
        } else {
            self.push_hex(v / 16);
            let d = (v % 16) as u8;
            if d < 10 {
                self.file.push(48 + d);
            } else {
                self.file.push(87 + d);
            }
            proof {
                assert(old(self).file@ + hex_rep(v as int)
                    =~= (old(self).file@ + hex_rep(v as int / 16)).push(
                    hex_digit(v as int % 16),
                ));
            }
        }
        proof {
            assert forall|p: Seq<u8>| #[trigger] p.is_prefix_of(old(self).file@)
                implies p.is_prefix_of(self.file@) by {
                lemma_prefix_append(p, old(self).file@, hex_rep(v as int));
            }
        }
    }
}

} // verus!
