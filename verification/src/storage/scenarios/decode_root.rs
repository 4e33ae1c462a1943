//! What decoding an archive's root found.

use vstd::prelude::*;

verus! {

/// What a decode pass found and what it cost.
#[derive(Debug)]
pub struct DecodeRoot {
    /// Entries the decode produced. This is the archive's answer, not the
    /// cell's tile count.
    pub entries: u64,
    /// The root as stored, compressed.
    pub compressed_bytes: u64,
    /// The root after the inflate, which is what the varint loop walks.
    pub plain_bytes: u64,
    /// One sample per repetition, in nanoseconds.
    pub samples: Vec<u64>,
}

impl DecodeRoot {
    /// A sample and the entries to divide it by, where there are any.
    pub fn per_entry(&self, sample: u64) -> (out: Option<(u64, u64)>)
        ensures
            out == (if self.entries == 0 {
                None
            } else {
                Some((sample, self.entries))
            }),
    {
        if self.entries == 0 {
            None
        } else {
            Some((sample, self.entries))
        }
    }
}

/// What a pass of decodes found: the entries of the last, which is none where
/// nothing was decoded.
pub fn observed(
    decoded: &[(u64, u64)],
    compressed_bytes: u64,
    plain_bytes: u64,
) -> (out: DecodeRoot)
    ensures
        out.entries == (if decoded@.len() == 0 {
            0
        } else {
            decoded@.last().0
        }),
        out.compressed_bytes == compressed_bytes,
        out.plain_bytes == plain_bytes,
        out.samples@ == Seq::new(decoded@.len(), |i: int| decoded@[i].1),
{
    let mut samples: Vec<u64> = Vec::new();
    let mut entries: u64 = 0;
    let mut i: usize = 0;
    while i < decoded.len()
        invariant
            i <= decoded@.len(),
            samples@.len() == i,
            forall|k: int| 0 <= k < i ==> #[trigger] samples@[k] == decoded@[k].1,
            entries == (if i == 0 {
                0
            } else {
                decoded@[i - 1].0
            }),
        decreases decoded@.len() - i,
    {
        entries = decoded[i].0;
        samples.push(decoded[i].1);
        i = i + 1;
    }
    assert(samples@ =~= Seq::new(decoded@.len(), |i: int| decoded@[i].1));
    DecodeRoot { entries, compressed_bytes, plain_bytes, samples }
}

} // verus!
