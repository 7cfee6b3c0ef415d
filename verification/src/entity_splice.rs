//! Writing new field values of entities and baselines in place of the bits
//! they were read from.
use vstd::prelude::*;
use crate::bits::{bytes_bits, pad_to_byte};
use crate::rewrite::copy_original_bits;
use crate::writer::BitstreamWriter;

verus! {

/// A field value to be written in place of bits `value_start..value_end`
/// of the data it was read from.
pub struct FieldReplacement {
    /// Where the old value starts, in bits.
    pub value_start: usize,
    /// Where the old value ends, in bits.
    pub value_end: usize,
    /// The new value's encoding, padded to whole bytes.
    pub encoded: Vec<u8>,
    /// How many bits of `encoded` the new value takes.
    pub encoded_bits: usize,
}

impl FieldReplacement {
    /// The bits of the new value.
    pub open spec fn value_bits(self) -> Seq<bool> {
        bytes_bits(self.encoded@).take(self.encoded_bits as int)
    }
}

/// The replacements fit data of `len` bits: each new value lies within its
/// encoding, and the old values lie in order, apart, within the data.
pub open spec fn replacements_fit(reps: Seq<FieldReplacement>, len: int) -> bool {
    &&& forall|i: int|
        0 <= i < reps.len() ==> #[trigger] reps[i].encoded_bits <= 8 * reps[i].encoded@.len()
            && reps[i].value_start <= reps[i].value_end <= len
    &&& forall|i: int, j: int| 0 <= i < j < reps.len() ==> #[trigger] reps[i].value_end <= #[trigger] reps[j].value_start
}

/// The bits of `bits` from `from` on, with each replaced value's bits
/// swapped for the new value's.
pub open spec fn spliced_bits(bits: Seq<bool>, reps: Seq<FieldReplacement>, from: int) -> Seq<bool>
    decreases reps.len(),
{
    if reps.len() == 0 {
        bits.subrange(from, bits.len() as int)
    } else {
        bits.subrange(from, reps[0].value_start as int) + reps[0].value_bits() + spliced_bits(
            bits,
            reps.drop_first(),
            reps[0].value_end as int,
        )
    }
}

/// Writes `data` again with each replaced field value swapped for its new
/// encoding, every other bit copied as it was, padded to whole bytes.
pub fn splice_field_values(data: &[u8], replacements: &[FieldReplacement]) -> (out: Vec<u8>)
    requires
        data@.len() <= usize::MAX / 8,
        replacements_fit(replacements@, (8 * data@.len()) as int),
    ensures
        bytes_bits(out@) == pad_to_byte(spliced_bits(bytes_bits(data@), replacements@, 0)),
{
    let ghost bits = bytes_bits(data@);
    let ghost reps = replacements@;
    let ghost goal = spliced_bits(bits, reps, 0);
    let mut writer = BitstreamWriter::new();
    let mut copy_start: usize = 0;
    let mut k: usize = 0;
    proof {
        assert(reps.skip(0) =~= reps);
        assert(Seq::<bool>::empty() + spliced_bits(bits, reps, 0) =~= goal);
    }
    while k < replacements.len()
        invariant
            writer.wf(),
            bits == bytes_bits(data@),
            reps == replacements@,
            data@.len() <= usize::MAX / 8,
            replacements_fit(reps, (8 * data@.len()) as int),
            k <= reps.len(),
            copy_start <= 8 * data@.len(),
            k < reps.len() ==> copy_start <= reps[k as int].value_start,
            writer@ + spliced_bits(bits, reps.skip(k as int), copy_start as int) == goal,
        decreases replacements.len() - k,
    {
        let rep = &replacements[k];
        let ghost w0 = writer@;
        let ghost rest = reps.skip(k as int);
        proof {
            assert(rest[0] == reps[k as int]);
            assert(rest.drop_first() =~= reps.skip(k + 1));
        }
        let _ = copy_original_bits(data, copy_start, rep.value_start - copy_start, &mut writer);
        let _ = copy_original_bits(rep.encoded.as_slice(), 0, rep.encoded_bits, &mut writer);
        proof {
            assert(bytes_bits(rep.encoded@).subrange(0, rep.encoded_bits as int) =~= rep.value_bits());
            let mid = spliced_bits(bits, reps.skip(k + 1), rep.value_end as int);
            assert(writer@ + mid =~= w0 + (bits.subrange(copy_start as int, rep.value_start as int)
                + rep.value_bits() + mid));
            if k + 1 < reps.len() {
                assert(reps[k as int].value_end <= reps[k + 1].value_start);
            }
        }
        copy_start = rep.value_end;
        k = k + 1;
    }
    let ghost w1 = writer@;
    let total = data.len() * 8;
    let _ = copy_original_bits(data, copy_start, total - copy_start, &mut writer);
    proof {
        assert(reps.skip(k as int) =~= Seq::<FieldReplacement>::empty());
        assert(writer@ =~= goal);
    }
    writer.into_inner()
}

} // verus!
