//! Preparing PCM audio for the acoustic model.
//!
//! The model reads amplitudes: each sample divided by the largest magnitude a
//! signed 16-bit integer can hold, as a single-precision number. The quotient
//! is worked out in integers and handed on as a bit pattern.

use crate::binary32::{is_nan_bits, within_unit_range, EXPONENT_BIAS, HIDDEN_BIT, SIGN_BIT};
use vstd::arithmetic::div_mod::{lemma_div_multiples_vanish_fancy, lemma_div_non_zero};
use vstd::arithmetic::power2::{
    lemma2_to64, lemma_pow2_adds, lemma_pow2_pos, lemma_pow2_strictly_increases,
    lemma_pow2_unfold, pow2,
};
use vstd::prelude::*;

verus! {

/// The only bit depth that is read.
pub const SUPPORTED_BITS: u16 = 16;

/// What every sample is divided by: `i16::MAX`.
pub const FULL_SCALE: i16 = 32767;

/// Why a waveform cannot be turned into a sample sequence.
#[derive(Clone, Copy, Debug, PartialEq, Eq)]
pub enum FormatError {
    /// The samples are not 16 bits wide; the field is the declared width.
    UnsupportedBitDepth(u16),
    /// The container declares no channel at all.
    NoChannels,
    /// The container holds no sample.
    NoSamples,
}

/// How many frames `samples` interleaved samples of `channels` channels start.
pub open spec fn frame_count(samples: nat, channels: int) -> nat {
    if channels >= 1 {
        ((samples + channels - 1) / channels) as nat
    } else {
        0
    }
}

/// The samples of the first channel: of the interleaved samples, every one
/// whose position is a multiple of `channels`, in order.
pub open spec fn first_channel(interleaved: Seq<i16>, channels: int) -> Seq<i16> {
    Seq::new(frame_count(interleaved.len(), channels), |k: int| interleaved[k * channels])
}

/// What is wrong with a declared format, if anything; the bit depth is judged
/// before the channels.
pub open spec fn header_defect(bits_per_sample: u16, channels: u16) -> Option<FormatError> {
    if bits_per_sample != SUPPORTED_BITS {
        Some(FormatError::UnsupportedBitDepth(bits_per_sample))
    } else if channels == 0 {
        Some(FormatError::NoChannels)
    } else {
        None
    }
}

/// What is wrong with a waveform of `samples` samples, if anything; the
/// declared format is judged before the samples.
pub open spec fn format_defect(samples: nat, bits_per_sample: u16, channels: u16) -> Option<
    FormatError,
> {
    match header_defect(bits_per_sample, channels) {
        Some(error) => Some(error),
        None => if samples == 0 {
            Some(FormatError::NoSamples)
        } else {
            None
        },
    }
}

/// The magnitude of a sample.
pub open spec fn magnitude_of(sample: i16) -> int {
    if sample < 0 {
        -sample
    } else {
        sample as int
    }
}

/// Whether `mantissa` is the quotient `magnitude / FULL_SCALE` rounded to 24
/// significant bits: scaled by `2^shift` the quotient lies between 1 and 2, 2
/// excluded, and of all integers `mantissa` is the nearest to the quotient
/// scaled by `2^(shift + 23)`. The divisor is odd, so no quotient lies halfway
/// between two integers.
pub open spec fn rounds_to(magnitude: int, shift: nat, mantissa: int) -> bool {
    &&& FULL_SCALE <= magnitude * pow2(shift) < 2 * FULL_SCALE
    &&& -FULL_SCALE < 2 * (mantissa * FULL_SCALE - magnitude * pow2(shift) * HIDDEN_BIT)
        < FULL_SCALE
}

/// The pattern of the number `mantissa * 2^-(shift + 23)` with the given sign:
/// the exponent field holds `EXPONENT_BIAS - shift`, the mantissa goes in
/// without its leading bit, and a mantissa of `2^24` carries into the exponent.
pub open spec fn pattern_of(negative: bool, shift: nat, mantissa: int) -> int {
    (if negative {
        SIGN_BIT as int
    } else {
        0
    }) + (EXPONENT_BIAS - shift) * HIDDEN_BIT + (mantissa - HIDDEN_BIT)
}

/// Whether `bits` is the amplitude of `sample`: the single-precision number
/// nearest to `sample / FULL_SCALE`, which is what dividing the two as
/// single-precision numbers gives.
pub open spec fn is_amplitude(sample: i16, bits: u32) -> bool {
    if sample == 0 {
        bits == 0
    } else {
        exists|shift: nat, mantissa: int|
            #[trigger] rounds_to(magnitude_of(sample), shift, mantissa) && bits == pattern_of(
                sample < 0,
                shift,
                mantissa,
            )
    }
}

proof fn lemma_shift_bound(magnitude: int, shift: nat)
    requires
        1 <= magnitude,
        magnitude * pow2(shift) < 2 * FULL_SCALE,
    ensures
        shift <= 15,
        pow2(shift) <= magnitude * pow2(shift),
{
    lemma_pow2_pos(shift);
    assert(pow2(shift) <= magnitude * pow2(shift)) by (nonlinear_arith)
        requires
            1 <= magnitude,
            0 < pow2(shift),
    ;
    if shift >= 16 {
        if shift > 16 {
            lemma_pow2_strictly_increases(16, shift);
        }
        lemma2_to64();
    }
}

/// A quotient rounds in one way only.
pub proof fn lemma_rounding_is_unique(
    magnitude: int,
    shift: nat,
    mantissa: int,
    other_shift: nat,
    other_mantissa: int,
)
    requires
        rounds_to(magnitude, shift, mantissa),
        rounds_to(magnitude, other_shift, other_mantissa),
    ensures
        shift == other_shift,
        mantissa == other_mantissa,
{
    lemma_pow2_pos(shift);
    lemma_pow2_pos(other_shift);
    let (low, high) = if shift <= other_shift {
        (shift, other_shift)
    } else {
        (other_shift, shift)
    };
    if low < high {
        let gap = (high - low) as nat;
        lemma_pow2_adds(low, gap);
        lemma_pow2_strictly_increases(0, gap);
        lemma2_to64();
        assert(magnitude * pow2(high) >= 2 * (magnitude * pow2(low))) by (nonlinear_arith)
            requires
                pow2(high) == pow2(low) * pow2(gap),
                pow2(gap) >= 2,
                pow2(low) > 0,
                magnitude * pow2(low) >= 0,
        ;
    }
}

/// A sample has one amplitude.
pub proof fn lemma_amplitude_is_unique(sample: i16, bits: u32, other: u32)
    requires
        is_amplitude(sample, bits),
        is_amplitude(sample, other),
    ensures
        bits == other,
{
    if sample != 0 {
        let magnitude = magnitude_of(sample);
        let (shift, mantissa) = choose|shift: nat, mantissa: int|
            #[trigger] rounds_to(magnitude, shift, mantissa) && bits == pattern_of(
                sample < 0,
                shift,
                mantissa,
            );
        let (other_shift, other_mantissa) = choose|shift: nat, mantissa: int|
            #[trigger] rounds_to(magnitude, shift, mantissa) && other == pattern_of(
                sample < 0,
                shift,
                mantissa,
            );
        lemma_rounding_is_unique(magnitude, shift, mantissa, other_shift, other_mantissa);
    }
}

/// An amplitude is a number, and it lies between -1 and 1 unless the sample
/// is `i16::MIN`, whose magnitude is one more than the divisor.
pub proof fn lemma_amplitude_range(sample: i16, bits: u32)
    requires
        is_amplitude(sample, bits),
    ensures
        !is_nan_bits(bits),
        within_unit_range(bits) <==> sample != i16::MIN,
{
    if sample != 0 {
        let magnitude = magnitude_of(sample);
        let (shift, mantissa) = choose|shift: nat, mantissa: int|
            #[trigger] rounds_to(magnitude, shift, mantissa) && bits == pattern_of(
                sample < 0,
                shift,
                mantissa,
            );
        lemma_shift_bound(magnitude, shift);
        lemma2_to64();
        if shift == 0 {
            assert(magnitude * pow2(shift) == magnitude) by (nonlinear_arith)
                requires
                    pow2(shift) == 1,
            ;
        } else {
            lemma_pow2_strictly_increases(0, shift);
            assert(magnitude * pow2(shift) >= 2 * magnitude) by (nonlinear_arith)
                requires
                    pow2(shift) >= 2,
                    magnitude >= 1,
            ;
        }
    }
}

/// The amplitude of one sample: the bit pattern of the single-precision number
/// nearest to `sample / FULL_SCALE`.
pub fn amplitude_bits(sample: i16) -> (bits: u32)
    ensures
        is_amplitude(sample, bits),
{
    if sample == 0 {
        return 0;
    }
    let negative = sample < 0;
    let wide: i64 = sample as i64;
    let magnitude: u64 = if negative {
        (-wide) as u64
    } else {
        wide as u64
    };
    let divisor: u64 = FULL_SCALE as u64;
    let mut scaled: u64 = magnitude;
    let mut shift: u32 = 0;
    proof {
        lemma2_to64();
    }
    while scaled < divisor
        invariant
            divisor == FULL_SCALE,
            1 <= magnitude <= 32768,
            scaled == magnitude * pow2(shift as nat),
            scaled < 2 * FULL_SCALE,
            shift <= 15,
        decreases 15 - shift,
    {
        proof {
            lemma_shift_bound(magnitude as int, shift as nat);
            lemma_pow2_unfold((shift + 1) as nat);
            lemma2_to64();
            assert(magnitude * (2 * pow2(shift as nat)) == 2 * (magnitude * pow2(shift as nat)))
                by (nonlinear_arith);
        }
        scaled = scaled * 2;
        shift = shift + 1;
    }
    let unit: u64 = HIDDEN_BIT as u64;
    assert(scaled * unit == scaled * 8388608) by (nonlinear_arith)
        requires
            unit == 8388608,
    ;
    let dividend: u64 = scaled * unit;
    let quotient: u64 = dividend / divisor;
    let remainder: u64 = dividend % divisor;
    let mantissa: u64 = if remainder * 2 > divisor {
        quotient + 1
    } else {
        quotient
    };
    assert(rounds_to(magnitude as int, shift as nat, mantissa as int));
    let exponent: u64 = (EXPONENT_BIAS - shift) as u64;
    assert(exponent * unit == exponent * 8388608) by (nonlinear_arith)
        requires
            unit == 8388608,
    ;
    let field: u64 = exponent * unit + (mantissa - unit);
    let bits: u32 = if negative {
        SIGN_BIT + field as u32
    } else {
        field as u32
    };
    proof {
        assert(magnitude == magnitude_of(sample));
        assert(bits == pattern_of(negative, shift as nat, mantissa as int));
    }
    bits
}

/// The amplitudes of one utterance, one per time step and never none at all.
#[derive(Debug, PartialEq, Eq)]
pub struct SampleSequence {
    amplitudes: Vec<u32>,
}

impl View for SampleSequence {
    type V = Seq<u32>;

    /// The amplitudes as single-precision bit patterns, in time order.
    closed spec fn view(&self) -> Seq<u32> {
        self.amplitudes@
    }
}

impl SampleSequence {
    #[verifier::type_invariant]
    spec fn populated(&self) -> bool {
        self.amplitudes@.len() > 0
    }

    /// The number of time steps.
    pub fn len(&self) -> (count: usize)
        ensures
            count == self@.len(),
            count > 0,
    {
        proof {
            use_type_invariant(self);
        }
        self.amplitudes.len()
    }

    /// The amplitudes as single-precision bit patterns, in time order.
    pub fn bits(&self) -> (all: &[u32])
        ensures
            all@ == self@,
            all@.len() > 0,
    {
        proof {
            use_type_invariant(self);
        }
        self.amplitudes.as_slice()
    }

    /// The shape of the tensor that carries these amplitudes: one batch, one
    /// channel, and a time axis as long as the sequence.
    pub fn tensor_shape(&self) -> (shape: (usize, usize, usize))
        ensures
            shape == (1usize, 1usize, self@.len() as usize),
            shape.2 == self@.len(),
    {
        (1, 1, self.amplitudes.len())
    }
}

proof fn lemma_frame_count_bounds(samples: nat, channels: int, frames: nat)
    requires
        channels >= 1,
        samples <= frames * channels,
        frames == 0 || (frames - 1) * channels < samples,
    ensures
        frames == frame_count(samples, channels),
{
    let total = samples + channels - 1;
    assert(frames * channels <= total < (frames + 1) * channels) by (nonlinear_arith)
        requires
            channels >= 1,
            total == samples + channels - 1,
            samples <= frames * channels,
            frames == 0 || (frames - 1) * channels < samples,
    ;
    let rest = total - frames * channels;
    lemma_div_multiples_vanish_fancy(frames as int, rest, channels);
    assert(channels * frames + rest == total) by (nonlinear_arith)
        requires
            rest == total - frames * channels,
    ;
}

fn first_channel_amplitudes(samples: &[i16], channels: usize) -> (kept: Vec<u32>)
    requires
        channels >= 1,
    ensures
        kept@.len() == frame_count(samples@.len(), channels as int),
        forall|k: int|
            0 <= k < kept@.len() ==> is_amplitude(samples@[k * channels], #[trigger] kept@[k]),
{
    let total = samples.len();
    let mut kept: Vec<u32> = Vec::new();
    let mut at: usize = 0;
    assert(kept@.len() * channels == 0) by (nonlinear_arith)
        requires
            kept@.len() == 0,
    ;
    while at < total
        invariant
            channels >= 1,
            total == samples@.len(),
            at <= total,
            at == kept@.len() * channels || (at == total && total <= kept@.len() * channels),
            kept@.len() == 0 || (kept@.len() - 1) * channels < total,
            forall|k: int|
                0 <= k < kept@.len() ==> is_amplitude(samples@[k * channels], #[trigger] kept@[k]),
        decreases total - at,
    {
        assert((kept@.len() + 1 - 1) * channels < total);
        assert((kept@.len() + 1) * channels == kept@.len() * channels + channels)
            by (nonlinear_arith);
        kept.push(amplitude_bits(samples[at]));
        if total - at > channels {
            at = at + channels;
        } else {
            at = total;
        }
    }
    proof {
        lemma_frame_count_bounds(total as nat, channels as int, kept@.len());
    }
    kept
}

/// Judges a declared format before any sample is read: fails on any bit depth
/// but 16, and then on a container without channels.
pub fn check_format(bits_per_sample: u16, channels: u16) -> (outcome: Result<(), FormatError>)
    ensures
        outcome == match header_defect(bits_per_sample, channels) {
            Some(error) => Err::<(), FormatError>(error),
            None => Ok::<(), FormatError>(()),
        },
{
    if bits_per_sample != SUPPORTED_BITS {
        Err(FormatError::UnsupportedBitDepth(bits_per_sample))
    } else if channels == 0 {
        Err(FormatError::NoChannels)
    } else {
        Ok(())
    }
}

/// Turns interleaved PCM samples into the sample sequence of their first channel.
///
/// Fails on any bit depth but 16, on a container without channels and on one
/// without samples, judged in that order. Otherwise there is one amplitude for
/// every frame that the samples start, and the k-th is that of the sample at
/// position `k * channels`: one channel is picked, none is mixed, and nothing
/// is scaled beyond the division by [`FULL_SCALE`]. For a single channel that
/// is one amplitude for every sample. Every amplitude but that of `i16::MIN`
/// lies between -1 and 1.
pub fn normalize(samples: &[i16], bits_per_sample: u16, channels: u16) -> (outcome: Result<
    SampleSequence,
    FormatError,
>)
    ensures
        match outcome {
            Ok(sequence) => {
                &&& format_defect(samples@.len(), bits_per_sample, channels) is None
                &&& sequence@.len() == frame_count(samples@.len(), channels as int)
                &&& channels == 1 ==> sequence@.len() == samples@.len()
                &&& forall|k: int|
                    0 <= k < sequence@.len() ==> is_amplitude(
                        first_channel(samples@, channels as int)[k],
                        #[trigger] sequence@[k],
                    )
                &&& forall|k: int|
                    0 <= k < sequence@.len() && first_channel(samples@, channels as int)[k]
                        != i16::MIN ==> within_unit_range(#[trigger] sequence@[k])
            },
            Err(error) => format_defect(samples@.len(), bits_per_sample, channels) == Some(error),
        },
{
    match check_format(bits_per_sample, channels) {
        Err(error) => {
            return Err(error);
        },
        Ok(_) => {},
    }
    if samples.len() == 0 {
        return Err(FormatError::NoSamples);
    }
    let amplitudes = first_channel_amplitudes(samples, channels as usize);
    proof {
        let count = frame_count(samples@.len(), channels as int);
        let kept = first_channel(samples@, channels as int);
        assert(count >= 1) by {
            lemma_div_non_zero(samples@.len() + channels - 1, channels as int);
        }
        if channels == 1 {
            assert(count == (samples@.len() + 1 - 1) / 1);
        }
        assert forall|k: int| 0 <= k < amplitudes@.len() implies is_amplitude(
            kept[k],
            #[trigger] amplitudes@[k],
        ) && (kept[k] != i16::MIN ==> within_unit_range(amplitudes@[k])) by {
            assert(kept[k] == samples@[k * channels]);
            lemma_amplitude_range(kept[k], amplitudes@[k]);
        }
    }
    Ok(SampleSequence { amplitudes })
}

} // verus!
