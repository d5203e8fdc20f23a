//! The audio codec: a waveform is padded to a power-of-two length,
//! transformed, and every bin above the frequency cutoff is dropped; the
//! record keeps enough bookkeeping to rebuild a spectrum of the original
//! padded length and invert it.
//!
//! ## Record byte layout
//!
//! All fields are little-endian:
//!
//! | offset | field                                   |
//! |--------|-----------------------------------------|
//! | 0      | sample rate, `u64`                      |
//! | 8      | original (pre-padding) sample count, `u64` |
//! | 16     | bit rate, `u64`                         |
//! | 24     | trailing zero bin count, `u64`          |
//! | 32     | kept bin count `n`, `u64`               |
//! | 40     | `n` kept bins, each `(re, im)` as two `u32` IEEE-754 bit patterns |

use crate::bytes::{
    lemma_pairs_bytes_injective, lemma_pairs_bytes_len, pairs_bytes, pairs_to_bytes, read_pairs,
    read_u64_le,
};
use crate::complex::{c_bits_of, c_from_bits, c_from_usize, c_of_bits, c_of_usize, c_to_bits};
use crate::fft::{
    copy_samples, fft, fft_inverse, fft_rel, ifft_rel, is_pow2, is_pow2_exec, lemma_next_pow2,
    padded_len, round_sample_size_up,
};
use num_complex::Complex32;
use vstd::arithmetic::mul::lemma_mul_inequality;
use vstd::bytes::{lemma_auto_spec_u64_to_from_le_bytes, spec_u64_from_le_bytes,
    spec_u64_to_le_bytes, u64_to_le_bytes};
use vstd::prelude::*;

verus! {

/// Returned when a wav file's shape is not supported.
#[derive(Debug, Clone, Copy, PartialEq, Eq, Structural)]
pub enum FormatError {
    UnsupportedChannels,
    UnsupportedFormat,
}

impl FormatError {
    /// The human-readable description of the error.
    pub fn message(&self) -> (m: &'static str)
        ensures
            self is UnsupportedChannels ==> m@ == "multiple channels not supported"@,
            self is UnsupportedFormat ==> m@ == "unrecognized format not supported"@,
    {
        match self {
            FormatError::UnsupportedChannels => "multiple channels not supported",
            FormatError::UnsupportedFormat => "unrecognized format not supported",
        }
    }
}

/// Returned when a compressed record declares inconsistent sizes.
#[derive(Debug, Clone, Copy, PartialEq, Eq, Structural)]
pub enum CorruptionError {
    /// The kept bins plus the trailing zero bins do not form a power-of-two
    /// spectrum.
    InvalidSpectrum,
    /// The declared original sample count exceeds the spectrum length.
    InvalidSampleCount,
}

/// A compressed waveform: the spectrum bins below the cutoff as IEEE-754 bit
/// patterns, and the count of zeroed bins that were dropped above it.
/// The kept bins plus the dropped bins always total the padded
/// (power-of-two) sample count used at compression time.
pub struct CompressedData {
    pub sample_rate: usize,
    pub original_size: usize,
    pub bit_rate: usize,
    pub frequencies: Vec<(u32, u32)>,
    pub cutoff_zeros: usize,
}

/// Accepts exactly the sample widths the waveform writer can emit.
pub fn check_bit_rate(bit_rate: usize) -> (r: Result<(), FormatError>)
    ensures
        r == Ok::<(), FormatError>(()) <==> (bit_rate == 8 || bit_rate == 16 || bit_rate == 24
            || bit_rate == 32),
        r is Err ==> r == Err::<(), FormatError>(FormatError::UnsupportedFormat),
{
    if bit_rate == 8 || bit_rate == 16 || bit_rate == 24 || bit_rate == 32 {
        Ok(())
    } else {
        Err(FormatError::UnsupportedFormat)
    }
}

/// A waveform padded with zero samples to the next power-of-two length.
pub open spec fn padded_samples(s: Seq<Complex32>) -> Seq<Complex32> {
    s + Seq::new((padded_len(s.len()) - s.len()) as nat, |i: int| c_of_usize(0))
}

/// `ceil(a / b)` for `b >= 1`.
pub open spec fn ceil_div(a: nat, b: nat) -> nat
    recommends
        b >= 1,
{
    ((a + b - 1) / (b as int)) as nat
}

/// The first spectrum index above the frequency cutoff, clamped to the
/// spectrum length: `ceil(freq_cutoff / resolution)` where the frequency
/// resolution is `sample_rate / spectrum_len`. A zero sample rate keeps the
/// whole spectrum.
pub open spec fn highest_bin(freq_cutoff: nat, sample_rate: nat, spectrum_len: nat) -> nat {
    if sample_rate == 0 {
        spectrum_len
    } else if ceil_div(freq_cutoff * spectrum_len, sample_rate) >= spectrum_len {
        spectrum_len
    } else {
        ceil_div(freq_cutoff * spectrum_len, sample_rate)
    }
}

fn compute_highest_bin(freq_cutoff: usize, sample_rate: usize, spectrum_len: usize) -> (r: usize)
    ensures
        r == highest_bin(freq_cutoff as nat, sample_rate as nat, spectrum_len as nat),
{
    if sample_rate == 0 {
        return spectrum_len;
    }
    proof {
        let c = freq_cutoff as int;
        let s = spectrum_len as int;
        assert(c * s + 0xffff_ffff_ffff_ffff < 0xffff_ffff_ffff_ffff_ffff_ffff_ffff_ffff)
            by (nonlinear_arith)
            requires
                0 <= c <= 0xffff_ffff_ffff_ffff,
                0 <= s <= 0xffff_ffff_ffff_ffff,
        ;
    }
    let num = (freq_cutoff as u128) * (spectrum_len as u128);
    let den = sample_rate as u128;
    let bin = (num + (den - 1)) / den;
    if bin >= spectrum_len as u128 {
        spectrum_len
    } else {
        bin as usize
    }
}

/// Compresses a waveform: pads it with zero samples to a power-of-two
/// length, transforms it, and keeps exactly the bins below the cutoff. The
/// kept bins are stored as IEEE-754 bit patterns; the count of dropped bins
/// is recorded so that decompression can rebuild a spectrum of the padded
/// length. Content above the cutoff is irrecoverable.
pub fn compress_waveform(
    samples: &Vec<Complex32>,
    sample_rate: usize,
    bit_rate: usize,
    freq_cutoff: usize,
) -> (r: CompressedData)
    requires
        1 <= samples@.len() <= usize::MAX / 2 + 1,
    ensures
        r.sample_rate == sample_rate,
        r.original_size == samples@.len(),
        r.bit_rate == bit_rate,
        r.frequencies@.len() == highest_bin(
            freq_cutoff as nat,
            sample_rate as nat,
            padded_len(samples@.len()),
        ),
        r.frequencies@.len() + r.cutoff_zeros == padded_len(samples@.len()),
        record_valid(r),
        exists|spectrum: Seq<Complex32>|
            #![trigger fft_rel(padded_samples(samples@), spectrum)]
            {
                &&& fft_rel(padded_samples(samples@), spectrum)
                &&& spectrum.len() == padded_len(samples@.len())
                &&& forall|k: int|
                    0 <= k < r.frequencies@.len() ==> (#[trigger] r.frequencies@[k]) == c_bits_of(
                        spectrum[k],
                    ) && c_of_bits(r.frequencies@[k].0, r.frequencies@[k].1) == spectrum[k]
            },
{
    let ghost orig = samples@;
    let mut padded = copy_samples(samples);
    let zero = c_from_usize(0);
    round_sample_size_up(&mut padded, zero);
    proof {
        assert(padded@ =~= padded_samples(orig));
        lemma_next_pow2(orig.len());
    }
    let freq_domain = fft(&padded);
    let ghost spectrum = freq_domain@;
    let spectrum_len = freq_domain.len();
    let highest = compute_highest_bin(freq_cutoff, sample_rate, spectrum_len);
    let mut frequencies: Vec<(u32, u32)> = Vec::new();
    let mut k: usize = 0;
    while k < highest
        invariant
            k <= highest <= spectrum_len,
            freq_domain@.len() == spectrum_len,
            freq_domain@ == spectrum,
            frequencies@.len() == k,
            forall|j: int|
                0 <= j < k ==> (#[trigger] frequencies@[j]) == c_bits_of(spectrum[j])
                    && c_of_bits(frequencies@[j].0, frequencies@[j].1) == spectrum[j],
        decreases highest - k,
    {
        let bits = c_to_bits(freq_domain[k]);
        frequencies.push(bits);
        k = k + 1;
    }
    let cutoff_zeros = spectrum_len - highest;
    let record = CompressedData {
        sample_rate,
        original_size: samples.len(),
        bit_rate,
        frequencies,
        cutoff_zeros,
    };
    assert(record_valid(record));
    assert(fft_rel(padded_samples(orig), spectrum));
    record
}

/// The declared full spectrum length of a record: kept bins plus dropped
/// bins.
pub open spec fn record_total(d: CompressedData) -> int {
    d.frequencies@.len() + d.cutoff_zeros
}

/// Whether the record's declared spectrum length is a power of two that fits
/// in memory.
pub open spec fn spectrum_ok(d: CompressedData) -> bool {
    record_total(d) <= usize::MAX && is_pow2(record_total(d) as nat)
}

/// Whether the record is internally consistent: a power-of-two spectrum and
/// an original sample count it can cover.
pub open spec fn record_valid(d: CompressedData) -> bool {
    spectrum_ok(d) && d.original_size <= record_total(d)
}

/// The spectrum a record rebuilds: its kept bins, then zero bins.
pub open spec fn rebuilt_spectrum(d: CompressedData) -> Seq<Complex32> {
    Seq::new(
        record_total(d) as nat,
        |k: int|
            if k < d.frequencies@.len() {
                c_of_bits(d.frequencies@[k].0, d.frequencies@[k].1)
            } else {
                c_of_usize(0)
            },
    )
}

/// What it is to be the decompressed waveform of a record: some inverse
/// transform of the rebuilt spectrum, cut back to the original sample count.
pub open spec fn decompressed_rel(d: CompressedData, w: Seq<Complex32>) -> bool {
    exists|full: Seq<Complex32>|
        #![trigger ifft_rel(rebuilt_spectrum(d), full)]
        {
            &&& ifft_rel(rebuilt_spectrum(d), full)
            &&& full.len() == record_total(d)
            &&& w == full.subrange(0, d.original_size as int)
        }
}

/// Decompresses a record: rebuilds the padded-length spectrum from the kept
/// bins and the declared zero count, inverts the transform, and truncates to
/// the original sample count. A record whose declared sizes are inconsistent
/// is rejected before any reconstruction.
pub fn decompress_waveform(record: &CompressedData) -> (r: Result<Vec<Complex32>, CorruptionError>)
    ensures
        r is Ok <==> record_valid(*record),
        r matches Ok(w) ==> decompressed_rel(*record, w@) && w@.len() == record.original_size,
        r == Err::<Vec<Complex32>, CorruptionError>(CorruptionError::InvalidSpectrum) <==> !spectrum_ok(
            *record,
        ),
        r == Err::<Vec<Complex32>, CorruptionError>(CorruptionError::InvalidSampleCount) <==> (
        spectrum_ok(*record) && record.original_size > record_total(*record)),
{
    let flen = record.frequencies.len();
    let total = match flen.checked_add(record.cutoff_zeros) {
        Some(t) => t,
        None => {
            return Err(CorruptionError::InvalidSpectrum);
        },
    };
    if !is_pow2_exec(total) {
        return Err(CorruptionError::InvalidSpectrum);
    }
    if record.original_size > total {
        return Err(CorruptionError::InvalidSampleCount);
    }
    let zero = c_from_usize(0);
    let mut spectrum: Vec<Complex32> = Vec::new();
    let mut k: usize = 0;
    while k < flen
        invariant
            k <= flen,
            flen == record.frequencies@.len(),
            flen <= record_total(*record),
            spectrum@.len() == k,
            forall|j: int| 0 <= j < k ==> #[trigger] spectrum@[j] == rebuilt_spectrum(*record)[j],
        decreases flen - k,
    {
        let (re_bits, im_bits) = record.frequencies[k];
        spectrum.push(c_from_bits(re_bits, im_bits));
        k = k + 1;
    }
    while spectrum.len() < total
        invariant
            flen <= spectrum@.len() <= total,
            total == record_total(*record),
            flen == record.frequencies@.len(),
            zero == c_of_usize(0),
            forall|j: int|
                0 <= j < spectrum@.len() ==> #[trigger] spectrum@[j] == rebuilt_spectrum(
                    *record,
                )[j],
        decreases total - spectrum.len(),
    {
        spectrum.push(zero);
    }
    assert(spectrum@ =~= rebuilt_spectrum(*record));
    let mut time_domain = fft_inverse(&spectrum);
    let ghost full = time_domain@;
    time_domain.truncate(record.original_size);
    proof {
        assert(time_domain@ == full.subrange(0, record.original_size as int));
        assert(decompressed_rel(*record, time_domain@));
    }
    Ok(time_domain)
}

/// The serialized bytes of a record, in the documented layout.
pub open spec fn record_bytes(d: CompressedData) -> Seq<u8> {
    spec_u64_to_le_bytes(d.sample_rate as u64) + spec_u64_to_le_bytes(d.original_size as u64)
        + spec_u64_to_le_bytes(d.bit_rate as u64) + spec_u64_to_le_bytes(d.cutoff_zeros as u64)
        + spec_u64_to_le_bytes(d.frequencies@.len() as u64) + pairs_bytes(d.frequencies@)
}

/// Serializes a record into the documented byte layout.
pub fn encode_compressed_data(record: &CompressedData) -> (r: Vec<u8>)
    ensures
        r@ == record_bytes(*record),
{
    let mut out = u64_to_le_bytes(record.sample_rate as u64);
    let mut field = u64_to_le_bytes(record.original_size as u64);
    out.append(&mut field);
    let mut field = u64_to_le_bytes(record.bit_rate as u64);
    out.append(&mut field);
    let mut field = u64_to_le_bytes(record.cutoff_zeros as u64);
    out.append(&mut field);
    let mut field = u64_to_le_bytes(record.frequencies.len() as u64);
    out.append(&mut field);
    let mut pairs = pairs_to_bytes(&record.frequencies);
    out.append(&mut pairs);
    assert(out@ =~= record_bytes(*record));
    out
}

/// Whether a byte string is a well-formed record: five `u64` header fields
/// that fit the platform's sizes, and exactly the declared run of bins.
pub open spec fn wf_record_bytes(b: Seq<u8>) -> bool {
    &&& b.len() >= 40
    &&& spec_u64_from_le_bytes(b.subrange(0, 8)) <= usize::MAX
    &&& spec_u64_from_le_bytes(b.subrange(8, 16)) <= usize::MAX
    &&& spec_u64_from_le_bytes(b.subrange(16, 24)) <= usize::MAX
    &&& spec_u64_from_le_bytes(b.subrange(24, 32)) <= usize::MAX
    &&& b.len() == 40 + 8 * spec_u64_from_le_bytes(b.subrange(32, 40))
}

/// Parses a record from the documented byte layout: exactly the well-formed
/// byte strings parse, and what parses re-serializes to the same bytes.
pub fn decode_compressed_data(bytes: &Vec<u8>) -> (r: Option<CompressedData>)
    ensures
        r is Some <==> wf_record_bytes(bytes@),
        r matches Some(d) ==> record_bytes(d) == bytes@,
{
    let blen = bytes.len();
    if blen < 40 {
        return None;
    }
    let sample_rate_w = read_u64_le(bytes, 0);
    let original_size_w = read_u64_le(bytes, 8);
    let bit_rate_w = read_u64_le(bytes, 16);
    let cutoff_zeros_w = read_u64_le(bytes, 24);
    let count_w = read_u64_le(bytes, 32);
    proof {
        lemma_auto_spec_u64_to_from_le_bytes();
    }
    if sample_rate_w > usize::MAX as u64 || original_size_w > usize::MAX as u64 || bit_rate_w
        > usize::MAX as u64 || cutoff_zeros_w > usize::MAX as u64 {
        return None;
    }
    if count_w > ((usize::MAX - 40) / 8) as u64 {
        return None;
    }
    let count = count_w as usize;
    if blen != 40 + 8 * count {
        return None;
    }
    let frequencies = read_pairs(bytes, 40, count);
    let d = CompressedData {
        sample_rate: sample_rate_w as usize,
        original_size: original_size_w as usize,
        bit_rate: bit_rate_w as usize,
        frequencies,
        cutoff_zeros: cutoff_zeros_w as usize,
    };
    proof {
        assert(record_bytes(d) =~= bytes@);
    }
    Some(d)
}

/// The byte layout is lossless: two records with the same bytes agree on
/// every field.
pub proof fn lemma_record_bytes_injective(a: CompressedData, b: CompressedData)
    requires
        record_bytes(a) == record_bytes(b),
    ensures
        a.sample_rate == b.sample_rate,
        a.original_size == b.original_size,
        a.bit_rate == b.bit_rate,
        a.cutoff_zeros == b.cutoff_zeros,
        a.frequencies@ == b.frequencies@,
{
    lemma_auto_spec_u64_to_from_le_bytes();
    lemma_pairs_bytes_len(a.frequencies@);
    lemma_pairs_bytes_len(b.frequencies@);
    let ab = record_bytes(a);
    let bb = record_bytes(b);
    assert(spec_u64_to_le_bytes(a.sample_rate as u64) =~= ab.subrange(0, 8));
    assert(spec_u64_to_le_bytes(b.sample_rate as u64) =~= bb.subrange(0, 8));
    assert(spec_u64_to_le_bytes(a.original_size as u64) =~= ab.subrange(8, 16));
    assert(spec_u64_to_le_bytes(b.original_size as u64) =~= bb.subrange(8, 16));
    assert(spec_u64_to_le_bytes(a.bit_rate as u64) =~= ab.subrange(16, 24));
    assert(spec_u64_to_le_bytes(b.bit_rate as u64) =~= bb.subrange(16, 24));
    assert(spec_u64_to_le_bytes(a.cutoff_zeros as u64) =~= ab.subrange(24, 32));
    assert(spec_u64_to_le_bytes(b.cutoff_zeros as u64) =~= bb.subrange(24, 32));
    assert(spec_u64_to_le_bytes(a.frequencies@.len() as u64) =~= ab.subrange(32, 40));
    assert(spec_u64_to_le_bytes(b.frequencies@.len() as u64) =~= bb.subrange(32, 40));
    assert(pairs_bytes(a.frequencies@) =~= ab.subrange(40, ab.len() as int));
    assert(pairs_bytes(b.frequencies@) =~= bb.subrange(40, bb.len() as int));
    lemma_pairs_bytes_injective(a.frequencies@, b.frequencies@);
}

/// An encoded record is well-formed, so parsing it succeeds.
pub proof fn lemma_encoded_record_wf(d: CompressedData)
    requires
        d.frequencies@.len() <= usize::MAX,
    ensures
        wf_record_bytes(record_bytes(d)),
{
    lemma_auto_spec_u64_to_from_le_bytes();
    lemma_pairs_bytes_len(d.frequencies@);
    let b = record_bytes(d);
    assert(b.subrange(0, 8) =~= spec_u64_to_le_bytes(d.sample_rate as u64));
    assert(b.subrange(8, 16) =~= spec_u64_to_le_bytes(d.original_size as u64));
    assert(b.subrange(16, 24) =~= spec_u64_to_le_bytes(d.bit_rate as u64));
    assert(b.subrange(24, 32) =~= spec_u64_to_le_bytes(d.cutoff_zeros as u64));
    assert(b.subrange(32, 40) =~= spec_u64_to_le_bytes(d.frequencies@.len() as u64));
}

/// A frequency cutoff at or above the sample rate keeps every spectrum bin:
/// the record drops nothing, it is valid, and the spectrum it rebuilds is
/// exactly the spectrum that compression computed for the padded waveform
/// (the existential witness of `compress_waveform`'s contract), so
/// decompression differs from the original only by the transforms' own
/// arithmetic.
pub proof fn lemma_high_cutoff_keeps_spectrum(
    samples: Seq<Complex32>,
    sample_rate: usize,
    freq_cutoff: usize,
    spectrum: Seq<Complex32>,
    d: CompressedData,
)
    requires
        1 <= samples.len() <= usize::MAX / 2 + 1,
        freq_cutoff >= sample_rate,
        d.original_size == samples.len(),
        d.frequencies@.len() == highest_bin(
            freq_cutoff as nat,
            sample_rate as nat,
            padded_len(samples.len()),
        ),
        d.frequencies@.len() + d.cutoff_zeros == padded_len(samples.len()),
        spectrum.len() == padded_len(samples.len()),
        forall|k: int|
            0 <= k < d.frequencies@.len() ==> c_of_bits(
                (#[trigger] d.frequencies@[k]).0,
                d.frequencies@[k].1,
            ) == spectrum[k],
    ensures
        d.cutoff_zeros == 0,
        record_valid(d),
        rebuilt_spectrum(d) == spectrum,
{
    let plen = padded_len(samples.len());
    lemma_next_pow2(samples.len());
    if sample_rate >= 1 {
        lemma_mul_inequality(sample_rate as int, freq_cutoff as int, plen as int);
        assert(freq_cutoff * plen >= sample_rate * plen);
        assert(ceil_div((freq_cutoff * plen) as nat, sample_rate as nat) >= plen) by {
            let a = (freq_cutoff * plen) as int;
            let r = sample_rate as int;
            assert(a >= r * plen);
            assert((a + r - 1) / r >= plen) by (nonlinear_arith)
                requires
                    a >= r * (plen as int),
                    r >= 1,
                    plen >= 0,
            ;
        }
    }
    assert(d.frequencies@.len() == plen);
    assert(d.cutoff_zeros == 0);
    assert(rebuilt_spectrum(d) =~= spectrum);
}

/// A zero frequency cutoff keeps no bins at all: the record's kept spectrum
/// is empty and everything it rebuilds is the zero sample, so the
/// decompressed waveform is the inverse transform of an all-zero spectrum.
pub proof fn lemma_zero_cutoff_silences(
    samples: Seq<Complex32>,
    sample_rate: usize,
    d: CompressedData,
)
    requires
        1 <= samples.len() <= usize::MAX / 2 + 1,
        sample_rate >= 1,
        d.frequencies@.len() == highest_bin(0, sample_rate as nat, padded_len(samples.len())),
        d.frequencies@.len() + d.cutoff_zeros == padded_len(samples.len()),
    ensures
        d.frequencies@.len() == 0,
        d.cutoff_zeros == padded_len(samples.len()),
        rebuilt_spectrum(d) == Seq::new(padded_len(samples.len()), |k: int| c_of_usize(0)),
{
    let plen = padded_len(samples.len());
    lemma_next_pow2(samples.len());
    vstd::arithmetic::div_mod::lemma_basic_div((sample_rate - 1) as int, sample_rate as int);
    assert(ceil_div(0 * plen, sample_rate as nat) == 0);
    assert(rebuilt_spectrum(d) =~= Seq::new(plen, |k: int| c_of_usize(0)));
}

} // verus!
