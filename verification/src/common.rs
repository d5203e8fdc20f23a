//! Metadata carried alongside a decoded waveform.

use vstd::prelude::*;

verus! {

broadcast use vstd::string::to_string_from_display_ensures_for_str;

/// What the audio codec needs to know about a waveform: its name, how many
/// samples it holds, and the rate and width they were sampled at. The
/// frequency resolution of its spectrum is the sample rate divided by the
/// (padded) sample count; the codec derives it where needed rather than
/// storing a rounded copy.
pub struct WaveformMetadata {
    pub name: String,
    pub sample_size: usize,
    pub sample_rate: usize,
    pub bit_rate: usize,
}

impl WaveformMetadata {
    pub fn new(name: &str, sample_size: usize, sample_rate: usize, bit_rate: usize) -> (r:
        WaveformMetadata)
        ensures
            r.name@ == name@,
            r.sample_size == sample_size,
            r.sample_rate == sample_rate,
            r.bit_rate == bit_rate,
    {
        WaveformMetadata { name: name.to_string(), sample_size, sample_rate, bit_rate }
    }
}

} // verus!
