//! Checks on decoded audio input, and spectrum editing over bin ranges.

use crate::complex::{c_from_usize, c_of_usize};
use num_complex::Complex32;
use vstd::prelude::*;

verus! {

/// Returned when a decoded audio file is not supported.
#[derive(Debug, Clone, Copy, PartialEq, Eq, Structural)]
pub enum FormatError {
    UnsupportedChannels,
}

impl FormatError {
    /// The human-readable description of the error.
    pub fn message(&self) -> (m: &'static str)
        ensures
            m@ == "multiple channels not supported - convert to mono"@,
    {
        "multiple channels not supported - convert to mono"
    }
}

/// Accepts exactly mono input: any other channel count is reported as
/// unsupported before a transform runs.
pub fn check_channels(channel_count: u16) -> (r: Result<(), FormatError>)
    ensures
        r == Ok::<(), FormatError>(()) <==> channel_count == 1,
        channel_count != 1 ==> r == Err::<(), FormatError>(FormatError::UnsupportedChannels),
{
    if channel_count == 1 {
        Ok(())
    } else {
        Err(FormatError::UnsupportedChannels)
    }
}

/// Silences the spectrum bins from `start_bin` through `end_bin` inclusive,
/// leaving every other bin unchanged.
pub fn flatten_freq_range(freq_domain: &mut Vec<Complex32>, start_bin: usize, end_bin: usize)
    requires
        start_bin <= end_bin < old(freq_domain).len(),
    ensures
        final(freq_domain)@.len() == old(freq_domain)@.len(),
        forall|j: int|
            0 <= j < old(freq_domain)@.len() ==> #[trigger] final(freq_domain)@[j] == if start_bin
                <= j <= end_bin {
                c_of_usize(0)
            } else {
                old(freq_domain)@[j]
            },
{
    let zero = c_from_usize(0);
    let len = freq_domain.len();
    let mut out: Vec<Complex32> = Vec::new();
    let mut i: usize = 0;
    while i < len
        invariant
            i <= len,
            len == old(freq_domain)@.len(),
            zero == c_of_usize(0),
            out@.len() == i,
            forall|j: int|
                0 <= j < i ==> #[trigger] out@[j] == if start_bin <= j <= end_bin {
                    c_of_usize(0)
                } else {
                    old(freq_domain)@[j]
                },
        decreases len - i,
    {
        if start_bin <= i && i <= end_bin {
            out.push(zero);
        } else {
            let kept = freq_domain[i];
            out.push(kept);
        }
        i = i + 1;
    }
    *freq_domain = out;
}

} // verus!
