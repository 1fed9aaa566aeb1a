//! Spectral analysis: the analyzer and the number of frequency bands it reports.
use vstd::prelude::*;

verus! {

/// Number of frequency bands of a spectral analysis.
pub const FREQUENCY_BANDS: usize = 64;

/// The spectral analyzer. It holds no state.
pub struct SpectralAnalyzer;

impl SpectralAnalyzer {
    /// A new analyzer.
    pub fn new() -> (a: SpectralAnalyzer)
        ensures
            a == SpectralAnalyzer,
    {
        SpectralAnalyzer
    }
}

impl Default for SpectralAnalyzer {
    /// The same analyzer as [`SpectralAnalyzer::new`].
    fn default() -> (a: SpectralAnalyzer)
        ensures
            a == SpectralAnalyzer,
    {
        SpectralAnalyzer::new()
    }
}

} // verus!
