//! Audio devices, filter kinds, the integer side of WAV loading, and stem discovery.
use vstd::prelude::*;
use crate::paths::{opt_text, path_exists, path_join, path_parent, path_stem, joined_path, parent_path, path_file_stem};
use crate::stems::constants::{StemType, spec_display_order, spec_stem_file_name};
use crate::text::concat;

verus! {

/// An audio output device: its name and whether it is the host's default device.
#[derive(Debug, Clone)]
pub struct AudioDevice {
    pub name: String,
    pub is_default: bool,
}

impl AudioDevice {
    /// How the device is shown: its name, followed by ` (Default)` for the default device.
    pub fn label(&self) -> (s: String)
        ensures
            s@ == if self.is_default {
                self.name@ + " (Default)"@
            } else {
                self.name@
            },
    {
        if self.is_default {
            concat(self.name.as_str(), " (Default)")
        } else {
            self.name.clone()
        }
    }
}

/// The response of a biquad filter.
#[derive(Clone, Copy, Debug, PartialEq, Eq, Structural)]
pub enum FilterKind {
    LowPass,
    HighPass,
}

/// Loads WAV files; this part holds the integer computations of loading.
pub struct WavLoader;

/// Offset of the sample data in a WAV file with the basic 44-byte header.
pub const WAV_DATA_OFFSET: usize = 44;

/// Most seconds of audio a memory-mapped file exposes.
pub const MAPPED_MAX_SECONDS: u64 = 300;

/// Sum of `len` consecutive samples of `s` from `start`.
pub open spec fn frame_sum(s: Seq<i16>, start: int, len: int) -> int
    decreases len,
{
    if len <= 0 {
        0
    } else {
        frame_sum(s, start, len - 1) + s[start + len - 1]
    }
}

/// `a / b` for `b > 0`, rounded to the nearest integer, halves away from zero.
pub open spec fn div_round(a: int, b: int) -> int {
    if a >= 0 {
        (2 * a + b) / (2 * b)
    } else {
        -((-2 * a + b) / (2 * b))
    }
}

/// The mono mix of interleaved samples with `channels` channels: for each complete frame,
/// the mean of its samples rounded to the nearest integer (halves away from zero). A
/// trailing incomplete frame is dropped.
pub open spec fn mono_mix(s: Seq<i16>, channels: int) -> Seq<i16> {
    Seq::new(
        ((s.len() as int) / channels) as nat,
        |f: int| div_round(frame_sum(s, f * channels, channels), channels) as i16,
    )
}

/// A frame sum lies between the sums of all-minimum and all-maximum samples.
proof fn lemma_frame_sum_bounds(s: Seq<i16>, start: int, len: int)
    requires
        0 <= start,
        0 <= len,
        start + len <= s.len(),
    ensures
        -32768 * len <= frame_sum(s, start, len) <= 32767 * len,
    decreases len,
{
    if len > 0 {
        lemma_frame_sum_bounds(s, start, len - 1);
    }
}

/// Mixing down a single channel gives the samples back unchanged.
pub proof fn lemma_mono_mix_single_channel(s: Seq<i16>)
    ensures
        mono_mix(s, 1) == s,
{
    assert forall|f: int| 0 <= f < s.len() implies #[trigger] mono_mix(s, 1)[f] == s[f] by {
        assert(frame_sum(s, f, 0) == 0);
        assert(frame_sum(s, f * 1, 1) == s[f]);
    }
    assert(mono_mix(s, 1) =~= s);
}

/// Little-endian 16-bit signed value of two bytes.
pub open spec fn le_i16(lo: u8, hi: u8) -> int {
    let u = lo + 256 * hi;
    if u >= 32768 {
        u - 65536
    } else {
        u
    }
}

/// The sample a memory-mapped file gives at `index`: 0 past the sample count or past the
/// end of the bytes, else the little-endian value at `data_offset + 2 * index`.
pub open spec fn mapped_sample_value(
    bytes: Seq<u8>,
    data_offset: int,
    sample_count: int,
    index: int,
) -> int {
    let at = data_offset + 2 * index;
    if index >= sample_count || at + 1 >= bytes.len() {
        0
    } else {
        le_i16(bytes[at], bytes[at + 1])
    }
}

impl WavLoader {
    /// Mixes interleaved 16-bit samples down to mono, averaging each complete frame with
    /// rounding to the nearest value (halves away from zero). Zero channels is an error.
    pub fn mono_from_interleaved_i16(samples: &Vec<i16>, channels: u16) -> (r: Result<
        Vec<i16>,
        String,
    >)
        ensures
            channels == 0 ==> (r matches Err(e) && e@ == "WAV reports zero channels"@),
            channels > 0 ==> (r matches Ok(m) && m@ == mono_mix(samples@, channels as int)),
    {
        if channels == 0 {
            return Err(String::from_str("WAV reports zero channels"));
        }
        let ch = channels as usize;
        let total = samples.len();
        let frames = total / ch;
        let mut mono: Vec<i16> = Vec::new();
        let mut f: usize = 0;
        while f < frames
            invariant
                ch == channels as usize,
                ch > 0,
                total == samples@.len(),
                frames == (samples@.len() as int) / (ch as int),
                f <= frames,
                mono@.len() == f,
                forall|g: int| 0 <= g < f ==> #[trigger] mono@[g] == mono_mix(samples@, ch as int)[g],
            decreases frames - f,
        {
            proof {
                assert(f * ch + ch <= samples@.len()) by (nonlinear_arith)
                    requires
                        f < frames,
                        frames == (samples@.len() as int) / (ch as int),
                        ch > 0,
                ;
            }
            let start = f * ch;
            let mut sum: i32 = 0;
            let mut c: usize = 0;
            while c < ch
                invariant
                    c <= ch,
                    ch <= 65535,
                    start + ch <= samples@.len(),
                    samples@.len() <= usize::MAX,
                    sum == frame_sum(samples@, start as int, c as int),
                decreases ch - c,
            {
                proof {
                    lemma_frame_sum_bounds(samples@, start as int, c as int);
                }
                sum = sum + samples[start + c] as i32;
                c = c + 1;
            }
            proof {
                lemma_frame_sum_bounds(samples@, start as int, ch as int);
            }
            let twice: i64 = 2 * (sum as i64);
            let den: i64 = 2 * (ch as i64);
            let avg: i64 = if sum >= 0 {
                (twice + ch as i64) / den
            } else {
                -((-twice + ch as i64) / den)
            };
            proof {
                let cc = ch as int;
                let s = sum as int;
                assert(-32768 <= avg <= 32767) by (nonlinear_arith)
                    requires
                        -32768 * cc <= s <= 32767 * cc,
                        cc > 0,
                        avg == div_round(s, cc),
                ;
            }
            mono.push(avg as i16);
            f = f + 1;
        }
        proof {
            assert(mono@ =~= mono_mix(samples@, ch as int));
        }
        Ok(mono)
    }

    /// Number of 16-bit samples a memory-mapped WAV file exposes: the samples after the
    /// header, at most five minutes of audio at the file's rate and channel count.
    pub fn mapped_sample_count(file_len: usize, channels: u16, sample_rate: u32) -> (n: usize)
        requires
            file_len >= WAV_DATA_OFFSET,
        ensures
            n == if (file_len - WAV_DATA_OFFSET) / 2 <= channels * sample_rate * MAPPED_MAX_SECONDS {
                (file_len - WAV_DATA_OFFSET) / 2
            } else {
                channels * sample_rate * MAPPED_MAX_SECONDS
            },
    {
        let available = (file_len - WAV_DATA_OFFSET) / 2;
        proof {
            assert(channels * sample_rate <= 65535 * 4294967295u64) by (nonlinear_arith)
                requires
                    channels <= 65535,
                    sample_rate <= 4294967295u64,
            ;
        }
        let cap: u64 = (channels as u64) * (sample_rate as u64) * MAPPED_MAX_SECONDS;
        if (available as u64) <= cap {
            available
        } else {
            cap as usize
        }
    }

    /// The sample of a memory-mapped file at `index`, as a signed 16-bit value; 0 past
    /// the sample count or past the end of the bytes.
    pub fn mapped_sample(bytes: &[u8], data_offset: usize, sample_count: usize, index: usize) -> (v: i16)
        requires
            data_offset + 2 * sample_count <= usize::MAX,
        ensures
            v == mapped_sample_value(bytes@, data_offset as int, sample_count as int, index as int),
    {
        if index >= sample_count {
            return 0;
        }
        let at = data_offset + index * 2;
        if at + 1 >= bytes.len() {
            return 0;
        }
        let lo = bytes[at] as u32;
        let hi = bytes[at + 1] as u32;
        let u: u32 = lo + 256 * hi;
        if u >= 32768 {
            ((u as i32) - 65536) as i16
        } else {
            u as i16
        }
    }
}

/// A stem file found for a song: where it is expected, which stem it holds, and whether
/// the file was there.
pub struct StemMatch {
    pub file_path: String,
    pub stem_type: StemType,
    pub exists: bool,
}

/// Finds the stem files of a song.
pub struct StemDiscovery;

/// File name of a stem's audio file: its base name with the `.wav` extension.
pub open spec fn stem_wav_name(stem: StemType) -> Seq<char> {
    spec_stem_file_name(stem) + ".wav"@
}

/// Where a stem of a song is expected: `<parent>/stems/<song>/<stem>.wav`.
pub open spec fn stem_file_path(parent: Seq<char>, song: Seq<char>, stem: StemType) -> Seq<char> {
    joined_path(joined_path(joined_path(parent, "stems"@), song), stem_wav_name(stem))
}

impl StemDiscovery {
    /// The song name and the folder of a full-mix file, from the file stem and the
    /// parent folder of its path: no stem, then no parent, are errors, in that order.
    pub fn song_and_folder(file_stem: Option<String>, parent: Option<String>) -> (r: Result<
        (String, String),
        String,
    >)
        ensures
            file_stem is None ==> (r matches Err(e) && e@
                == "Could not extract song name from file path"@),
            file_stem is Some && parent is None ==> (r matches Err(e) && e@
                == "Could not determine parent directory"@),
            file_stem is Some && parent is Some ==> (r matches Ok(p) && p.0@ == file_stem->0@
                && p.1@ == parent->0@),
    {
        let song = match file_stem {
            Some(s) => s,
            None => {
                return Err(String::from_str("Could not extract song name from file path"));
            },
        };
        let folder = match parent {
            Some(p) => p,
            None => {
                return Err(String::from_str("Could not determine parent directory"));
            },
        };
        Ok((song, folder))
    }

    /// The stems of a full-mix song file, expected at `stems/<song>/<stem>.wav` beside it,
    /// in display order (vocals, bass, drums, other), each with whether its file exists.
    pub fn discover_stems_from_file(original_path: &str) -> (r: Result<Vec<StemMatch>, String>)
        ensures
            path_file_stem(original_path@) is None ==> (r matches Err(e) && e@
                == "Could not extract song name from file path"@),
            path_file_stem(original_path@) is Some && parent_path(original_path@) is None ==> (
            r matches Err(e) && e@ == "Could not determine parent directory"@),
            path_file_stem(original_path@) matches Some(song) ==> parent_path(original_path@) matches Some(parent) ==> (
            r matches Ok(v) && v@.len() == 4 && forall|i: int|
                0 <= i < 4 ==> {
                    &&& (#[trigger] v@[i]).stem_type == spec_display_order()[i]
                    &&& v@[i].file_path@ == stem_file_path(parent, song, spec_display_order()[i])
                }),
    {
        let file_stem = path_stem(original_path);
        let parent = path_parent(original_path);
        let (song, folder) = match Self::song_and_folder(file_stem, parent) {
            Ok(p) => p,
            Err(e) => {
                return Err(e);
            },
        };
        let stems_dir = path_join(path_join(folder.as_str(), "stems").as_str(), song.as_str());
        let order = StemType::DISPLAY_ORDER;
        let mut found: Vec<StemMatch> = Vec::new();
        let mut i: usize = 0;
        while i < 4
            invariant
                i <= 4,
                order@ == spec_display_order(),
                stems_dir@ == joined_path(joined_path(folder@, "stems"@), song@),
                found@.len() == i,
                forall|k: int|
                    0 <= k < i ==> {
                        &&& (#[trigger] found@[k]).stem_type == spec_display_order()[k]
                        &&& found@[k].file_path@ == joined_path(
                            stems_dir@,
                            stem_wav_name(spec_display_order()[k]),
                        )
                    },
            decreases 4 - i,
        {
            let stem = order[i];
            let file_name = concat(stem.file_name(), ".wav");
            let stem_path = path_join(stems_dir.as_str(), file_name.as_str());
            let exists = path_exists(stem_path.as_str());
            found.push(StemMatch { file_path: stem_path, stem_type: stem, exists });
            i = i + 1;
        }
        Ok(found)
    }
}

/// Placeholder shown for a song without a title.
pub const PLACEHOLDER_TITLE: &'static str = "Placeholder Title";

/// Placeholder shown for a song without an artist.
pub const PLACEHOLDER_ARTIST: &'static str = "Placeholder Artist";

/// A metadata text as shown: the text when there is one, the placeholder otherwise.
pub fn text_or_placeholder(text: &Option<String>, placeholder: &str) -> (shown: String)
    ensures
        shown@ == match text {
            Some(t) => t@,
            None => placeholder@,
        },
{
    match text {
        Some(t) => t.clone(),
        None => String::from_str(placeholder),
    }
}

} // verus!
