//! Integer bookkeeping of multi-stem playback: which stems an engine loads, where a
//! frame's samples lie in a file, and how long the longest file plays.
use vstd::prelude::*;

verus! {

/// Number of stems marked present among `stems`.
pub open spec fn present_count(stems: Seq<(String, bool)>) -> nat
    decreases stems.len(),
{
    if stems.len() == 0 {
        0
    } else {
        present_count(stems.drop_last()) + if stems.last().1 { 1nat } else { 0nat }
    }
}

/// The paths of the stems marked present, in order.
pub open spec fn present_paths(stems: Seq<(String, bool)>) -> Seq<Seq<char>>
    decreases stems.len(),
{
    if stems.len() == 0 {
        Seq::empty()
    } else if stems.last().1 {
        present_paths(stems.drop_last()).push(stems.last().0@)
    } else {
        present_paths(stems.drop_last())
    }
}

/// Which stems a song loads into its playback engine.
pub struct StemLoadPlan {
    /// The files given to the engine, in stem order.
    pub load_list: Vec<String>,
    /// For each stem, its file's position among the engine's files, if it is loaded.
    pub engine_index_map: Vec<Option<usize>>,
    /// For each stem, whether its waveform is missing from the start.
    pub waveform_failures: Vec<bool>,
}

/// The texts of a list of strings.
pub open spec fn texts_of(v: Seq<String>) -> Seq<Seq<char>> {
    v.map_values(|s: String| s@)
}

/// Plans the engine's files from the stems of a song, each with its path and whether its
/// file is present: present stems are loaded in order, each mapped to its position among
/// the loaded files; missing stems are mapped to nothing and marked as failed waveforms.
#[verifier::spinoff_prover]
pub fn plan_stem_loading(stems: &Vec<(String, bool)>) -> (plan: StemLoadPlan)
    ensures
        texts_of(plan.load_list@) == present_paths(stems@),
        plan.engine_index_map@.len() == stems@.len(),
        plan.waveform_failures@.len() == stems@.len(),
        forall|i: int|
            0 <= i < stems@.len() ==> {
                &&& #[trigger] plan.waveform_failures@[i] == !stems@[i].1
                &&& (plan.engine_index_map@[i] is Some) == stems@[i].1
                &&& plan.engine_index_map@[i] matches Some(p) ==> p == present_count(stems@.take(i))
            },
{
    let mut load_list: Vec<String> = Vec::new();
    let mut engine_index_map: Vec<Option<usize>> = Vec::new();
    let mut waveform_failures: Vec<bool> = Vec::new();
    let mut i: usize = 0;
    while i < stems.len()
        invariant
            i <= stems@.len(),
            texts_of(load_list@) == present_paths(stems@.take(i as int)),
            load_list@.len() == present_count(stems@.take(i as int)),
            engine_index_map@.len() == i,
            waveform_failures@.len() == i,
            forall|q: int|
                0 <= q < i ==> {
                    &&& #[trigger] waveform_failures@[q] == !stems@[q].1
                    &&& (engine_index_map@[q] is Some) == stems@[q].1
                    &&& engine_index_map@[q] matches Some(p) ==> p == present_count(stems@.take(q))
                },
        decreases stems.len() - i,
    {
        proof {
            assert(stems@.take(i + 1).drop_last() =~= stems@.take(i as int));
            assert(stems@.take(i + 1).last() == stems@[i as int]);
        }
        let present = stems[i].1;
        waveform_failures.push(!present);
        if present {
            engine_index_map.push(Some(load_list.len()));
            let ghost lb = load_list@;
            load_list.push(stems[i].0.clone());
            proof {
                assert(texts_of(load_list@) =~= texts_of(lb).push(stems@[i as int].0@));
            }
        } else {
            engine_index_map.push(None);
        }
        i = i + 1;
    }
    proof {
        assert(stems@.take(stems@.len() as int) =~= stems@);
    }
    StemLoadPlan { load_list, engine_index_map, waveform_failures }
}

/// The greatest number of frames (samples per channel) among files, 0 for none.
pub open spec fn longest_frames(files: Seq<(usize, u16)>) -> int
    decreases files.len(),
{
    if files.len() == 0 {
        0
    } else {
        let rest = longest_frames(files.drop_last());
        let f = files.last().0 as int / files.last().1 as int;
        if f > rest {
            f
        } else {
            rest
        }
    }
}

/// The length of the longest file in frames, from each file's sample count and channel
/// count; 0 with no files.
pub fn max_duration_frames(files: &Vec<(usize, u16)>) -> (n: usize)
    requires
        forall|i: int| 0 <= i < files@.len() ==> (#[trigger] files@[i]).1 > 0,
    ensures
        n == longest_frames(files@),
{
    let mut best: usize = 0;
    let mut i: usize = 0;
    while i < files.len()
        invariant
            i <= files@.len(),
            forall|q: int| 0 <= q < files@.len() ==> (#[trigger] files@[q]).1 > 0,
            best == longest_frames(files@.take(i as int)),
        decreases files.len() - i,
    {
        proof {
            assert(files@.take(i + 1).drop_last() =~= files@.take(i as int));
            assert(files@.take(i + 1).last() == files@[i as int]);
        }
        let frames = files[i].0 / (files[i].1 as usize);
        if frames > best {
            best = frames;
        }
        i = i + 1;
    }
    assert(files@.take(files@.len() as int) =~= files@);
    best
}

/// Where the samples of a frame lie in a file with `channels` channels and `sample_count`
/// samples: a mono file gives the one sample for both sides, a stereo file its left and
/// right samples; nothing past the end of the file, or for other channel counts.
pub open spec fn frame_samples(frame: int, channels: int, sample_count: int) -> Option<(int, int)> {
    if channels == 1 {
        if frame < sample_count {
            Some((frame, frame))
        } else {
            None
        }
    } else if channels == 2 {
        if 2 * frame + 1 < sample_count {
            Some((2 * frame, 2 * frame + 1))
        } else {
            None
        }
    } else {
        None
    }
}

/// The positions of the left and right samples of a frame in a file.
pub fn frame_sample_indices(frame: usize, channels: u16, sample_count: usize) -> (r: Option<(usize, usize)>)
    requires
        2 * frame + 1 <= usize::MAX,
    ensures
        match r {
            Some((a, b)) => frame_samples(frame as int, channels as int, sample_count as int) == Some((a as int, b as int)),
            None => frame_samples(frame as int, channels as int, sample_count as int) is None,
        },
{
    if channels == 1 {
        if frame < sample_count {
            Some((frame, frame))
        } else {
            None
        }
    } else if channels == 2 {
        let left = frame * 2;
        if left + 1 < sample_count {
            Some((left, left + 1))
        } else {
            None
        }
    } else {
        None
    }
}

/// A command to the playback transport; the seek target is already in frames.
#[derive(Clone, Copy, Debug, PartialEq, Eq, Structural)]
pub enum TransportCommand {
    Play,
    Pause,
    Stop,
    SeekFrames(usize),
}

/// Whether the engine plays, and the frame it plays from.
#[derive(Clone, Copy, Debug, PartialEq, Eq, Structural)]
pub struct Transport {
    pub is_playing: bool,
    pub position: usize,
}

/// `a + b`, wrapping around at `usize::MAX` as an atomic add does.
pub open spec fn wrapping_add_usize(a: int, b: int) -> int {
    if a + b > usize::MAX {
        a + b - usize::MAX - 1
    } else {
        a + b
    }
}

impl Transport {
    /// Stopped at the start.
    pub fn new() -> (t: Transport)
        ensures
            t == (Transport { is_playing: false, position: 0 }),
    {
        Transport { is_playing: false, position: 0 }
    }

    /// Applies a command: play and pause keep the position; stop also rewinds to the
    /// start; a seek moves to the given frame and keeps playing or pausing.
    pub fn apply(&mut self, command: TransportCommand)
        ensures
            final(self).is_playing == match command {
                TransportCommand::Play => true,
                TransportCommand::Pause | TransportCommand::Stop => false,
                TransportCommand::SeekFrames(_) => old(self).is_playing,
            },
            final(self).position == match command {
                TransportCommand::Stop => 0,
                TransportCommand::SeekFrames(f) => f,
                _ => old(self).position,
            },
    {
        match command {
            TransportCommand::Play => {
                self.is_playing = true;
            },
            TransportCommand::Pause => {
                self.is_playing = false;
            },
            TransportCommand::Stop => {
                self.is_playing = false;
                self.position = 0;
            },
            TransportCommand::SeekFrames(f) => {
                self.position = f;
            },
        }
    }

    /// Accounts for a buffer of `frames` frames played: nothing moves while paused;
    /// otherwise the position moves on by `frames` (wrapping), and playing stops once it
    /// reaches `end`, the length of the longest file.
    pub fn advance(&mut self, frames: usize, end: usize)
        ensures
            !old(self).is_playing ==> *final(self) == *old(self),
            old(self).is_playing ==> {
                &&& final(self).position == wrapping_add_usize(old(self).position as int, frames as int)
                &&& final(self).is_playing == (final(self).position < end)
            },
    {
        if !self.is_playing {
            return;
        }
        self.position = if self.position <= usize::MAX - frames {
            self.position + frames
        } else {
            frames - (usize::MAX - self.position) - 1
        };
        if self.position >= end {
            self.is_playing = false;
        }
    }
}

/// What loading a single song file comes to, once its path is known and its stems were
/// looked for.
#[derive(Debug)]
pub enum SingleFileStep {
    /// Loading stops with this error message.
    Fail(String),
    /// Some stem is missing on disk: the song is separated into stems first.
    Separate,
    /// Every stem is on disk: the stems are loaded.
    LoadStems,
}

/// Whether every stem of the list is present on disk.
pub open spec fn all_present(stems: Seq<(String, bool)>) -> bool {
    forall|i: int| 0 <= i < stems.len() ==> (#[trigger] stems[i]).1
}

/// Decides how loading a single song file goes on: an empty path and a path to no file
/// fail with their messages; a song with no stems found fails; a song with a stem missing
/// on disk is separated first; otherwise its stems are loaded. `stems` holds the path of
/// each stem found and whether it is on disk.
pub fn single_file_step(path: &str, path_exists: bool, stems: &Vec<(String, bool)>) -> (step: SingleFileStep)
    ensures
        path@.len() == 0 ==> (step matches SingleFileStep::Fail(m) && m@ == "File path is empty"@),
        path@.len() > 0 && !path_exists ==> (step matches SingleFileStep::Fail(m) && m@
            == "File does not exist: "@ + path@),
        path@.len() > 0 && path_exists && stems@.len() == 0 ==> (step matches SingleFileStep::Fail(m)
            && m@ == "No valid stem files found"@),
        path@.len() > 0 && path_exists && stems@.len() > 0 ==> (step is Separate <==> !all_present(
            stems@,
        )),
        path@.len() > 0 && path_exists && stems@.len() > 0 ==> (step is LoadStems <==> all_present(
            stems@,
        )),
{
    if crate::text::chars_of(path).len() == 0 {
        return SingleFileStep::Fail(String::from_str("File path is empty"));
    }
    if !path_exists {
        return SingleFileStep::Fail(crate::text::concat("File does not exist: ", path));
    }
    if stems.len() == 0 {
        return SingleFileStep::Fail(String::from_str("No valid stem files found"));
    }
    let mut i: usize = 0;
    while i < stems.len()
        invariant
            i <= stems@.len(),
            path@.len() > 0,
            path_exists,
            forall|k: int| 0 <= k < i ==> (#[trigger] stems@[k]).1,
        decreases stems.len() - i,
    {
        if !stems[i].1 {
            return SingleFileStep::Separate;
        }
        i = i + 1;
    }
    SingleFileStep::LoadStems
}

} // verus!
