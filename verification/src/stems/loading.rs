//! The phases of loading a song, and what the song panel shows for each.
use vstd::prelude::*;
use crate::text::concat;

verus! {

/// Where loading a song stands. Progress is given as a whole percentage.
#[derive(Clone, Debug)]
pub enum LoadingPhase {
    Idle { file_count: usize },
    Downloading { file_count: usize, stage_message: String },
    SeparatingStems {
        file_count: usize,
        stage_message: String,
        percent: i32,
        waveforms_completed: usize,
        waveforms_total: usize,
    },
    LoadingAudio { file_count: usize, stage_message: String, percent: i32 },
    GeneratingWaveforms {
        file_count: usize,
        stage_message: String,
        percent: i32,
        waveforms_completed: usize,
        waveforms_total: usize,
    },
    Complete { file_count: usize, all_waveforms_ready: bool },
    Failed { error_message: String, file_count: usize },
}

/// The name of a phase.
pub open spec fn phase_name(p: LoadingPhase) -> Seq<char> {
    match p {
        LoadingPhase::Idle { .. } => "Idle"@,
        LoadingPhase::Downloading { .. } => "Downloading"@,
        LoadingPhase::SeparatingStems { .. } => "SeparatingStems"@,
        LoadingPhase::LoadingAudio { .. } => "LoadingAudio"@,
        LoadingPhase::GeneratingWaveforms { .. } => "GeneratingWaveforms"@,
        LoadingPhase::Complete { .. } => "Complete"@,
        LoadingPhase::Failed { .. } => "Failed"@,
    }
}

/// The message of a phase: its stage message while working, `Complete` when done, the
/// error when failed, and nothing when idle.
pub open spec fn phase_message(p: LoadingPhase) -> Seq<char> {
    match p {
        LoadingPhase::Idle { .. } => Seq::empty(),
        LoadingPhase::Downloading { stage_message, .. } => stage_message@,
        LoadingPhase::SeparatingStems { stage_message, .. } => stage_message@,
        LoadingPhase::LoadingAudio { stage_message, .. } => stage_message@,
        LoadingPhase::GeneratingWaveforms { stage_message, .. } => stage_message@,
        LoadingPhase::Complete { .. } => "Complete"@,
        LoadingPhase::Failed { error_message, .. } => error_message@,
    }
}

/// The number of files of a phase.
pub open spec fn phase_file_count(p: LoadingPhase) -> usize {
    match p {
        LoadingPhase::Idle { file_count } => file_count,
        LoadingPhase::Downloading { file_count, .. } => file_count,
        LoadingPhase::SeparatingStems { file_count, .. } => file_count,
        LoadingPhase::LoadingAudio { file_count, .. } => file_count,
        LoadingPhase::GeneratingWaveforms { file_count, .. } => file_count,
        LoadingPhase::Complete { file_count, .. } => file_count,
        LoadingPhase::Failed { file_count, .. } => file_count,
    }
}

/// Whether a phase is still at work.
pub open spec fn phase_is_loading(p: LoadingPhase) -> bool {
    ||| p is Downloading
    ||| p is SeparatingStems
    ||| p is LoadingAudio
    ||| p is GeneratingWaveforms
}

impl LoadingPhase {
    /// The name of the phase.
    pub fn as_string(&self) -> (s: String)
        ensures
            s@ == phase_name(*self),
    {
        proof {
            reveal_strlit("Idle");
            reveal_strlit("Downloading");
            reveal_strlit("SeparatingStems");
            reveal_strlit("LoadingAudio");
            reveal_strlit("GeneratingWaveforms");
            reveal_strlit("Complete");
            reveal_strlit("Failed");
        }
        match self {
            LoadingPhase::Idle { .. } => String::from_str("Idle"),
            LoadingPhase::Downloading { .. } => String::from_str("Downloading"),
            LoadingPhase::SeparatingStems { .. } => String::from_str("SeparatingStems"),
            LoadingPhase::LoadingAudio { .. } => String::from_str("LoadingAudio"),
            LoadingPhase::GeneratingWaveforms { .. } => String::from_str("GeneratingWaveforms"),
            LoadingPhase::Complete { .. } => String::from_str("Complete"),
            LoadingPhase::Failed { .. } => String::from_str("Failed"),
        }
    }

    /// The message the phase shows.
    pub fn display_message(&self) -> (s: String)
        ensures
            s@ == phase_message(*self),
    {
        match self {
            LoadingPhase::Idle { .. } => String::new(),
            LoadingPhase::Downloading { stage_message, .. } => stage_message.clone(),
            LoadingPhase::SeparatingStems { stage_message, .. } => stage_message.clone(),
            LoadingPhase::LoadingAudio { stage_message, .. } => stage_message.clone(),
            LoadingPhase::GeneratingWaveforms { stage_message, .. } => stage_message.clone(),
            LoadingPhase::Complete { .. } => String::from_str("Complete"),
            LoadingPhase::Failed { error_message, .. } => error_message.clone(),
        }
    }

    /// The number of files being loaded.
    pub fn file_count(&self) -> (n: usize)
        ensures
            n == phase_file_count(*self),
    {
        match self {
            LoadingPhase::Idle { file_count } => *file_count,
            LoadingPhase::Downloading { file_count, .. } => *file_count,
            LoadingPhase::SeparatingStems { file_count, .. } => *file_count,
            LoadingPhase::LoadingAudio { file_count, .. } => *file_count,
            LoadingPhase::GeneratingWaveforms { file_count, .. } => *file_count,
            LoadingPhase::Complete { file_count, .. } => *file_count,
            LoadingPhase::Failed { file_count, .. } => *file_count,
        }
    }

    /// Whether loading is at work: downloading, separating, loading or analysing.
    pub fn is_loading(&self) -> (b: bool)
        ensures
            b == phase_is_loading(*self),
    {
        match self {
            LoadingPhase::Downloading { .. } => true,
            LoadingPhase::SeparatingStems { .. } => true,
            LoadingPhase::LoadingAudio { .. } => true,
            LoadingPhase::GeneratingWaveforms { .. } => true,
            _ => false,
        }
    }
}

/// Decimal digits of a natural number, most significant first.
pub open spec fn digits(n: nat) -> Seq<char>
    decreases n,
{
    if n < 10 {
        seq![digit_char(n)]
    } else {
        digits(n / 10).push(digit_char(n % 10))
    }
}

/// The character of a decimal digit.
pub open spec fn digit_char(d: nat) -> char {
    (('0' as u32) + d) as char
}

/// Decimal text of an integer, with a leading `-` when negative.
pub open spec fn decimal(n: int) -> Seq<char> {
    if n < 0 {
        seq!['-'] + digits((-n) as nat)
    } else {
        digits(n as nat)
    }
}

/// The decimal text of a 32-bit integer.
pub fn decimal_text(n: i32) -> (s: String)
    ensures
        s@ == decimal(n as int),
{
    let negative = n < 0;
    let mut m: u32 = if negative {
        if n == i32::MIN {
            2147483648u32
        } else {
            (-n) as u32
        }
    } else {
        n as u32
    };
    let ghost total: nat = m as nat;
    assert(total == (if negative { -(n as int) } else { n as int }));
    let mut rev: Vec<char> = Vec::new();
    assert(rev@.reverse() =~= Seq::<char>::empty());
    assert(digits(m as nat) + rev@.reverse() =~= digits(m as nat));
    while m >= 10
        invariant
            total == (if negative { -(n as int) } else { n as int }),
            digits(total) == digits(m as nat) + rev@.reverse(),
        decreases m,
    {
        let c = char_of_digit(m % 10);
        let ghost before = rev@;
        rev.push(c);
        proof {
            assert(digits(m as nat) == digits((m / 10) as nat).push(digit_char((m % 10) as nat)));
            assert(rev@.reverse() =~= seq![c] + before.reverse());
            assert(digits(m as nat) + before.reverse() =~= digits((m / 10) as nat) + rev@.reverse());
        }
        m = m / 10;
    }
    let c = char_of_digit(m);
    let ghost before = rev@;
    rev.push(c);
    proof {
        assert(digits(m as nat) =~= seq![c]);
        assert(rev@.reverse() =~= seq![c] + before.reverse());
        assert(digits(total) =~= rev@.reverse());
    }
    let mut out: Vec<char> = Vec::new();
    if negative {
        out.push('-');
    }
    let ghost prefix = out@;
    assert(rev@.reverse().take(0) =~= Seq::<char>::empty());
    assert(out@ =~= prefix + rev@.reverse().take(0));
    let mut i: usize = rev.len();
    while i > 0
        invariant
            i <= rev@.len(),
            out@ == prefix + rev@.reverse().take(rev@.len() - i),
        decreases i,
    {
        i = i - 1;
        out.push(rev[i]);
        assert(rev@.reverse().take(rev@.len() - i) =~= rev@.reverse().take(rev@.len() - i - 1).push(
            rev@[i as int],
        ));
    }
    assert(rev@.reverse().take(rev@.len() as int) =~= rev@.reverse());
    crate::text::string_from_chars(out.as_slice())
}

/// The character of a digit below ten.
fn char_of_digit(d: u32) -> (c: char)
    requires
        d < 10,
    ensures
        c == digit_char(d as nat),
{
    if d == 0 { '0' } else if d == 1 { '1' } else if d == 2 { '2' } else if d == 3 { '3' } else if d
        == 4 { '4' } else if d == 5 { '5' } else if d == 6 { '6' } else if d == 7 { '7' } else if d
        == 8 { '8' } else { '9' }
}

/// The texts a song panel shows: artist, title, status, and whether the status shows.
#[derive(Clone, Debug)]
pub struct LoadSongDisplay {
    pub artist_text: String,
    pub title_text: String,
    pub status_text: String,
    pub status_visible: bool,
}

/// What a loaded song shows: its title and artist (placeholders when unknown), and its
/// tempo text when it has one.
#[derive(Clone, Debug)]
pub struct SongText {
    pub title: String,
    pub artist: String,
    pub bpm_text: Option<String>,
}

/// The panel of a phase: nothing while idle; the stage message while downloading; a
/// title and the percentage while separating, loading or analysing; the song's title,
/// artist and tempo (or `Ready`) when complete, with `(title)` and `(artist)` for a song
/// without metadata; a failure title, with no status, when failed.
pub open spec fn panel_of(p: LoadingPhase, song: Option<SongText>) -> (Seq<char>, Seq<char>, Seq<char>, bool) {
    match p {
        LoadingPhase::Idle { .. } => (Seq::empty(), Seq::empty(), Seq::empty(), false),
        LoadingPhase::Downloading { stage_message, .. } => (
            Seq::empty(),
            "Downloading audio..."@,
            stage_message@,
            true,
        ),
        LoadingPhase::SeparatingStems { percent, .. } => (
            Seq::empty(),
            "Separating audio..."@,
            decimal(percent as int) + "%"@,
            true,
        ),
        LoadingPhase::LoadingAudio { percent, .. } => (
            Seq::empty(),
            "Loading audio files..."@,
            decimal(percent as int) + "%"@,
            true,
        ),
        LoadingPhase::GeneratingWaveforms { percent, .. } => (
            Seq::empty(),
            "Analyzing audio..."@,
            decimal(percent as int) + "%"@,
            true,
        ),
        LoadingPhase::Complete { .. } => match song {
            Some(s) => (
                s.artist@,
                s.title@,
                match s.bpm_text {
                    Some(b) => b@,
                    None => "Ready"@,
                },
                true,
            ),
            None => ("(artist)"@, "(title)"@, "Ready"@, true),
        },
        LoadingPhase::Failed { .. } => (Seq::empty(), "Failed to load"@, Seq::empty(), false),
    }
}

/// The percentage text of a phase.
fn percent_text(percent: i32) -> (s: String)
    ensures
        s@ == decimal(percent as int) + "%"@,
{
    let d = decimal_text(percent);
    concat(d.as_str(), "%")
}

impl LoadSongDisplay {
    /// The panel for a loading phase and, once loaded, the song's texts.
    pub fn new(phase: &LoadingPhase, song: &Option<SongText>) -> (d: LoadSongDisplay)
        ensures
            (d.artist_text@, d.title_text@, d.status_text@, d.status_visible) == panel_of(*phase, *song),
    {
        match phase {
            LoadingPhase::Idle { .. } => LoadSongDisplay {
                artist_text: String::new(),
                title_text: String::new(),
                status_text: String::new(),
                status_visible: false,
            },
            LoadingPhase::Downloading { stage_message, .. } => LoadSongDisplay {
                artist_text: String::new(),
                title_text: String::from_str("Downloading audio..."),
                status_text: stage_message.clone(),
                status_visible: true,
            },
            LoadingPhase::SeparatingStems { percent, .. } => LoadSongDisplay {
                artist_text: String::new(),
                title_text: String::from_str("Separating audio..."),
                status_text: percent_text(*percent),
                status_visible: true,
            },
            LoadingPhase::LoadingAudio { percent, .. } => LoadSongDisplay {
                artist_text: String::new(),
                title_text: String::from_str("Loading audio files..."),
                status_text: percent_text(*percent),
                status_visible: true,
            },
            LoadingPhase::GeneratingWaveforms { percent, .. } => LoadSongDisplay {
                artist_text: String::new(),
                title_text: String::from_str("Analyzing audio..."),
                status_text: percent_text(*percent),
                status_visible: true,
            },
            LoadingPhase::Complete { .. } => match song {
                Some(s) => LoadSongDisplay {
                    artist_text: s.artist.clone(),
                    title_text: s.title.clone(),
                    status_text: match &s.bpm_text {
                        Some(b) => b.clone(),
                        None => String::from_str("Ready"),
                    },
                    status_visible: true,
                },
                None => LoadSongDisplay {
                    artist_text: String::from_str("(artist)"),
                    title_text: String::from_str("(title)"),
                    status_text: String::from_str("Ready"),
                    status_visible: true,
                },
            },
            LoadingPhase::Failed { .. } => LoadSongDisplay {
                artist_text: String::new(),
                title_text: String::from_str("Failed to load"),
                status_text: String::new(),
                status_visible: false,
            },
        }
    }
}

} // verus!
