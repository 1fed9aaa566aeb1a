//! The stems of a song and the demo songs of the repository, with their file names.
use vstd::prelude::*;

verus! {

/// Stem types available in the separated audio files.
#[derive(Debug, Clone, Copy, PartialEq, Eq, Structural, Hash)]
pub enum StemType {
    Vocals,
    Bass,
    Drums,
    Other,
}

/// The order in which stems are displayed: vocals, bass, drums, other.
pub open spec fn spec_display_order() -> Seq<StemType> {
    seq![StemType::Vocals, StemType::Bass, StemType::Drums, StemType::Other]
}

/// Position of a stem in the display order.
pub open spec fn spec_stem_index(stem: StemType) -> nat {
    match stem {
        StemType::Vocals => 0,
        StemType::Bass => 1,
        StemType::Drums => 2,
        StemType::Other => 3,
    }
}

/// Base file name (without extension) of a stem's audio file.
pub open spec fn spec_stem_file_name(stem: StemType) -> Seq<char> {
    match stem {
        StemType::Drums => "drums"@,
        StemType::Vocals => "vocals"@,
        StemType::Other => "other"@,
        StemType::Bass => "bass"@,
    }
}

/// Name under which a stem is shown to the user.
pub open spec fn spec_stem_display_name(stem: StemType) -> Seq<char> {
    match stem {
        StemType::Drums => "drums"@,
        StemType::Vocals => "vocals"@,
        StemType::Other => "other"@,
        StemType::Bass => "bass"@,
    }
}

/// The stem at a position of the display order, if the position is in range.
pub open spec fn spec_stem_from_index(index: int) -> Option<StemType> {
    if 0 <= index < spec_display_order().len() {
        Some(spec_display_order()[index])
    } else {
        None
    }
}

impl StemType {
    /// Stems in display order: vocals, bass, drums, other.
    pub const DISPLAY_ORDER: [StemType; 4] = [
        StemType::Vocals,
        StemType::Bass,
        StemType::Drums,
        StemType::Other,
    ];

    pub fn file_name(self) -> (name: &'static str)
        ensures
            name@ == spec_stem_file_name(self),
    {
        match self {
            StemType::Drums => "drums",
            StemType::Vocals => "vocals",
            StemType::Other => "other",
            StemType::Bass => "bass",
        }
    }

    pub fn display_name(self) -> (name: &'static str)
        ensures
            name@ == spec_stem_display_name(self),
    {
        match self {
            StemType::Drums => "drums",
            StemType::Vocals => "vocals",
            StemType::Other => "other",
            StemType::Bass => "bass",
        }
    }

    pub fn into_index(self) -> (index: usize)
        ensures
            index == spec_stem_index(self),
    {
        match self {
            StemType::Vocals => 0,
            StemType::Bass => 1,
            StemType::Drums => 2,
            StemType::Other => 3,
        }
    }

    pub fn from_index(index: usize) -> (stem: Option<StemType>)
        ensures
            stem == spec_stem_from_index(index as int),
    {
        if index < 4 {
            Some(Self::DISPLAY_ORDER[index])
        } else {
            None
        }
    }
}

/// Looking a stem up by its own index gives the stem back.
pub proof fn lemma_from_index_of_into_index(stem: StemType)
    ensures
        spec_stem_from_index(spec_stem_index(stem) as int) == Some(stem),
{
}

/// Every index in range names a stem whose own index is that index; no other index names one.
pub proof fn lemma_into_index_of_from_index(index: int)
    ensures
        0 <= index < 4 <==> spec_stem_from_index(index) is Some,
        spec_stem_from_index(index) matches Some(stem) ==> spec_stem_index(stem) == index,
{
}

/// Available song datasets.
#[derive(Debug, Clone, PartialEq, Eq, Structural)]
pub enum SongDataset {
    Leikeli47Money,
    AlannahMylesBlackVelvet,
}

/// Title of a dataset, which is also the name of its directory of separated stems.
pub open spec fn spec_song_title(song: SongDataset) -> Seq<char> {
    match song {
        SongDataset::Leikeli47Money => "Leikeli47 - Money"@,
        SongDataset::AlannahMylesBlackVelvet => "Alannah Myles - Black Velvet 0"@,
    }
}

/// Folder holding the separated stems of every dataset, one folder per song title.
pub open spec fn spec_separated_dir() -> Seq<char> {
    "./demucs-sandbox/separated/htdemucs/"@
}

/// Path of the separated audio file of one stem of a dataset: the separated folder, the
/// song title, a `/`, the stem's file name and `.wav`.
pub open spec fn spec_stem_path(song: SongDataset, stem: StemType) -> Seq<char> {
    spec_separated_dir() + spec_song_title(song) + "/"@ + spec_stem_file_name(stem) + ".wav"@
}

/// The audio files the player knows: a test file, then the separated stems of each
/// dataset.
pub const WAV_FILES: [&'static str; 9] = [
    "./demucs-sandbox/ta_test.wav",
    "./demucs-sandbox/separated/htdemucs/Leikeli47 - Money/drums.wav",
    "./demucs-sandbox/separated/htdemucs/Leikeli47 - Money/vocals.wav",
    "./demucs-sandbox/separated/htdemucs/Leikeli47 - Money/other.wav",
    "./demucs-sandbox/separated/htdemucs/Leikeli47 - Money/bass.wav",
    "./demucs-sandbox/separated/htdemucs/Alannah Myles - Black Velvet 0/drums.wav",
    "./demucs-sandbox/separated/htdemucs/Alannah Myles - Black Velvet 0/vocals.wav",
    "./demucs-sandbox/separated/htdemucs/Alannah Myles - Black Velvet 0/other.wav",
    "./demucs-sandbox/separated/htdemucs/Alannah Myles - Black Velvet 0/bass.wav",
];

/// The stem path of every dataset and stem is one of the known audio files.
pub proof fn lemma_stem_path_is_known(song: SongDataset, stem: StemType)
    ensures
        exists|i: int| 0 <= i < 9 && (#[trigger] WAV_FILES[i])@ == spec_stem_path(song, stem),
{
    reveal_strlit("./demucs-sandbox/separated/htdemucs/");
    reveal_strlit("/");
    reveal_strlit(".wav");
    reveal_strlit("drums");
    reveal_strlit("vocals");
    reveal_strlit("other");
    reveal_strlit("bass");
    reveal_strlit("Leikeli47 - Money");
    reveal_strlit("Alannah Myles - Black Velvet 0");
    reveal_strlit("./demucs-sandbox/separated/htdemucs/Leikeli47 - Money/drums.wav");
    reveal_strlit("./demucs-sandbox/separated/htdemucs/Leikeli47 - Money/vocals.wav");
    reveal_strlit("./demucs-sandbox/separated/htdemucs/Leikeli47 - Money/other.wav");
    reveal_strlit("./demucs-sandbox/separated/htdemucs/Leikeli47 - Money/bass.wav");
    reveal_strlit("./demucs-sandbox/separated/htdemucs/Alannah Myles - Black Velvet 0/drums.wav");
    reveal_strlit("./demucs-sandbox/separated/htdemucs/Alannah Myles - Black Velvet 0/vocals.wav");
    reveal_strlit("./demucs-sandbox/separated/htdemucs/Alannah Myles - Black Velvet 0/other.wav");
    reveal_strlit("./demucs-sandbox/separated/htdemucs/Alannah Myles - Black Velvet 0/bass.wav");
    let i: int = match song {
        SongDataset::Leikeli47Money => match stem {
            StemType::Drums => 1,
            StemType::Vocals => 2,
            StemType::Other => 3,
            StemType::Bass => 4,
        },
        SongDataset::AlannahMylesBlackVelvet => match stem {
            StemType::Drums => 5,
            StemType::Vocals => 6,
            StemType::Other => 7,
            StemType::Bass => 8,
        },
    };
    assert(WAV_FILES[i]@ =~= spec_stem_path(song, stem));
}

impl SongDataset {
    pub fn as_str(&self) -> (title: &'static str)
        ensures
            title@ == spec_song_title(*self),
    {
        match self {
            SongDataset::Leikeli47Money => "Leikeli47 - Money",
            SongDataset::AlannahMylesBlackVelvet => "Alannah Myles - Black Velvet 0",
        }
    }

    pub fn get_stem_path(&self, stem: StemType) -> (path: &'static str)
        ensures
            path@ == spec_stem_path(*self, stem),
    {
        let path = match self {
            SongDataset::Leikeli47Money => match stem {
                StemType::Vocals => {
                    "./demucs-sandbox/separated/htdemucs/Leikeli47 - Money/vocals.wav"
                },
                StemType::Other => {
                    "./demucs-sandbox/separated/htdemucs/Leikeli47 - Money/other.wav"
                },
                StemType::Bass => "./demucs-sandbox/separated/htdemucs/Leikeli47 - Money/bass.wav",
                StemType::Drums => {
                    "./demucs-sandbox/separated/htdemucs/Leikeli47 - Money/drums.wav"
                },
            },
            SongDataset::AlannahMylesBlackVelvet => match stem {
                StemType::Vocals => {
                    "./demucs-sandbox/separated/htdemucs/Alannah Myles - Black Velvet 0/vocals.wav"
                },
                StemType::Other => {
                    "./demucs-sandbox/separated/htdemucs/Alannah Myles - Black Velvet 0/other.wav"
                },
                StemType::Bass => {
                    "./demucs-sandbox/separated/htdemucs/Alannah Myles - Black Velvet 0/bass.wav"
                },
                StemType::Drums => {
                    "./demucs-sandbox/separated/htdemucs/Alannah Myles - Black Velvet 0/drums.wav"
                },
            },
        };
        proof {
            reveal_strlit("./demucs-sandbox/separated/htdemucs/");
            reveal_strlit("/");
            reveal_strlit(".wav");
            reveal_strlit("drums");
            reveal_strlit("vocals");
            reveal_strlit("other");
            reveal_strlit("bass");
            reveal_strlit("Leikeli47 - Money");
            reveal_strlit("Alannah Myles - Black Velvet 0");
            reveal_strlit("./demucs-sandbox/separated/htdemucs/Leikeli47 - Money/drums.wav");
            reveal_strlit("./demucs-sandbox/separated/htdemucs/Leikeli47 - Money/vocals.wav");
            reveal_strlit("./demucs-sandbox/separated/htdemucs/Leikeli47 - Money/other.wav");
            reveal_strlit("./demucs-sandbox/separated/htdemucs/Leikeli47 - Money/bass.wav");
            reveal_strlit("./demucs-sandbox/separated/htdemucs/Alannah Myles - Black Velvet 0/drums.wav");
            reveal_strlit("./demucs-sandbox/separated/htdemucs/Alannah Myles - Black Velvet 0/vocals.wav");
            reveal_strlit("./demucs-sandbox/separated/htdemucs/Alannah Myles - Black Velvet 0/other.wav");
            reveal_strlit("./demucs-sandbox/separated/htdemucs/Alannah Myles - Black Velvet 0/bass.wav");
            assert(path@ =~= spec_stem_path(*self, stem));
        }
        path
    }
}

} // verus!
