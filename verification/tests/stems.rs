use stemwatch::stems::playback::{single_file_step, SingleFileStep};
use stemwatch::stems::constants::WAV_FILES;
use stemwatch::stems::download::{latest_opus, ytdlp_args, ytdlp_destination, ytdlp_failure_message, YTDLP_LAUNCHER};
use stemwatch::stems::loading::{decimal_text, LoadSongDisplay, LoadingPhase, SongText};
use stemwatch::stems::playback::{Transport, TransportCommand};
use stemwatch::stems::audio::{text_or_placeholder, PLACEHOLDER_ARTIST, PLACEHOLDER_TITLE};
use stemwatch::stems::playback::plan_stem_loading;
use stemwatch::stems::playback::{frame_sample_indices, max_duration_frames};
use stemwatch::stems::raw_waveform::lod_column_peak;
use stemwatch::stems::raw_waveform::raw_column_peak;
use stemwatch::stems::waveform_registry::{DisplayRegistry, WaveformRegistry};
use stemwatch::stems::audio::{AudioDevice, FilterKind, StemDiscovery, WavLoader, WAV_DATA_OFFSET};
use stemwatch::stems::constants::{SongDataset, StemType};
use stemwatch::stems::raw_waveform::{build_lod_pyramid, LodLevel};
use stemwatch::stems::spectral::{SpectralAnalyzer, FREQUENCY_BANDS};

#[test]
fn stem_names_and_indices() {
    assert_eq!(StemType::Vocals.file_name(), "vocals");
    assert_eq!(StemType::Bass.file_name(), "bass");
    assert_eq!(StemType::Drums.file_name(), "drums");
    assert_eq!(StemType::Other.file_name(), "other");
    assert_eq!(StemType::Drums.display_name(), "drums");
    assert_eq!(StemType::Vocals.into_index(), 0);
    assert_eq!(StemType::Other.into_index(), 3);
    assert_eq!(StemType::from_index(1), Some(StemType::Bass));
    assert_eq!(StemType::from_index(4), None);
    assert_eq!(StemType::from_index(usize::MAX), None);
}

#[test]
fn from_index_undoes_into_index() {
    for stem in StemType::DISPLAY_ORDER {
        assert_eq!(StemType::from_index(stem.into_index()), Some(stem));
    }
    for index in 0..4 {
        assert_eq!(StemType::from_index(index).unwrap().into_index(), index);
    }
}

#[test]
fn song_dataset_paths() {
    assert_eq!(SongDataset::Leikeli47Money.as_str(), "Leikeli47 - Money");
    assert_eq!(
        SongDataset::AlannahMylesBlackVelvet.as_str(),
        "Alannah Myles - Black Velvet 0"
    );
    assert_eq!(
        SongDataset::Leikeli47Money.get_stem_path(StemType::Bass),
        "./demucs-sandbox/separated/htdemucs/Leikeli47 - Money/bass.wav"
    );
    assert_eq!(
        SongDataset::AlannahMylesBlackVelvet.get_stem_path(StemType::Drums),
        "./demucs-sandbox/separated/htdemucs/Alannah Myles - Black Velvet 0/drums.wav"
    );
}

#[test]
fn lod_level_len_is_shorter_side() {
    let level = LodLevel { samples_per_bin: 2, min: vec![1, 2, 3], max: vec![4, 5] };
    assert_eq!(level.len(), 2);
    let level = LodLevel { samples_per_bin: 2, min: vec![1], max: vec![4, 5] };
    assert_eq!(level.len(), 1);
}

#[test]
fn lod_pyramid_bins_and_levels() {
    let mono: Vec<i16> = vec![1, -2, 3, 4, -5];
    let levels = build_lod_pyramid(&mono, 2, 8);
    assert_eq!(levels.len(), 2);
    assert_eq!(levels[0].samples_per_bin, 2);
    assert_eq!(levels[0].min, vec![-2, 3, -5]);
    assert_eq!(levels[0].max, vec![1, 4, -5]);
    assert_eq!(levels[1].samples_per_bin, 4);
    assert_eq!(levels[1].min, vec![-2, -5]);
    assert_eq!(levels[1].max, vec![4, -5]);
}

#[test]
fn lod_pyramid_stops_at_max_bin_and_length() {
    let mono: Vec<i16> = (0..100).map(|x| x as i16).collect();
    let levels = build_lod_pyramid(&mono, 3, 20);
    let sizes: Vec<usize> = levels.iter().map(|l| l.samples_per_bin).collect();
    assert_eq!(sizes, vec![3, 6, 12]);
    let levels = build_lod_pyramid(&mono, 32, 1000);
    let sizes: Vec<usize> = levels.iter().map(|l| l.samples_per_bin).collect();
    assert_eq!(sizes, vec![32, 64]);
    for level in &levels {
        for j in 0..level.len() {
            assert!(level.min[j] <= level.max[j]);
        }
    }
}

#[test]
fn lod_pyramid_empty_inputs() {
    assert!(build_lod_pyramid(&[], 2, 8).is_empty());
    assert!(build_lod_pyramid(&[1, 2, 3], 0, 8).is_empty());
    assert!(build_lod_pyramid(&[1, 2, 3], 4, 8).is_empty());
    let one = build_lod_pyramid(&[7], 1, 1);
    assert_eq!(one.len(), 1);
    assert_eq!(one[0].min, vec![7]);
    assert_eq!(one[0].max, vec![7]);
}

#[test]
fn downmix_averages_frames_with_rounding() {
    let samples: Vec<i16> = vec![10, 20, -3, -4, 7];
    assert_eq!(WavLoader::mono_from_interleaved_i16(&samples, 2).unwrap(), vec![15, -4]);
    assert_eq!(WavLoader::mono_from_interleaved_i16(&vec![1, 2, -1, -2], 2).unwrap(), vec![2, -2]);
    assert_eq!(WavLoader::mono_from_interleaved_i16(&vec![1, 0, 0, 2, 2, 2, -1, -1, 0], 3).unwrap(), vec![0, 2, -1]);
    assert_eq!(WavLoader::mono_from_interleaved_i16(&samples, 1).unwrap(), samples);
    assert_eq!(
        WavLoader::mono_from_interleaved_i16(&vec![i16::MIN, i16::MIN, i16::MAX, i16::MAX], 2).unwrap(),
        vec![i16::MIN, i16::MAX]
    );
    assert_eq!(WavLoader::mono_from_interleaved_i16(&vec![1, 2], 3).unwrap(), Vec::<i16>::new());
}

#[test]
fn downmix_rejects_zero_channels() {
    let err = WavLoader::mono_from_interleaved_i16(&vec![1, 2, 3], 0).unwrap_err();
    assert_eq!(err, "WAV reports zero channels");
}

#[test]
fn mapped_sample_count_caps_at_five_minutes() {
    assert_eq!(WAV_DATA_OFFSET, 44);
    assert_eq!(WavLoader::mapped_sample_count(44 + 20, 2, 1), 10);
    assert_eq!(WavLoader::mapped_sample_count(44 + 2000, 1, 1), 300);
    assert_eq!(WavLoader::mapped_sample_count(45, 2, 44100), 0);
    assert_eq!(WavLoader::mapped_sample_count(44 + 2000, 0, 44100), 0);
}

#[test]
fn mapped_samples_decode_little_endian() {
    let mut bytes = vec![0u8; 44];
    bytes.extend_from_slice(&[0x34, 0x12, 0xff, 0xff, 0x00, 0x80]);
    assert_eq!(WavLoader::mapped_sample(&bytes, 44, 3, 0), 0x1234);
    assert_eq!(WavLoader::mapped_sample(&bytes, 44, 3, 1), -1);
    assert_eq!(WavLoader::mapped_sample(&bytes, 44, 3, 2), i16::MIN);
    assert_eq!(WavLoader::mapped_sample(&bytes, 44, 3, 3), 0);
    assert_eq!(WavLoader::mapped_sample(&bytes, 44, 10, 3), 0);
}

#[test]
fn device_label_marks_default() {
    let d = AudioDevice { name: "Speakers".to_string(), is_default: true };
    assert_eq!(d.label(), "Speakers (Default)");
    let d = AudioDevice { name: "USB".to_string(), is_default: false };
    assert_eq!(d.label(), "USB");
}

#[test]
fn spectral_analyzer_and_bands() {
    let _a = SpectralAnalyzer::new();
    let _b: SpectralAnalyzer = Default::default();
    assert_eq!(FREQUENCY_BANDS, 64);
    assert!(matches!(FilterKind::LowPass, FilterKind::LowPass));
    assert!(FilterKind::HighPass != FilterKind::LowPass);
}

#[test]
fn discovery_lists_stems_beside_original() {
    let stems = StemDiscovery::discover_stems_from_file("/music/My Song.wav").unwrap();
    let found: Vec<(String, StemType)> =
        stems.iter().map(|m| (m.file_path.clone(), m.stem_type)).collect();
    assert_eq!(
        found,
        vec![
            ("/music/stems/My Song/vocals.wav".to_string(), StemType::Vocals),
            ("/music/stems/My Song/bass.wav".to_string(), StemType::Bass),
            ("/music/stems/My Song/drums.wav".to_string(), StemType::Drums),
            ("/music/stems/My Song/other.wav".to_string(), StemType::Other),
        ]
    );
}

#[test]
fn discovery_errors() {
    let err = StemDiscovery::discover_stems_from_file("").err().unwrap();
    assert_eq!(err, "Could not extract song name from file path");
    let err = StemDiscovery::discover_stems_from_file("/").err().unwrap();
    assert_eq!(err, "Could not extract song name from file path");
    let err = StemDiscovery::song_and_folder(Some("song".to_string()), None).unwrap_err();
    assert_eq!(err, "Could not determine parent directory");
    let ok = StemDiscovery::song_and_folder(Some("song".to_string()), Some("/d".to_string())).unwrap();
    assert_eq!(ok, ("song".to_string(), "/d".to_string()));
}

#[test]
fn lod_column_peak_clamps_and_takes_largest_height() {
    let level = LodLevel { samples_per_bin: 4, min: vec![-10, -3, -32768, 0], max: vec![5, 20, 7, 1] };
    assert_eq!(lod_column_peak(&level, 0, 2), 20);
    assert_eq!(lod_column_peak(&level, 0, 1), 10);
    assert_eq!(lod_column_peak(&level, 2, 2), 32768);
    assert_eq!(lod_column_peak(&level, 3, 100), 1);
    assert_eq!(lod_column_peak(&level, -5, -2), 0);
    assert_eq!(lod_column_peak(&level, 10, 12), 1);
}

#[test]
fn raw_column_peak_uses_stride_on_long_spans() {
    let mono: Vec<i16> = vec![1, -7, 3, 2];
    assert_eq!(raw_column_peak(&mono, 0, 4), 7);
    assert_eq!(raw_column_peak(&mono, 2, 4), 3);
    let mut long = vec![0i16; 10_000];
    long[1] = -30000;
    long[20] = 100;
    // 10000 samples: every ninth sample is read, so index 1 is skipped and 18 is read.
    long[18] = 200;
    assert_eq!(raw_column_peak(&long, 0, 10_000), 200);
    long[9] = i16::MIN;
    assert_eq!(raw_column_peak(&long, 0, 10_000), 32768);
}

#[test]
fn waveform_registry_slots() {
    let mut r: WaveformRegistry<u32> = WaveformRegistry::new();
    assert_eq!(r.ready_count(), 0);
    assert!(!r.is_ready(StemType::Bass));
    r.set_waveform_data(StemType::Bass, 7);
    r.set_waveform_data(StemType::Other, 9);
    r.set_waveform_data(StemType::Bass, 8);
    assert_eq!(r.get_waveform_data(StemType::Bass), Some(&8));
    assert_eq!(r.get_waveform_data(StemType::Vocals), None);
    assert!(r.is_ready(StemType::Other));
    assert_eq!(r.ready_count(), 2);
    r.clear();
    assert_eq!(r.ready_count(), 0);
    assert_eq!(r.get_waveform_data(StemType::Bass), None);

    let mut d: DisplayRegistry<&str> = DisplayRegistry::new();
    assert_eq!(d.epoch(), 0);
    d.set_stem_data(StemType::Drums, "peaks");
    d.set_stem_data(StemType::Drums, "peaks2");
    assert_eq!(d.epoch(), 2);
    assert_eq!(d.get_stem(StemType::Drums), Some(&"peaks2"));
    assert_eq!(d.get_stem(StemType::Vocals), None);
}

#[test]
fn stem_loading_plan_maps_present_stems() {
    let stems = vec![
        ("v.wav".to_string(), true),
        ("b.wav".to_string(), false),
        ("d.wav".to_string(), true),
        ("o.wav".to_string(), true),
    ];
    let plan = plan_stem_loading(&stems);
    assert_eq!(plan.load_list, vec!["v.wav", "d.wav", "o.wav"]);
    assert_eq!(plan.engine_index_map, vec![Some(0), None, Some(1), Some(2)]);
    assert_eq!(plan.waveform_failures, vec![false, true, false, false]);
}

#[test]
fn playback_frames() {
    assert_eq!(max_duration_frames(&vec![]), 0);
    assert_eq!(max_duration_frames(&vec![(100, 2), (70, 1), (9, 3)]), 70);
    assert_eq!(frame_sample_indices(4, 1, 5), Some((4, 4)));
    assert_eq!(frame_sample_indices(5, 1, 5), None);
    assert_eq!(frame_sample_indices(2, 2, 6), Some((4, 5)));
    assert_eq!(frame_sample_indices(3, 2, 7), None);
    assert_eq!(frame_sample_indices(0, 6, 100), None);
}

#[test]
fn test_display_methods() {
    assert_eq!(text_or_placeholder(&Some("Test Song".to_string()), PLACEHOLDER_TITLE), "Test Song");
    assert_eq!(text_or_placeholder(&Some("Test Artist".to_string()), PLACEHOLDER_ARTIST), "Test Artist");
}

#[test]
fn test_display_methods_with_fallbacks() {
    assert_eq!(text_or_placeholder(&None, PLACEHOLDER_TITLE), "Placeholder Title");
    assert_eq!(text_or_placeholder(&None, PLACEHOLDER_ARTIST), "Placeholder Artist");
}

#[test]
fn transport_commands_and_end_of_song() {
    let mut t = Transport::new();
    t.apply(TransportCommand::Play);
    assert!(t.is_playing);
    t.advance(512, 2000);
    assert_eq!(t.position, 512);
    t.apply(TransportCommand::Pause);
    t.advance(512, 2000);
    assert_eq!(t, Transport { is_playing: false, position: 512 });
    t.apply(TransportCommand::SeekFrames(1900));
    t.apply(TransportCommand::Play);
    t.advance(512, 2000);
    assert_eq!(t, Transport { is_playing: false, position: 2412 });
    t.apply(TransportCommand::Stop);
    assert_eq!(t, Transport { is_playing: false, position: 0 });
    let mut w = Transport { is_playing: true, position: usize::MAX - 1 };
    w.advance(3, usize::MAX);
    assert_eq!(w.position, 1);
    assert!(w.is_playing);
}

#[test]
fn decimal_texts() {
    assert_eq!(decimal_text(0), "0");
    assert_eq!(decimal_text(7), "7");
    assert_eq!(decimal_text(42), "42");
    assert_eq!(decimal_text(100), "100");
    assert_eq!(decimal_text(-5), "-5");
    assert_eq!(decimal_text(i32::MAX), "2147483647");
    assert_eq!(decimal_text(i32::MIN), "-2147483648");
}

#[test]
fn loading_phases() {
    let p = LoadingPhase::GeneratingWaveforms {
        file_count: 4,
        stage_message: "Analyzing".to_string(),
        percent: 50,
        waveforms_completed: 2,
        waveforms_total: 4,
    };
    assert_eq!(p.as_string(), "GeneratingWaveforms");
    assert_eq!(p.display_message(), "Analyzing");
    assert_eq!(p.file_count(), 4);
    assert!(p.is_loading());
    let done = LoadingPhase::Complete { file_count: 4, all_waveforms_ready: true };
    assert_eq!(done.display_message(), "Complete");
    assert!(!done.is_loading());
    let failed = LoadingPhase::Failed { error_message: "boom".to_string(), file_count: 0 };
    assert_eq!(failed.as_string(), "Failed");
    assert_eq!(failed.display_message(), "boom");
    assert_eq!(LoadingPhase::Idle { file_count: 0 }.display_message(), "");
}

#[test]
fn song_panel_texts() {
    let p = LoadingPhase::LoadingAudio { file_count: 4, stage_message: "x".to_string(), percent: 37 };
    let d = LoadSongDisplay::new(&p, &None);
    assert_eq!((d.title_text.as_str(), d.status_text.as_str(), d.status_visible), ("Loading audio files...", "37%", true));
    let done = LoadingPhase::Complete { file_count: 4, all_waveforms_ready: true };
    let d = LoadSongDisplay::new(&done, &None);
    assert_eq!((d.artist_text.as_str(), d.title_text.as_str(), d.status_text.as_str()), ("(artist)", "(title)", "Ready"));
    let song = SongText { title: "T".to_string(), artist: "A".to_string(), bpm_text: Some("120 BPM".to_string()) };
    let d = LoadSongDisplay::new(&done, &Some(song));
    assert_eq!((d.artist_text.as_str(), d.title_text.as_str(), d.status_text.as_str()), ("A", "T", "120 BPM"));
    let failed = LoadingPhase::Failed { error_message: "boom".to_string(), file_count: 0 };
    let d = LoadSongDisplay::new(&failed, &None);
    assert_eq!((d.title_text.as_str(), d.status_text.as_str(), d.status_visible), ("Failed to load", "", false));
    let idle = LoadSongDisplay::new(&LoadingPhase::Idle { file_count: 0 }, &None);
    assert!(!idle.status_visible && idle.title_text.is_empty());
}

#[test]
fn ytdlp_failure_prefers_error_output() {
    assert_eq!(ytdlp_failure_message("out\n", "  ERROR: no video \n"), "yt-dlp failed: ERROR: no video");
    assert_eq!(ytdlp_failure_message("  partial output\n", " \t\n"), "yt-dlp failed: partial output");
    assert_eq!(ytdlp_failure_message("", ""), "yt-dlp failed: ");
}

#[test]
fn ytdlp_destination_reads_first_marked_line() {
    let stdout = "[youtube] abc: Downloading\r\n  [ExtractAudio] Destination: /music/Song.opus  \r\nDeleting original\n";
    assert_eq!(ytdlp_destination(stdout, ""), Some("/music/Song.opus".to_string()));
    assert_eq!(
        ytdlp_destination("nothing here\n", "[ExtractAudio] Destination: /m/a.opus\n[ExtractAudio] Destination: /m/b.opus"),
        Some("/m/a.opus".to_string())
    );
    assert_eq!(ytdlp_destination("[ExtractAudio] Destination:/x.opus", "done"), None);
    assert_eq!(ytdlp_destination("", ""), None);
}

#[test]
fn single_file_steps() {
    let present = vec![("/m/stems/s/vocals.wav".to_string(), true), ("/m/stems/s/bass.wav".to_string(), true)];
    let missing = vec![("/m/stems/s/vocals.wav".to_string(), true), ("/m/stems/s/bass.wav".to_string(), false)];
    assert!(matches!(single_file_step("", false, &present), SingleFileStep::Fail(m) if m == "File path is empty"));
    assert!(matches!(single_file_step("/m/s.wav", false, &present), SingleFileStep::Fail(m) if m == "File does not exist: /m/s.wav"));
    assert!(matches!(single_file_step("/m/s.wav", true, &vec![]), SingleFileStep::Fail(m) if m == "No valid stem files found"));
    assert!(matches!(single_file_step("/m/s.wav", true, &missing), SingleFileStep::Separate));
    assert!(matches!(single_file_step("/m/s.wav", true, &present), SingleFileStep::LoadStems));
}

#[test]
fn stem_paths_are_known_wav_files() {
    for song in [SongDataset::Leikeli47Money, SongDataset::AlannahMylesBlackVelvet] {
        for stem in [StemType::Vocals, StemType::Bass, StemType::Drums, StemType::Other] {
            let p = song.get_stem_path(stem);
            assert!(WAV_FILES.contains(&p));
            assert_eq!(p, format!("./demucs-sandbox/separated/htdemucs/{}/{}.wav", song.as_str(), stem.file_name()));
        }
    }
}

#[test]
fn ytdlp_arguments() {
    let args = ytdlp_args("https://example.com/v", "/home/u/Music");
    assert_eq!(
        args,
        vec![
            "run",
            "yt-dlp",
            "--extract-audio",
            "--audio-format",
            "opus",
            "--embed-metadata",
            "--output",
            "/home/u/Music/%(title)s.%(ext)s",
            "https://example.com/v",
        ]
    );
    assert_eq!(ytdlp_args("u", "/m/")[7], "/m/%(title)s.%(ext)s");
    assert_eq!(YTDLP_LAUNCHER, "uv");
}

#[test]
fn latest_opus_fallback() {
    let f = |p: &str, e: Option<&str>, t: Option<u128>| (p.to_string(), e.map(|x| x.to_string()), t);
    let files = vec![
        f("/m/a.opus", Some("opus"), Some(5)),
        f("/m/b.OPUS", Some("OPUS"), Some(9)),
        f("/m/c.mp3", Some("mp3"), Some(20)),
        f("/m/d.Opus", Some("Opus"), Some(9)),
        f("/m/e.opus", Some("opus"), None),
    ];
    assert_eq!(latest_opus(&files), Some("/m/d.Opus".to_string()));
    assert_eq!(latest_opus(&vec![f("/m/x", None, Some(1)), f("/m/y.wav", Some("wav"), Some(2))]), None);
    assert_eq!(latest_opus(&vec![f("/m/n.opus", Some("opus"), None), f("/m/o.opus", Some("opus"), None)]), Some("/m/o.opus".to_string()));
}
