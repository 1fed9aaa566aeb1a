pub mod audio;
pub mod constants;
pub mod raw_waveform;
pub mod spectral;
pub mod waveform_registry;
pub mod playback;
pub mod loading;
pub mod download;
