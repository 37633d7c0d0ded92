//! Verified core of the KatVisualizer browser visualizer: sample chunking, the
//! delay line of the sliding DFT, masking ranges, the colour lookup table, the
//! spectrogram history, the RGBA canvas and the bar-graph mesh.
pub mod canvas;
pub mod color_table;
pub mod history;
pub mod masking;
pub mod mesh;
pub mod ring;
pub mod spectrogram;
pub mod stft;
