# katvisualizer

The integer and buffer logic of the KatVisualizer web visualizer, written in Verus
and proved against its contracts.

- `src/` — the verified library:
  - `stft`: `CircularBuffer`, which cuts a sample stream into chunks overlapping by
    half a chunk, and `push_interleaved` for interleaved stereo input;
  - `ring`: `SampleRing`, the delay line read by the sliding DFT;
  - `masking`: `masking_range`, the band range a band's masking spreads over;
  - `color_table`: `ColorTable`, the split/intensity colour grid and its clamped lookup;
  - `history`: `SliceHistory`, the bounded, newest-first spectrogram history;
  - `spectrogram`: the cell under the cursor, the rows the spectrogram image shows,
    and the rows the automatic amplitude ranging averages;
  - `canvas`: `Canvas`, the RGBA pixel buffer and the bar, mark and row drawing;
  - `mesh`: `QuadMesh`, the two-triangles-per-quad mesh of the bar graphs.
- `app/` — floating-point and browser code on top of the library:
  - `music`: the `MusicVisualizer` analyzer exported to JavaScript;
  - `web`: the canvas `Visualizer` exported to JavaScript;
  - `chain`: the buffering stage of the stereo analysis chain;
  - `display`, `common`: amplitude ranging, bar-graph meshes, the spectrogram image,
    the hover readout and the OkLCH colour table of the full-size visualizer;
  - `config`: the JSON configuration and result records.
- `tests/` — tests of the library.

Not here: the spectral analyzer of the full-size visualizer (its `BetterAnalyzer`
and `BetterSpectrogram`), with the JavaScript `WasmVisualizer` and the analysis chain
built on it, and the egui/eframe user interface and cpal audio input. Without the
analyzer, `chain` hands each chunk pair to a caller-supplied analysis step and
`display` reads plain stand-in rows, vertices and rectangles.
