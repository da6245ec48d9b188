# audio_visualizer

An audio visualizer engine: system audio is captured through PipeWire, mixed
down to mono, transformed with an FFT, grouped into logarithmic frequency
bands, smoothed with attack/decay, and shown as a bar chart in the terminal
and as JSON lines on a Unix socket.

- `src/` is the verified library (Verus): the text layout of the terminal bar
  chart (`terminal`), the process-callback decisions and sample decoding of
  the PipeWire stream (`capture`), the message framing and client retention of
  the IPC output (`ipc`), and the stereo/channel framing and block fitting of
  the analysis (`frames`).
- `app/` is the program around it: audio capture (PipeWire, cpal), the
  floating-point analysis (FFT with rustfft, bands, smoothing), JSON with
  serde, and the socket and terminal I/O.
- `tests/` runs the library on concrete inputs.
