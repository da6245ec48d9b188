//! Integer and text logic of an audio spectrum visualizer: the terminal bar
//! chart, the decisions of the PipeWire capture callback, the client
//! bookkeeping of the IPC output and the sample framing of the analysis
//! pipeline.
pub mod capture;
pub mod frames;
pub mod ipc;
pub mod terminal;
