//! Decisions of the PipeWire capture stream's process callback.
//!
//! The stream delivers interleaved 32-bit little-endian float samples. The
//! callback counts the buffers it receives, reports statistics on every
//! hundredth one, and hands the decoded samples on. Samples are carried here
//! as the bit patterns of the floats; turning a pattern into a float is left
//! to the caller.
use vstd::prelude::*;
use vstd::bytes::{spec_u32_from_le_bytes, spec_u32_to_le_bytes, u32_from_le_bytes};

verus! {

/// Statistics are reported on every buffer whose number is a multiple of this.
pub const REPORT_INTERVAL: usize = 100;

/// The bit pattern of sample `i` of a little-endian byte stream.
pub open spec fn sample_bits(bytes: Seq<u8>, i: int) -> u32 {
    spec_u32_from_le_bytes(bytes.subrange(4 * i, 4 * i + 4))
}

/// The bit patterns of all whole samples in `bytes`; a trailing partial
/// sample is dropped.
pub open spec fn decoded_samples(bytes: Seq<u8>) -> Seq<u32> {
    Seq::new(bytes.len() / 4, |i: int| sample_bits(bytes, i))
}

/// Splits a mapped buffer into the bit patterns of its little-endian 32-bit
/// samples, dropping a trailing partial sample.
pub fn decode_samples(bytes: &[u8]) -> (samples: Vec<u32>)
    ensures
        samples@ == decoded_samples(bytes@),
{
    let len: usize = bytes.len();
    let count: usize = len / 4;
    let mut samples: Vec<u32> = Vec::new();
    let mut i: usize = 0;
    while i < count
        invariant
            len == bytes@.len(),
            count == len / 4,
            i <= count,
            samples@.len() == i,
            forall|j: int| 0 <= j < i ==> samples@[j] == sample_bits(bytes@, j),
        decreases count - i,
    {
        assert(4 * i + 4 <= bytes@.len()) by (nonlinear_arith)
            requires
                i < count,
                count == bytes@.len() / 4,
        ;
        let start: usize = 4 * i;
        let word = u32_from_le_bytes(&bytes[start..start + 4]);
        samples.push(word);
        i = i + 1;
    }
    proof {
        assert(samples@ =~= decoded_samples(bytes@));
    }
    samples
}

/// Decoding loses nothing: the little-endian bytes of every decoded sample
/// are exactly the bytes it was read from.
pub proof fn lemma_decode_exact(bytes: Seq<u8>, i: int)
    requires
        0 <= i < bytes.len() / 4,
    ensures
        decoded_samples(bytes).len() == bytes.len() / 4,
        spec_u32_to_le_bytes(decoded_samples(bytes)[i]) == bytes.subrange(4 * i, 4 * i + 4),
{
    vstd::bytes::lemma_auto_spec_u32_to_from_le_bytes();
    assert(bytes.subrange(4 * i, 4 * i + 4).len() == 4);
}

/// What the process callback finds when it asks the stream for a buffer.
pub enum BufferEvent {
    /// No buffer was queued.
    Missing,
    /// The buffer carries no data planes.
    NoPlanes,
    /// The first data plane is not mapped into memory.
    Unmapped,
    /// The bytes of the first data plane.
    Mapped(Vec<u8>),
}

/// What the process callback does in answer.
pub enum BufferAction {
    /// Report that the stream ran out of buffers.
    ReportOutOfBuffers,
    /// Nothing.
    Ignore,
    /// Hand the samples on. Where `report` is set, first report the number of
    /// buffers received so far (`count`), the size of this buffer in bytes
    /// (`byte_len`) and the peak of its samples.
    Deliver { samples: Vec<u32>, report: bool, count: usize, byte_len: usize },
}

/// The state that the process callback keeps between buffers.
pub struct CaptureState {
    buffers: usize,
}

impl CaptureState {
    /// The number of mapped buffers received so far.
    pub closed spec fn spec_buffers(&self) -> nat {
        self.buffers as nat
    }

    /// A stream that has received no buffer yet.
    pub fn new() -> (state: Self)
        ensures
            state.spec_buffers() == 0,
    {
        CaptureState { buffers: 0 }
    }

    /// The number of mapped buffers received so far.
    pub fn buffers(&self) -> (n: usize)
        ensures
            n == self.spec_buffers(),
    {
        self.buffers
    }

    /// One run of the process callback: a missing buffer is reported, a
    /// buffer without mapped data is skipped, and a mapped buffer is counted
    /// and its samples handed on, with statistics on every hundredth buffer.
    pub fn on_process(&mut self, event: BufferEvent) -> (action: BufferAction)
        requires
            event is Mapped ==> old(self).spec_buffers() < usize::MAX,
        ensures
            match event {
                BufferEvent::Missing => {
                    &&& action is ReportOutOfBuffers
                    &&& final(self).spec_buffers() == old(self).spec_buffers()
                },
                BufferEvent::NoPlanes | BufferEvent::Unmapped => {
                    &&& action is Ignore
                    &&& final(self).spec_buffers() == old(self).spec_buffers()
                },
                BufferEvent::Mapped(bytes) => {
                    &&& final(self).spec_buffers() == old(self).spec_buffers() + 1
                    &&& action matches BufferAction::Deliver { samples, report, count, byte_len }
                    &&& samples@ == decoded_samples(bytes@)
                    &&& count == final(self).spec_buffers()
                    &&& report == (count % REPORT_INTERVAL == 0)
                    &&& byte_len == bytes@.len()
                },
            },
    {
        match event {
            BufferEvent::Missing => BufferAction::ReportOutOfBuffers,
            BufferEvent::NoPlanes => BufferAction::Ignore,
            BufferEvent::Unmapped => BufferAction::Ignore,
            BufferEvent::Mapped(bytes) => {
                self.buffers = self.buffers + 1;
                let report = self.buffers % REPORT_INTERVAL == 0;
                let samples = decode_samples(bytes.as_slice());
                BufferAction::Deliver {
                    samples,
                    report,
                    count: self.buffers,
                    byte_len: bytes.len(),
                }
            },
        }
    }
}

} // verus!
