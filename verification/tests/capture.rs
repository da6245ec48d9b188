use audio_visualizer::capture::{
    decode_samples, BufferAction, BufferEvent, CaptureState, REPORT_INTERVAL,
};

#[test]
fn decodes_little_endian_floats() {
    let mut bytes = Vec::new();
    for x in [1.0f32, -0.5, 0.25] {
        bytes.extend_from_slice(&x.to_le_bytes());
    }
    let samples = decode_samples(&bytes);
    let floats: Vec<f32> = samples.iter().map(|b| f32::from_bits(*b)).collect();
    assert_eq!(floats, vec![1.0, -0.5, 0.25]);
}

#[test]
fn decodes_word_value() {
    assert_eq!(decode_samples(&[0x00, 0x00, 0x80, 0x3f]), vec![0x3f80_0000]);
    assert_eq!(decode_samples(&[0x01, 0x02, 0x03, 0x04]), vec![0x0403_0201]);
}

#[test]
fn drops_trailing_partial_sample() {
    assert_eq!(decode_samples(&[1, 0, 0, 0, 9, 9, 9]), vec![1]);
    assert_eq!(decode_samples(&[9, 9, 9]), Vec::<u32>::new());
    assert_eq!(decode_samples(&[]), Vec::<u32>::new());
}

#[test]
fn decode_then_encode_gives_bytes_back() {
    let bytes: Vec<u8> = (0u8..40).collect();
    let samples = decode_samples(&bytes);
    let back: Vec<u8> = samples.iter().flat_map(|w| w.to_le_bytes()).collect();
    assert_eq!(back, bytes);
}

#[test]
fn missing_buffer_is_reported_and_not_counted() {
    let mut state = CaptureState::new();
    assert!(matches!(state.on_process(BufferEvent::Missing), BufferAction::ReportOutOfBuffers));
    assert_eq!(state.buffers(), 0);
}

#[test]
fn unmapped_buffers_are_ignored() {
    let mut state = CaptureState::new();
    assert!(matches!(state.on_process(BufferEvent::NoPlanes), BufferAction::Ignore));
    assert!(matches!(state.on_process(BufferEvent::Unmapped), BufferAction::Ignore));
    assert_eq!(state.buffers(), 0);
}

#[test]
fn mapped_buffer_is_counted_and_delivered() {
    let mut state = CaptureState::new();
    let bytes = 0.5f32.to_le_bytes().to_vec();
    match state.on_process(BufferEvent::Mapped(bytes)) {
        BufferAction::Deliver { samples, report, count, byte_len } => {
            assert_eq!(samples, vec![0.5f32.to_bits()]);
            assert!(!report);
            assert_eq!(count, 1);
            assert_eq!(byte_len, 4);
        }
        _ => panic!("mapped buffer not delivered"),
    }
    assert_eq!(state.buffers(), 1);
}

#[test]
fn statistics_every_hundredth_buffer() {
    assert_eq!(REPORT_INTERVAL, 100);
    let mut state = CaptureState::new();
    let mut reported = Vec::new();
    for _ in 0..250 {
        if let BufferAction::Deliver { report: true, count, .. } =
            state.on_process(BufferEvent::Mapped(vec![0, 0, 0, 0, 1]))
        {
            reported.push(count);
        }
        // Buffers without data in between do not advance the count.
        state.on_process(BufferEvent::Unmapped);
    }
    assert_eq!(reported, vec![100, 200]);
    assert_eq!(state.buffers(), 250);
}
