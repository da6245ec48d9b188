use audio_visualizer::frames::{channel_frames, fit_to_length, stereo_frames};

#[test]
fn too_short_buffer_has_no_frame() {
    assert_eq!(stereo_frames::<f32>(&[]), None);
    assert_eq!(stereo_frames(&[0.5f32]), None);
}

#[test]
fn stereo_pairs_left_and_right() {
    let frames = stereo_frames(&[1.0f32, 2.0, 3.0, 4.0]).unwrap();
    assert_eq!(frames, vec![(1.0, 2.0), (3.0, 4.0)]);
}

#[test]
fn stereo_drops_lone_trailing_sample() {
    let frames = stereo_frames(&[1, 2, 3]).unwrap();
    assert_eq!(frames, vec![(1, 2)]);
}

#[test]
fn mono_mix_of_stereo_frames() {
    let frames = stereo_frames(&[1.0f32, 0.0, -1.0, 1.0]).unwrap();
    let mono: Vec<f32> = frames.iter().map(|(l, r)| (l + r) * 0.5).collect();
    assert_eq!(mono, vec![0.5, 0.0]);
}

#[test]
fn channel_frames_group_by_channel_count() {
    assert_eq!(channel_frames(&[1, 2, 3, 4, 5, 6], 3), vec![vec![1, 2, 3], vec![4, 5, 6]]);
}

#[test]
fn channel_frames_keep_partial_last_frame() {
    assert_eq!(channel_frames(&[1, 2, 3, 4, 5], 2), vec![vec![1, 2], vec![3, 4], vec![5]]);
    assert_eq!(channel_frames::<u8>(&[], 2), Vec::<Vec<u8>>::new());
    assert_eq!(channel_frames(&[7, 8], 1), vec![vec![7], vec![8]]);
}

#[test]
fn fit_pads_short_input() {
    assert_eq!(fit_to_length(&[1.0f32, 2.0], 4, 0.0), vec![1.0, 2.0, 0.0, 0.0]);
}

#[test]
fn fit_cuts_long_input() {
    assert_eq!(fit_to_length(&[1, 2, 3, 4, 5], 3, 0), vec![1, 2, 3]);
}

#[test]
fn fit_keeps_exact_input_and_is_idempotent() {
    let once = fit_to_length(&[4, 5, 6], 3, 0);
    assert_eq!(once, vec![4, 5, 6]);
    assert_eq!(fit_to_length(&once, 3, 0), once);
    assert_eq!(fit_to_length(&[1, 2], 0, 9), Vec::<i32>::new());
}
