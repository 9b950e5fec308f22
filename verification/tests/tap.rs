//! Tests for the tap pair's ring index logic, driving an `f32` ring
//! from the verified cursor exactly as the tap nodes do: the tap-in
//! writes each interleaved sample at the write position and advances
//! it; the tap-out reads one block starting `delay_samples` behind the
//! write position, where the delay is floored at one block.

use audio_engine::tap::effective_delay_frames;
use audio_engine::tap::ring_capacity_samples;
use audio_engine::tap::RingCursor;

/// One tap-in block: writes `input` into the ring at the cursor and
/// advances the cursor past it.
fn tap_in_block(cursor: &mut RingCursor, ring: &mut [f32], input: &[f32]) {
    let mut pos = cursor.get_write_pos();
    for &sample in input {
        ring[pos] = sample;
        pos = cursor.next_index(pos);
    }
    cursor.advance(input.len());
}

/// One tap-out block: reads `output.len()` interleaved samples that
/// start `delay_frames` (floored at one block) behind the write
/// position.
fn tap_out_block(
    cursor: &RingCursor,
    ring: &[f32],
    output: &mut [f32],
    delay_frames: usize,
    block_frames: usize,
    channels: usize,
) {
    let effective = effective_delay_frames(delay_frames, block_frames);
    let delay_samples = effective * channels;
    let mut pos = cursor.read_start(delay_samples);
    for slot in output.iter_mut() {
        *slot = ring[pos];
        pos = cursor.next_index(pos);
    }
}

/// Frames of delay for a delay time in milliseconds, as the tap-out
/// computes it.
fn delay_frames_from_ms(delay_time_ms: f32, sample_rate: f32) -> usize {
    ((delay_time_ms / 1000.0) * sample_rate).ceil() as usize
}

#[test]
fn test_effective_delay_floor() {
    assert_eq!(effective_delay_frames(0, 4), 4);
    assert_eq!(effective_delay_frames(3, 4), 4);
    assert_eq!(effective_delay_frames(4, 4), 4);
    assert_eq!(effective_delay_frames(6, 4), 6);
    assert_eq!(effective_delay_frames(100, 4), 100);
}

#[test]
fn test_ring_capacity() {
    // One second of delay plus one block, stereo.
    assert_eq!(ring_capacity_samples(1000, 4, 2), 2008);
    assert_eq!(ring_capacity_samples(0, 1, 1), 1);
}

#[test]
fn test_cursor_wraps() {
    let mut cursor = RingCursor::new(6);
    assert_eq!(cursor.get_write_pos(), 0);
    cursor.advance(4);
    assert_eq!(cursor.get_write_pos(), 4);
    cursor.advance(4);
    assert_eq!(cursor.get_write_pos(), 2);
    assert_eq!(cursor.read_start(4), 4);
    assert_eq!(cursor.next_index(5), 0);
    cursor.reset();
    assert_eq!(cursor.get_write_pos(), 0);
}

#[test]
fn test_tap_with_sufficient_delay_time() {
    let sample_rate = 1000.0_f32;
    let block_size = 4;
    let channels = 2;
    // One second of maximum delay, as the tap-in allocates by default.
    let max_delay_frames = delay_frames_from_ms(1000.0, sample_rate);
    let capacity = ring_capacity_samples(max_delay_frames, block_size, channels);
    let mut ring = vec![0.0_f32; capacity];
    let mut cursor = RingCursor::new(capacity);

    // 6 ms at 1000 Hz: six frames of delay.
    let delay_frames = delay_frames_from_ms(6.0, sample_rate);
    assert_eq!(delay_frames, 6);

    let input_data = vec![
        1.0, 2.0, // frame 0
        3.0, 4.0, // frame 1
        5.0, 6.0, // frame 2
        7.0, 8.0, // frame 3
    ];
    let mut output_data = vec![0.0_f32; channels * block_size];

    // The tap-out runs before the tap-in within each block.
    tap_out_block(&cursor, &ring, &mut output_data, delay_frames, block_size, channels);
    assert_eq!(output_data, vec![0.0, 0.0, 0.0, 0.0, 0.0, 0.0, 0.0, 0.0]);

    tap_in_block(&mut cursor, &mut ring, &input_data);

    tap_out_block(&cursor, &ring, &mut output_data, delay_frames, block_size, channels);
    assert_eq!(output_data, vec![0.0, 0.0, 0.0, 0.0, 1.0, 2.0, 3.0, 4.0]);

    tap_in_block(&mut cursor, &mut ring, &input_data);

    tap_out_block(&cursor, &ring, &mut output_data, delay_frames, block_size, channels);
    assert_eq!(output_data, vec![5.0, 6.0, 7.0, 8.0, 1.0, 2.0, 3.0, 4.0]);
}

#[test]
fn test_tap_with_zero_delay_time() {
    let sample_rate = 1000.0_f32;
    let block_size = 4;
    let channels = 2;
    let max_delay_frames = delay_frames_from_ms(1000.0, sample_rate);
    let capacity = ring_capacity_samples(max_delay_frames, block_size, channels);
    let mut ring = vec![0.0_f32; capacity];
    let mut cursor = RingCursor::new(capacity);

    // A configured delay of 0 ms is floored at one block.
    let delay_frames = delay_frames_from_ms(0.0, sample_rate);
    assert_eq!(delay_frames, 0);

    let input_data = vec![
        1.0, 2.0, // frame 0
        3.0, 4.0, // frame 1
        5.0, 6.0, // frame 2
        7.0, 8.0, // frame 3
    ];
    let mut output_data = vec![0.0_f32; channels * block_size];

    tap_out_block(&cursor, &ring, &mut output_data, delay_frames, block_size, channels);
    assert_eq!(output_data, vec![0.0; 8]);

    tap_in_block(&mut cursor, &mut ring, &input_data);

    tap_out_block(&cursor, &ring, &mut output_data, delay_frames, block_size, channels);
    assert_eq!(output_data, input_data);
}

#[test]
fn test_impulse_into_delay() {
    // An impulse is written into the delay line; with six frames of
    // delay and four-frame blocks it reappears at the tap-out two
    // frames after the start of the second block.
    let sample_rate = 1000.0_f32;
    let block_size = 4;
    let channels = 2;
    let max_delay_frames = delay_frames_from_ms(1000.0, sample_rate);
    let capacity = ring_capacity_samples(max_delay_frames, block_size, channels);
    let mut ring = vec![0.0_f32; capacity];
    let mut cursor = RingCursor::new(capacity);

    let delay_frames = delay_frames_from_ms(6.0, sample_rate);

    let impulse_block = vec![1.0, 1.0, 0.0, 0.0, 0.0, 0.0, 0.0, 0.0];
    let silent_block = vec![0.0_f32; channels * block_size];
    let mut output_data = vec![0.0_f32; channels * block_size];

    // Block one: the tap-out still sees silence; the impulse goes in.
    tap_out_block(&cursor, &ring, &mut output_data, delay_frames, block_size, channels);
    assert_eq!(output_data, vec![0.0; 8]);
    tap_in_block(&mut cursor, &mut ring, &impulse_block);

    // Block two: silence for the first two frames, then the impulse,
    // six frames after it entered.
    tap_out_block(&cursor, &ring, &mut output_data, delay_frames, block_size, channels);
    assert_eq!(output_data, vec![0.0, 0.0, 0.0, 0.0, 1.0, 1.0, 0.0, 0.0]);
    tap_in_block(&mut cursor, &mut ring, &silent_block);

    // Block three: the tail of the delayed block, then silence again.
    tap_out_block(&cursor, &ring, &mut output_data, delay_frames, block_size, channels);
    assert_eq!(output_data, vec![0.0; 8]);
}
