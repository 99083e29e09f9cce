use codec_map::channel::{BoundedChannel, CHANNEL_CAPACITY};
use codec_map::pipeline::{InputCallback, OutputCallback};
use codec_map::resampler::ResampleError;
use codec_map::speed::Speed;
use codec_map::session::{collect_chunks, Session};

#[test]
fn new_session_is_blank() {
    let session: Session<f32> = Session::new();
    assert!(session.buffer().is_empty());
    assert!(session.stream().is_empty());
    assert!(!session.is_recording());
    assert_eq!(session.remaining(), 0);
    assert_eq!(session.snapshot_count(), 0);
}

#[test]
fn buffer_can_be_set_padded_and_cleared() {
    let mut session: Session<f32> = Session::new();
    session.set_buffer(vec![0.5, 0.25]);
    assert_eq!(session.buffer(), &[0.5, 0.25]);
    session.pad_to(4, 0.0);
    assert_eq!(session.buffer(), &[0.5, 0.25, 0.0, 0.0]);
    session.pad_to(3, 1.0);
    assert_eq!(session.buffer(), &[0.5, 0.25, 0.0, 0.0]);
    session.pad_to(4, 1.0);
    assert_eq!(session.buffer(), &[0.5, 0.25, 0.0, 0.0]);
    session.clear();
    assert!(session.buffer().is_empty());
    session.pad_to(2, -1.0);
    assert_eq!(session.buffer(), &[-1.0, -1.0]);
}

#[test]
fn saving_moves_the_buffer_into_a_snapshot() {
    let mut session: Session<u32> = Session::new();
    session.set_buffer(vec![1, 2, 3]);
    assert_eq!(session.save_snapshot(), 0);
    assert!(session.buffer().is_empty());
    assert_eq!(session.snapshot_count(), 1);
    session.set_buffer(vec![4]);
    assert_eq!(session.save_snapshot(), 1);
    assert_eq!(session.save_snapshot(), 2);
    assert_eq!(session.snapshot_count(), 3);
    assert!(session.load_snapshot(0));
    assert_eq!(session.buffer(), &[1, 2, 3]);
    assert!(session.load_snapshot(1));
    assert_eq!(session.buffer(), &[4]);
    assert!(session.load_snapshot(2));
    assert!(session.buffer().is_empty());
    assert!(session.load_snapshot(0));
    assert_eq!(session.buffer(), &[1, 2, 3]);
    assert_eq!(session.snapshot_count(), 3);
}

#[test]
fn loading_a_missing_snapshot_changes_nothing() {
    let mut session: Session<u32> = Session::new();
    session.set_buffer(vec![9, 8]);
    assert!(!session.load_snapshot(0));
    assert_eq!(session.buffer(), &[9, 8]);
    session.save_snapshot();
    session.set_buffer(vec![7]);
    assert!(!session.load_snapshot(1));
    assert!(!session.load_snapshot(usize::MAX));
    assert_eq!(session.buffer(), &[7]);
}

#[test]
fn resampling_replaces_the_buffer() {
    let mut session: Session<u32> = Session::new();
    session.set_buffer((0..10).collect());
    assert_eq!(session.resample(Speed::new(2, 1)), Ok(()));
    assert_eq!(session.buffer(), &[0, 2, 4, 6, 8]);
    assert_eq!(session.resample(Speed::new(1, 2)), Ok(()));
    assert_eq!(session.buffer(), &[0, 2, 2, 4, 4, 6, 6, 8, 8]);
    assert_eq!(session.resample(Speed::unit()), Ok(()));
    assert_eq!(session.buffer(), &[0, 2, 2, 4, 4, 6, 6, 8, 8]);
}

#[test]
fn refused_resampling_keeps_the_buffer() {
    let mut session: Session<u32> = Session::new();
    session.set_buffer(vec![1, 2, 3]);
    assert_eq!(session.resample(Speed::new(0, 1)), Err(ResampleError::InvalidSpeed));
    assert_eq!(session.resample(Speed::new(-5, 2)), Err(ResampleError::InvalidSpeed));
    assert_eq!(session.resample(Speed::new(1, u64::MAX)), Err(ResampleError::OutputTooLong));
    assert_eq!(session.buffer(), &[1, 2, 3]);
}

#[test]
fn encoded_stream_is_kept_until_the_next_one() {
    let mut session: Session<f32> = Session::new();
    session.store_encoded(&[300, 4, -128]);
    assert_eq!(session.stream(), &[0x2D, 0x01, 0x04, 0x81, 0xFF]);
    assert_eq!(session.load_decoded(), vec![45, 1, -32508, -1]);
    session.store_encoded(&[]);
    assert!(session.stream().is_empty());
    assert!(session.load_decoded().is_empty());
}

#[test]
fn recording_flag_is_sent_only_when_it_changes() {
    let mut toggle: BoundedChannel<bool> = BoundedChannel::new(2);
    let mut session: Session<f32> = Session::new();
    assert!(!session.set_recording(&mut toggle, false));
    assert!(toggle.is_empty());
    assert!(session.set_recording(&mut toggle, true));
    assert!(session.is_recording());
    assert!(!session.set_recording(&mut toggle, true));
    assert!(session.set_recording(&mut toggle, false));
    assert!(!session.is_recording());
    // The queue is full: the flag changes here, the update is dropped.
    assert!(!session.set_recording(&mut toggle, true));
    assert!(session.is_recording());
    assert_eq!(toggle.try_recv(), Some(true));
    assert_eq!(toggle.try_recv(), Some(false));
    assert_eq!(toggle.try_recv(), None);
}

#[test]
fn submitted_buffer_reaches_the_output_callback() {
    let mut feed: BoundedChannel<Vec<f32>> = BoundedChannel::new(CHANNEL_CAPACITY);
    let mut reports: BoundedChannel<usize> = BoundedChannel::new(CHANNEL_CAPACITY);
    let mut captured: BoundedChannel<Vec<f32>> = BoundedChannel::new(CHANNEL_CAPACITY);
    let mut callback = OutputCallback::new(0.0f32);
    let mut session: Session<f32> = Session::new();
    session.set_buffer(vec![0.1, 0.2, 0.3]);
    assert!(session.submit(&mut feed));
    assert_eq!(session.buffer(), &[0.1, 0.2, 0.3]);
    let mut frame = [1.0f32; 2];
    callback.tick(&mut feed, &mut reports, &mut frame);
    assert_eq!(frame, [0.1, 0.2]);
    session.poll(&mut reports, &mut captured);
    assert_eq!(session.remaining(), 1);
    let mut frame = [1.0f32; 2];
    callback.tick(&mut feed, &mut reports, &mut frame);
    assert_eq!(frame, [0.3, 0.0]);
    callback.tick(&mut feed, &mut reports, &mut frame);
    session.poll(&mut reports, &mut captured);
    assert_eq!(session.remaining(), 0);
    session.poll(&mut reports, &mut captured);
    assert_eq!(session.remaining(), 0);
}

#[test]
fn submit_is_dropped_when_the_feed_is_full() {
    let mut feed: BoundedChannel<Vec<u8>> = BoundedChannel::new(CHANNEL_CAPACITY);
    let mut session: Session<u8> = Session::new();
    for n in 0..CHANNEL_CAPACITY + 3 {
        session.set_buffer(vec![n as u8]);
        assert_eq!(session.submit(&mut feed), n < CHANNEL_CAPACITY);
    }
    assert_eq!(feed.len(), CHANNEL_CAPACITY);
    assert_eq!(feed.try_recv(), Some(vec![0]));
}

#[test]
fn captured_chunks_are_appended_while_recording() {
    let mut toggle: BoundedChannel<bool> = BoundedChannel::new(CHANNEL_CAPACITY);
    let mut captured: BoundedChannel<Vec<i32>> = BoundedChannel::new(CHANNEL_CAPACITY);
    let mut reports: BoundedChannel<usize> = BoundedChannel::new(CHANNEL_CAPACITY);
    let mut callback = InputCallback::new();
    let mut session: Session<i32> = Session::new();
    session.set_buffer(vec![-1]);
    callback.tick(&mut toggle, &mut captured, &[100]);
    session.poll(&mut reports, &mut captured);
    assert_eq!(session.buffer(), &[-1]);
    assert!(session.set_recording(&mut toggle, true));
    callback.tick(&mut toggle, &mut captured, &[1, 2]);
    callback.tick(&mut toggle, &mut captured, &[3]);
    session.poll(&mut reports, &mut captured);
    assert_eq!(session.buffer(), &[-1, 1, 2, 3]);
    assert!(captured.is_empty());
    // A chunk that arrives after the flag was cleared here is discarded.
    callback.tick(&mut toggle, &mut captured, &[4]);
    assert!(session.set_recording(&mut toggle, false));
    session.poll(&mut reports, &mut captured);
    assert_eq!(session.buffer(), &[-1, 1, 2, 3]);
    assert!(captured.is_empty());
    assert!(!callback.tick(&mut toggle, &mut captured, &[5]));
}

#[test]
fn chunks_are_collected_or_discarded() {
    let mut feed: BoundedChannel<Vec<u8>> = BoundedChannel::new(CHANNEL_CAPACITY);
    let mut buffer = vec![1u8];
    feed.try_send(vec![2, 3]);
    feed.try_send(vec![]);
    feed.try_send(vec![4]);
    collect_chunks(&mut feed, true, &mut buffer);
    assert_eq!(buffer, vec![1, 2, 3, 4]);
    assert!(feed.is_empty());
    feed.try_send(vec![5]);
    collect_chunks(&mut feed, false, &mut buffer);
    assert_eq!(buffer, vec![1, 2, 3, 4]);
    assert!(feed.is_empty());
}
