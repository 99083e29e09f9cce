use codec_map::resampler::{process, ResampleError};
use codec_map::speed::Speed;

fn ramp(len: usize) -> Vec<f32> {
    (0..len).map(|i| i as f32 * 0.25).collect()
}

#[test]
fn unit_speed_returns_the_input() {
    let input = vec![0.5f32, -0.25, 0.125, 1.0, -1.0];
    assert_eq!(process(&input, Speed::unit()), Ok(input.clone()));
    assert_eq!(process(&input, Speed::new(3, 3)), Ok(input.clone()));
    assert_eq!(process(&input[..1], Speed::new(1, 1)), Ok(vec![0.5f32]));
}

#[test]
fn empty_input_gives_empty_output() {
    let input: Vec<f32> = Vec::new();
    assert_eq!(process(&input, Speed::new(1, 1)), Ok(Vec::new()));
    assert_eq!(process(&input, Speed::new(1, 7)), Ok(Vec::new()));
    assert_eq!(process(&input, Speed::new(7, 1)), Ok(Vec::new()));
}

#[test]
fn double_speed_takes_every_second_sample() {
    let input = [10u32, 20, 30, 40];
    assert_eq!(process(&input, Speed::new(2, 1)), Ok(vec![10, 30]));
    let input = [10u32, 20, 30, 40, 50];
    // round(5 / 2) = 3: halves round up.
    assert_eq!(process(&input, Speed::new(2, 1)), Ok(vec![10, 30, 50]));
}

#[test]
fn positions_are_rounded_with_halves_up() {
    let input: Vec<u32> = (0..10).collect();
    // round(10 / 1.5) = 7; positions round(1.5 i) = 0, 2, 3, 5, 6, 8, 9.
    assert_eq!(process(&input, Speed::new(3, 2)), Ok(vec![0, 2, 3, 5, 6, 8, 9]));
    // round(10 / 3) = 3; positions 0, 3, 6.
    assert_eq!(process(&input, Speed::new(3, 1)), Ok(vec![0, 3, 6]));
    // round(10 / 4) = 3 (2.5 rounds up); positions 0, 4, 8.
    assert_eq!(process(&input, Speed::new(4, 1)), Ok(vec![0, 4, 8]));
}

#[test]
fn length_is_the_rounded_quotient_at_speed_up() {
    for len in 0..40usize {
        let input = ramp(len);
        for (num, den) in [(1i64, 1u64), (3, 2), (2, 1), (5, 2), (3, 1), (7, 3), (10, 1), (100, 1)] {
            let out = process(&input, Speed::new(num, den)).unwrap();
            let exact = len as f64 * den as f64 / num as f64;
            let expected = (exact + 0.5).floor() as usize;
            assert_eq!(out.len(), expected, "len {len} speed {num}/{den}");
        }
    }
}

#[test]
fn length_never_grows_with_the_speed() {
    let input = ramp(10);
    let speeds = [(1i64, 1u64), (5, 4), (3, 2), (31, 20), (8, 5), (2, 1), (3, 1), (5, 1), (25, 1)];
    let lengths: Vec<usize> =
        speeds.iter().map(|(n, d)| process(&input, Speed::new(*n, *d)).unwrap().len()).collect();
    assert_eq!(lengths, vec![10, 8, 7, 6, 6, 5, 3, 2, 0]);
    for pair in lengths.windows(2) {
        assert!(pair[1] <= pair[0]);
    }
}

#[test]
fn slow_down_repeats_samples_and_drops_slots_past_the_end() {
    let input = ['a', 'b'];
    // round(2 / 0.5) = 4 slots; positions 0, 1, 1, 2; the last one is outside.
    assert_eq!(process(&input, Speed::new(1, 2)), Ok(vec!['a', 'b', 'b']));
    let input = ['a', 'b', 'c'];
    // round(3 / 0.4) = 8 slots; positions 0, 0, 1, 1, 2, 2, 2, 3.
    assert_eq!(
        process(&input, Speed::new(2, 5)),
        Ok(vec!['a', 'a', 'b', 'b', 'c', 'c', 'c'])
    );
}

#[test]
fn last_sample_is_taken_as_it_is() {
    let input = [1.0f32, 2.0, 3.0];
    let out = process(&input, Speed::new(1, 1)).unwrap();
    assert_eq!(out[2], 3.0);
    let out = process(&input, Speed::new(2, 1)).unwrap();
    assert_eq!(out, vec![1.0, 3.0]);
}

#[test]
fn speed_that_is_not_positive_is_refused() {
    let input = ramp(4);
    assert_eq!(process(&input, Speed::new(0, 1)), Err(ResampleError::InvalidSpeed));
    assert_eq!(process(&input, Speed::new(-1, 1)), Err(ResampleError::InvalidSpeed));
    assert_eq!(process(&input, Speed::new(i64::MIN, 3)), Err(ResampleError::InvalidSpeed));
    assert_eq!(process(&input, Speed::new(1, 0)), Err(ResampleError::InvalidSpeed));
    assert_eq!(process(&input, Speed::new(0, 0)), Err(ResampleError::InvalidSpeed));
    let empty: Vec<f32> = Vec::new();
    assert_eq!(process(&empty, Speed::new(0, 1)), Err(ResampleError::InvalidSpeed));
    assert!(!Speed::new(0, 1).check());
    assert!(!Speed::new(2, 0).check());
    assert!(Speed::new(2, 3).check());
    assert!(Speed::unit().check());
}

#[test]
fn output_that_no_index_can_count_is_refused() {
    let input = ramp(2);
    assert_eq!(process(&input, Speed::new(1, u64::MAX)), Err(ResampleError::OutputTooLong));
    let input = ramp(9);
    assert_eq!(process(&input, Speed::new(4, u64::MAX)), Err(ResampleError::OutputTooLong));
}

#[test]
fn errors_describe_themselves() {
    assert_eq!(ResampleError::InvalidSpeed.message(), "invalid speed");
    assert_eq!(ResampleError::OutputTooLong.message(), "output too long");
}

#[test]
fn very_fast_speed_gives_nothing() {
    let input = ramp(5);
    assert_eq!(process(&input, Speed::new(i64::MAX, 1)), Ok(Vec::new()));
    // round(5 / 10) = 1 (0.5 rounds up); position 0.
    assert_eq!(process(&input, Speed::new(10, 1)), Ok(vec![0.0]));
    // round(5 / 11) = 0.
    assert_eq!(process(&input, Speed::new(11, 1)), Ok(Vec::new()));
}

fn ratio(speed: f32) -> Option<Speed> {
    Speed::from_float_bits(speed.to_bits())
}

#[test]
fn float_speed_becomes_its_exact_ratio() {
    assert_eq!(ratio(1.0), Some(Speed::new(1 << 23, 1 << 23)));
    assert_eq!(ratio(1.5), Some(Speed::new(3 << 22, 1 << 23)));
    assert_eq!(ratio(2.0), Some(Speed::new(1 << 23, 1 << 22)));
    assert_eq!(ratio(0.5), Some(Speed::new(1 << 23, 1 << 24)));
    assert_eq!(ratio(8388608.0), Some(Speed::new(1 << 23, 1)));
    assert_eq!(ratio(16777216.0), Some(Speed::new(1 << 24, 1)));
    assert_eq!(ratio(16777215.0), Some(Speed::new(16777215, 1)));
    assert_eq!(ratio(0.1), Some(Speed::new(13421773, 1 << 27)));
    for speed in [1.0f32, 1.5, 0.1, 2.0, 0.25, 3.75, 1.0e-6, 123456.78, 1.0e12, 0.333, 7.0e18] {
        let exact = ratio(speed).unwrap();
        assert!(exact.check());
        assert_eq!(exact.num as f64 / exact.den as f64, speed as f64, "{speed}");
    }
}

#[test]
fn float_speed_that_is_no_positive_number_is_unusable() {
    for speed in [0.0f32, -0.0, -1.0, -1.0e-30, f32::MIN, f32::NEG_INFINITY, f32::NAN, -f32::NAN] {
        assert_eq!(ratio(speed), Some(Speed::new(0, 1)), "{speed}");
        assert_eq!(process(&[1u8, 2], ratio(speed).unwrap()), Err(ResampleError::InvalidSpeed));
    }
}

#[test]
fn float_speed_past_every_buffer_is_the_fastest() {
    assert_eq!(Speed::fastest(), Speed::new(i64::MAX, 1));
    assert_eq!(ratio(f32::INFINITY), Some(Speed::fastest()));
    assert_eq!(ratio(f32::MAX), Some(Speed::fastest()));
    assert_eq!(ratio(9223372036854775808.0), Some(Speed::fastest()));
    // The largest float below 2^63 is still exact.
    assert_eq!(ratio(9223371487098961920.0), Some(Speed::new(9223371487098961920, 1)));
    assert_eq!(process(&[1u8, 2, 3], Speed::fastest()), Ok(Vec::new()));
}

#[test]
fn float_speed_below_the_smallest_ratio_has_none() {
    let smallest = 2.0f32.powi(-40);
    assert_eq!(ratio(smallest), Some(Speed::new(1 << 23, 1 << 63)));
    assert_eq!(ratio(f32::from_bits(smallest.to_bits() - 1)), None);
    assert_eq!(ratio(1.0e-30), None);
    assert_eq!(ratio(f32::MIN_POSITIVE), None);
    assert_eq!(ratio(f32::from_bits(1)), None);
}

#[test]
fn resampling_at_a_float_speed() {
    let input: Vec<u32> = (0..10).collect();
    assert_eq!(process(&input, ratio(1.0).unwrap()), Ok(input.clone()));
    assert_eq!(process(&input, ratio(1.5).unwrap()), Ok(vec![0, 2, 3, 5, 6, 8, 9]));
    assert_eq!(process(&input, ratio(4.0).unwrap()), Ok(vec![0, 4, 8]));
    assert_eq!(process(&[7u8, 9], ratio(0.5).unwrap()), Ok(vec![7, 9, 9]));
}
