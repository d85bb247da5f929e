use audio_learn::sample::{Sample, SILENCE, UNITY};
use audio_learn::streamer::utils::{f_fadein_linear, f_fadeout_linear};

#[test]
fn linear_fades_are_quotients() {
    for cutoff in [1usize, 2, 3, 7, 1000, 88_200, 20 * 88_200, 1 << 25, (1 << 40) + 12_345] {
        for x in [0, 1, cutoff / 3, cutoff / 2, cutoff - 1, cutoff, cutoff + 5] {
            let fade_in = if x < cutoff { x as f32 / cutoff as f32 } else { 1.0 };
            let fade_out = if x < cutoff { (cutoff - x) as f32 / cutoff as f32 } else { 0.0 };
            assert_eq!(f_fadein_linear(x, cutoff).bits, fade_in.to_bits());
            assert_eq!(f_fadeout_linear(x, cutoff).bits, fade_out.to_bits());
        }
    }
    assert_eq!(f_fadein_linear(1, 4).bits, 0.25f32.to_bits());
    assert_eq!(f_fadeout_linear(1, 4).bits, 0.75f32.to_bits());
}

#[test]
fn fades_start_and_end() {
    assert_eq!(f_fadein_linear(0, 100).bits, SILENCE);
    assert_eq!(f_fadein_linear(100, 100).bits, UNITY);
    assert_eq!(f_fadeout_linear(0, 100).bits, UNITY);
    assert_eq!(f_fadeout_linear(100, 100).bits, SILENCE);
    // A fade over no samples has ended already.
    assert_eq!(f_fadein_linear(0, 0).bits, UNITY);
    assert_eq!(f_fadeout_linear(0, 0).bits, SILENCE);
}

#[test]
fn fade_out_is_fade_in_backwards() {
    for x in 0..=1000 {
        assert_eq!(f_fadeout_linear(x, 1000), f_fadein_linear(1000 - x, 1000));
    }
}

#[test]
fn fade_in_rises() {
    let mut last = 0f32;
    for x in 0..=3000 {
        let gain = f32::from_bits(f_fadein_linear(x, 3000).bits);
        assert!(gain >= last && gain <= 1.0);
        last = gain;
    }
}

#[test]
fn gains_of_a_crossfade_add_up_to_one() {
    for cutoff in [3usize, 10, 49, 1000, 88_200, (1 << 33) + 7] {
        for part in 0..=50 {
            let x = cutoff / 50 * part;
            let sum: Sample = f_fadein_linear(x, cutoff).plus(f_fadeout_linear(x, cutoff));
            let off = (f32::from_bits(sum.bits) as f64 - 1.0).abs();
            assert!(off <= 1.0 / (1u64 << 22) as f64, "{x} of {cutoff}: {off}");
        }
    }
}
