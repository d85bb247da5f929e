use audio_learn::float::{
    count_bits, power_of_two, round_integer, round_quotient, scaled_times, scaled_whole_part, Scaled,
};
use audio_learn::sample::{Sample, SILENCE, UNITY};
use audio_learn::seconds::Seconds;

/// A sequence of patterns that reaches all kinds of numbers.
struct Patterns {
    state: u64,
}

impl Patterns {
    fn new() -> Patterns {
        Patterns { state: 0x9E37_79B9_7F4A_7C15 }
    }

    fn next(&mut self) -> u64 {
        self.state ^= self.state << 13;
        self.state ^= self.state >> 7;
        self.state ^= self.state << 17;
        self.state
    }
}

fn singles() -> Vec<u32> {
    let mut all: Vec<u32> = vec![
        0,
        0x8000_0000,
        1,
        0x8000_0001,
        0x007F_FFFF,
        0x0080_0000,
        0x0080_0001,
        0x3F80_0000,
        0xBF80_0000,
        0x3F7F_FFFF,
        0x3F80_0001,
        0x7F7F_FFFF,
        0xFF7F_FFFF,
        0x7F80_0000,
        0xFF80_0000,
        0x7FC0_0000,
        0x3F00_0000,
        0x4000_0000,
        0x447A_0000,
        0x3E80_0000,
        0x0000_0100,
        0x6000_0000,
        0x2000_0000,
    ];
    let mut patterns = Patterns::new();
    for _ in 0..60 {
        all.push(patterns.next() as u32);
    }
    all
}

fn doubles() -> Vec<u64> {
    let mut all: Vec<u64> = vec![
        0,
        0x8000_0000_0000_0000,
        1,
        0x000F_FFFF_FFFF_FFFF,
        0x0010_0000_0000_0000,
        0x3FF0_0000_0000_0000,
        0xBFF0_0000_0000_0000,
        0x3FEF_FFFF_FFFF_FFFF,
        0x7FEF_FFFF_FFFF_FFFF,
        0x7FF0_0000_0000_0000,
        0xFFF0_0000_0000_0000,
        0x7FF8_0000_0000_0000,
        0x4034_0000_0000_0000,
        0x4072_C000_0000_0000,
        0x4340_0000_0000_0000,
        0x43E0_0000_0000_0000,
    ];
    let mut patterns = Patterns::new();
    for _ in 0..60 {
        all.push(patterns.next());
        // Numbers of an ordinary size as well.
        all.push(0x3FD0_0000_0000_0000 + patterns.next() % 0x0200_0000_0000_0000);
    }
    all
}

fn same_single(computed: Sample, expected: f32) -> bool {
    if expected.is_nan() {
        f32::from_bits(computed.bits).is_nan()
    } else {
        computed.bits == expected.to_bits()
    }
}

fn same_double(computed: Seconds, expected: f64) -> bool {
    if expected.is_nan() {
        f64::from_bits(computed.bits).is_nan()
    } else {
        computed.bits == expected.to_bits()
    }
}

#[test]
fn sums_are_those_of_the_machine() {
    for a in singles() {
        for b in singles() {
            let sum = Sample { bits: a }.plus(Sample { bits: b });
            assert!(same_single(sum, f32::from_bits(a) + f32::from_bits(b)), "{a:x} + {b:x}");
        }
    }
}

#[test]
fn products_are_those_of_the_machine() {
    for a in singles() {
        for b in singles() {
            let product = Sample { bits: a }.times(Sample { bits: b });
            assert!(same_single(product, f32::from_bits(a) * f32::from_bits(b)), "{a:x} * {b:x}");
        }
    }
}

#[test]
fn quotients_are_those_of_the_machine() {
    for a in singles() {
        for b in singles() {
            let quotient = Sample { bits: a }.over(Sample { bits: b });
            assert!(same_single(quotient, f32::from_bits(a) / f32::from_bits(b)), "{a:x} / {b:x}");
        }
    }
}

#[test]
fn whole_parts_are_those_of_the_machine() {
    for a in singles() {
        assert_eq!(Sample { bits: a }.to_whole(), f32::from_bits(a) as u64, "{a:x}");
    }
    assert_eq!(Sample { bits: 2.9f32.to_bits() }.to_whole(), 2);
    assert_eq!(Sample { bits: 88_200f32.to_bits() }.to_whole(), 88_200);
}

#[test]
fn counts_become_singles() {
    let mut patterns = Patterns::new();
    for shift in 0..64 {
        for near in [0u64, 1, 2, 3] {
            let count = (1u64 << shift).wrapping_add(near).wrapping_sub(1);
            assert_eq!(Sample::from_count(count).bits, (count as f32).to_bits(), "{count}");
        }
        let count = patterns.next() >> shift;
        assert_eq!(Sample::from_count(count).bits, (count as f32).to_bits(), "{count}");
    }
    assert_eq!(Sample::from_count(1).bits, UNITY);
    assert_eq!(Sample::from_count(0).bits, SILENCE);
}

#[test]
fn ratios_of_counts_are_those_of_the_machine() {
    let mut patterns = Patterns::new();
    for shift in 0..62 {
        for _ in 0..8 {
            let num = patterns.next() >> shift;
            let den = (patterns.next() >> (61 - shift)) + 1;
            let expected = num as f32 / den as f32;
            assert_eq!(Sample::from_ratio(num, den).bits, expected.to_bits(), "{num} / {den}");
        }
    }
    assert_eq!(Sample::from_ratio(1, 3).bits, 0x3EAA_AAAB);
    assert_eq!(Sample::from_ratio(7, 7).bits, UNITY);
    assert_eq!(Sample::from_ratio(0, 7).bits, SILENCE);
}

#[test]
fn unity_and_silence_change_nothing() {
    for a in singles() {
        let x = Sample { bits: a };
        if !f32::from_bits(a).is_nan() {
            assert_eq!(x.times(Sample { bits: UNITY }), x);
            if a != 0x8000_0000 {
                assert_eq!(Sample { bits: SILENCE }.plus(x), x);
            }
        }
    }
    // Negative zero loses its sign.
    assert_eq!(Sample { bits: SILENCE }.plus(Sample { bits: 0x8000_0000 }).bits, SILENCE);
}

#[test]
fn order_of_operands_does_not_matter() {
    for a in singles() {
        for b in singles() {
            let (x, y) = (Sample { bits: a }, Sample { bits: b });
            assert_eq!(x.plus(y), y.plus(x));
            assert_eq!(x.times(y), y.times(x));
        }
    }
}

#[test]
fn seconds_add_and_subtract_like_the_machine() {
    for a in doubles() {
        for b in doubles() {
            let (x, y) = (f64::from_bits(a), f64::from_bits(b));
            let (s, t) = (Seconds { bits: a }, Seconds { bits: b });
            assert!(same_double(s.plus(t), x + y), "{a:x} + {b:x}");
            assert!(same_double(s.minus(t), x - y), "{a:x} - {b:x}");
        }
    }
}

#[test]
fn seconds_compare_like_the_machine() {
    for a in doubles() {
        let (s, x) = (Seconds { bits: a }, f64::from_bits(a));
        assert_eq!(s.is_above_zero(), x > 0.0);
        assert_eq!(s.is_below_zero(), x < 0.0);
        assert_eq!(s.is_not_a_number(), x.is_nan());
        assert_eq!(f64::from_bits(s.clip().bits), x.max(0.0));
    }
}

#[test]
fn seconds_from_counts_and_singles() {
    let mut patterns = Patterns::new();
    for shift in 0..64 {
        let count = patterns.next() >> shift;
        assert_eq!(Seconds::from_count(count).bits, (count as f64).to_bits());
    }
    for a in singles() {
        assert!(same_double(Seconds::from_single(a), f32::from_bits(a) as f64), "{a:x}");
    }
    assert_eq!(Seconds::from_single(20f32.to_bits()).bits, 20f64.to_bits());
}

#[test]
fn seconds_count_like_the_machine() {
    for a in doubles() {
        for factor in [0u64, 1, 2, 44_100, 88_200, 96_000, 0xFFFF * 0xFFFF_FFFF] {
            let expected = (factor as f64 * f64::from_bits(a)) as u64;
            assert_eq!(Seconds { bits: a }.count(factor), expected, "{a:x} * {factor}");
        }
    }
    assert_eq!(Seconds { bits: 1.5f64.to_bits() }.count(88_200), 132_300);
}

#[test]
fn rounding_goes_to_the_nearest_even() {
    assert_eq!(round_quotient(5, 2, 24), Scaled { mant: 2, exp: 0 });
    assert_eq!(round_quotient(7, 2, 24), Scaled { mant: 4, exp: 0 });
    assert_eq!(round_integer(0b1011, 3), Scaled { mant: 0b110, exp: 1 });
    assert_eq!(round_integer(0b1001, 3), Scaled { mant: 0b100, exp: 1 });
    assert_eq!(count_bits(0), 0);
    assert_eq!(count_bits(255), 8);
    assert_eq!(power_of_two(100), 1u128 << 100);
    assert_eq!(scaled_times(Scaled { mant: 3, exp: 4 }, 5, 24), Scaled { mant: 15, exp: 4 });
    assert_eq!(scaled_whole_part(Scaled { mant: 13, exp: 0 }, 2), 3);
    assert_eq!(scaled_whole_part(Scaled { mant: 1, exp: 90 }, 2), u64::MAX);
}
