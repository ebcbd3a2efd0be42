//! Brightness and pictures come out as single precision has them.

use agent_frow::gauges::codex_gauges;
use agent_frow::settings::{Gain, Rgb, Tuning, ONE};
use agent_frow::single::{fraction_of, from_bits, ratio_of, whole, Single};
use agent_frow::state::State;
use agent_frow::surface::palette::{lane_colors, lock_blend, m_key, rest, scale, tune};
use agent_frow::surface::streamdeck::canvas::{render_key, triangle_box, Ink, Label};

fn value(x: Single) -> f32 {
    (x.m as f64 * 2f64.powi(x.e as i32 - 149)) as f32
}

fn channel(x: f32) -> u8 {
    x.round().clamp(0.0, 255.0) as u8
}

fn dimmed(value: u8, factor: f32) -> u8 {
    channel(f32::from(value) * factor.clamp(0.0, 1.0))
}

fn triangle(elapsed: u64, period: u64) -> f32 {
    let phase = (elapsed % period) as f32 / period as f32;
    if phase < 0.5 {
        phase * 2.0
    } else {
        (1.0 - phase) * 2.0
    }
}

#[test]
fn arithmetic_is_that_of_single_precision() {
    for n in (0..300).step_by(7) {
        for d in (1..300).step_by(11) {
            let a = ratio_of(n, d);
            let x = n as f32 / d as f32;
            assert_eq!(value(a), x, "{n} / {d}");
            for m in [0u32, 1, 3, 77, 255, 4099] {
                let b = ratio_of(m, 97);
                let y = m as f32 / 97.0;
                assert_eq!(value(a.times(b)), x * y);
                assert_eq!(value(a.plus(b)), x + y);
                if x >= y {
                    assert_eq!(value(a.minus(b)), x - y);
                }
                if m > 0 {
                    assert_eq!(value(a.over(b)), x / y);
                }
                assert_eq!(a.below(b), x < y);
                assert_eq!(value(a.min(b)), x.min(y));
                assert_eq!(value(a.max(b)), x.max(y));
            }
            assert_eq!(a.nearest_whole(), x.round() as u64);
            assert_eq!(a.channel(), channel(x));
        }
    }
}

#[test]
fn large_and_small_numbers_are_those_of_single_precision() {
    for n in [0u64, 1, 0xff_ffff, 0x100_0000, 0x100_0001, 0x1ff_ffff, u64::MAX] {
        assert_eq!(value(whole(n)), n as f32);
        assert_eq!(whole(n).nearest_whole(), (n as f32).round() as u64);
    }
    for x in [0.0f32, 1.0e-7, 0.1, 0.5, 0.999_999_94, 1.0, 3.5, 16_777_216.0] {
        assert_eq!(value(from_bits(x.to_bits())), x);
    }
    let tiny = from_bits(1.0e-12f32.to_bits());
    let huge = whole(1 << 40);
    assert_eq!(value(huge.plus(tiny)), (1u64 << 40) as f32);
    assert_eq!(value(huge.minus(tiny)), (1u64 << 40) as f32);
    assert_eq!(value(tiny.over(huge)), 1.0e-12f32 / (1u64 << 40) as f32);
    assert_eq!(value(fraction_of(ONE / 5)), ((ONE / 5) as f64 / ONE as f64) as f32);
}

#[test]
fn a_device_is_dimmed_in_single_precision() {
    // The product is a hair under a half, and single precision rounds it up.
    let tuning = Tuning {
        brightness: 164_896_064,
        color_gain: Gain { r: ONE, g: ONE, b: ONE },
    };
    let rgb = tune(Rgb::new(105, 105, 105), tuning);
    assert_eq!(rgb, Rgb::new(65, 65, 65));
    for brightness in (ONE / 20..=ONE).step_by(9_999_991) {
        let b = (brightness as f64 / ONE as f64) as f32;
        for gain in [ONE / 2, ONE, ONE + ONE / 3] {
            let g = (gain as f64 / ONE as f64) as f32;
            let tuning = Tuning {
                brightness,
                color_gain: Gain { r: gain, g: gain, b: gain },
            };
            for v in (0..=255).step_by(5) {
                let expected = channel(f32::from(dimmed(v, b)) * g);
                assert_eq!(tune(Rgb::new(v, 0, v), tuning), Rgb::new(expected, 0, expected));
            }
        }
    }
}

#[test]
fn the_waves_are_those_of_single_precision() {
    let base = 0.2f32;
    assert_eq!(value(rest()), base);
    for elapsed in (0..2400).step_by(13) {
        let toward = triangle(elapsed, 2400);
        for v in (0..=252).step_by(12) {
            let color = Rgb::new(v, v + 1, v + 2);
            let fade = |v: u8| channel(f32::from(v) + (255.0 - f32::from(v)) * toward);
            assert_eq!(lock_blend(color, elapsed), Rgb::new(fade(v), fade(v + 1), fade(v + 2)));

            let raw = base + (1.0 - base) * triangle(elapsed, 2000);
            let lifted = 0.55f32 + (1.0 - 0.55f32) * ((raw - base) / (1.0 - base)).clamp(0.0, 1.0);
            for (selected, level) in [(false, raw), (true, lifted)] {
                let key = m_key(Some(State::Running), color, elapsed, selected, false);
                assert_eq!(key.r, dimmed(v, level));
                assert_eq!(key.b, dimmed(v + 2, level));
            }

            let keys = lane_colors(Some(State::Running), color, 4, elapsed);
            for (index, key) in keys.iter().enumerate() {
                let slots = 5.0f32;
                let position = (elapsed % 1400) as f32 / 1400.0 * slots;
                let raw = (position - index as f32).abs();
                let distance = raw.min(slots - raw);
                let t = (1.0 - distance.min(1.0)).clamp(0.0, 1.0);
                let lit = t * t * (3.0 - 2.0 * t);
                assert_eq!(key.g, dimmed(v + 1, base.max(lit)), "{elapsed} {index}");
            }
        }
    }
    assert_eq!(scale(Rgb::new(100, 200, 50), rest()), Rgb::new(20, 40, 10));
}

#[test]
fn an_arrow_is_that_of_single_precision() {
    for side in [72usize, 80, 96, 120, 250, 497] {
        let size = (side, side + 23);
        let (x0, y0, width, height) = triangle_box(size);
        assert_eq!(width, ((size.0 as f32) * 0.2).round().max(3.0) as usize);
        assert_eq!(height, ((size.1 as f32) * 0.2).round().max(3.0) as usize);
        for (label, up) in [(Label::Up, true), (Label::Down, false)] {
            let key = render_key(size, Rgb::new(0, 0, 0), &label, Ink::bright(), &vec![], &vec![]);
            let half_base = (width as f32 - 1.0) / 2.0;
            let centre = x0 as f32 + half_base;
            for row in 0..height {
                let t = row as f32 / (height - 1) as f32;
                let t = if up { t } else { 1.0 - t };
                let half = (half_base * t).round();
                let from = (centre - half).round().max(0.0) as usize;
                let to = (centre + half).round() as usize;
                for x in 0..size.0 {
                    let lit = key.rgb[((y0 + row) * size.0 + x) * 3] == 255;
                    assert_eq!(lit, from <= x && x <= to, "{side} {row} {x}");
                }
            }
        }
    }
}

#[test]
fn ink_follows_the_key_in_single_precision() {
    // Between white on the glow and black on the full colour.
    let lane = Rgb::new(80, 170, 255);
    let brightness = |c: Rgb| {
        (0.2126f32 * f32::from(c.r) + 0.7152 * f32::from(c.g) + 0.0722 * f32::from(c.b)).round()
    };
    let low = scale(lane, rest());
    for n in 0..=100 {
        let colour = scale(lane, ratio_of(n, 100));
        let t = ((brightness(colour) - brightness(low)) / (brightness(lane) - brightness(low)))
            .clamp(0.0, 1.0);
        assert_eq!(Ink::on(colour, lane), Ink::Lit((255.0 * t).round() as u8));
    }
}

#[test]
fn the_context_is_counted_in_double_precision() {
    let line = |total: i64, window: i64| {
        format!(
            "{{\"payload\":{{\"type\":\"token_count\",\"info\":{{\"last_token_usage\":\
             {{\"total_tokens\":{total}}},\"model_context_window\":{window}}}}}}}"
        )
    };
    let totals = [0, 12_000, 12_057, 100_000, 150_000, i64::MAX / 3, i64::MAX];
    let windows = [12_001, 12_200, 212_000, 258_400, i64::MAX / 2, i64::MAX];
    for total in totals {
        for window in windows {
            let used = (total - 12_000).max(0) as f64;
            let room = (window - 12_000) as f64;
            let expected = (100.0 * used / room).round().clamp(0.0, 100.0) as u8;
            let gauges = codex_gauges(&line(total, window)).unwrap();
            assert_eq!(gauges.context_used, Some(expected), "{total} of {window}");
        }
    }
    // A hair under half of a hundredth, which a double no longer tells apart.
    let used = 1i64 << 53;
    let room = 200 * (1i64 << 53) + 100;
    let gauges = codex_gauges(&line(used + 12_000, room + 12_000)).unwrap();
    assert_eq!(gauges.context_used, Some(1));
}
