//! What a key looks like, with the real letters on it.

use ab_glyph::{point, Font, FontRef, PxScale, ScaleFont};
use agent_frow::settings::Rgb;
use agent_frow::surface::palette;
use agent_frow::surface::streamdeck::canvas::{
    blank, paint_of, render_key, runs, triangle_box, Canvas, Dot, Ink, Label, COVERED,
    FALLBACK_FONT, FONT,
};
use agent_frow::surface::streamdeck::layout::{
    name_layout, name_words, Letters, Run, NAME_LINES, STEP,
};

const RED: Rgb = Rgb { r: 200, g: 0, b: 0 };
const SIZE: (usize, usize) = (72, 72);
const INK: [u8; 3] = [255, 255, 255];
const QUIET_INK: [u8; 3] = [120, 120, 120];

fn face() -> FontRef<'static> {
    FontRef::try_from_slice(epaint_default_fonts::UBUNTU_LIGHT).unwrap()
}

/// The metrics of every letter a label here may hold.
fn letters() -> Letters {
    let font = face();
    let mut all: Vec<char> = (' '..='~').collect();
    all.push('\u{2014}');
    let mut advances = Vec::new();
    let mut kerns = Vec::new();
    for &ch in &all {
        let id = font.glyph_id(ch);
        advances.push((ch, font.h_advance_unscaled(id) as u16));
        for &next in &all {
            let kern = font.kern_unscaled(id, font.glyph_id(next)) as i16;
            if kern != 0 {
                kerns.push((ch, next, kern));
            }
        }
    }
    Letters {
        height: font.height_unscaled() as u16,
        ascent: font.ascent_unscaled() as i16,
        advances,
        kerns,
    }
}

fn rastered(font: &FontRef<'static>, run: &Run) -> Vec<Dot> {
    let scale = PxScale::from(run.size as f32 / STEP as f32);
    let scaled = font.as_scaled(scale);
    let mut cursor = run.left as f32 / run.under as f32;
    let baseline = run.baseline as f32 / run.under as f32;
    let mut previous = None;
    let mut dots = Vec::new();
    for ch in run.text.chars() {
        let id = font.glyph_id(ch);
        if let Some(before) = previous {
            cursor += scaled.kern(before, id);
        }
        let glyph = id.with_scale_and_position(scale, point(cursor, baseline));
        if let Some(outlined) = font.outline_glyph(glyph) {
            let bounds = outlined.px_bounds();
            outlined.draw(|x, y, coverage| {
                dots.push(Dot {
                    x: bounds.min.x as i32 + x as i32,
                    y: bounds.min.y as i32 + y as i32,
                    coverage: coverage.to_bits(),
                });
            });
        }
        cursor += scaled.h_advance(id);
        previous = Some(id);
    }
    dots
}

fn drawn(size: (usize, usize), colour: Rgb, label: &Label, ink: Ink) -> Canvas {
    let font = face();
    let set = runs(size, label, &letters());
    let dots: Vec<Vec<Dot>> = set.iter().map(|run| rastered(&font, run)).collect();
    render_key(size, colour, label, ink, &set, &dots)
}

fn status() -> Label {
    Label::Status {
        state: "Waiting",
        elapsed: "1m 20s".to_owned(),
    }
}

fn is(px: [u8; 3], colour: Rgb) -> bool {
    px == [colour.r, colour.g, colour.b]
}

#[test]
fn a_key_is_exactly_the_size_asked_for() {
    for size in [(72, 72), (80, 80), (96, 96), (120, 120)] {
        let key = drawn(
            size,
            RED,
            &Label::Name("agent-frow".to_owned()),
            Ink::bright(),
        );
        assert_eq!((key.width, key.height), size);
        assert_eq!(key.rgb.len(), size.0 * size.1 * 3);
    }
}

#[test]
fn rendering_is_deterministic() {
    let once = drawn(SIZE, RED, &status(), Ink::bright());
    let twice = drawn(SIZE, RED, &status(), Ink::bright());
    assert_eq!(once, twice);
}

#[test]
fn a_blank_key_is_black() {
    let key = blank(SIZE);
    assert!(key.rgb.iter().all(|&channel| channel == 0));
    assert_eq!(key.rgb.len(), 72 * 72 * 3);
}

#[test]
fn a_font_loads() {
    assert!(
        FontRef::try_from_slice(epaint_default_fonts::UBUNTU_LIGHT).is_ok(),
        "{FONT} on Windows, else egui's {FALLBACK_FONT}"
    );
}

#[test]
fn a_key_is_one_colour_under_its_words() {
    let key = drawn(SIZE, RED, &status(), Ink::bright());
    for y in 0..72 {
        assert!(is(key.pixel(0, y), RED), "left edge, row {y}");
        assert!(is(key.pixel(71, y), RED), "right edge, row {y}");
    }
    for x in 0..72 {
        for y in [0, 1, 2, 69, 70, 71] {
            assert!(is(key.pixel(x, y), RED), "row {y} column {x}");
        }
    }
}

#[test]
fn an_up_triangle_points_up() {
    let (x0, y0, width, height) = triangle_box(SIZE);
    // The apex pixel: the middle column, which for an even width is the
    // right-hand one of the two, as the drawing rounds.
    let apex_x = x0 + width / 2;
    let up = drawn(SIZE, RED, &Label::Up, Ink::bright());
    assert_eq!(up.pixel(apex_x, y0), INK, "the apex is ink");
    assert!(is(up.pixel(x0, y0), RED), "the top-left corner is bare");
    assert!(
        is(up.pixel(x0 + width - 1, y0), RED),
        "the top-right corner is bare"
    );
    assert_eq!(
        up.pixel(x0, y0 + height - 1),
        INK,
        "the base runs to the left corner"
    );

    let down = drawn(SIZE, RED, &Label::Down, Ink::bright());
    let bottom = y0 + height - 1;
    assert_eq!(down.pixel(apex_x, bottom), INK, "the apex is at the bottom");
    assert!(
        is(down.pixel(x0, bottom), RED),
        "the bottom-left corner is bare"
    );
    assert_eq!(down.pixel(x0, y0), INK, "the base runs along the top");
    assert_ne!(up, down);
}

#[test]
fn status_shows_two_lines_set_like_a_name() {
    let full = drawn(SIZE, RED, &status(), Ink::bright());
    let no_clock = drawn(
        SIZE,
        RED,
        &Label::Status {
            state: "Waiting",
            elapsed: String::new(),
        },
        Ink::bright(),
    );
    let none = drawn(SIZE, RED, &Label::Blank, Ink::bright());
    assert_ne!(no_clock, none, "the state line shows");
    assert_ne!(full, no_clock, "the elapsed line shows");
    // Two lines are a taller block: its first line sits higher than a
    // lone one does.
    let first_ink = |key: &Canvas| {
        (0..key.height).find(|&y| (0..key.width).any(|x| !is(key.pixel(x, y), RED)))
    };
    assert!(first_ink(&full) < first_ink(&no_clock));
    // And it is set at the name's size: a lone "Waiting" is as tall as a
    // lone name of the same word.
    let as_name = drawn(SIZE, RED, &Label::Name("Waiting".to_owned()), Ink::bright());
    assert_eq!(no_clock, as_name, "one word reads the same on either key");
}

#[test]
fn a_long_name_is_cut_rather_than_overflowing() {
    let long = "a-project-folder-with-a-name-that-goes-on-and-on-and-on";
    let key = drawn(SIZE, RED, &Label::Name(long.to_owned()), Ink::bright());
    for y in 0..72 {
        assert!(is(key.pixel(0, y), RED));
        assert!(is(key.pixel(71, y), RED));
    }
}

#[test]
fn ink_is_chosen_for_the_lane_and_fades_only_when_its_ends_disagree() {
    // A dark lane: white reads on its full colour as on its glow, so
    // the ink is white throughout — no fade.
    let navy = Rgb { r: 0, g: 60, b: 160 };
    assert_eq!(Ink::on(navy, navy), Ink::bright());
    assert_eq!(Ink::on(palette::base(navy), navy), Ink::bright());
    assert_eq!(
        Ink::on(Rgb { r: 0, g: 36, b: 96 }, navy),
        Ink::bright(),
        "halfway up, still white"
    );
    // A light lane: black on its full colour, white on its glow, and
    // the greys between as the key moves from one to the other.
    let blue = Rgb { r: 80, g: 170, b: 255 };
    assert_eq!(Ink::on(blue, blue), Ink::dark());
    assert_eq!(Ink::on(palette::base(blue), blue), Ink::bright());
    let Ink::Lit(mid) = Ink::on(Rgb { r: 48, g: 102, b: 153 }, blue) else {
        panic!("a lit key");
    };
    assert!(0 < mid && mid < 255, "halfway up: {mid}");
    // Error's dark red on a light lane sits at the dark end of the ramp.
    assert_eq!(Ink::on(palette::dark_red(), blue), Ink::bright());
    let white = Rgb { r: 255, g: 255, b: 255 };
    assert_eq!(Ink::on(white, white), Ink::dark());
}

#[test]
fn the_ink_is_one_straight_ramp_with_no_shadow() {
    assert!(is([127, 127, 127], paint_of(Ink::Lit(128))));
    assert!(is(INK, paint_of(Ink::bright())));
    assert!(is([0, 0, 0], paint_of(Ink::dark())));
    // A white triangle on a black key and nothing else: no shadow.
    let key = drawn(SIZE, Rgb { r: 0, g: 0, b: 0 }, &Label::Up, Ink::bright());
    let pixels: Vec<[u8; 3]> = key.rgb.chunks(3).map(|px| [px[0], px[1], px[2]]).collect();
    assert!(
        pixels.iter().all(|px| *px == [0, 0, 0] || *px == INK),
        "black key, white ink, nothing between"
    );
    assert!(pixels.contains(&INK), "and the ink is there");
}

#[test]
fn dark_ink_is_black_without_a_shadow() {
    let key = drawn(SIZE, Rgb { r: 80, g: 170, b: 255 }, &Label::Up, Ink::dark());
    let pixels: Vec<[u8; 3]> = key.rgb.chunks(3).map(|px| [px[0], px[1], px[2]]).collect();
    assert!(
        !pixels.contains(&[255, 255, 255]),
        "no white anywhere on a light key"
    );
    assert!(
        pixels.contains(&[0, 0, 0]),
        "the black ink is there — a solid triangle, not a thin glyph"
    );
}

#[test]
fn a_name_breaks_at_dots_and_dashes() {
    assert_eq!(name_words("agent-frow"), ["agent", "frow"]);
    assert_eq!(
        name_words("ai.agent.keeb v2"),
        ["ai", "agent", "keeb", "v2"]
    );
    assert_eq!(name_words("--x--"), ["x"]);
    assert_eq!(
        name_words("snake_case"),
        ["snake_case"],
        "underscores are left alone"
    );
    assert!(name_words(" . - ").is_empty());
}

#[test]
fn a_broken_name_is_set_larger_over_more_lines() {
    let letters = letters();
    let laid = |name: &str| name_layout(&letters, name, 63 * STEP, 60 * STEP, 20 * STEP).unwrap();
    let (scale, lines) = laid("agent-frow");
    assert_eq!(lines, ["agent", "frow"]);
    assert!(scale > 15 * STEP, "larger than the one-line size, got {scale}");
    let (one, lines) = laid("frow");
    assert_eq!(lines, ["frow"]);
    assert_eq!(one, 20 * STEP, "a short name takes the full size");
    let (_, lines) = laid("one two three four");
    assert!(lines.len() <= NAME_LINES);
    let (floor, lines) = laid("anunbreakablenameoverflowsthekey");
    assert_eq!(lines.len(), 1);
    assert_eq!(floor, 9 * STEP, "the floor, and the line is cut when drawn");
}

#[test]
fn enter_is_set_like_the_name() {
    let enter = drawn(SIZE, RED, &Label::Enter, Ink::bright());
    let name = drawn(SIZE, RED, &Label::Name("Enter".to_owned()), Ink::bright());
    assert_eq!(enter, name);
}

#[test]
fn a_triangle_is_a_fifth_of_the_key() {
    let (_, _, width, height) = triangle_box(SIZE);
    assert_eq!((width, height), (14, 14));
}

#[test]
fn waiting_puts_how_long_first_and_larger() {
    let wait = Label::Wait {
        state: "Waiting",
        held: "12m".to_owned(),
    };
    let key = drawn(SIZE, RED, &wait, Ink::bright());
    let as_status = drawn(
        SIZE,
        RED,
        &Label::Status {
            state: "Waiting",
            elapsed: "12m".to_owned(),
        },
        Ink::bright(),
    );
    assert_ne!(key, as_status, "not the state key's two lines of one size");
    assert_ne!(key, drawn(SIZE, RED, &Label::Blank, Ink::bright()));
    assert_eq!(
        key,
        drawn(SIZE, RED, &wait, Ink::bright()),
        "deterministic"
    );
    // The ink falls in two bands, a caption over a headline, and the
    // lower one — the count — is the taller.
    let inked: Vec<bool> = (0..key.height)
        .map(|y| (0..key.width).any(|x| !is(key.pixel(x, y), RED)))
        .collect();
    let mut bands: Vec<(usize, usize)> = Vec::new();
    for (y, &ink) in inked.iter().enumerate() {
        match (ink, bands.last_mut()) {
            (true, Some(band)) if band.1 == y => band.1 = y + 1,
            (true, _) => bands.push((y, y + 1)),
            (false, _) => {}
        }
    }
    assert_eq!(bands.len(), 2, "a caption and a headline: {bands:?}");
    let (caption, headline) = (bands[0], bands[1]);
    assert!(
        headline.1 - headline.0 > caption.1 - caption.0,
        "the count is the larger line: {bands:?}"
    );
}

#[test]
fn a_gauge_is_its_label_over_its_value() {
    let gauge = drawn(
        SIZE,
        RED,
        &Label::Gauge {
            name: "ctx",
            value: Some(42),
        },
        Ink::bright(),
    );
    let as_status = drawn(
        SIZE,
        RED,
        &Label::Status {
            state: "ctx",
            elapsed: "42%".to_owned(),
        },
        Ink::bright(),
    );
    assert_eq!(gauge, as_status, "two lines by the one rule");
    let unknown = drawn(
        SIZE,
        RED,
        &Label::Gauge {
            name: "ctx",
            value: None,
        },
        Ink::bright(),
    );
    assert_ne!(gauge, unknown);
}

#[test]
fn an_unknown_gauge_is_a_dash() {
    let unknown = drawn(
        SIZE,
        RED,
        &Label::Gauge {
            name: "5h",
            value: None,
        },
        Ink::bright(),
    );
    let dash = drawn(
        SIZE,
        RED,
        &Label::Status {
            state: "5h",
            elapsed: "—".to_owned(),
        },
        Ink::bright(),
    );
    assert_eq!(unknown, dash);
}

#[test]
fn quiet_ink_never_outshines_the_key() {
    let key = drawn(
        SIZE,
        palette::off(),
        &Label::Name("quiet".to_owned()),
        Ink::Quiet,
    );
    let brightest = key.rgb.iter().copied().max().unwrap();
    assert!(
        brightest <= QUIET_INK[0],
        "no white on a dark key, got {brightest}"
    );
    assert!(brightest > 40, "but the words are there");
}

#[test]
fn a_dot_outside_its_band_or_the_key_is_left_out() {
    let run = Run {
        text: "x".to_owned(),
        size: STEP,
        left: 0,
        baseline: 0,
        under: 1,
        band: (1, 3),
    };
    let dot = |x: i32, y: i32, coverage: u32| Dot { x, y, coverage };
    let dots = vec![
        dot(0, 0, COVERED),
        dot(1, 1, COVERED),
        dot(2, 2, 0.5f32.to_bits()),
        dot(3, 3, COVERED),
        dot(-1, 1, COVERED),
        dot(9, 2, COVERED),
    ];
    let key = render_key(
        (4, 4),
        RED,
        &Label::Enter,
        Ink::bright(),
        &vec![run],
        &vec![dots],
    );
    let inked: Vec<(usize, usize)> = (0..16)
        .map(|at| (at % 4, at / 4))
        .filter(|&(x, y)| !is(key.pixel(x, y), RED))
        .collect();
    assert_eq!(inked, [(1, 1), (2, 2)]);
    assert_eq!(key.pixel(1, 1), INK);
    assert_eq!(key.pixel(2, 2), [228, 128, 128]);
}
