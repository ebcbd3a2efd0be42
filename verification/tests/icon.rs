//! The icon.

use agent_frow::icon::{ico, key_colors, rgba};

#[test]
fn every_size_renders_four_distinct_keys_on_a_deck() {
    for size in [16u32, 24, 32, 48, 64] {
        let pixels = rgba(size);
        assert_eq!(pixels.len(), (size * size * 4) as usize);
        for color in key_colors() {
            let found = pixels
                .chunks_exact(4)
                .any(|px| px[0] == color.0 && px[1] == color.1 && px[2] == color.2);
            assert!(found, "size {size} lost key colour {color:?}");
        }
        // And the corners stay transparent, so it does not render as a
        // solid tile on the taskbar.
        assert_eq!(pixels[3], 0, "size {size} corner is opaque");
    }
}

#[test]
fn the_middle_of_each_key_is_its_colour() {
    let size = 64usize;
    let pixels = rgba(64);
    // gap 4, keys 11 wide: the first key spans 4..=14.
    for (index, color) in key_colors().iter().enumerate() {
        let x = 4 + index * 15 + 5;
        let at = (32 * size + x) * 4;
        assert_eq!(
            (pixels[at], pixels[at + 1], pixels[at + 2], pixels[at + 3]),
            (color.0, color.1, color.2, 255)
        );
    }
    // Between two keys there is deck.
    let at = (32 * size + 16) * 4;
    assert_eq!(&pixels[at..at + 4], &[24, 26, 32, 255]);
}

#[test]
fn the_smallest_icons_are_drawn_too() {
    for size in 0..10u32 {
        assert_eq!(rgba(size).len(), (size * size * 4) as usize);
    }
}

#[test]
fn an_ico_holds_every_size_where_its_directory_says() {
    let sizes = vec![16u32, 32];
    let file = ico(&sizes);
    assert_eq!(&file[..6], &[0, 0, 1, 0, 2, 0]);
    let mut offset = 6 + 16 * 2;
    for (index, size) in sizes.iter().enumerate() {
        let line = &file[6 + 16 * index..6 + 16 * (index + 1)];
        assert_eq!(line[0] as u32, *size);
        assert_eq!(line[1] as u32, *size);
        assert_eq!(&line[2..8], &[0, 0, 1, 0, 32, 0]);
        let length = u32::from_le_bytes([line[8], line[9], line[10], line[11]]) as usize;
        let at = u32::from_le_bytes([line[12], line[13], line[14], line[15]]) as usize;
        assert_eq!(at, offset);
        assert_eq!(length, 40 + (size * size * 4) as usize + (4 * size) as usize);
        let image = &file[at..at + length];
        assert_eq!(&image[..4], &40u32.to_le_bytes());
        assert_eq!(&image[8..12], &(size * 2).to_le_bytes());
        // Rows from the bottom, blue first.
        let pixels = rgba(*size);
        let s = *size as usize;
        for y in 0..s {
            for x in 0..s {
                let from = ((s - 1 - y) * s + x) * 4;
                let to = 40 + (y * s + x) * 4;
                assert_eq!(
                    &image[to..to + 4],
                    &[pixels[from + 2], pixels[from + 1], pixels[from], pixels[from + 3]]
                );
            }
        }
        assert!(image[40 + s * s * 4..].iter().all(|byte| *byte == 0));
        offset += length;
    }
    assert_eq!(file.len(), offset);
}
