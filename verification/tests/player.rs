use termiplay::audio::AudioPacer;
use termiplay::decode::pack_rows;
use termiplay::player::{fit_dimensions, fit_height, place_frame, quits, Key, Placement};
use termiplay::render::RenderMode;

#[test]
fn unicode_height_is_made_even() {
    assert_eq!(fit_height(RenderMode::Unicode, 45), 44);
    assert_eq!(fit_height(RenderMode::Unicode, 44), 44);
    assert_eq!(fit_height(RenderMode::Unicode, 0), 0);
    assert_eq!(fit_height(RenderMode::Ansi, 45), 45);
    assert_eq!(fit_height(RenderMode::Kitty, 721), 721);
}

#[test]
fn frame_is_centred() {
    // 80x24 terminal, one pixel per cell, 64x24 frame
    assert_eq!(
        place_frame(80, 24, 80, 24, 64, 24),
        Placement { offset_x: 8, offset_y: 0, cells_w: 64, cells_h: 24 }
    );
    // half blocks: two pixels per row
    assert_eq!(
        place_frame(80, 24, 80, 48, 80, 45),
        Placement { offset_x: 0, offset_y: 1, cells_w: 80, cells_h: 22 }
    );
    // kitty: 15 x 30 pixels per cell, odd room goes right
    assert_eq!(
        place_frame(81, 24, 1215, 720, 1200, 675),
        Placement { offset_x: 0, offset_y: 1, cells_w: 80, cells_h: 22 }
    );
    // a frame wider than the terminal starts at the left edge
    assert_eq!(
        place_frame(10, 10, 10, 10, 30, 4),
        Placement { offset_x: 0, offset_y: 3, cells_w: 30, cells_h: 4 }
    );
}

#[test]
fn quit_keys() {
    assert!(quits(Key::Char('q')));
    assert!(quits(Key::Esc));
    assert!(!quits(Key::Char('Q')));
    assert!(!quits(Key::Other));
}

#[test]
fn rows_are_packed_without_padding() {
    // 2x2 RGB image with a stride of 8 bytes (2 padding bytes per row)
    let data = [1, 2, 3, 4, 5, 6, 0, 0, 7, 8, 9, 10, 11, 12, 0, 0];
    assert_eq!(pack_rows(&data, 8, 2, 2), vec![1, 2, 3, 4, 5, 6, 7, 8, 9, 10, 11, 12]);
    // the last row needs no padding after it
    assert_eq!(pack_rows(&data[..14], 8, 2, 2).len(), 12);
    assert!(pack_rows(&[], 0, 5, 0).is_empty());
}

#[test]
fn audio_clock_resets_on_first_chunk_and_underrun() {
    let mut p = AudioPacer::new();
    assert!(p.on_chunk(true));
    assert!(!p.on_chunk(false));
    assert!(p.on_chunk(true));
    let mut q = AudioPacer::new();
    assert!(q.on_chunk(false));
    assert!(!AudioPacer::must_wait(3));
    assert!(AudioPacer::must_wait(4));
}

#[test]
fn full_width_unless_too_tall() {
    assert_eq!(fit_dimensions(80, 48, 45, 85), (80, 45));
    assert_eq!(fit_dimensions(80, 48, 48, 80), (80, 48));
    assert_eq!(fit_dimensions(80, 24, 45, 42), (42, 24));
}
