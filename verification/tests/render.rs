use termiplay::render::ansi::{AnsiRenderer, Paint};
use termiplay::render::ascii::{AsciiRenderer, Glyph, LumaFrame};
use termiplay::render::kitty::{graphics_command_bytes, KittyRenderer};
use termiplay::render::unicode::{HalfBlock, UnicodeRenderer};
use termiplay::render::{create_renderer, parse_mode, AnyRenderer, Frame, RenderMode, Rgb};

fn rgb(r: u8, g: u8, b: u8) -> Rgb {
    Rgb { r, g, b }
}

fn frame(width: u16, height: u16, colours: &[Rgb]) -> Frame {
    let mut pixels = Vec::new();
    for c in colours {
        pixels.push(c.r);
        pixels.push(c.g);
        pixels.push(c.b);
    }
    Frame { width, height, pixels }
}

#[test]
fn ascii_ramp_ends_and_middle() {
    assert_eq!(AsciiRenderer::get_char(0), " ");
    assert_eq!(AsciiRenderer::get_char(28), " ");
    assert_eq!(AsciiRenderer::get_char(29), ".");
    assert_eq!(AsciiRenderer::get_char(128), "=");
    assert_eq!(AsciiRenderer::get_char(254), "%");
    assert_eq!(AsciiRenderer::get_char(255), "@");
}

#[test]
fn ascii_ramp_never_darkens() {
    let ramp = [" ", ".", ":", "-", "=", "+", "*", "#", "%", "@"];
    let mut last = 0;
    for l in 0..=255u8 {
        let g = AsciiRenderer::get_char(l);
        let idx = ramp.iter().position(|r| *r == g).unwrap();
        assert!(idx >= last);
        last = idx;
    }
    assert_eq!(last, 9);
}

#[test]
fn ansi_draws_nothing_before_init() {
    let mut r = AnsiRenderer::new();
    let f = frame(1, 1, &[rgb(9, 9, 9)]);
    assert!(r.render_frame(&f, 0, 0, 1, 1).is_empty());
}

#[test]
fn ansi_paints_changed_cells_in_row_major_order() {
    let mut r = AnsiRenderer::new();
    r.init(4, 3);
    let f = frame(2, 2, &[rgb(1, 2, 3), rgb(0, 0, 0), rgb(4, 5, 6), rgb(7, 8, 9)]);
    let out = r.render_frame(&f, 1, 1, 2, 2);
    assert_eq!(
        out,
        vec![
            Paint { x: 1, y: 1, color: rgb(1, 2, 3) },
            Paint { x: 1, y: 2, color: rgb(4, 5, 6) },
            Paint { x: 2, y: 2, color: rgb(7, 8, 9) },
        ]
    );
}

#[test]
fn ansi_redraw_of_same_frame_paints_nothing() {
    let mut r = AnsiRenderer::new();
    r.init(3, 3);
    let f = frame(2, 2, &[rgb(10, 0, 0), rgb(0, 20, 0), rgb(0, 0, 30), rgb(40, 40, 40)]);
    assert_eq!(r.render_frame(&f, 0, 0, 2, 2).len(), 4);
    assert!(r.render_frame(&f, 0, 0, 2, 2).is_empty());
}

#[test]
fn ansi_repaints_only_what_changed() {
    let mut r = AnsiRenderer::new();
    r.init(2, 1);
    let f1 = frame(2, 1, &[rgb(5, 5, 5), rgb(6, 6, 6)]);
    r.render_frame(&f1, 0, 0, 2, 1);
    let f2 = frame(2, 1, &[rgb(5, 5, 5), rgb(6, 6, 7)]);
    assert_eq!(r.render_frame(&f2, 0, 0, 2, 1), vec![Paint { x: 1, y: 0, color: rgb(6, 6, 7) }]);
}

#[test]
fn ansi_clips_to_terminal_and_cells() {
    let mut r = AnsiRenderer::new();
    r.init(2, 2);
    let f = frame(3, 3, &[rgb(1, 1, 1); 9]);
    // offset 1: only one column and one row of the terminal remain
    assert_eq!(r.render_frame(&f, 1, 1, 3, 3), vec![Paint { x: 1, y: 1, color: rgb(1, 1, 1) }]);
    // cells limit the draw to one cell too
    let mut r2 = AnsiRenderer::new();
    r2.init(5, 5);
    assert_eq!(r2.render_frame(&f, 0, 0, 1, 1).len(), 1);
    // offset past the edge draws nothing
    assert!(r2.render_frame(&f, 9, 0, 3, 3).is_empty());
}

#[test]
fn ansi_resize_forgets_what_was_drawn() {
    let mut r = AnsiRenderer::new();
    r.init(1, 1);
    let f = frame(1, 1, &[rgb(3, 3, 3)]);
    assert_eq!(r.render_frame(&f, 0, 0, 1, 1).len(), 1);
    r.resize(1, 1);
    assert_eq!(r.render_frame(&f, 0, 0, 1, 1).len(), 1);
    assert_eq!(r.get_logical_size(80, 24), (80, 24));
    assert!(AnsiRenderer::supported());
}

#[test]
fn unicode_pairs_rows_into_half_blocks() {
    let mut r = UnicodeRenderer::new();
    r.init(3, 2);
    // 2 x 3 frame: the third row has no partner and is not shown
    let f = frame(
        2,
        3,
        &[rgb(1, 1, 1), rgb(0, 0, 0), rgb(2, 2, 2), rgb(0, 0, 0), rgb(9, 9, 9), rgb(9, 9, 9)],
    );
    let out = r.render_frame(&f, 1, 0, 2, 2);
    assert_eq!(out, vec![HalfBlock { x: 1, y: 0, top: rgb(1, 1, 1), bottom: rgb(2, 2, 2) }]);
    assert!(r.render_frame(&f, 1, 0, 2, 2).is_empty());
    assert_eq!(r.get_logical_size(80, 24), (80, 48));
}

#[test]
fn unicode_repaints_when_either_half_changes() {
    let mut r = UnicodeRenderer::new();
    r.init(1, 1);
    let f1 = frame(1, 2, &[rgb(1, 0, 0), rgb(0, 1, 0)]);
    assert_eq!(r.render_frame(&f1, 0, 0, 1, 1).len(), 1);
    let f2 = frame(1, 2, &[rgb(1, 0, 0), rgb(0, 2, 0)]);
    assert_eq!(
        r.render_frame(&f2, 0, 0, 1, 1),
        vec![HalfBlock { x: 0, y: 0, top: rgb(1, 0, 0), bottom: rgb(0, 2, 0) }]
    );
}

#[test]
fn ascii_redraws_cells_whose_luminance_changes() {
    let mut r = AsciiRenderer::new();
    r.init(3, 2);
    let f = LumaFrame { width: 2, height: 2, levels: vec![0, 200, 50, 0] };
    assert_eq!(
        r.render_frame(&f, 1, 0, 2, 2),
        vec![Glyph { x: 2, y: 0, luminance: 200 }, Glyph { x: 1, y: 1, luminance: 50 }]
    );
    assert!(r.render_frame(&f, 1, 0, 2, 2).is_empty());
    let g = LumaFrame { width: 2, height: 2, levels: vec![0, 200, 51, 0] };
    assert_eq!(r.render_frame(&g, 1, 0, 2, 2), vec![Glyph { x: 1, y: 1, luminance: 51 }]);
    assert_eq!(r.get_logical_size(7, 5), (7, 5));
}

#[test]
fn kitty_logical_sizes() {
    let high = KittyRenderer::new(false);
    assert_eq!(high.get_logical_size(80, 24), (1200, 720));
    assert_eq!(high.get_logical_size(100, 20), (1280, 600));
    let low = KittyRenderer::new(true);
    assert_eq!(low.get_logical_size(80, 24), (400, 240));
    assert_eq!(low.get_logical_size(200, 50), (640, 360));
}

#[test]
fn kitty_command_bytes() {
    let cmd = graphics_command_bytes(640, 360, 80, 23, b"QUJD");
    assert_eq!(cmd, b"\x1b_Ga=T,f=24,s=640,v=360,c=80,r=23,i=1,q=2,t=t;QUJD\x1b\\".to_vec());
    let zero = graphics_command_bytes(0, 9, 10, 65535, b"");
    assert_eq!(zero, b"\x1b_Ga=T,f=24,s=0,v=9,c=10,r=65535,i=1,q=2,t=t;\x1b\\".to_vec());
}

#[test]
fn kitty_render_frame_encodes_the_path() {
    let r = KittyRenderer::new(false);
    let f = Frame { width: 2, height: 1, pixels: vec![0; 6] };
    let cmd = r.render_frame(&f, 3, 4, "/tmp/x");
    assert_eq!(cmd, b"\x1b_Ga=T,f=24,s=2,v=1,c=3,r=4,i=1,q=2,t=t;L3RtcC94\x1b\\".to_vec());
}

#[test]
fn kitty_support_detection() {
    assert!(KittyRenderer::supported(true, None));
    assert!(KittyRenderer::supported(false, Some("xterm-kitty")));
    assert!(KittyRenderer::supported(false, Some("XTERM-KiTTy")));
    assert!(!KittyRenderer::supported(false, Some("xterm-256color")));
    assert!(!KittyRenderer::supported(false, Some("kitt")));
    assert!(!KittyRenderer::supported(false, None));
}

#[test]
fn modes_by_name() {
    assert_eq!(parse_mode("ansi"), Some(RenderMode::Ansi));
    assert_eq!(parse_mode("unicode"), Some(RenderMode::Unicode));
    assert_eq!(parse_mode("kitty"), Some(RenderMode::Kitty));
    assert_eq!(parse_mode("ascii"), Some(RenderMode::Ascii));
    assert_eq!(parse_mode("ANSI"), None);
    assert_eq!(parse_mode("ünicode"), None);
    assert_eq!(parse_mode(""), None);
}

#[test]
fn create_renderer_picks_the_named_mode() {
    assert!(matches!(create_renderer("ansi", false), Ok(AnyRenderer::Ansi(_))));
    assert!(matches!(create_renderer("unicode", false), Ok(AnyRenderer::Unicode(_))));
    assert!(matches!(create_renderer("ascii", true), Ok(AnyRenderer::Ascii(_))));
    match create_renderer("kitty", true) {
        Ok(AnyRenderer::Kitty(k)) => assert_eq!(k.get_logical_size(80, 24), (400, 240)),
        _ => panic!("expected a Kitty renderer"),
    }
    match create_renderer("sixel", false) {
        Err(e) => assert_eq!(e.mode, "sixel"),
        Ok(_) => panic!("sixel is no mode"),
    }
}

#[test]
fn ansi_paints_turn_the_screen_into_the_frame() {
    let (w, h) = (4usize, 3usize);
    let mut screen = vec![rgb(0, 0, 0); w * h];
    let mut r = AnsiRenderer::new();
    r.init(w as u16, h as u16);
    let colours: Vec<Rgb> = (0..6u8).map(|i| rgb(i * 40, 255 - i, i)).collect();
    let f = frame(3, 2, &colours);
    for p in r.render_frame(&f, 1, 1, 3, 2) {
        screen[p.y as usize * w + p.x as usize] = p.color;
    }
    for y in 0..h {
        for x in 0..w {
            let expected = if (1..4).contains(&x) && (1..3).contains(&y) {
                colours[(y - 1) * 3 + (x - 1)]
            } else {
                rgb(0, 0, 0)
            };
            assert_eq!(screen[y * w + x], expected);
        }
    }
}

#[test]
fn kitty_checked_logical_size() {
    let high = KittyRenderer::new(false);
    assert_eq!(high.checked_logical_size(80, 24), Some((1200, 720)));
    assert_eq!(high.checked_logical_size(4369, 1), Some((1280, 30)));
    assert_eq!(high.checked_logical_size(4370, 1), None);
    assert_eq!(high.checked_logical_size(1, 2184), Some((15, 720)));
    assert_eq!(high.checked_logical_size(1, 2185 + 1), None);
    let low = KittyRenderer::new(true);
    assert_eq!(low.checked_logical_size(13107, 6553), Some((640, 360)));
    assert_eq!(low.checked_logical_size(13108, 1), None);
}
