use matrix_telemetry::colour::cell_color;
use matrix_telemetry::colour::Ink;
use matrix_telemetry::frame::fit;
use matrix_telemetry::frame::next_frame;
use matrix_telemetry::frame::pause_us;
use matrix_telemetry::frame::quits;
use matrix_telemetry::frame::stats_due;
use matrix_telemetry::frame::Key;
use matrix_telemetry::frame::FRAME_US;
use matrix_telemetry::overlay::hud_text;
use matrix_telemetry::rain::RainState;
use matrix_telemetry::rain::RenderCell;
use matrix_telemetry::screen::render;
use matrix_telemetry::screen::try_render;
use matrix_telemetry::sensor;
use matrix_telemetry::single::Single;
use matrix_telemetry::stats::SystemStats;
use ratatui::buffer::Buffer;
use ratatui::layout::Rect;
use ratatui::style::Color;

fn single(x: f32) -> Single {
    Single::from_bits(x.to_bits())
}

fn float(x: Single) -> f32 {
    f32::from_bits(x.bits)
}

fn rgb(brightness: f32, ram: f32) -> (u8, u8, u8) {
    match cell_color(single(brightness), single(ram), false) {
        Ink::Rgb(r, g, b) => (r, g, b),
        other => panic!("{other:?}"),
    }
}

#[test]
fn heads_are_white() {
    for ram in [0.0, 50.0, 100.0, f32::NAN] {
        assert_eq!(cell_color(single(1.0), single(ram), true), Ink::White);
    }
}

#[test]
fn the_colour_model() {
    assert_eq!(rgb(1.0, 0.0), (0, 255, 0));
    assert_eq!(rgb(1.0, 100.0), (220, 0, 0));
    assert_eq!(rgb(1.0, 250.0), (220, 0, 0));
    assert_eq!(rgb(1.0, -3.0), (0, 255, 0));
    assert_eq!(rgb(1.0, 50.0), (110, 140, 0));
}

#[test]
fn trails_are_dimmed_but_not_to_black() {
    assert_eq!(rgb(0.5, 0.0), (0, 127, 0));
    assert_eq!(rgb(0.0, 0.0), (0, 10, 0));
    assert_eq!(rgb(0.0, 100.0), (8, 0, 0));
    assert_eq!(rgb(0.0, 90.0), (7, 5, 0));
    assert_eq!(rgb(0.5, 50.0), (55, 70, 0));
    assert_eq!(rgb(0.25, 50.0), (27, 35, 0));
    for ram in 0..=100 {
        for b in 0..=20 {
            assert_ne!(rgb(b as f32 / 20.0, ram as f32), (0, 0, 0));
        }
    }
}

#[test]
fn colours_follow_the_float_formula() {
    for ram in 0..=1100 {
        for b in 0..=40 {
            let (ram, brightness) = (ram as f32 / 11.0, b as f32 / 40.0);
            let t = (ram / 100.0).clamp(0.0, 1.0);
            let base_r = (t * 220.0) as u8;
            let base_g = if t >= 1.0 { 0 } else { ((1.0 - t * 0.90) * 255.0) as u8 };
            let b2 = brightness.clamp(0.04, 1.0);
            let least = if t >= 1.0 { 0.0 } else { 5.0 };
            let want = ((base_r as f32 * b2) as u8, (base_g as f32 * b2).clamp(least, 255.0) as u8, 0);
            assert_eq!(rgb(brightness, ram), want);
        }
    }
}

#[test]
fn stress_reddens_and_fading_darkens() {
    let mut last = rgb(0.8, 0.0);
    for ram in 1..=120 {
        let now = rgb(0.8, ram as f32);
        assert!(now.0 >= last.0 && now.1 <= last.1);
        last = now;
    }
    let mut last = rgb(0.0, 40.0);
    for b in 1..=100 {
        let now = rgb(b as f32 / 100.0, 40.0);
        assert!(now.0 >= last.0 && now.1 >= last.1);
        last = now;
    }
}

#[test]
fn memory_percentages() {
    let s = SystemStats::new(16_000_000_000, 4_000_000_000, &vec![], None);
    assert_eq!(float(s.ram_percent), 25.0);
    assert_eq!(float(s.cpu_percent), 0.0);
    assert_eq!(float(SystemStats::new(0, 5, &vec![], None).ram_percent), 0.0);
    for (total, used) in [(7u64, 3u64), (33_567_289_344, 12_345_678_901), (u64::MAX, 1), (3, 3), (1, u64::MAX)] {
        let want = used as f32 / total as f32 * 100.0;
        assert_eq!(float(SystemStats::new(total, used, &vec![], None).ram_percent), want);
    }
}

#[test]
fn memory_shares_grow_to_all() {
    for total in [1u64, 3, 16_777_217, 33_567_289_344, u64::MAX] {
        assert_eq!(float(SystemStats::new(total, total, &vec![], None).ram_percent), 100.0);
    }
    let mut last = 0.0;
    for used in 0..=1000u64 {
        let now = float(SystemStats::new(1000, used, &vec![], None).ram_percent);
        assert!(now >= last && now <= 100.0);
        last = now;
    }
}

#[test]
fn processor_percentages() {
    let usages = [12.5f32, 99.9, 0.1, 33.333332, 71.0];
    let v: Vec<Single> = usages.iter().map(|u| single(*u)).collect();
    let total: f32 = usages.iter().sum();
    let mut s = SystemStats::new(1, 1, &v, Some(single(61.5)));
    assert_eq!(float(s.cpu_percent), total / 5 as f32);
    assert_eq!(float(s.ram_percent), 100.0);
    assert_eq!(s.cpu_temperature.map(float), Some(61.5));
    s.refresh(4, 1, &vec![single(10.0), single(20.0)], Some(single(70.25)));
    assert_eq!(s.cpu_temperature.map(float), Some(70.25));
    assert_eq!(float(s.cpu_percent), 15.0);
    assert_eq!(float(s.ram_percent), 25.0);
}

#[test]
fn sums_start_like_those_of_std() {
    let none: Vec<f32> = vec![-0.0];
    let sum: f32 = none.iter().sum();
    let s = SystemStats::new(0, 0, &vec![single(-0.0)], None);
    assert_eq!(s.cpu_percent.bits, (sum / 1.0).to_bits());
}

#[test]
fn the_overlay_text() {
    assert_eq!(hud_text(single(41.5), single(7.2)), " RAM:42%  CPU:7%  [q] quit ");
    assert_eq!(hud_text(single(0.5), single(100.0)), " RAM:0%  CPU:100%  [q] quit ");
    assert_eq!(hud_text(single(f32::NAN), single(f32::INFINITY)), " RAM:NaN%  CPU:inf%  [q] quit ");
}

fn cell(x: u16, y: u16, ch: char, is_head: bool) -> RenderCell {
    RenderCell { x, y, ch, brightness: single(1.0), is_head }
}

fn row(buf: &Buffer, y: u16) -> String {
    (0..buf.area().width).map(|x| buf[(x, y)].symbol().to_string()).collect()
}

#[test]
fn rendering_paints_cells_and_overlay() {
    let mut buf = Buffer::empty(Rect::new(0, 0, 30, 4));
    let cells = vec![
        cell(0, 1, 'ｱ', true),
        cell(2, 2, '7', false),
        cell(2, 2, '8', false),
        cell(29, 0, 'Z', true),
        cell(30, 1, 'X', true),
        cell(1, 4, 'X', true),
    ];
    render(&mut buf, 30, 4, &cells, single(0.0), single(5.0));
    assert_eq!(row(&buf, 0), "     RAM:0%  CPU:5%  [q] quit ");
    assert_eq!(buf[(0, 1)].symbol(), "ｱ");
    assert_eq!(buf[(0, 1)].fg, Color::White);
    assert_eq!(buf[(0, 1)].bg, Color::Reset);
    assert_eq!(buf[(2, 2)].symbol(), "8");
    assert_eq!(buf[(2, 2)].fg, Color::Rgb(0, 255, 0));
    assert_eq!(buf[(29, 0)].symbol(), " ");
    assert_eq!(buf[(29, 0)].fg, Color::Cyan);
    assert_eq!(buf[(29, 0)].bg, Color::Black);
    assert_eq!(buf[(3, 0)].fg, Color::Reset);
    assert_eq!(buf[(4, 0)].bg, Color::Black);
    let content: String = (0..4).map(|y| row(&buf, y)).collect();
    assert!(!content.contains('X') && !content.contains('Z'));
}

#[test]
fn a_narrow_screen_shows_the_start_of_the_overlay() {
    let mut buf = Buffer::empty(Rect::new(0, 0, 8, 1));
    assert!(try_render(&mut buf, 8, 1, &vec![], single(12.0), single(5.0)));
    assert_eq!(row(&buf, 0), " RAM:12%");
}

#[test]
fn cells_outside_the_given_size_are_skipped() {
    let mut buf = Buffer::empty(Rect::new(0, 0, 40, 5));
    let cells = vec![cell(35, 3, 'a', true), cell(3, 4, 'b', true), cell(3, 3, 'c', true)];
    assert!(try_render(&mut buf, 35, 4, &cells, single(0.0), single(0.0)));
    assert_eq!(buf[(35, 3)].symbol(), " ");
    assert_eq!(buf[(3, 4)].symbol(), " ");
    assert_eq!(buf[(3, 3)].symbol(), "c");
    assert_eq!(row(&buf, 0), "          RAM:0%  CPU:0%  [q] quit      ");
}

#[test]
fn without_room_for_the_overlay_nothing_is_painted() {
    let mut buf = Buffer::empty(Rect::new(0, 0, 8, 0));
    assert!(!try_render(&mut buf, 8, 0, &vec![], single(12.0), single(5.0)));
    let mut buf = Buffer::empty(Rect::new(5, 0, 8, 2));
    let before = buf.clone();
    assert!(!try_render(&mut buf, 8, 2, &vec![cell(6, 1, 'a', true)], single(12.0), single(5.0)));
    assert_eq!(buf, before);
    let mut buf = Buffer::empty(Rect::new(0, 0, 0, 0));
    assert!(try_render(&mut buf, 0, 0, &vec![], single(12.0), single(5.0)));
}

#[test]
fn keys_that_quit() {
    assert!(quits(Key::Char('q'), false));
    assert!(quits(Key::Char('q'), true));
    assert!(quits(Key::Esc, false));
    assert!(quits(Key::Char('c'), true));
    assert!(!quits(Key::Char('c'), false));
    assert!(!quits(Key::Char('x'), true));
    assert!(!quits(Key::Other, true));
}

#[test]
fn frames_and_readings() {
    assert!(stats_due(0));
    assert!(!stats_due(29));
    assert!(stats_due(30));
    assert!((1..30).all(|n| !stats_due(30 + n)));
    assert_eq!(next_frame(7), 8);
    assert_eq!(next_frame(u32::MAX), 0);
}

#[test]
fn pauses_fill_the_budget() {
    assert_eq!(FRAME_US, 16_666);
    assert_eq!(pause_us(0), Some(16_666));
    assert_eq!(pause_us(16_665), Some(1));
    assert_eq!(pause_us(16_666), None);
    assert_eq!(pause_us(u64::MAX), None);
}

#[test]
fn the_rain_is_fitted_only_to_another_size() {
    let mut r = RainState::new(5, 5);
    r.columns[0].x = 9;
    assert!(!fit(&mut r, 5, 5));
    assert_eq!(r.columns[0].x, 9);
    assert!(fit(&mut r, 6, 5));
    assert_eq!((r.columns.len(), r.columns[0].x), (6, 0));
    assert!(fit(&mut r, 6, 4));
    assert_eq!((r.width, r.height), (6, 4));
}

#[test]
fn processors_are_named_by_their_labels() {
    let named = |label: &str| sensor::is_processor(&label.chars().collect());
    for label in ["cpu", "CPU", "x86 Cpu thermal", "Coretemp Package id 0", "k10temp Tctl", "acpuz"] {
        assert!(named(label), "{label}");
    }
    for label in ["", "c", "cp", "c pu", "nvme Composite", "k1temp", "core temp", "ＣＰＵ"] {
        assert!(!named(label), "{label}");
    }
}

#[test]
fn the_first_processor_is_taken() {
    let first = |labels: &[&str]| {
        sensor::first_processor(&labels.iter().map(|l| l.chars().collect()).collect())
    };
    assert_eq!(first(&["nvme", "acpitz", "k10temp Tctl", "cpu"]), Some(2));
    assert_eq!(first(&["CPU", "cpu"]), Some(0));
    assert_eq!(first(&["nvme", "gpu"]), None);
    assert_eq!(first(&[]), None);
}
