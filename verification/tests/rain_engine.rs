use matrix_telemetry::rain::Column;
use matrix_telemetry::rain::DropDraws;
use matrix_telemetry::rain::RainDrop;
use matrix_telemetry::rain::RainState;
use matrix_telemetry::rain::RenderCell;
use matrix_telemetry::rain::Restart;
use matrix_telemetry::rain::GLYPHS;
use matrix_telemetry::rain::GLYPH_COUNT;
use matrix_telemetry::single::Single;

fn single(x: f32) -> Single {
    Single::from_bits(x.to_bits())
}

fn float(x: Single) -> f32 {
    f32::from_bits(x.bits)
}

fn still(head: f32, trail: &str) -> RainDrop {
    let chars: Vec<char> = trail.chars().collect();
    RainDrop { head_y: single(head), speed: single(0.5), trail_len: chars.len(), chars }
}

fn check_sound(d: &RainDrop, lowest: f32) {
    assert!(d.trail_len >= 6 && d.trail_len < 30);
    assert_eq!(d.chars.len(), d.trail_len);
    assert!(d.chars.iter().all(|c| GLYPHS.contains(c)));
    let (y, v) = (float(d.head_y), float(d.speed));
    assert!(y >= lowest && y < 0.0);
    assert!(v >= 0.15 && v < 1.8);
}

#[test]
fn the_glyph_table() {
    let text: String = GLYPHS.iter().collect();
    assert_eq!(
        text,
        "ｦｧｨｩｪｫｬｭｮｯｱｲｳｴｵｶｷｸｹｺｻｼｽｾｿﾀﾁﾂﾃﾄﾅﾆﾇﾈﾉﾊﾋﾌﾍﾎﾏﾐﾑﾒﾓﾔﾕﾖﾗﾘﾙﾚﾛﾜﾝ0123456789ABCDEF"
    );
    assert_eq!(GLYPHS.len(), GLYPH_COUNT);
}

#[test]
fn new_drops_start_above_the_screen() {
    let mut rng = rand::thread_rng();
    let mut lengths = std::collections::HashSet::new();
    let mut heads = std::collections::HashSet::new();
    let mut letters = std::collections::HashSet::new();
    for _ in 0..500 {
        let d = RainDrop::new(24, &mut rng);
        check_sound(&d, -24.0);
        lengths.insert(d.trail_len);
        heads.insert(d.head_y.bits);
        letters.extend(d.chars);
    }
    assert!(lengths.len() > 10 && heads.len() > 400 && letters.len() > 60);
}

#[test]
fn the_lowest_screen_has_room_above() {
    let mut rng = rand::thread_rng();
    for _ in 0..100 {
        let d = RainDrop::new(1, &mut rng);
        check_sound(&d, -1.0);
        let d = RainDrop::new(u16::MAX, &mut rng);
        check_sound(&d, -65535.0);
    }
}

#[test]
fn launches_follow_their_draws() {
    let places = vec![0usize, 55, 70, 10];
    let d = RainDrop::launch(40, &places, 0x40_0000, 0);
    assert_eq!(float(d.head_y), -20.0);
    assert_eq!(float(d.speed), 0.15);
    assert_eq!(d.trail_len, 4);
    assert_eq!(d.chars, vec!['ｦ', '0', 'F', 'ｱ']);
    let d = RainDrop::launch(40, &places, 0, 0x7f_ffff);
    assert_eq!(float(d.head_y), -40.0);
    assert_eq!(float(d.speed), 1.7999997);
    let d = RainDrop::launch(40, &places, 0x7f_ffff, 0x40_0000);
    assert!(float(d.head_y) < 0.0);
    assert_eq!(float(d.speed), 0.5f32 * (1.8f32 - 0.15f32) + 0.15f32);
}

#[test]
fn points_are_those_of_a_float_range() {
    for k in [0usize, 1, 2, 3, 1000, 0x12_3456, 0x3f_ffff, 0x40_0000, 0x7f_fffe, 0x7f_ffff] {
        for h in [1u16, 2, 3, 24, 25, 80, 1023, 65535] {
            let d = RainDrop::launch(h, &vec![1usize], k, k);
            let share = f32::from_bits(0x3f80_0000 | k as u32) - 1.0;
            let low = -(h as f32);
            assert_eq!(float(d.head_y), share * (0.0 - low) + low);
            assert_eq!(float(d.speed), share * (1.8f32 - 0.15f32) + 0.15f32);
        }
    }
}

#[test]
fn advancing_adds_the_speed() {
    let mut d = still(3.25, "abc");
    assert!(!d.advance(10, None));
    assert_eq!(float(d.head_y), 3.75);
    assert_eq!(float(d.speed), 0.5);
    assert_eq!(d.trail_len, 3);
    assert_eq!(d.chars, vec!['a', 'b', 'c']);
    assert!(!d.advance(10, Some((1, 55))));
    assert_eq!(d.chars, vec!['a', '0', 'c']);
}

#[test]
fn a_drop_leaves_when_its_whole_trail_has() {
    let mut d = still(12.0, "abc");
    assert!(!d.advance(10, None));
    assert!(!d.advance(10, None));
    assert_eq!(float(d.head_y), 13.0);
    assert!(d.advance(10, None));
    let mut inf = still(f32::INFINITY, "abc");
    assert!(inf.advance(10, None));
    let mut nan = still(f32::NAN, "abc");
    assert!(!nan.advance(10, None));
}

#[test]
fn steps_flicker_now_and_then() {
    let mut rng = rand::thread_rng();
    let mut d = RainDrop::new(24, &mut rng);
    let mut changed = 0;
    for _ in 0..2000 {
        let before = d.chars.clone();
        let head = float(d.head_y);
        d.head_y = single(head);
        let left = d.step(24, &mut rng);
        assert_eq!(float(d.head_y), head + float(d.speed));
        assert_eq!(left, float(d.head_y) - d.trail_len as f32 > 24.0);
        let n = before.iter().zip(&d.chars).filter(|(a, b)| a != b).count();
        assert!(n <= 1);
        changed += n;
    }
    assert!(changed > 150 && changed < 450, "{changed}");
}

#[test]
fn recycled_drops_follow_their_draws() {
    let mut d = still(99.0, "abcdefg");
    d.relaunch(100, &vec![70usize, 69], 0x40_0000, 0);
    assert_eq!(float(d.head_y), 0.5 * 60.000004 - 60.000004);
    assert_eq!(float(d.head_y), 0.5f32 * (100.0f32 * 0.6) - 100.0f32 * 0.6);
    assert_eq!(float(d.speed), 0.15);
    assert_eq!(d.trail_len, 2);
    assert_eq!(d.chars, vec!['F', 'E']);
    d.relaunch(100, &vec![1usize; 20], 0, 0);
    assert_eq!(d.chars.len(), 20);
}

#[test]
fn resets_start_just_above_the_screen() {
    let mut rng = rand::thread_rng();
    let mut d = still(99.0, "abcdefg");
    let mut heads = std::collections::HashSet::new();
    for _ in 0..500 {
        d.reset(50, &mut rng);
        check_sound(&d, -(50.0f32 * 0.6));
        heads.insert(d.head_y.bits);
    }
    assert!(heads.len() > 400);
}

#[test]
fn columns_have_one_to_three_drops() {
    let mut rng = rand::thread_rng();
    let mut counts = std::collections::HashSet::new();
    for x in 0..200u16 {
        let c = Column::new(x, 30, &mut rng);
        assert_eq!(c.x, x);
        counts.insert(c.drops.len());
        for d in &c.drops {
            check_sound(d, -30.0);
        }
    }
    assert_eq!(counts.len(), 3);
    assert!(counts.contains(&1) && counts.contains(&2) && counts.contains(&3));
}

#[test]
fn stepping_a_column_steps_or_recycles_its_drops() {
    let mut c = Column { x: 4, drops: vec![still(2.0, "abcdef"), still(40.0, "abcdef")] };
    assert!(c.is_ready(20));
    c.step(20);
    assert_eq!(c.x, 4);
    assert_eq!(float(c.drops[0].head_y), 2.5);
    check_sound(&c.drops[1], -12.000001);
}

#[test]
fn cells_of_a_drop() {
    let c = Column { x: 7, drops: vec![still(2.9, "abcd")] };
    let cells = c.collect_cells(10);
    let got: Vec<(u16, u16, char, f32, bool)> =
        cells.iter().map(|c| (c.x, c.y, c.ch, float(c.brightness), c.is_head)).collect();
    assert_eq!(
        got,
        vec![(7, 2, 'c', 1.0, true), (7, 1, 'b', 0.5625, false), (7, 0, 'c', 0.25, false)]
    );
}

#[test]
fn brightness_is_the_squared_rest_of_the_trail() {
    let c = Column { x: 0, drops: vec![still(40.0, "abcdefghijklmnopqrstuvwxyzABC")] };
    let cells = c.collect_cells(100);
    assert_eq!(cells.len(), 29);
    for t in 1..29usize {
        let linear = 1.0 - (t as f32 / 29 as f32);
        assert_eq!(float(cells[t].brightness), linear * linear);
        assert!(float(cells[t].brightness) < float(cells[t - 1].brightness));
        assert_eq!(cells[t].y, 40 - t as u16);
    }
}

#[test]
fn cells_stay_on_the_screen() {
    let c = Column { x: 1, drops: vec![still(11.0, "abcdef"), still(-0.5, "abcdef"), still(50.0, "abcdef")] };
    let rows: Vec<u16> = c.collect_cells(10).iter().map(|c| c.y).collect();
    assert_eq!(rows, vec![9, 8, 7, 6]);
    assert!(c.collect_cells(10).iter().all(|c| !c.is_head));
    assert!(c.collect_cells(0).is_empty());
}

#[test]
fn a_drop_just_above_the_screen_is_not_shown() {
    let c = Column { x: 0, drops: vec![still(-0.01, "abcdef")] };
    assert!(c.collect_cells(10).is_empty());
    let c = Column { x: 0, drops: vec![still(0.0, "abcdef")] };
    assert_eq!(c.collect_cells(10).len(), 1);
}

#[test]
fn a_head_without_a_trail() {
    let d = RainDrop { head_y: single(3.0), speed: single(1.0), trail_len: 0, chars: vec!['x', 'y'] };
    let cells = Column { x: 0, drops: vec![d] }.collect_cells(10);
    assert_eq!(cells.len(), 1);
    assert_eq!((cells[0].y, cells[0].ch, cells[0].is_head), (3, 'y', true));
}

#[test]
fn a_new_field_has_a_fresh_column_per_screen_column() {
    let r = RainState::new(80, 24);
    assert_eq!((r.width, r.height, r.columns.len()), (80, 24, 80));
    for (i, c) in r.columns.iter().enumerate() {
        assert_eq!(c.x as usize, i);
        assert!(c.drops.len() >= 1 && c.drops.len() <= 3);
        for d in &c.drops {
            check_sound(d, -24.0);
        }
    }
    assert!(r.collect_cells().is_empty());
    assert!(RainState::new(0, 0).columns.is_empty());
}

#[test]
fn resizing_keeps_what_stays() {
    let mut r = RainState::new(10, 24);
    let heads: Vec<Vec<u32>> =
        r.columns.iter().map(|c| c.drops.iter().map(|d| d.head_y.bits).collect()).collect();
    r.resize(15, 30);
    assert_eq!((r.width, r.height, r.columns.len()), (15, 30, 15));
    r.resize(4, 12);
    assert_eq!((r.width, r.height, r.columns.len()), (4, 12, 4));
    for (i, c) in r.columns.iter().enumerate() {
        assert_eq!(c.x as usize, i);
        let now: Vec<u32> = c.drops.iter().map(|d| d.head_y.bits).collect();
        assert_eq!(now, heads[i]);
    }
    r.resize(0, 0);
    assert!(r.columns.is_empty());
}

#[test]
fn resizing_puts_columns_back_in_their_places() {
    let mut r = RainState::new(3, 5);
    r.columns[0].x = 99;
    r.resize(3, 5);
    assert_eq!(r.columns[0].x, 0);
}

#[test]
fn updating_steps_every_column_once() {
    let mut r = RainState::new(200, 40);
    for frame in 0..300 {
        let before: Vec<Vec<(f32, f32, usize)>> = r
            .columns
            .iter()
            .map(|c| c.drops.iter().map(|d| (float(d.head_y), float(d.speed), d.trail_len)).collect())
            .collect();
        assert!(r.is_ready());
        r.update();
        for (c, b) in r.columns.iter().zip(&before) {
            assert_eq!(c.drops.len(), b.len());
            for (d, (y, v, n)) in c.drops.iter().zip(b) {
                let next = y + v;
                if next - *n as f32 > 40.0 {
                    check_sound(d, -24.000002);
                } else {
                    assert_eq!((float(d.head_y), float(d.speed), d.trail_len), (next, *v, *n), "{frame}");
                }
            }
        }
    }
}

#[test]
fn the_field_collects_its_columns_in_order() {
    let mut r = RainState::new(120, 40);
    for _ in 0..60 {
        r.update();
    }
    let cells = r.collect_cells();
    let mut want: Vec<(u16, u16, char, u32, bool)> = Vec::new();
    for c in &r.columns {
        want.extend(c.collect_cells(40).iter().map(|c| (c.x, c.y, c.ch, c.brightness.bits, c.is_head)));
    }
    let got: Vec<(u16, u16, char, u32, bool)> =
        cells.iter().map(|c| (c.x, c.y, c.ch, c.brightness.bits, c.is_head)).collect();
    assert!(!got.is_empty());
    assert_eq!(got, want);
    assert!(cells.iter().all(|c| c.x < 120 && c.y < 40));
    assert!(cells.iter().all(|c| float(c.brightness) >= 0.0 && float(c.brightness) <= 1.0));
}

#[test]
fn a_flat_screen_is_not_ready_once_a_drop_would_leave() {
    let mut r = RainState::new(1, 5);
    r.resize(1, 0);
    assert!(r.is_ready());
    r.columns[0].drops[0].head_y = single(100.0);
    assert!(!r.is_ready());
    r.columns[0].drops[0].head_y = single(-100.0);
    assert!(r.is_ready());
    r.columns[0].drops[0].chars.clear();
    assert!(!r.is_ready());
}

#[test]
fn every_drop_leaves_in_the_end() {
    let mut d = still(-24.0, "abcdef");
    d.speed = single(0.15);
    let mut frames = 0;
    while !d.advance(24, None) {
        frames += 1;
        assert!(frames < 1000);
    }
    assert!(frames > 300);
}

fn no_draws() -> DropDraws {
    DropDraws { flicker: None, restart: None }
}

fn plain(cells: &[RenderCell]) -> Vec<(u16, u16, char, u32, bool)> {
    cells.iter().map(|c| (c.x, c.y, c.ch, c.brightness.bits, c.is_head)).collect()
}

fn drops_of(c: &Column) -> Vec<(u32, u32, usize, Vec<char>)> {
    c.drops.iter().map(|d| (d.head_y.bits, d.speed.bits, d.trail_len, d.chars.clone())).collect()
}

#[test]
fn a_drop_steps_with_its_draws() {
    let mut d = still(3.25, "abc");
    d.step_with(10, &no_draws());
    assert_eq!(float(d.head_y), 3.75);
    assert_eq!(d.chars, vec!['a', 'b', 'c']);
    let restart = Some(Restart { places: vec![1, 2], start: 5, speed: 6 });
    d.step_with(10, &DropDraws { flicker: Some((2, 55)), restart });
    assert_eq!((float(d.head_y), float(d.speed), d.trail_len), (4.25, 0.5, 3));
    assert_eq!(d.chars, vec!['a', 'b', '0']);
}

#[test]
fn a_drop_that_leaves_starts_again_with_its_draws() {
    let mut d = still(103.0, "abc");
    let restart = Some(Restart { places: vec![70, 69], start: 0x40_0000, speed: 0 });
    d.step_with(100, &DropDraws { flicker: Some((0, 0)), restart });
    assert_eq!(float(d.head_y), 0.5f32 * (100.0f32 * 0.6) - 100.0f32 * 0.6);
    assert_eq!((float(d.speed), d.trail_len), (0.15, 2));
    assert_eq!(d.chars, vec!['F', 'E']);
}

#[test]
fn a_column_steps_each_drop_with_its_own_draws() {
    let column = || Column {
        x: 4,
        drops: vec![still(2.0, "abcdef"), still(40.0, "abcdef"), still(5.0, "abcdef")],
    };
    let draws = vec![
        DropDraws { flicker: Some((1, 56)), restart: None },
        DropDraws {
            flicker: None,
            restart: Some(Restart { places: vec![55; 7], start: 0, speed: 0x40_0000 }),
        },
        no_draws(),
    ];
    let mut c = column();
    c.step_with(20, &draws);
    assert_eq!((c.x, c.drops.len()), (4, 3));
    assert_eq!(float(c.drops[0].head_y), 2.5);
    assert_eq!(c.drops[0].chars, vec!['a', '1', 'c', 'd', 'e', 'f']);
    assert_eq!(float(c.drops[1].head_y), -(20.0f32 * 0.6));
    assert_eq!(float(c.drops[1].speed), 0.5f32 * (1.8f32 - 0.15f32) + 0.15f32);
    assert_eq!(c.drops[1].chars, vec!['0'; 7]);
    assert_eq!(float(c.drops[2].head_y), 5.5);
    assert_eq!(c.drops[2].chars, vec!['a', 'b', 'c', 'd', 'e', 'f']);
    let mut again = column();
    again.step_with(20, &draws);
    assert_eq!(drops_of(&again), drops_of(&c));
}

#[test]
fn joined_drops_show_joined_cells() {
    let first = || vec![still(3.0, "abcdef"), still(7.5, "ghijkl")];
    let second = || vec![still(11.0, "mnopqr")];
    let mut drops = first();
    drops.extend(second());
    let whole = plain(&Column { x: 2, drops }.collect_cells(10));
    let mut parts = plain(&Column { x: 2, drops: first() }.collect_cells(10));
    parts.extend(plain(&Column { x: 2, drops: second() }.collect_cells(10)));
    assert_eq!(whole.len(), 14);
    assert_eq!(whole, parts);
}

#[test]
fn joined_columns_show_joined_cells() {
    let column = |x: u16| Column { x, drops: vec![still(x as f32, "abcdef")] };
    let field = |a: u16, b: u16| RainState {
        columns: (a..b).map(column).collect(),
        width: b - a,
        height: 8,
    };
    let mut parts = plain(&field(0, 3).collect_cells());
    parts.extend(plain(&field(3, 9).collect_cells()));
    assert_eq!(parts.len(), 38);
    assert_eq!(plain(&field(0, 9).collect_cells()), parts);
}

#[test]
fn a_flat_screen_goes_on_and_shows_nothing() {
    let mut r = RainState::new(5, 6);
    r.resize(5, 0);
    let mut frames = 0;
    while r.is_ready() {
        r.update();
        assert!(r.collect_cells().is_empty());
        frames += 1;
        assert!(frames < 400);
    }
    assert!(frames > 3);
    r.resize(5, 6);
    assert!(r.is_ready());
    r.update();
    r.collect_cells();
}

#[test]
fn a_long_trail_is_shown_upwards() {
    let d = RainDrop { head_y: single(5000.0), speed: single(1.0), trail_len: 10000, chars: vec!['x', 'y'] };
    let rows: Vec<u16> = Column { x: 0, drops: vec![d] }.collect_cells(100).iter().map(|c| c.y).collect();
    let want: Vec<u16> = (0..100).rev().collect();
    assert_eq!(rows, want);
}

#[test]
fn a_column_is_launched_with_its_draws() {
    let launches = vec![
        Restart { places: vec![0, 55, 70, 10], start: 0x40_0000, speed: 0 },
        Restart { places: vec![56], start: 0, speed: 0x40_0000 },
    ];
    let c = Column::launch(9, 40, &launches);
    assert_eq!((c.x, c.drops.len()), (9, 2));
    assert_eq!(float(c.drops[0].head_y), -20.0);
    assert_eq!(float(c.drops[0].speed), 0.15);
    assert_eq!((c.drops[0].trail_len, &c.drops[0].chars), (4, &vec!['ｦ', '0', 'F', 'ｱ']));
    assert_eq!(float(c.drops[1].head_y), -40.0);
    assert_eq!(float(c.drops[1].speed), 0.5f32 * (1.8f32 - 0.15f32) + 0.15f32);
    assert_eq!((c.drops[1].trail_len, &c.drops[1].chars), (1, &vec!['1']));
    assert!(Column::launch(9, 40, &Vec::new()).drops.is_empty());
}

#[test]
fn the_slowest_drop_leaves_in_time_and_stays_away() {
    let mut d = RainDrop {
        head_y: single(-1000.0),
        speed: single(0.15),
        trail_len: 29,
        chars: vec!['x'; 29],
    };
    let mut rng = rand::thread_rng();
    let mut gone = 0;
    for frame in 1..=14_000 {
        let left = d.step(1000, &mut rng);
        assert!(left || gone == 0);
        if left && gone == 0 {
            gone = frame;
        }
    }
    assert!(gone > 13_000 && 187 * (gone - 1) < 1280 * 2029);
}

#[test]
fn a_trail_leaves_below_the_last_row() {
    for height in [0u16, 1, 24, 1000, 65535] {
        for trail in [0usize, 1, 6, 29, 1000, 0x80_0000] {
            let edge = (height as f32) + (trail as f32);
            for bits in [edge.to_bits().max(1) - 1, edge.to_bits(), edge.to_bits() + 1] {
                let mut d = RainDrop {
                    head_y: Single::from_bits(bits),
                    speed: single(0.0),
                    trail_len: trail,
                    chars: vec!['x'],
                };
                assert_eq!(d.advance(height, None), f32::from_bits(bits) > edge);
            }
        }
    }
}

#[test]
fn departed_drops_show_nothing_on_lower_screens() {
    for trail in [0usize, 1, 40, 5000] {
        let mut d = RainDrop {
            head_y: single(trail as f32 + 30.5),
            speed: single(0.0),
            trail_len: trail,
            chars: vec!['x', 'y'],
        };
        assert!(d.advance(30, None));
        let c = Column { x: 0, drops: vec![d] };
        for screen in [0u16, 1, 29, 30] {
            assert!(c.collect_cells(screen).is_empty());
        }
        assert_eq!(c.collect_cells(31).len(), if trail == 0 { 1 } else { 0 });
    }
}

#[test]
fn trails_of_every_drawn_length_fade_strictly() {
    for n in (6..30usize).chain([1, 2, 100, 511, 512]) {
        let d = RainDrop { head_y: single(600.0), speed: single(1.0), trail_len: n, chars: vec!['x'] };
        let cells = Column { x: 0, drops: vec![d] }.collect_cells(1000);
        assert_eq!(cells.len(), n);
        assert_eq!(float(cells[0].brightness), 1.0);
        for t in 1..n {
            assert!(float(cells[t].brightness) < float(cells[t - 1].brightness));
        }
    }
}
