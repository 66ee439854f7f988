//! The rain: drops that fall, columns of drops, and the field of columns.
use rand::rngs::ThreadRng;
use rayon::iter::IntoParallelRefIterator;
use rayon::iter::IntoParallelRefMutIterator;
use rayon::iter::ParallelIterator;
use vstd::arithmetic::power2::*;
use vstd::prelude::*;

use crate::draw;
use crate::rain_laws;
use crate::single;
use crate::single::Single;

verus! {

/// How many glyphs there are.
pub const GLYPH_COUNT: usize = 71;

/// Half-width katakana, digits and the letters of the hexadecimal digits.
pub const GLYPHS: [char; 71] = [
    'ｦ', 'ｧ', 'ｨ', 'ｩ', 'ｪ', 'ｫ', 'ｬ', 'ｭ', 'ｮ', 'ｯ',
    'ｱ', 'ｲ', 'ｳ', 'ｴ', 'ｵ', 'ｶ', 'ｷ', 'ｸ', 'ｹ', 'ｺ',
    'ｻ', 'ｼ', 'ｽ', 'ｾ', 'ｿ', 'ﾀ', 'ﾁ', 'ﾂ', 'ﾃ', 'ﾄ',
    'ﾅ', 'ﾆ', 'ﾇ', 'ﾈ', 'ﾉ', 'ﾊ', 'ﾋ', 'ﾌ', 'ﾍ', 'ﾎ',
    'ﾏ', 'ﾐ', 'ﾑ', 'ﾒ', 'ﾓ', 'ﾔ', 'ﾕ', 'ﾖ', 'ﾗ', 'ﾘ',
    'ﾙ', 'ﾚ', 'ﾛ', 'ﾜ', 'ﾝ',
    '0', '1', '2', '3', '4', '5', '6', '7', '8', '9',
    'A', 'B', 'C', 'D', 'E', 'F',
];

/// The shortest trail.
pub const TRAIL_MIN: usize = 6;

/// The length that trails stay under.
pub const TRAIL_END: usize = 30;

/// How many rows above the screen a drop may start.
pub const TOP_ROW: u32 = 65535;

/// The last row that the head of a drop gets to.
pub const BOTTOM_ROW: u32 = 65600;

/// One of the glyphs.
pub open spec fn is_glyph(c: char) -> bool {
    GLYPHS@.contains(c)
}

/// The glyphs at the given places of the table.
pub open spec fn glyphs_at(places: Seq<usize>) -> Seq<char> {
    places.map_values(|p: usize| GLYPHS@[p as int])
}

/// All places lie within the table.
pub open spec fn within_table(places: Seq<usize>) -> bool {
    forall|i: int| 0 <= i < places.len() ==> places[i] < GLYPH_COUNT
}

/// A single falling stream.
pub struct RainDrop {
    /// Fractional screen row of the leading edge.
    pub head_y: Single,
    /// Cells per frame.
    pub speed: Single,
    /// Number of cells from the leading edge to the end of the fading trail.
    pub trail_len: usize,
    /// The characters of the stream.
    pub chars: Vec<char>,
}

/// The draws that a drop starts with, or starts again with: the places of its glyphs,
/// one for each cell of the trail, and the points of its start and its speed.
pub struct Restart {
    pub places: Vec<usize>,
    pub start: usize,
    pub speed: usize,
}

impl Restart {
    /// The draws are within their ranges.
    pub open spec fn is_possible(self) -> bool {
        &&& TRAIL_MIN <= self.places@.len() < TRAIL_END
        &&& within_table(self.places@)
        &&& self.start < draw::POINTS
        &&& self.speed < draw::POINTS
    }

    /// Draws what a new drop starts with.
    fn draw_first(rng: &mut ThreadRng) -> (restart: Restart)
        ensures
            restart.is_possible(),
    {
        let trail_len: usize = draw::draw_range(rng, TRAIL_MIN, TRAIL_END);
        let places: Vec<usize> = draw_places(trail_len, rng);
        let start: usize = draw::draw_range(rng, 0, draw::POINTS);
        let speed: usize = draw::draw_range(rng, 0, draw::POINTS);
        Restart { places, start, speed }
    }

    /// Draws what a recycled drop starts again with.
    fn draw(rng: &mut ThreadRng) -> (restart: Restart)
        ensures
            restart.is_possible(),
    {
        let start: usize = draw::draw_range(rng, 0, draw::POINTS);
        let speed: usize = draw::draw_range(rng, 0, draw::POINTS);
        let trail_len: usize = draw::draw_range(rng, TRAIL_MIN, TRAIL_END);
        let places: Vec<usize> = draw_places(trail_len, rng);
        Restart { places, start, speed }
    }
}

/// The draws of one drop in one frame: the place and the glyph of the character
/// that is replaced, if one is, and those to start again with, if it has to.
pub struct DropDraws {
    pub flicker: Option<(usize, usize)>,
    pub restart: Option<Restart>,
}

/// Draws `n` places of the glyph table.
fn draw_places(n: usize, rng: &mut ThreadRng) -> (places: Vec<usize>)
    ensures
        places@.len() == n,
        within_table(places@),
{
    let mut places: Vec<usize> = Vec::new();
    let mut i: usize = 0;
    while i < n
        invariant
            i <= n,
            places@.len() == i,
            within_table(places@),
        decreases n - i,
    {
        places.push(draw::draw_range(rng, 0, GLYPH_COUNT));
        i = i + 1;
    }
    places
}

/// The rows above the screen in which a recycled drop may start: 0.6 of the
/// screen's height.
pub open spec fn recycle_span(height: u16) -> Single {
    single::product(single::from_whole(height as nat), Single { bits: 0x3f19_999a })
}

/// Where a drop starts that was drawn the `k`-th point of the given span of rows
/// above the screen.
pub open spec fn start_row(span: Single, k: nat) -> Single {
    draw::point(single::negation(span), draw::zero(), k)
}

/// The `k`-th point of the range of speeds.
pub open spec fn drawn_speed(k: nat) -> Single {
    draw::point(draw::slowest(), draw::fastest(), k)
}

/// The trail of a drop with its head there has left a screen of that height.
pub open spec fn has_left(head_y: Single, trail_len: usize, height: u16) -> bool {
    single::less(
        single::from_whole(height as nat),
        single::difference(head_y, single::from_whole(trail_len as nat)),
    )
}

/// `new` is `old` with at most one character replaced, by a glyph.
pub open spec fn flickered(old_chars: Seq<char>, new_chars: Seq<char>) -> bool {
    new_chars == old_chars || exists|i: int, c: char|
        0 <= i < old_chars.len() && is_glyph(c) && new_chars == #[trigger] old_chars.update(i, c)
}

impl RainDrop {
    /// A trail of ordinary length, and one glyph for each of its cells.
    pub open spec fn in_shape(self) -> bool {
        &&& TRAIL_MIN <= self.trail_len < TRAIL_END
        &&& self.chars@.len() == self.trail_len
        &&& forall|i: int| 0 <= i < self.chars@.len() ==> is_glyph(#[trigger] self.chars@[i])
    }

    /// A speed between the slowest and the fastest.
    pub open spec fn moves_down(self) -> bool {
        &&& single::at_most(draw::slowest(), self.speed)
        &&& single::less(self.speed, draw::fastest())
    }

    /// In shape, with a drawn speed, and at a drawn place above the screen, no
    /// further up than the span.
    pub open spec fn is_fresh(self, span: Single) -> bool {
        &&& self.in_shape()
        &&& exists|k: nat| k < draw::POINTS && self.head_y == #[trigger] start_row(span, k)
        &&& exists|k: nat| k < draw::POINTS && self.speed == #[trigger] drawn_speed(k)
        &&& single::at_most(single::negation(span), self.head_y)
        &&& single::less(self.head_y, draw::zero())
        &&& self.moves_down()
    }

    /// What every drop keeps from its launch on: it is in shape, it moves down, and
    /// its head is within the rows that drops get to.
    pub open spec fn is_sound(self) -> bool {
        &&& self.in_shape()
        &&& self.moves_down()
        &&& self.head_y.is_finite()
        &&& -(TOP_ROW * pow2(149)) <= self.head_y.value() <= BOTTOM_ROW * pow2(149)
    }

    /// The drop can take a step on a screen of that height: there is a character to
    /// replace, and above the screen there is room to start again, should it have
    /// to.
    pub open spec fn can_step(self, height: u16) -> bool {
        &&& self.chars@.len() > 0
        &&& height > 0 || !has_left(single::sum(self.head_y, self.speed), self.trail_len, height)
    }

    /// One frame of `before`: it falls by its speed and may flicker, or, if its
    /// trail has left the screen, it starts again.
    pub open spec fn is_next_of(self, before: RainDrop, height: u16) -> bool {
        let head_y = single::sum(before.head_y, before.speed);
        if has_left(head_y, before.trail_len, height) {
            self.is_fresh(recycle_span(height))
        } else {
            &&& self.head_y == head_y
            &&& self.speed == before.speed
            &&& self.trail_len == before.trail_len
            &&& flickered(before.chars@, self.chars@)
        }
    }

    /// The draws serve for a step of the drop: what they refer to is there, and there
    /// is a restart if the drop needs one.
    pub open spec fn can_step_with(self, draws: DropDraws, height: u16) -> bool {
        &&& draws.flicker matches Some(f) ==> f.0 < self.chars@.len() && f.1 < GLYPH_COUNT
        &&& draws.restart matches Some(r) ==> within_table(r.places@)
        &&& has_left(single::sum(self.head_y, self.speed), self.trail_len, height)
            ==> draws.restart is Some
    }

    /// The draws are what a step of the drop may draw.
    pub open spec fn may_draw(self, draws: DropDraws, height: u16) -> bool {
        &&& self.can_step_with(draws, height)
        &&& draws.restart matches Some(r) ==> r.is_possible()
        &&& draws.restart is Some ==> has_left(
            single::sum(self.head_y, self.speed),
            self.trail_len,
            height,
        )
    }

    /// The characters of the drop after the flicker.
    pub open spec fn chars_with(self, flicker: Option<(usize, usize)>) -> Seq<char> {
        match flicker {
            Some(f) => self.chars@.update(f.0 as int, GLYPHS@[f.1 as int]),
            None => self.chars@,
        }
    }

    /// The same drop: in the same place, with the same speed, trail and characters.
    pub open spec fn same_as(self, other: RainDrop) -> bool {
        &&& self.head_y == other.head_y
        &&& self.speed == other.speed
        &&& self.trail_len == other.trail_len
        &&& self.chars@ == other.chars@
    }

    /// What a step with the given draws makes of `before`.
    pub open spec fn is_step_of(self, before: RainDrop, draws: DropDraws, height: u16) -> bool {
        let head_y = single::sum(before.head_y, before.speed);
        if has_left(head_y, before.trail_len, height) {
            let r = draws.restart->0;
            &&& self.head_y == start_row(recycle_span(height), r.start as nat)
            &&& self.speed == drawn_speed(r.speed as nat)
            &&& self.trail_len == r.places@.len()
            &&& self.chars@ == glyphs_at(r.places@)
        } else {
            &&& self.head_y == head_y
            &&& self.speed == before.speed
            &&& self.trail_len == before.trail_len
            &&& self.chars@ == before.chars_with(draws.flicker)
        }
    }

    /// The drop that the given draws make, above a screen of that height.
    pub open spec fn is_launch_of(self, r: Restart, height: u16) -> bool {
        &&& self.head_y == start_row(single::from_whole(height as nat), r.start as nat)
        &&& self.speed == drawn_speed(r.speed as nat)
        &&& self.trail_len == r.places@.len()
        &&& self.chars@ == glyphs_at(r.places@)
    }

    /// The drop that the given draws make: the places of its glyphs, one for each
    /// cell of the trail, and the points of its start and its speed.
    pub fn launch(height: u16, places: &Vec<usize>, start: usize, speed: usize) -> (drop: RainDrop)
        requires
            within_table(places@),
        ensures
            drop.head_y == start_row(single::from_whole(height as nat), start as nat),
            drop.speed == drawn_speed(speed as nat),
            drop.trail_len == places@.len(),
            drop.chars@ == glyphs_at(places@),
    {
        let mut chars: Vec<char> = Vec::with_capacity(places.len());
        let mut i: usize = 0;
        while i < places.len()
            invariant
                i <= places@.len(),
                within_table(places@),
                chars@ == glyphs_at(places@.take(i as int)),
            decreases places@.len() - i,
        {
            chars.push(GLYPHS[places[i]]);
            i = i + 1;
            proof {
                assert(places@.take(i as int).drop_last() =~= places@.take(i - 1));
                assert(chars@ =~= glyphs_at(places@.take(i as int)));
            }
        }
        proof {
            assert(places@.take(i as int) =~= places@);
        }
        RainDrop {
            head_y: draw::point_between(
                Single::from_u64(height as u64).negated(),
                Single { bits: 0 },
                start,
            ),
            speed: draw::point_between(
                Single { bits: draw::SLOWEST },
                Single { bits: draw::FASTEST },
                speed,
            ),
            trail_len: places.len(),
            chars,
        }
    }

    /// A new drop at a random place above the screen, so that not all of them
    /// appear at once.
    pub fn new(height: u16, rng: &mut ThreadRng) -> (drop: RainDrop)
        requires
            height > 0,
        ensures
            drop.is_fresh(single::from_whole(height as nat)),
    {
        let r: Restart = Restart::draw_first(rng);
        let drop: RainDrop = Self::launch(height, &r.places, r.start, r.speed);
        proof {
            rain_laws::lemma_launch_is_fresh(drop, r, height);
        }
        drop
    }

    /// Advances by one frame, with the given place and glyph for the character that
    /// is replaced, if one is. True when the drop scrolled off the bottom and needs
    /// a reset.
    pub fn advance(&mut self, height: u16, flicker: Option<(usize, usize)>) -> (left: bool)
        requires
            flicker matches Some(f) ==> f.0 < old(self).chars@.len() && f.1 < GLYPH_COUNT,
        ensures
            final(self).head_y == single::sum(old(self).head_y, old(self).speed),
            final(self).speed == old(self).speed,
            final(self).trail_len == old(self).trail_len,
            final(self).chars@ == old(self).chars_with(flicker),
            left == has_left(final(self).head_y, final(self).trail_len, height),
    {
        self.head_y = self.head_y.plus(self.speed);
        if let Some(f) = flicker {
            self.chars[f.0] = GLYPHS[f.1];
        }
        Self::leaves(self.head_y, self.trail_len, height)
    }

    /// Whether the trail of a drop with its head there has left the screen.
    fn leaves(head_y: Single, trail_len: usize, height: u16) -> (left: bool)
        ensures
            left == has_left(head_y, trail_len, height),
    {
        Single::from_u64(height as u64).is_less(
            head_y.minus(Single::from_u64(trail_len as u64)),
        )
    }

    /// Whether the drop can take a step.
    pub fn is_ready(&self, height: u16) -> (ready: bool)
        ensures
            ready == self.can_step(height),
    {
        self.chars.len() > 0 && (height > 0 || !Self::leaves(
            self.head_y.plus(self.speed),
            self.trail_len,
            height,
        ))
    }

    /// Advances by one frame; in about 15 of 100 frames a random character is
    /// replaced. True when the drop scrolled off the bottom and needs a reset.
    pub fn step(&mut self, height: u16, rng: &mut ThreadRng) -> (left: bool)
        requires
            old(self).chars@.len() > 0,
        ensures
            final(self).head_y == single::sum(old(self).head_y, old(self).speed),
            final(self).speed == old(self).speed,
            final(self).trail_len == old(self).trail_len,
            flickered(old(self).chars@, final(self).chars@),
            left == has_left(final(self).head_y, final(self).trail_len, height),
    {
        let flicker: Option<(usize, usize)> = self.draw_flicker(rng);
        proof {
            if let Some(f) = flicker {
                assert(is_glyph(GLYPHS@[f.1 as int]));
            }
        }
        self.advance(height, flicker)
    }

    /// Draws which character is replaced and by which glyph, if one is.
    fn draw_flicker(&self, rng: &mut ThreadRng) -> (flicker: Option<(usize, usize)>)
        requires
            self.chars@.len() > 0,
        ensures
            flicker matches Some(f) ==> f.0 < self.chars@.len() && f.1 < GLYPH_COUNT,
    {
        if draw::draw_ratio(rng, 3, 20) {
            let place: usize = draw::draw_range(rng, 0, self.chars.len());
            Some((place, draw::draw_range(rng, 0, GLYPH_COUNT)))
        } else {
            None
        }
    }

    /// Draws what a step of the drop needs.
    fn draw_step(&self, height: u16, rng: &mut ThreadRng) -> (draws: DropDraws)
        requires
            self.chars@.len() > 0,
        ensures
            self.may_draw(draws, height),
    {
        let flicker: Option<(usize, usize)> = self.draw_flicker(rng);
        let restart: Option<Restart> = if Self::leaves(
            self.head_y.plus(self.speed),
            self.trail_len,
            height,
        ) {
            Some(Restart::draw(rng))
        } else {
            None
        };
        DropDraws { flicker, restart }
    }

    /// Takes a step with the given draws: the drop advances and, if it has left the
    /// screen, is recycled.
    pub fn step_with(&mut self, height: u16, draws: &DropDraws)
        requires
            old(self).can_step_with(*draws, height),
        ensures
            final(self).is_step_of(*old(self), *draws, height),
    {
        if self.advance(height, draws.flicker) {
            if let Some(r) = &draws.restart {
                self.relaunch(height, &r.places, r.start, r.speed);
            }
        }
    }

    /// Recycles the drop with the given draws: the places of its glyphs, one for
    /// each cell of the trail, and the points of its start and its speed. The
    /// character buffer is reused.
    pub fn relaunch(&mut self, height: u16, places: &Vec<usize>, start: usize, speed: usize)
        requires
            within_table(places@),
        ensures
            final(self).head_y == start_row(recycle_span(height), start as nat),
            final(self).speed == drawn_speed(speed as nat),
            final(self).trail_len == places@.len(),
            final(self).chars@ == glyphs_at(places@),
    {
        let span: Single = Single::from_u64(height as u64).times(Single { bits: 0x3f19_999a });
        self.head_y = draw::point_between(span.negated(), Single { bits: 0 }, start);
        self.speed = draw::point_between(
            Single { bits: draw::SLOWEST },
            Single { bits: draw::FASTEST },
            speed,
        );
        self.trail_len = places.len();
        self.chars.resize(self.trail_len, GLYPHS[0]);
        let ghost head_y = self.head_y;
        let ghost fall = self.speed;
        let mut i: usize = 0;
        while i < places.len()
            invariant
                i <= places@.len(),
                within_table(places@),
                self.chars@.len() == places@.len(),
                forall|j: int| 0 <= j < i ==> self.chars@[j] == GLYPHS@[places@[j] as int],
                self.head_y == head_y,
                self.speed == fall,
                self.trail_len == places@.len(),
            decreases places@.len() - i,
        {
            self.chars[i] = GLYPHS[places[i]];
            i = i + 1;
        }
        proof {
            assert(self.chars@ =~= glyphs_at(places@));
        }
    }

    /// Recycles the drop: it re-enters at a random place just above the screen.
    pub fn reset(&mut self, height: u16, rng: &mut ThreadRng)
        requires
            height > 0,
        ensures
            final(self).is_fresh(recycle_span(height)),
    {
        let r: Restart = Restart::draw(rng);
        self.relaunch(height, &r.places, r.start, r.speed);
        proof {
            rain_laws::lemma_restart_is_fresh(*self, r, height);
        }
    }
}

/// A single cell to be painted.
pub struct RenderCell {
    pub x: u16,
    pub y: u16,
    pub ch: char,
    /// From 0.0 (the invisible end of the trail) to 1.0.
    pub brightness: Single,
    /// True for the leading edge, which is painted white.
    pub is_head: bool,
}

/// The brightness of the cell `t` steps behind the head of a trail of `n`: the
/// square of the part of the trail that is still to come.
pub open spec fn trail_brightness(t: nat, n: nat) -> Single {
    let linear = single::difference(
        Single { bits: 0x3f80_0000 },
        single::quotient(single::from_whole(t), single::from_whole(n)),
    );
    single::product(linear, linear)
}

/// The row lies on a screen of that height.
pub open spec fn on_screen(row: int, height: u16) -> bool {
    0 <= row < height
}

impl RainDrop {
    /// The row of the head: the floor of its fractional row.
    pub open spec fn head_row(self) -> int {
        single::floor_between(self.head_y, i32::MIN as int, i32::MAX as int)
    }

    /// The row of the cell `t` steps behind the head.
    pub open spec fn row_of(self, t: nat) -> int {
        self.head_row() - (t as i32)
    }

    /// How many cells the drop has, the head among them.
    pub open spec fn cell_count(self) -> nat {
        if self.trail_len == 0 {
            1
        } else {
            self.trail_len as nat
        }
    }

    /// The cell `t` steps behind the head.
    pub open spec fn cell_of(self, x: u16, t: nat) -> RenderCell {
        let len = self.chars@.len() as int;
        RenderCell {
            x,
            y: self.row_of(t) as u16,
            ch: if t == 0 {
                self.chars@[self.head_row() % len]
            } else {
                self.chars@[t as int % len]
            },
            brightness: if t == 0 {
                Single { bits: 0x3f80_0000 }
            } else {
                trail_brightness(t, self.trail_len as nat)
            },
            is_head: t == 0,
        }
    }

    /// That cell, if it is on the screen.
    pub open spec fn lit_cell(self, x: u16, height: u16, t: nat) -> Seq<RenderCell> {
        if on_screen(self.row_of(t), height) {
            seq![self.cell_of(x, t)]
        } else {
            seq![]
        }
    }

    /// The first `n` cells of the drop, as far as they are on the screen, from the
    /// head backwards.
    pub open spec fn lit_cells(self, x: u16, height: u16, n: nat) -> Seq<RenderCell> {
        Seq::new(n, |t: int| self.lit_cell(x, height, t as nat)).flatten()
    }

    /// All cells of the drop that are on the screen.
    pub open spec fn cells(self, x: u16, height: u16) -> Seq<RenderCell> {
        self.lit_cells(x, height, self.cell_count())
    }

    /// The drop can be drawn: its rows are within the range of row numbers, and it
    /// has characters if any cell of it is on the screen.
    pub open spec fn can_draw(self, height: u16) -> bool {
        &&& forall|t: nat|
            1 <= t < self.trail_len ==> i32::MIN <= #[trigger] self.row_of(t) <= i32::MAX
        &&& self.chars@.len() > 0 || forall|t: nat|
            t < self.cell_count() ==> !on_screen(#[trigger] self.row_of(t), height)
    }

    pub proof fn lemma_next_lit_cell(self, x: u16, height: u16, n: nat)
        ensures
            self.lit_cells(x, height, n + 1) == self.lit_cells(x, height, n) + self.lit_cell(
                x,
                height,
                n,
            ),
    {
        let f = |t: int| self.lit_cell(x, height, t as nat);
        assert(Seq::new(n + 1, f) =~= Seq::new(n, f).push(self.lit_cell(x, height, n)));
        Seq::new(n, f).lemma_flatten_push(self.lit_cell(x, height, n));
    }

    /// Appends the cells of the drop that are on the screen.
    fn draw_into(&self, x: u16, height: u16, out: &mut Vec<RenderCell>)
        requires
            self.can_draw(height),
        ensures
            final(out)@ == old(out)@ + self.cells(x, height),
    {
        let head: i32 = self.head_y.floor_i32();
        let rows: i32 = height as i32;
        proof {
            assert(self.row_of(0) == head);
            self.lemma_next_lit_cell(x, height, 0);
            assert(self.lit_cells(x, height, 0) =~= seq![]);
        }
        if head >= 0 && head < rows {
            let ch: char = self.chars[head as usize % self.chars.len()];
            out.push(
                RenderCell {
                    x,
                    y: head as u16,
                    ch,
                    brightness: Single { bits: 0x3f80_0000 },
                    is_head: true,
                },
            );
        }
        let mut t: usize = 1;
        while t < self.trail_len
            invariant
                1 <= t,
                t <= self.trail_len || t == 1,
                self.can_draw(height),
                head == self.head_row(),
                rows == height,
                out@ == old(out)@ + self.lit_cells(x, height, t as nat),
            decreases self.trail_len - t,
        {
            let ghost before = out@;
            proof {
                assert(i32::MIN <= self.row_of(t as nat) <= i32::MAX);
                self.lemma_next_lit_cell(x, height, t as nat);
            }
            let y: i32 = head - t as i32;
            if y >= 0 && y < rows {
                let linear: Single = Single { bits: 0x3f80_0000 }.minus(
                    Single::from_u64(t as u64).over(Single::from_u64(self.trail_len as u64)),
                );
                let ch: char = self.chars[t % self.chars.len()];
                out.push(
                    RenderCell {
                        x,
                        y: y as u16,
                        ch,
                        brightness: linear.times(linear),
                        is_head: false,
                    },
                );
            }
            proof {
                assert(out@ =~= before + self.lit_cell(x, height, t as nat));
            }
            t = t + 1;
        }
    }
}

/// The drops of one screen column.
pub struct Column {
    pub x: u16,
    pub drops: Vec<RainDrop>,
}

impl Column {
    /// One to three drops, all of them fresh.
    pub open spec fn is_fresh(self, height: u16) -> bool {
        &&& 1 <= self.drops@.len() <= 3
        &&& forall|i: int|
            0 <= i < self.drops@.len() ==> (#[trigger] self.drops@[i]).is_fresh(
                single::from_whole(height as nat),
            )
    }

    /// One to three drops, all of them sound.
    pub open spec fn is_sound(self) -> bool {
        &&& 1 <= self.drops@.len() <= 3
        &&& forall|i: int| 0 <= i < self.drops@.len() ==> (#[trigger] self.drops@[i]).is_sound()
    }

    pub open spec fn can_step(self, height: u16) -> bool {
        forall|i: int|
            0 <= i < self.drops@.len() ==> (#[trigger] self.drops@[i]).can_step(height)
    }

    pub open spec fn can_draw(self, height: u16) -> bool {
        forall|i: int|
            0 <= i < self.drops@.len() ==> (#[trigger] self.drops@[i]).can_draw(height)
    }

    /// There is one record of draws for each drop, and each serves for its step.
    pub open spec fn can_step_with(self, draws: Seq<DropDraws>, height: u16) -> bool {
        &&& draws.len() == self.drops@.len()
        &&& forall|i: int|
            0 <= i < self.drops@.len() ==> (#[trigger] self.drops@[i]).can_step_with(
                draws[i],
                height,
            )
    }

    /// The draws are what a step of the column may draw.
    pub open spec fn may_draw(self, draws: Seq<DropDraws>, height: u16) -> bool {
        &&& draws.len() == self.drops@.len()
        &&& forall|i: int|
            0 <= i < self.drops@.len() ==> (#[trigger] self.drops@[i]).may_draw(draws[i], height)
    }

    /// The same column: in the same place, with the same drops.
    pub open spec fn same_as(self, other: Column) -> bool {
        &&& self.x == other.x
        &&& self.drops@.len() == other.drops@.len()
        &&& forall|i: int|
            0 <= i < self.drops@.len() ==> (#[trigger] self.drops@[i]).same_as(other.drops@[i])
    }

    /// What a step with the given draws makes of `before`.
    pub open spec fn is_step_of(
        self,
        before: Column,
        draws: Seq<DropDraws>,
        height: u16,
    ) -> bool {
        &&& self.x == before.x
        &&& self.drops@.len() == before.drops@.len()
        &&& forall|i: int|
            0 <= i < self.drops@.len() ==> (#[trigger] self.drops@[i]).is_step_of(
                before.drops@[i],
                draws[i],
                height,
            )
    }

    /// One frame of `before`: the step that some draws make of it.
    pub open spec fn is_next_of(self, before: Column, height: u16) -> bool {
        exists|draws: Seq<DropDraws>|
            before.may_draw(draws, height) && #[trigger] self.is_step_of(before, draws, height)
    }

    /// The cells of the column that are on the screen, drop after drop.
    pub open spec fn cells(self, height: u16) -> Seq<RenderCell> {
        self.drops@.flat_map(|d: RainDrop| d.cells(self.x, height))
    }

    /// The column that the given draws make: one drop for each of them, in order.
    pub open spec fn is_launch_of(self, x: u16, launches: Seq<Restart>, height: u16) -> bool {
        &&& self.x == x
        &&& self.drops@.len() == launches.len()
        &&& forall|i: int|
            0 <= i < self.drops@.len() ==> (#[trigger] self.drops@[i]).is_launch_of(
                launches[i],
                height,
            )
    }

    /// The column that the given draws make: one drop for each of them, in order.
    pub fn launch(x: u16, height: u16, launches: &Vec<Restart>) -> (column: Column)
        requires
            forall|i: int|
                0 <= i < launches@.len() ==> within_table((#[trigger] launches@[i]).places@),
        ensures
            column.is_launch_of(x, launches@, height),
    {
        let mut drops: Vec<RainDrop> = Vec::with_capacity(launches.len());
        let mut i: usize = 0;
        while i < launches.len()
            invariant
                i <= launches@.len(),
                drops@.len() == i,
                forall|j: int|
                    0 <= j < launches@.len() ==> within_table((#[trigger] launches@[j]).places@),
                forall|j: int|
                    0 <= j < i ==> (#[trigger] drops@[j]).is_launch_of(launches@[j], height),
            decreases launches@.len() - i,
        {
            let r: &Restart = &launches[i];
            proof {
                assert(within_table(launches@[i as int].places@));
            }
            drops.push(RainDrop::launch(height, &r.places, r.start, r.speed));
            i = i + 1;
        }
        Column { x, drops }
    }

    /// A column of one to three new drops.
    pub fn new(x: u16, height: u16, rng: &mut ThreadRng) -> (column: Column)
        requires
            height > 0,
        ensures
            column.x == x,
            column.is_fresh(height),
    {
        let n: usize = draw::draw_range(rng, 1, 4);
        let mut launches: Vec<Restart> = Vec::with_capacity(n);
        while launches.len() < n
            invariant
                launches@.len() <= n,
                forall|i: int|
                    0 <= i < launches@.len() ==> (#[trigger] launches@[i]).is_possible(),
            decreases n - launches@.len(),
        {
            launches.push(Restart::draw_first(rng));
        }
        proof {
            assert forall|i: int| 0 <= i < launches@.len() implies within_table(
                (#[trigger] launches@[i]).places@,
            ) by {
                assert(launches@[i].is_possible());
            }
        }
        let column: Column = Self::launch(x, height, &launches);
        proof {
            rain_laws::law_launched_columns_are_fresh(column, launches@, height);
        }
        column
    }

    /// Whether every drop can take a step.
    pub fn is_ready(&self, height: u16) -> (ready: bool)
        ensures
            ready == self.can_step(height),
    {
        let mut i: usize = 0;
        while i < self.drops.len()
            invariant
                i <= self.drops@.len(),
                forall|k: int| 0 <= k < i ==> (#[trigger] self.drops@[k]).can_step(height),
            decreases self.drops@.len() - i,
        {
            if !self.drops[i].is_ready(height) {
                proof {
                    assert(!self.drops@[i as int].can_step(height));
                }
                return false;
            }
            i = i + 1;
        }
        true
    }

    /// Steps every drop of the column with the draws that are given for it.
    pub fn step_with(&mut self, height: u16, draws: &Vec<DropDraws>)
        requires
            old(self).can_step_with(draws@, height),
        ensures
            final(self).is_step_of(*old(self), draws@, height),
    {
        let mut i: usize = 0;
        while i < self.drops.len()
            invariant
                i <= self.drops@.len(),
                self.x == old(self).x,
                self.drops@.len() == old(self).drops@.len(),
                old(self).can_step_with(draws@, height),
                forall|j: int|
                    0 <= j < i ==> (#[trigger] self.drops@[j]).is_step_of(
                        old(self).drops@[j],
                        draws@[j],
                        height,
                    ),
                forall|j: int|
                    i <= j < self.drops@.len() ==> self.drops@[j] == #[trigger] old(self).drops@[j],
            decreases self.drops@.len() - i,
        {
            proof {
                assert(old(self).drops@[i as int].can_step_with(draws@[i as int], height));
            }
            self.drops[i].step_with(height, &draws[i]);
            i = i + 1;
        }
    }

    /// Updates all drops of the column: draws for each of them, and steps them.
    pub fn step(&mut self, height: u16)
        requires
            old(self).can_step(height),
        ensures
            final(self).is_next_of(*old(self), height),
    {
        let mut rng: ThreadRng = rand::thread_rng();
        let mut draws: Vec<DropDraws> = Vec::with_capacity(self.drops.len());
        let mut i: usize = 0;
        while i < self.drops.len()
            invariant
                i <= self.drops@.len(),
                *self == *old(self),
                self.can_step(height),
                draws@.len() == i,
                forall|j: int|
                    0 <= j < i ==> (#[trigger] self.drops@[j]).may_draw(draws@[j], height),
            decreases self.drops@.len() - i,
        {
            proof {
                assert(self.drops@[i as int].can_step(height));
            }
            draws.push(self.drops[i].draw_step(height, &mut rng));
            i = i + 1;
        }
        proof {
            assert(self.may_draw(draws@, height));
            assert forall|j: int| 0 <= j < self.drops@.len() implies (
            #[trigger] self.drops@[j]).can_step_with(draws@[j], height) by {
                assert(self.drops@[j].may_draw(draws@[j], height));
            }
        }
        self.step_with(height, &draws);
        proof {
            assert(self.is_step_of(*old(self), draws@, height));
        }
    }

    /// The cells of the column that are on the screen.
    pub fn collect_cells(&self, height: u16) -> (cells: Vec<RenderCell>)
        requires
            self.can_draw(height),
        ensures
            cells@ == self.cells(height),
    {
        let mut cells: Vec<RenderCell> = Vec::new();
        let ghost f = |d: RainDrop| d.cells(self.x, height);
        let mut i: usize = 0;
        proof {
            assert(self.drops@.take(0).flat_map(f) =~= seq![]);
        }
        while i < self.drops.len()
            invariant
                i <= self.drops@.len(),
                self.can_draw(height),
                f == (|d: RainDrop| d.cells(self.x, height)),
                cells@ == self.drops@.take(i as int).flat_map(f),
            decreases self.drops@.len() - i,
        {
            proof {
                self.drops@.lemma_flat_map_take_append(f, i as int);
            }
            self.drops[i].draw_into(self.x, height, &mut cells);
            i = i + 1;
        }
        proof {
            assert(self.drops@.take(i as int) =~= self.drops@);
        }
        cells
    }
}

/// `rayon`'s `par_iter_mut` and `for_each` on a vector: the closure, which is
/// [`Column::step`], runs exactly once on each column, whichever thread takes it.
#[verifier::external_body]
fn step_all(columns: &mut Vec<Column>, height: u16)
    requires
        forall|i: int|
            0 <= i < old(columns)@.len() ==> (#[trigger] old(columns)@[i]).can_step(height),
    ensures
        final(columns)@.len() == old(columns)@.len(),
        forall|i: int|
            0 <= i < final(columns)@.len() ==> (#[trigger] final(columns)@[i]).is_next_of(
                old(columns)@[i],
                height,
            ),
{
    columns.par_iter_mut().for_each(|column| column.step(height))
}

/// `rayon`'s `par_iter`, `flat_map_iter` and `collect` on a vector: the closure,
/// which is [`Column::collect_cells`], runs on each column, and what it gives is
/// joined in the order of the columns.
#[verifier::external_body]
fn gather_all(columns: &Vec<Column>, height: u16) -> (cells: Vec<RenderCell>)
    requires
        forall|i: int| 0 <= i < columns@.len() ==> (#[trigger] columns@[i]).can_draw(height),
    ensures
        cells@ == columns@.flat_map(|c: Column| c.cells(height)),
{
    columns.par_iter().flat_map_iter(|column| column.collect_cells(height)).collect()
}

/// The whole field of rain.
pub struct RainState {
    pub columns: Vec<Column>,
    pub width: u16,
    pub height: u16,
}

impl RainState {
    /// One sound column for each column of the screen, each at its place.
    pub open spec fn is_sound(self) -> bool {
        &&& self.columns@.len() == self.width
        &&& forall|i: int|
            0 <= i < self.columns@.len() ==> (#[trigger] self.columns@[i]).x == i
                && self.columns@[i].is_sound()
    }

    pub open spec fn can_step(self) -> bool {
        forall|i: int|
            0 <= i < self.columns@.len() ==> (#[trigger] self.columns@[i]).can_step(self.height)
    }

    pub open spec fn can_draw(self) -> bool {
        forall|i: int|
            0 <= i < self.columns@.len() ==> (#[trigger] self.columns@[i]).can_draw(self.height)
    }

    /// The cells of all columns that are on the screen, column after column.
    pub open spec fn cells(self) -> Seq<RenderCell> {
        self.columns@.flat_map(|c: Column| c.cells(self.height))
    }

    /// One frame of `before`: each column takes its step.
    pub open spec fn is_next_of(self, before: RainState) -> bool {
        &&& self.width == before.width
        &&& self.height == before.height
        &&& self.columns@.len() == before.columns@.len()
        &&& forall|i: int|
            0 <= i < self.columns@.len() ==> (#[trigger] self.columns@[i]).is_next_of(
                before.columns@[i],
                before.height,
            )
    }

    /// `before`, fitted to a screen of another size: columns that stay keep their
    /// drops, columns that come are fresh, and each knows its place.
    pub open spec fn is_resized_from(self, before: RainState, width: u16, height: u16) -> bool {
        &&& self.width == width
        &&& self.height == height
        &&& self.columns@.len() == width
        &&& forall|i: int|
            0 <= i < width ==> {
                &&& (#[trigger] self.columns@[i]).x == i
                &&& if i < before.columns@.len() {
                    self.columns@[i].drops == before.columns@[i].drops
                } else {
                    self.columns@[i].is_fresh(height)
                }
            }
    }

    /// A field of fresh columns, one for each column of the screen.
    pub fn new(width: u16, height: u16) -> (rain: RainState)
        requires
            width > 0 ==> height > 0,
        ensures
            rain.width == width,
            rain.height == height,
            rain.columns@.len() == width,
            forall|i: int|
                0 <= i < width ==> (#[trigger] rain.columns@[i]).x == i
                    && rain.columns@[i].is_fresh(height),
            rain.is_sound(),
    {
        let mut rng: ThreadRng = rand::thread_rng();
        let mut columns: Vec<Column> = Vec::new();
        let mut x: u16 = 0;
        while x < width
            invariant
                x <= width,
                width > 0 ==> height > 0,
                columns@.len() == x,
                forall|i: int|
                    0 <= i < x ==> (#[trigger] columns@[i]).x == i && columns@[i].is_fresh(height),
            decreases width - x,
        {
            columns.push(Column::new(x, height, &mut rng));
            x = x + 1;
        }
        proof {
            assert forall|i: int| 0 <= i < columns@.len() implies (#[trigger] columns@[i]).is_sound() by {
                rain_laws::law_fresh_columns_are_sound(columns@[i], height);
            }
        }
        RainState { columns, width, height }
    }

    /// Adjusts the field to a screen of another size.
    pub fn resize(&mut self, width: u16, height: u16)
        requires
            width > old(self).columns@.len() ==> height > 0,
        ensures
            final(self).is_resized_from(*old(self), width, height),
            old(self).is_sound() ==> final(self).is_sound(),
    {
        self.width = width;
        self.height = height;
        let mut rng: ThreadRng = rand::thread_rng();
        let ghost before = self.columns@;
        while self.columns.len() < width as usize
            invariant
                self.width == width,
                self.height == height,
                width > before.len() ==> height > 0,
                before.len() <= self.columns@.len(),
                self.columns@.len() <= width || self.columns@.len() == before.len(),
                forall|i: int|
                    0 <= i < before.len() ==> #[trigger] self.columns@[i] == before[i],
                forall|i: int|
                    before.len() <= i < self.columns@.len() ==> (
                    #[trigger] self.columns@[i]).is_fresh(height),
            decreases width - self.columns@.len(),
        {
            let x: u16 = self.columns.len() as u16;
            self.columns.push(Column::new(x, height, &mut rng));
        }
        self.columns.truncate(width as usize);
        let ghost kept = self.columns@;
        let mut i: usize = 0;
        while i < self.columns.len()
            invariant
                self.width == width,
                self.height == height,
                i <= self.columns@.len(),
                self.columns@.len() == width,
                kept.len() == width,
                forall|j: int|
                    0 <= j < width ==> (#[trigger] self.columns@[j]).drops == kept[j].drops,
                forall|j: int| 0 <= j < i ==> (#[trigger] self.columns@[j]).x == j,
            decreases self.columns@.len() - i,
        {
            self.columns[i].x = i as u16;
            i = i + 1;
        }
        proof {
            assert forall|j: int| 0 <= j < width implies if j < before.len() {
                (#[trigger] self.columns@[j]).drops == before[j].drops
            } else {
                self.columns@[j].is_fresh(height)
            } by {
                assert(self.columns@[j].drops == kept[j].drops);
                if j >= before.len() {
                    assert(kept[j].is_fresh(height));
                }
            }
            if old(self).is_sound() {
                rain_laws::law_resizes_keep_fields_sound(*old(self), *self, width, height);
            }
        }
    }

    /// Whether every drop can take a step.
    pub fn is_ready(&self) -> (ready: bool)
        ensures
            ready == self.can_step(),
    {
        let mut i: usize = 0;
        while i < self.columns.len()
            invariant
                i <= self.columns@.len(),
                forall|k: int|
                    0 <= k < i ==> (#[trigger] self.columns@[k]).can_step(self.height),
            decreases self.columns@.len() - i,
        {
            if !self.columns[i].is_ready(self.height) {
                proof {
                    assert(!self.columns@[i as int].can_step(self.height));
                }
                return false;
            }
            i = i + 1;
        }
        true
    }

    /// Steps every column, in parallel.
    pub fn update(&mut self)
        requires
            old(self).can_step(),
        ensures
            final(self).is_next_of(*old(self)),
            old(self).is_sound() ==> final(self).is_sound(),
    {
        let height: u16 = self.height;
        step_all(&mut self.columns, height);
        proof {
            if old(self).is_sound() {
                rain_laws::law_frames_keep_fields_sound(*old(self), *self);
            }
        }
    }

    /// Collects the cells of every column that are on the screen, in parallel.
    pub fn collect_cells(&self) -> (cells: Vec<RenderCell>)
        requires
            self.can_draw(),
        ensures
            cells@ == self.cells(),
    {
        gather_all(&self.columns, self.height)
    }
}

} // verus!
