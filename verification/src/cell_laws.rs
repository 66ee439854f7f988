//! What the rain shows, in rows and columns.
use vstd::arithmetic::power2::*;
use vstd::prelude::*;

use crate::draw;
use crate::rain;
use crate::rain::Column;
use crate::rain::RainDrop;
use crate::rain::RainState;
use crate::rain::RenderCell;
use crate::rounding;
use crate::single;
use crate::single::Single;
use crate::single_laws;

verus! {

/// The row of a head: the whole part of its place, rounded down; the first row for a
/// place that is not a number.
pub open spec fn row(head_y: Single) -> int {
    if head_y.is_nan() {
        0
    } else {
        head_y.value() / (pow2(149) as int)
    }
}

/// How far behind the head the first cell is that a screen of that height may show.
pub open spec fn first_shown(head_y: Single, height: u16) -> int {
    let first = row(head_y) - height + 1;
    if first < 0 {
        0
    } else {
        first
    }
}

/// How many rows of a screen of that height a head and a trail take up.
pub open spec fn rows_taken(head_y: Single, trail_len: usize, height: u16) -> int {
    let top = if trail_len == 0 {
        row(head_y)
    } else {
        row(head_y) - trail_len + 1
    };
    let from = if top < 0 {
        0
    } else {
        top
    };
    let to = if row(head_y) < height {
        row(head_y) + 1
    } else {
        height as int
    };
    if from < to {
        to - from
    } else {
        0
    }
}

/// A drop shows one cell in each row of the screen that its head or its trail takes up,
/// and no other, from the bottom up, in whatever column it is. The head shows the
/// character of its row, and the trail its characters in turn, each counted around.
/// The head is the one cell without any other below it.
#[verifier::spinoff_prover]
pub proof fn law_cells_of_a_drop(drop: RainDrop, x: u16, height: u16)
    requires
        drop.chars@.len() > 0,
        drop.trail_len <= 0x7fff_0000,
    ensures
        drop.cells(x, height).len() == rows_taken(drop.head_y, drop.trail_len, height),
        forall|i: int|
            0 <= i < drop.cells(x, height).len() ==> {
                let cell = #[trigger] drop.cells(x, height)[i];
                let behind = first_shown(drop.head_y, height) + i;
                &&& cell.x == x
                &&& cell.y == row(drop.head_y) - behind
                &&& cell.is_head <==> behind == 0
                &&& cell.ch == drop.chars@[if behind == 0 {
                    row(drop.head_y)
                } else {
                    behind
                } % drop.chars@.len() as int]
            },
{
    let n = drop.cell_count();
    lemma_rows(drop, x, height, n);
    lemma_pow2_pos(149);
    let (r, f) = (drop.head_row(), row(drop.head_y));
    if f > i32::MAX {
        assert(r == i32::MAX);
    } else if f < i32::MIN {
        assert(r == i32::MIN);
    } else {
        assert(r == f);
    }
    assert forall|i: int| 0 <= i < drop.cells(x, height).len() implies {
        let cell = #[trigger] drop.cells(x, height)[i];
        let behind = first_shown(drop.head_y, height) + i;
        &&& cell.x == x
        &&& cell.y == row(drop.head_y) - behind
        &&& cell.is_head <==> behind == 0
        &&& cell.ch == drop.chars@[if behind == 0 {
            row(drop.head_y)
        } else {
            behind
        } % drop.chars@.len() as int]
    } by {
        let first: int = if r - height + 1 < 0 { 0 } else { r - height + 1 };
        assert(drop.lit_cells(x, height, n)[i] == drop.cell_of(x, (first + i) as nat));
    }
}

/// The first `n` cells of a drop that are on the screen.
proof fn lemma_rows(drop: RainDrop, x: u16, height: u16, n: nat)
    requires
        n <= 0x7fff_0000,
    ensures
        ({
            let r = drop.head_row();
            let first: int = if r - height + 1 < 0 { 0 } else { r - height + 1 };
            let last: int = if r < n - 1 { r } else { n - 1 };
            let cells = drop.lit_cells(x, height, n);
            &&& cells.len() == if last >= first { last - first + 1 } else { 0 }
            &&& forall|i: int|
                0 <= i < cells.len() ==> #[trigger] cells[i] == drop.cell_of(
                    x,
                    (first + i) as nat,
                )
        }),
    decreases n,
{
    let r = drop.head_row();
    let cells = drop.lit_cells(x, height, n);
    if n == 0 {
        assert(cells =~= Seq::<RenderCell>::empty());
    } else {
        let k = (n - 1) as nat;
        lemma_rows(drop, x, height, k);
        drop.lemma_next_lit_cell(x, height, k);
        let before = drop.lit_cells(x, height, k);
        let first: int = if r - height + 1 < 0 { 0 } else { r - height + 1 };
        assert(drop.row_of(k) == r - k);
        assert(cells == before + drop.lit_cell(x, height, k));
        assert forall|i: int| 0 <= i < cells.len() implies #[trigger] cells[i] == drop.cell_of(
            x,
            (first + i) as nat,
        ) by {
            if i < before.len() {
                assert(cells[i] == before[i]);
            } else {
                assert(cells[i] == drop.cell_of(x, k));
            }
        }
    }
}

/// The head is as bright as can be, and a cell of the trail has the square of the part
/// of the trail that is still to come, off by at most 2^-20.
pub proof fn law_brightness_of_a_drop(drop: RainDrop, x: u16, height: u16, i: int)
    requires
        drop.chars@.len() > 0,
        drop.trail_len <= 0x7fff_0000,
        0 <= i < drop.cells(x, height).len(),
    ensures
        ({
            let cell = drop.cells(x, height)[i];
            let behind = first_shown(drop.head_y, height) + i;
            let n = drop.trail_len as int;
            &&& behind == 0 ==> cell.brightness == (Single { bits: 0x3f80_0000 })
            &&& behind > 0 ==> 0x10_0000 * single_laws::apart(
                (n * n) * cell.brightness.value(),
                ((n - behind) * (n - behind)) * pow2(149),
            ) <= (n * n) * pow2(149)
        }),
{
    let n = drop.cell_count();
    lemma_rows(drop, x, height, n);
    law_cells_of_a_drop(drop, x, height);
    lemma_pow2_pos(149);
    let r = drop.head_row();
    let first: int = if r - height + 1 < 0 { 0 } else { r - height + 1 };
    let t = (first + i) as nat;
    let cell = drop.cells(x, height)[i];
    assert(cell == drop.cell_of(x, t));
    let behind = first_shown(drop.head_y, height) + i;
    let f = row(drop.head_y);
    if f > i32::MAX {
        assert(r == i32::MAX);
    } else if f < i32::MIN {
        assert(r == i32::MIN);
    } else {
        assert(r == f);
    }
    assert(t == behind);
    if t > 0 {
        lemma_brightness(t, drop.trail_len as nat);
    }
}

#[verifier::spinoff_prover]
proof fn lemma_brightness(t: nat, n: nat)
    requires
        1 <= t < n <= 0x7fff_0000,
    ensures
        0x10_0000 * single_laws::apart(
            (n * n) * rain::trail_brightness(t, n).value(),
            ((n - t) * (n - t)) * pow2(149),
        ) <= (n * n) * pow2(149),
{
    let z = pow2(149) as int;
    let one = Single { bits: 0x3f80_0000 };
    lemma_pow2_pos(149);
    lemma_pow2_strictly_increases(149, 277);
    lemma_pow2_strictly_increases(30, 149);
    lemma_pow2_adds(23, 126);
    lemma2_to64();
    rounding::lemma_magnitude_small();
    rounding::lemma_magnitude_parts(126, 0x80_0000);
    assert(one.value() == z && one.is_finite());
    single_laws::law_ratios_are_near(t, n);
    single_laws::law_words_are_finite(t);
    single_laws::law_words_are_finite(n);
    single_laws::law_whole_numbers_keep_order(t, n);
    single_laws::law_whole_numbers_keep_order(1, n);
    single_laws::law_small_whole_is_exact(1);
    assert(1 * z == z);
    let (a, b) = (single::from_whole(t), single::from_whole(n));
    let q = single::quotient(a, b);
    let (av, bv) = (a.value(), b.value());
    assert(av * z <= bv * z) by (nonlinear_arith)
        requires
            av <= bv,
            z > 0,
    ;
    single_laws::law_quotient_keeps_sides(a, b, one);
    let qv = q.value();
    let m = single::negation(q);
    assert(m.value() == -qv && m.is_finite());
    let l = single::difference(one, q);
    single_laws::law_sum_keeps_sides(one, m, one);
    single_laws::law_sum_keeps_sides(one, m, draw::zero());
    single_laws::law_sum_value(one, m);
    single_laws::law_rounding_error(z - qv, 1);
    let lv = l.value();
    assert(l.is_finite()) by {
        rounding::lemma_magnitude_ordered(one.pattern(), rounding::INFINITY as nat);
    }
    single_laws::law_product_value(l, l);
    let p = lv * lv;
    assert(0 <= p <= z * z && z * z <= z * pow2(277)) by (nonlinear_arith)
        requires
            p == lv * lv,
            0 <= lv <= z,
            z <= pow2(277),
    ;
    single_laws::law_rounding_error(p, z as nat);
    let w = rain::trail_brightness(t, n).value();
    let e = single_laws::apart(z * w, p);
    assert(0x100_0000 * e <= z * z) by (nonlinear_arith)
        requires
            0x100_0000 * e <= p || 2 * e <= z,
            p <= z * z,
            z >= 0x4000_0000,
            e >= 0,
    ;
    lemma_square(n as int, t as int, qv, lv, w, z);
}

#[verifier::spinoff_prover]
proof fn lemma_square(n: int, t: int, q: int, l: int, w: int, z: int)
    requires
        1 <= t < n,
        z > 0,
        0 <= q <= z,
        0 <= l <= z,
        0x40_0000 * single_laws::apart(n * q, t * z) <= t * z,
        0x100_0000 * single_laws::apart(l, z - q) <= z,
        0x100_0000 * single_laws::apart(z * w, l * l) <= z * z,
    ensures
        0x10_0000 * single_laws::apart((n * n) * w, ((n - t) * (n - t)) * z) <= (n * n) * z,
{
    let u = n * z;
    let g = n - t;
    let d = n * l - g * z;
    let s = n * l + g * z;
    // The part that is still to come.
    let a = n * (l - (z - q));
    assert(0x100_0000 * a <= u && -u <= 0x100_0000 * a) by (nonlinear_arith)
        requires
            a == n * (l - (z - q)),
            u == n * z,
            n >= 1,
            0x100_0000 * (l - (z - q)) <= z,
            0x100_0000 * ((z - q) - l) <= z,
    ;
    assert(t * z <= u && g * z <= u && g * z >= 0) by (nonlinear_arith)
        requires
            u == n * z,
            t <= n,
            g == n - t,
            t >= 1,
            z > 0,
    ;
    assert(d == a - (n * q - t * z)) by (nonlinear_arith)
        requires
            d == n * l - g * z,
            g == n - t,
            a == n * (l - (z - q)),
    ;
    assert(0x100_0000 * d <= 5 * u && -(5 * u) <= 0x100_0000 * d);
    // Its square.
    assert(0 <= s <= 2 * u) by (nonlinear_arith)
        requires
            s == n * l + g * z,
            u == n * z,
            0 <= l <= z,
            0 <= g * z <= u,
            n >= 1,
    ;
    let (nn, gg) = (n * n, g * g);
    let (x, y) = (n * l, g * z);
    assert(d * s == x * x - y * y) by (nonlinear_arith)
        requires
            d == x - y,
            s == x + y,
    ;
    assert(x * x == nn * (l * l)) by (nonlinear_arith)
        requires
            x == n * l,
            nn == n * n,
    ;
    assert(y * y == (gg * z) * z) by (nonlinear_arith)
        requires
            y == g * z,
            gg == g * g,
    ;
    let uu = u * u;
    assert(0x100_0000 * (d * s) <= 10 * uu && -(10 * uu) <= 0x100_0000 * (d * s)) by (nonlinear_arith)
        requires
            0x100_0000 * d <= 5 * u,
            -(5 * u) <= 0x100_0000 * d,
            0 <= s <= 2 * u,
            uu == u * u,
            u >= 0,
    {
        assert((0x100_0000 * d) * s <= (5 * u) * s);
        assert((5 * u) * s <= (5 * u) * (2 * u));
        assert((0x100_0000 * d) * s >= -(5 * u) * s);
    }
    assert(uu == nn * (z * z)) by (nonlinear_arith)
        requires
            uu == u * u,
            u == n * z,
            nn == n * n,
    ;
    let h = nn * (z * w - l * l);
    assert(0x100_0000 * h <= uu && -uu <= 0x100_0000 * h) by (nonlinear_arith)
        requires
            h == nn * (z * w - l * l),
            uu == nn * (z * z),
            nn >= 0,
            0x100_0000 * (z * w - l * l) <= z * z,
            0x100_0000 * (l * l - z * w) <= z * z,
    ;
    let e = nn * w - gg * z;
    assert(e * z == h + d * s) by (nonlinear_arith)
        requires
            e == nn * w - gg * z,
            h == nn * (z * w - l * l),
            nn * (l * l) - (gg * z) * z == d * s,
    ;
    assert(0x10_0000 * e <= nn * z && -(nn * z) <= 0x10_0000 * e) by (nonlinear_arith)
        requires
            0x100_0000 * (e * z) <= 11 * uu,
            -(11 * uu) <= 0x100_0000 * (e * z),
            uu == nn * (z * z),
            z > 0,
            nn >= 0,
    {
        assert(uu == (nn * z) * z);
        assert((0x100_0000 * e) * z <= (16 * (nn * z)) * z);
        assert((0x100_0000 * e) * z >= (-(16 * (nn * z))) * z);
    }
}

/// A column without drops shows nothing, and one with a single drop shows the drop.
pub proof fn law_columns_show_their_drops(column: Column, height: u16)
    ensures
        column.drops@.len() == 0 ==> column.cells(height) == Seq::<RenderCell>::empty(),
        column.drops@.len() == 1 ==> column.cells(height) == column.drops@[0].cells(
            column.x,
            height,
        ),
{
    let f = |d: RainDrop| d.cells(column.x, height);
    if column.drops@.len() == 0 {
        assert(column.drops@.map_values(f) =~= Seq::empty());
    } else if column.drops@.len() == 1 {
        column.drops@.lemma_flat_map_singleton(f);
    }
}

/// A field without columns shows nothing, and one with a single column shows the
/// column.
pub proof fn law_fields_show_their_columns(rain: RainState)
    ensures
        rain.columns@.len() == 0 ==> rain.cells() == Seq::<RenderCell>::empty(),
        rain.columns@.len() == 1 ==> rain.cells() == rain.columns@[0].cells(rain.height),
{
    let f = |c: Column| c.cells(rain.height);
    if rain.columns@.len() == 0 {
        assert(rain.columns@.map_values(f) =~= Seq::empty());
    } else if rain.columns@.len() == 1 {
        rain.columns@.lemma_flat_map_singleton(f);
    }
}

/// Every drop of a field is shown whole: its cells stand in a row among the cells of
/// the field.
pub proof fn law_every_drop_is_shown(rain: RainState, c: int, d: int) -> (at: int)
    requires
        0 <= c < rain.columns@.len(),
        0 <= d < rain.columns@[c].drops@.len(),
    ensures
        ({
            let part = rain.columns@[c].drops@[d].cells(rain.columns@[c].x, rain.height);
            &&& 0 <= at <= rain.cells().len() - part.len()
            &&& rain.cells().subrange(at, at + part.len()) == part
        }),
{
    let column = rain.columns@[c];
    let f = |c: Column| c.cells(rain.height);
    let g = |d: RainDrop| d.cells(column.x, rain.height);
    let i = lemma_part_of_flat_map(rain.columns@, f, c);
    let j = lemma_part_of_flat_map(column.drops@, g, d);
    let part = column.drops@[d].cells(column.x, rain.height);
    assert(rain.cells().subrange(i + j, i + j + part.len()) =~= rain.cells().subrange(
        i,
        i + column.cells(rain.height).len(),
    ).subrange(j, j + part.len()));
    i + j
}

proof fn lemma_part_of_flat_map<A, B>(s: Seq<A>, f: spec_fn(A) -> Seq<B>, k: int) -> (at: int)
    requires
        0 <= k < s.len(),
    ensures
        0 <= at <= s.flat_map(f).len() - f(s[k]).len(),
        s.flat_map(f).subrange(at, at + f(s[k]).len()) == f(s[k]),
    decreases s.len(),
{
    let last = s.len() - 1;
    s.lemma_flat_map_take_append(f, last);
    assert(s.take(last + 1) =~= s);
    let rest = s.take(last);
    if k == last {
        let at = rest.flat_map(f).len() as int;
        assert(s.flat_map(f).subrange(at, at + f(s[k]).len()) =~= f(s[k]));
        at
    } else {
        let at = lemma_part_of_flat_map(rest, f, k);
        assert(rest[k] == s[k]);
        assert(s.flat_map(f).subrange(at, at + f(s[k]).len()) =~= rest.flat_map(f).subrange(
            at,
            at + f(s[k]).len(),
        ));
        at
    }
}

} // verus!
