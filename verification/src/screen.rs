//! Painting the rain and its overlay into a terminal buffer.
use ratatui::buffer::Buffer;
use ratatui::style::Color;
use ratatui::style::Style;
use vstd::prelude::*;
use vstd::string::*;

use crate::colour;
use crate::colour::Ink;
use crate::overlay;
use crate::rain::RenderCell;
use crate::single::Single;

verus! {

/// `ratatui`'s grid of terminal cells.
#[verifier::external_type_specification]
#[verifier::external_body]
pub struct ExBuffer(Buffer);

/// What a buffer shows: for each position that it has a cell for, the text of the
/// cell, the colour of the text and the colour behind it.
pub uninterp spec fn shown(buf: Buffer) -> Map<(u16, u16), (Seq<char>, Ink, Ink)>;

/// The column after the last one of a buffer's area.
pub uninterp spec fn right_edge(buf: Buffer) -> u16;

/// A text put into a grid from `(x, y)` on, one character to a cell.
pub open spec fn with_text(
    grid: Map<(u16, u16), (Seq<char>, Ink, Ink)>,
    x: u16,
    y: u16,
    text: Seq<char>,
    ink: Ink,
    paper: Ink,
) -> Map<(u16, u16), (Seq<char>, Ink, Ink)> {
    Map::new(
        |p: (u16, u16)| grid.contains_key(p),
        |p: (u16, u16)|
            if p.1 == y && x <= p.0 < x + text.len() {
                (seq![text[p.0 - x]], ink, paper)
            } else {
                grid[p]
            },
    )
}

/// The first characters of a text, as far as they fit between `x` and `edge`.
pub open spec fn fitting(text: Seq<char>, x: u16, edge: u16) -> Seq<char> {
    if edge <= x {
        seq![]
    } else if text.len() <= edge - x {
        text
    } else {
        text.take(edge - x)
    }
}

/// `ratatui`'s `Buffer::cell_mut`, and `Cell::set_symbol` and `Cell::set_fg` on
/// the cell: where the buffer has a cell at the position, its text becomes the
/// character and the colour of the text becomes the ink; elsewhere nothing
/// happens. `Ink::Other` is painted as the terminal's default colour.
#[verifier::external_body]
fn put_cell(buf: &mut Buffer, x: u16, y: u16, ch: char, ink: Ink)
    ensures
        shown(*final(buf)) == if shown(*old(buf)).contains_key((x, y)) {
            shown(*old(buf)).insert((x, y), (seq![ch], ink, shown(*old(buf))[(x, y)].2))
        } else {
            shown(*old(buf))
        },
        right_edge(*final(buf)) == right_edge(*old(buf)),
{
    if let Some(cell) = buf.cell_mut((x, y)) {
        let mut s = [0u8; 4];
        cell.set_symbol(ch.encode_utf8(&mut s));
        cell.set_fg(match ink {
            Ink::White => Color::White,
            Ink::Cyan => Color::Cyan,
            Ink::Black => Color::Black,
            Ink::Rgb(r, g, b) => Color::Rgb(r, g, b),
            Ink::Other => Color::Reset,
        });
    }
}

/// `ratatui`'s `Buffer::set_string` with a foreground and a background colour, on
/// printable ASCII, each character of which takes one cell: the characters that
/// fit before the right edge go into consecutive cells. There has to be a cell for
/// each of them. `Ink::Other` is painted as the terminal's default colour.
#[verifier::external_body]
fn put_text(buf: &mut Buffer, x: u16, y: u16, text: &str, ink: Ink, paper: Ink)
    requires
        overlay::is_plain(text@),
        forall|i: int|
            0 <= i < fitting(text@, x, right_edge(*old(buf))).len() ==> #[trigger] shown(
                *old(buf),
            ).contains_key(((x + i) as u16, y)),
    ensures
        shown(*final(buf)) == with_text(
            shown(*old(buf)),
            x,
            y,
            fitting(text@, x, right_edge(*old(buf))),
            ink,
            paper,
        ),
        right_edge(*final(buf)) == right_edge(*old(buf)),
{
    let pick = |ink: Ink| match ink {
        Ink::White => Color::White,
        Ink::Cyan => Color::Cyan,
        Ink::Black => Color::Black,
        Ink::Rgb(r, g, b) => Color::Rgb(r, g, b),
        Ink::Other => Color::Reset,
    };
    buf.set_string(x, y, text, Style::default().fg(pick(ink)).bg(pick(paper)));
}

/// `ratatui`'s `Buffer::cell`: whether the buffer has a cell at the position.
#[verifier::external_body]
fn has_cell(buf: &Buffer, x: u16, y: u16) -> (there: bool)
    ensures
        there == shown(*buf).contains_key((x, y)),
{
    buf.cell((x, y)).is_some()
}

/// `ratatui`'s `Buffer::area` and `Rect::right`: the column after the last one.
#[verifier::external_body]
fn edge_of(buf: &Buffer) -> (edge: u16)
    ensures
        edge == right_edge(*buf),
{
    buf.area().right()
}

/// One cell of rain painted into a grid, if it is on the screen.
pub open spec fn with_cell(
    grid: Map<(u16, u16), (Seq<char>, Ink, Ink)>,
    width: u16,
    height: u16,
    cell: RenderCell,
    ram_pct: Single,
) -> Map<(u16, u16), (Seq<char>, Ink, Ink)> {
    let p = (cell.x, cell.y);
    if cell.x < width && cell.y < height && grid.contains_key(p) {
        grid.insert(
            p,
            (
                seq![cell.ch],
                colour::colour_of(cell.brightness, ram_pct, cell.is_head),
                grid[p].2,
            ),
        )
    } else {
        grid
    }
}

/// Cells of rain painted into a grid, one after the other.
pub open spec fn with_cells(
    grid: Map<(u16, u16), (Seq<char>, Ink, Ink)>,
    width: u16,
    height: u16,
    cells: Seq<RenderCell>,
    ram_pct: Single,
) -> Map<(u16, u16), (Seq<char>, Ink, Ink)>
    decreases cells.len(),
{
    if cells.len() == 0 {
        grid
    } else {
        with_cell(
            with_cells(grid, width, height, cells.drop_last(), ram_pct),
            width,
            height,
            cells.last(),
            ram_pct,
        )
    }
}

/// The column in which a text of `len` characters starts that ends at the right
/// of the screen.
pub open spec fn hud_column(width: u16, len: nat) -> u16 {
    let n = len as u16;
    if n <= width {
        (width - n) as u16
    } else {
        0
    }
}

/// The part of the overlay that a screen of that width shows.
pub open spec fn hud_part(width: u16, edge: u16, text: Seq<char>) -> Seq<char> {
    fitting(text, hud_column(width, text.len()), edge)
}

/// The column in which the text starts.
fn hud_start(width: u16, text: &str) -> (x: u16)
    ensures
        x == hud_column(width, text@.len()),
{
    let len: u16 = #[verifier::truncate] (text.unicode_len() as u16);
    width.saturating_sub(len)
}

/// There is a cell for each character of the overlay that is to be shown.
pub open spec fn hud_has_room(buf: Buffer, width: u16, text: Seq<char>) -> bool {
    forall|i: int|
        0 <= i < hud_part(width, right_edge(buf), text).len() ==> #[trigger] shown(
            buf,
        ).contains_key(((hud_column(width, text.len()) + i) as u16, 0))
}

/// What a grid shows after a frame: the rain, and over it the overlay.
pub open spec fn rendered(
    grid: Map<(u16, u16), (Seq<char>, Ink, Ink)>,
    edge: u16,
    width: u16,
    height: u16,
    cells: Seq<RenderCell>,
    ram_pct: Single,
    cpu_pct: Single,
) -> Map<(u16, u16), (Seq<char>, Ink, Ink)> {
    let text = overlay::hud_chars(ram_pct, cpu_pct);
    with_text(
        with_cells(grid, width, height, cells, ram_pct),
        hud_column(width, text.len()),
        0,
        hud_part(width, edge, text),
        Ink::Cyan,
        Ink::Black,
    )
}

/// Paints the cells and then the overlay, at the top right.
pub fn render(
    buf: &mut Buffer,
    width: u16,
    height: u16,
    cells: &Vec<RenderCell>,
    ram_pct: Single,
    cpu_pct: Single,
)
    requires
        hud_has_room(*old(buf), width, overlay::hud_chars(ram_pct, cpu_pct)),
    ensures
        shown(*final(buf)) == rendered(
            shown(*old(buf)),
            right_edge(*old(buf)),
            width,
            height,
            cells@,
            ram_pct,
            cpu_pct,
        ),
        right_edge(*final(buf)) == right_edge(*old(buf)),
{
    let ghost grid = shown(*buf);
    let mut i: usize = 0;
    proof {
        assert(cells@.take(0) =~= seq![]);
    }
    while i < cells.len()
        invariant
            i <= cells@.len(),
            right_edge(*buf) == right_edge(*old(buf)),
            grid == shown(*old(buf)),
            shown(*buf) == with_cells(grid, width, height, cells@.take(i as int), ram_pct),
        decreases cells@.len() - i,
    {
        let cell: &RenderCell = &cells[i];
        if cell.x < width && cell.y < height {
            let ink: Ink = colour::cell_color(cell.brightness, ram_pct, cell.is_head);
            put_cell(buf, cell.x, cell.y, cell.ch, ink);
        }
        proof {
            assert(cells@.take(i + 1).drop_last() =~= cells@.take(i as int));
            assert(cells@.take(i + 1).last() == cells@[i as int]);
        }
        i = i + 1;
    }
    proof {
        assert(cells@.take(i as int) =~= cells@);
        lemma_cells_keep_positions(grid, width, height, cells@, ram_pct);
    }
    let hud: String = overlay::hud_text(ram_pct, cpu_pct);
    let hud_x: u16 = hud_start(width, hud.as_str());
    proof {
        let part = hud_part(width, right_edge(*old(buf)), hud@);
        assert forall|k: int| 0 <= k < part.len() implies #[trigger] shown(*buf).contains_key(
            ((hud_x + k) as u16, 0),
        ) by {
            assert(shown(*old(buf)).contains_key(((hud_x + k) as u16, 0)));
            assert(grid.dom().contains(((hud_x + k) as u16, 0)));
        }
    }
    put_text(buf, hud_x, 0, hud.as_str(), Ink::Cyan, Ink::Black);
}

proof fn lemma_cells_keep_positions(
    grid: Map<(u16, u16), (Seq<char>, Ink, Ink)>,
    width: u16,
    height: u16,
    cells: Seq<RenderCell>,
    ram_pct: Single,
)
    ensures
        with_cells(grid, width, height, cells, ram_pct).dom() == grid.dom(),
    decreases cells.len(),
{
    if cells.len() > 0 {
        lemma_cells_keep_positions(grid, width, height, cells.drop_last(), ram_pct);
        assert(with_cells(grid, width, height, cells, ram_pct).dom() =~= grid.dom());
    }
}

/// Paints the cells and the overlay, if there is room for the overlay; otherwise
/// leaves the buffer as it is. True if there was room.
pub fn try_render(
    buf: &mut Buffer,
    width: u16,
    height: u16,
    cells: &Vec<RenderCell>,
    ram_pct: Single,
    cpu_pct: Single,
) -> (painted: bool)
    ensures
        painted <==> hud_has_room(*old(buf), width, overlay::hud_chars(ram_pct, cpu_pct)),
        painted ==> shown(*final(buf)) == rendered(
            shown(*old(buf)),
            right_edge(*old(buf)),
            width,
            height,
            cells@,
            ram_pct,
            cpu_pct,
        ),
        !painted ==> *final(buf) == *old(buf),
        right_edge(*final(buf)) == right_edge(*old(buf)),
{
    let hud: String = overlay::hud_text(ram_pct, cpu_pct);
    let len: usize = hud.as_str().unicode_len();
    let x: u16 = hud_start(width, hud.as_str());
    let edge: u16 = edge_of(buf);
    let ghost part = hud_part(width, edge, hud@);
    let mut at: u16 = x;
    while at < edge && ((at - x) as usize) < len
        invariant
            x <= at,
            at <= edge || at == x,
            at - x <= len,
            len == hud@.len(),
            part == hud_part(width, edge, hud@),
            x == hud_column(width, hud@.len()),
            hud@ == overlay::hud_chars(ram_pct, cpu_pct),
            edge == right_edge(*buf),
            *buf == *old(buf),
            forall|i: int|
                0 <= i < at - x ==> #[trigger] shown(*buf).contains_key(((x + i) as u16, 0)),
        decreases edge - at,
    {
        if !has_cell(buf, at, 0) {
            proof {
                assert(!shown(*buf).contains_key(((x + (at - x)) as u16, 0)));
            }
            return false;
        }
        at = at + 1;
    }
    render(buf, width, height, cells, ram_pct, cpu_pct);
    true
}

/// The overlay sits on top of the rain: where it is shown, no cell of rain is.
pub proof fn law_overlay_is_on_top(
    grid: Map<(u16, u16), (Seq<char>, Ink, Ink)>,
    edge: u16,
    width: u16,
    height: u16,
    cells: Seq<RenderCell>,
    ram_pct: Single,
    cpu_pct: Single,
    i: int,
)
    requires
        ({
            let text = overlay::hud_chars(ram_pct, cpu_pct);
            &&& 0 <= i < hud_part(width, edge, text).len()
            &&& grid.contains_key(((hud_column(width, text.len()) + i) as u16, 0))
        }),
    ensures
        ({
            let text = overlay::hud_chars(ram_pct, cpu_pct);
            let p = ((hud_column(width, text.len()) + i) as u16, 0u16);
            rendered(grid, edge, width, height, cells, ram_pct, cpu_pct)[p] == (
                seq![text[i]],
                Ink::Cyan,
                Ink::Black,
            )
        }),
{
    lemma_cells_keep_positions(grid, width, height, cells, ram_pct);
    let text = overlay::hud_chars(ram_pct, cpu_pct);
    let p = ((hud_column(width, text.len()) + i) as u16, 0u16);
    assert(with_cells(grid, width, height, cells, ram_pct).dom().contains(p));
}

/// Painting changes no position: what had a cell still has one, and nothing else.
pub proof fn law_rendering_keeps_positions(
    grid: Map<(u16, u16), (Seq<char>, Ink, Ink)>,
    edge: u16,
    width: u16,
    height: u16,
    cells: Seq<RenderCell>,
    ram_pct: Single,
    cpu_pct: Single,
)
    ensures
        rendered(grid, edge, width, height, cells, ram_pct, cpu_pct).dom() == grid.dom(),
{
    lemma_cells_keep_positions(grid, width, height, cells, ram_pct);
    let painted = with_cells(grid, width, height, cells, ram_pct);
    assert(rendered(grid, edge, width, height, cells, ram_pct, cpu_pct).dom() =~= painted.dom());
}

/// A cell that is painted last at its position, clear of the overlay, shows its
/// character in its colour.
pub proof fn law_last_cell_is_shown(
    grid: Map<(u16, u16), (Seq<char>, Ink, Ink)>,
    width: u16,
    height: u16,
    cells: Seq<RenderCell>,
    ram_pct: Single,
    i: int,
)
    requires
        0 <= i < cells.len(),
        cells[i].x < width,
        cells[i].y < height,
        grid.contains_key((cells[i].x, cells[i].y)),
        forall|j: int|
            i < j < cells.len() ==> (#[trigger] cells[j].x, cells[j].y) != (cells[i].x, cells[i].y),
    ensures
        ({
            let at = with_cells(grid, width, height, cells, ram_pct)[(cells[i].x, cells[i].y)];
            &&& at.0 == seq![cells[i].ch]
            &&& at.1 == colour::colour_of(cells[i].brightness, ram_pct, cells[i].is_head)
        }),
    decreases cells.len(),
{
    let rest = cells.drop_last();
    lemma_cells_keep_positions(grid, width, height, rest, ram_pct);
    let before = with_cells(grid, width, height, rest, ram_pct);
    let p = (cells[i].x, cells[i].y);
    assert(before.dom().contains(p));
    if i < rest.len() {
        assert(rest[i] == cells[i]);
        assert forall|j: int| i < j < rest.len() implies (#[trigger] rest[j].x, rest[j].y) != (
            rest[i].x,
            rest[i].y,
        ) by {
            assert(rest[j] == cells[j]);
        }
        law_last_cell_is_shown(grid, width, height, rest, ram_pct, i);
        assert(cells.last() == cells[cells.len() - 1]);
        assert((cells[cells.len() - 1].x, cells[cells.len() - 1].y) != p);
    }
}

/// Where no cell of rain is painted, a grid stays as it is.
proof fn lemma_untouched(
    grid: Map<(u16, u16), (Seq<char>, Ink, Ink)>,
    width: u16,
    height: u16,
    cells: Seq<RenderCell>,
    ram_pct: Single,
    p: (u16, u16),
)
    requires
        forall|j: int|
            0 <= j < cells.len() ==> (#[trigger] cells[j].x, cells[j].y) != p || p.0 >= width || p.1
                >= height,
    ensures
        grid.contains_key(p) ==> with_cells(grid, width, height, cells, ram_pct)[p] == grid[p],
    decreases cells.len(),
{
    if cells.len() > 0 {
        let rest = cells.drop_last();
        assert forall|j: int| 0 <= j < rest.len() implies (#[trigger] rest[j].x, rest[j].y) != p
            || p.0 >= width || p.1 >= height by {
            assert(rest[j] == cells[j]);
        }
        lemma_untouched(grid, width, height, rest, ram_pct, p);
        let last = cells[cells.len() - 1];
        assert((last.x, last.y) != p || p.0 >= width || p.1 >= height);
    }
}

/// Cells keep what is behind them.
proof fn lemma_cells_keep_paper(
    grid: Map<(u16, u16), (Seq<char>, Ink, Ink)>,
    width: u16,
    height: u16,
    cells: Seq<RenderCell>,
    ram_pct: Single,
    p: (u16, u16),
)
    ensures
        grid.contains_key(p) ==> with_cells(grid, width, height, cells, ram_pct)[p].2 == grid[p].2,
    decreases cells.len(),
{
    if cells.len() > 0 {
        lemma_cells_keep_paper(grid, width, height, cells.drop_last(), ram_pct, p);
        lemma_cells_keep_positions(grid, width, height, cells.drop_last(), ram_pct);
        let before = with_cells(grid, width, height, cells.drop_last(), ram_pct);
        if grid.contains_key(p) {
            assert(before.dom().contains(p));
        }
    }
}

/// The position is one that the overlay covers: in the first row, in one of the last
/// `len` columns of a screen of that width, or from the first column on if it is
/// narrower, and before the right edge.
pub open spec fn is_covered(p: (u16, u16), width: u16, edge: u16, len: nat) -> bool {
    &&& p.1 == 0
    &&& width - len <= p.0
    &&& p.0 < edge
    &&& p.0 < width || p.0 < len
}

proof fn lemma_covered(
    p: (u16, u16),
    width: u16,
    edge: u16,
    ram_pct: Single,
    cpu_pct: Single,
)
    ensures
        ({
            let text = overlay::hud_chars(ram_pct, cpu_pct);
            let x = hud_column(width, text.len());
            &&& is_covered(p, width, edge, text.len()) <==> p.1 == 0 && x <= p.0 < x + hud_part(
                width,
                edge,
                text,
            ).len()
            &&& x == if width >= text.len() { width - text.len() } else { 0 }
            &&& hud_part(width, edge, text).len() <= text.len()
            &&& forall|i: int|
                0 <= i < hud_part(width, edge, text).len() ==> #[trigger] hud_part(
                    width,
                    edge,
                    text,
                )[i] == text[i]
        }),
{
    overlay::law_hud_is_short(ram_pct, cpu_pct);
}

/// What a position shows after a frame, of all the cells: under the overlay the
/// overlay's character, in cyan on black; elsewhere the character of the last cell
/// there, in its colour, on what was behind; and where no cell is, what it showed
/// before. Cells beyond the screen are not shown.
#[verifier::spinoff_prover]
pub proof fn law_positions_after_a_frame(
    grid: Map<(u16, u16), (Seq<char>, Ink, Ink)>,
    edge: u16,
    width: u16,
    height: u16,
    cells: Seq<RenderCell>,
    ram_pct: Single,
    cpu_pct: Single,
    p: (u16, u16),
)
    requires
        grid.contains_key(p),
    ensures
        ({
            let text = overlay::hud_chars(ram_pct, cpu_pct);
            let left: int = if width >= text.len() { width - text.len() } else { 0 };
            let after = rendered(grid, edge, width, height, cells, ram_pct, cpu_pct);
            &&& after.contains_key(p)
            &&& is_covered(p, width, edge, text.len()) ==> after[p] == (
                seq![text[p.0 - left]],
                Ink::Cyan,
                Ink::Black,
            )
            &&& !is_covered(p, width, edge, text.len()) ==> {
                &&& after[p].2 == grid[p].2
                &&& forall|i: int|
                    0 <= i < cells.len() && (#[trigger] cells[i].x, cells[i].y) == p && p.0 < width
                        && p.1 < height && (forall|j: int|
                        i < j < cells.len() ==> (#[trigger] cells[j].x, cells[j].y) != p)
                        ==> after[p].0 == seq![cells[i].ch] && after[p].1 == colour::colour_of(
                        cells[i].brightness,
                        ram_pct,
                        cells[i].is_head,
                    )
                &&& (forall|i: int|
                    0 <= i < cells.len() ==> (#[trigger] cells[i].x, cells[i].y) != p) || p.0
                    >= width || p.1 >= height ==> after[p] == grid[p]
            }
        }),
{
    let text = overlay::hud_chars(ram_pct, cpu_pct);
    let painted = with_cells(grid, width, height, cells, ram_pct);
    let after = rendered(grid, edge, width, height, cells, ram_pct, cpu_pct);
    lemma_cells_keep_positions(grid, width, height, cells, ram_pct);
    assert(painted.dom().contains(p));
    lemma_covered(p, width, edge, ram_pct, cpu_pct);
    lemma_cells_keep_paper(grid, width, height, cells, ram_pct, p);
    if !is_covered(p, width, edge, text.len()) {
        assert(after[p] == painted[p]);
        assert forall|i: int|
            0 <= i < cells.len() && (#[trigger] cells[i].x, cells[i].y) == p && p.0 < width && p.1
                < height && (forall|j: int|
                i < j < cells.len() ==> (#[trigger] cells[j].x, cells[j].y) != p) implies after[p].0
            == seq![cells[i].ch] && after[p].1 == colour::colour_of(
            cells[i].brightness,
            ram_pct,
            cells[i].is_head,
        ) by {
            law_last_cell_is_shown(grid, width, height, cells, ram_pct, i);
        }
        if (forall|i: int| 0 <= i < cells.len() ==> (#[trigger] cells[i].x, cells[i].y) != p) || p.0
            >= width || p.1 >= height {
            lemma_untouched(grid, width, height, cells, ram_pct, p);
        }
    }
}

/// There is room for the overlay if and only if there is a cell at each position that
/// it covers.
pub proof fn law_room_for_the_overlay(buf: Buffer, width: u16, ram_pct: Single, cpu_pct: Single)
    ensures
        hud_has_room(buf, width, overlay::hud_chars(ram_pct, cpu_pct)) <==> forall|p: (u16, u16)|
            is_covered(p, width, right_edge(buf), overlay::hud_chars(ram_pct, cpu_pct).len())
                ==> #[trigger] shown(buf).contains_key(p),
{
    let text = overlay::hud_chars(ram_pct, cpu_pct);
    let edge = right_edge(buf);
    let x = hud_column(width, text.len());
    let part = hud_part(width, edge, text);
    if hud_has_room(buf, width, text) {
        assert forall|p: (u16, u16)| is_covered(p, width, edge, text.len()) implies
            #[trigger] shown(buf).contains_key(p) by {
            lemma_covered(p, width, edge, ram_pct, cpu_pct);
            let i = p.0 - x;
            assert(shown(buf).contains_key(((x + i) as u16, 0)));
            assert(p == ((x + i) as u16, 0u16));
        }
    }
    if forall|p: (u16, u16)|
        is_covered(p, width, edge, text.len()) ==> #[trigger] shown(buf).contains_key(p) {
        assert forall|i: int| 0 <= i < part.len() implies #[trigger] shown(buf).contains_key(
            ((x + i) as u16, 0),
        ) by {
            let p = ((x + i) as u16, 0u16);
            lemma_covered(p, width, edge, ram_pct, cpu_pct);
            assert(x + i < edge);
        }
    }
}

} // verus!
