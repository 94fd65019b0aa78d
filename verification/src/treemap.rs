//! The `treemap` command's drawing: a grid of colored character cells on
//! which each expense's tile is boxed and labeled. The layout of the tiles
//! (floating point) is computed by the caller and handed in as whole cells.
use vstd::prelude::*;

use crate::ui::{truncate, truncate_spec};

verus! {

/// A color as red, green and blue.
pub type Color = (u8, u8, u8);

/// The tile colors, used in turn.
pub const PALETTE: [Color; 10] = [
    (52, 100, 150),
    (45, 130, 90),
    (160, 80, 50),
    (110, 70, 160),
    (150, 60, 90),
    (40, 120, 140),
    (140, 110, 40),
    (80, 130, 90),
    (120, 80, 130),
    (90, 120, 160),
];

/// One cell of the drawing: a character, its background and foreground.
#[derive(Clone, Copy, Debug)]
pub struct Pixel {
    pub ch: char,
    pub bg: Color,
    pub fg: Color,
}

pub open spec fn blank_pixel() -> Pixel {
    Pixel { ch: ' ', bg: (15, 15, 15), fg: (200, 200, 200) }
}

impl Default for Pixel {
    /// A blank cell: a space, light gray on near-black.
    fn default() -> (r: Pixel)
        ensures
            r == blank_pixel(),
    {
        Pixel { ch: ' ', bg: (15, 15, 15), fg: (200, 200, 200) }
    }
}

pub open spec fn white() -> Color {
    (255, 255, 255)
}

/// Halfway from `c` to 255, rounded down.
pub open spec fn blend(c: u8) -> u8 {
    ((c as int + 255) / 2) as u8
}

/// A color halfway to white, channel by channel.
pub fn lighten(color: Color) -> (r: Color)
    ensures
        r == (blend(color.0), blend(color.1), blend(color.2)),
{
    let a = ((color.0 as u16 + 255) / 2) as u8;
    let b = ((color.1 as u16 + 255) / 2) as u8;
    let c = ((color.2 as u16 + 255) / 2) as u8;
    (a, b, c)
}

/// The color of tile number `i`: the palette taken in turn.
pub fn tile_color(i: usize) -> (r: Color)
    ensures
        r == PALETTE[(i % 10) as int],
{
    PALETTE[i % 10]
}

pub open spec fn grid_view(g: Seq<Vec<Pixel>>) -> Seq<Seq<Pixel>> {
    g.map_values(|r: Vec<Pixel>| r@)
}

/// `rows` rows of `cols` blank cells.
pub open spec fn blank_grid_spec(cols: int, rows: int) -> Seq<Seq<Pixel>> {
    Seq::new(rows as nat, |_r: int| Seq::new(cols as nat, |_c: int| blank_pixel()))
}

pub fn blank_grid(cols: usize, rows: usize) -> (r: Vec<Vec<Pixel>>)
    ensures
        grid_view(r@) == blank_grid_spec(cols as int, rows as int),
{
    let mut g: Vec<Vec<Pixel>> = Vec::new();
    let mut i: usize = 0;
    while i < rows
        invariant
            i <= rows,
            grid_view(g@) == Seq::new(i as nat, |_r: int| Seq::new(cols as nat, |_c: int| blank_pixel())),
        decreases rows - i,
    {
        let mut row: Vec<Pixel> = Vec::new();
        let mut j: usize = 0;
        while j < cols
            invariant
                j <= cols,
                row@ == Seq::new(j as nat, |_c: int| blank_pixel()),
            decreases cols - j,
        {
            row.push(Pixel::default());
            j = j + 1;
            assert(row@ =~= Seq::new(j as nat, |_c: int| blank_pixel()));
        }
        let ghost g0 = g@;
        g.push(row);
        assert(grid_view(g@) =~= grid_view(g0).push(row@));
        i = i + 1;
        assert(grid_view(g@) =~= Seq::new(i as nat, |_r: int| Seq::new(cols as nat, |_c: int| blank_pixel())));
    }
    g
}

/// Every row as long as the first.
pub open spec fn rectangular(g: Seq<Seq<Pixel>>) -> bool {
    forall|r: int| 0 <= r < g.len() ==> (#[trigger] g[r]).len() == g[0].len()
}

pub open spec fn min(a: int, b: int) -> int {
    if a <= b {
        a
    } else {
        b
    }
}

pub open spec fn sat1(n: int) -> int {
    if n >= 1 {
        n - 1
    } else {
        0
    }
}

/// The box-drawing character at row `ri`, column `ci` of an `nr` by `nc` box.
pub open spec fn border_char(ri: int, ci: int, nr: int, nc: int) -> char {
    let top = ri == 0;
    let bot = ri == sat1(nr);
    let left = ci == 0;
    let right = ci == sat1(nc);
    if top && left {
        '┌'
    } else if top && right {
        '┐'
    } else if bot && left {
        '└'
    } else if bot && right {
        '┘'
    } else if top || bot {
        '─'
    } else if left || right {
        '│'
    } else {
        ' '
    }
}

/// The grid with the box of `rw` by `rh` cells at (`col0`, `row0`), clipped
/// to the grid, drawn white on `color`.
pub open spec fn filled_spec(g: Seq<Seq<Pixel>>, col0: int, row0: int, rw: int, rh: int, color: Color) -> Seq<Seq<Pixel>> {
    let cols = if g.len() > 0 { g[0].len() as int } else { 0 };
    let col1 = min(col0 + rw, cols);
    let row1 = min(row0 + rh, g.len() as int);
    Seq::new(
        g.len(),
        |r: int|
            Seq::new(
                g[r].len(),
                |c: int|
                    if row0 <= r < row1 && col0 <= c < col1 {
                        Pixel {
                            ch: border_char(r - row0, c - col0, row1 - row0, col1 - col0),
                            bg: color,
                            fg: white(),
                        }
                    } else {
                        g[r][c]
                    },
            ),
    )
}

fn border_char_exec(ri: usize, ci: usize, nr: usize, nc: usize) -> (r: char)
    ensures
        r == border_char(ri as int, ci as int, nr as int, nc as int),
{
    let top = ri == 0;
    let bot = ri == (if nr >= 1 { nr - 1 } else { 0 });
    let left = ci == 0;
    let right = ci == (if nc >= 1 { nc - 1 } else { 0 });
    if top && left {
        '┌'
    } else if top && right {
        '┐'
    } else if bot && left {
        '└'
    } else if bot && right {
        '┘'
    } else if top || bot {
        '─'
    } else if left || right {
        '│'
    } else {
        ' '
    }
}

/// Draws a tile's box: corners, edges, and a blank inside, white on `color`.
pub fn fill_rect(grid: &mut Vec<Vec<Pixel>>, col0: usize, row0: usize, rw: usize, rh: usize, color: Color)
    requires
        rectangular(grid_view(old(grid)@)),
        row0 <= old(grid)@.len(),
        old(grid)@.len() > 0 ==> col0 <= old(grid)@[0]@.len(),
        col0 + rw <= usize::MAX,
        row0 + rh <= usize::MAX,
    ensures
        grid_view(final(grid)@) == filled_spec(grid_view(old(grid)@), col0 as int, row0 as int, rw as int, rh as int, color),
{
    let ghost g = grid_view(grid@);
    let rows = grid.len();
    let cols = if rows > 0 {
        grid[0].len()
    } else {
        0
    };
    let col1 = if col0 + rw <= cols {
        col0 + rw
    } else {
        cols
    };
    let row1 = if row0 + rh <= rows {
        row0 + rh
    } else {
        rows
    };
    let nr = row1 - row0;
    let nc = if col1 >= col0 {
        col1 - col0
    } else {
        0
    };
    let ghost target = filled_spec(g, col0 as int, row0 as int, rw as int, rh as int, color);
    let mut out: Vec<Vec<Pixel>> = Vec::new();
    let mut r: usize = 0;
    while r < rows
        invariant
            g == grid_view(grid@),
            rectangular(g),
            rows == g.len(),
            rows > 0 ==> cols == g[0].len(),
            col1 == min(col0 + rw, cols as int),
            row1 == min(row0 + rh, rows as int),
            row0 <= row1,
            rows > 0 ==> col0 <= col1,
            nr == row1 - row0,
            rows > 0 ==> nc == col1 - col0,
            target == filled_spec(g, col0 as int, row0 as int, rw as int, rh as int, color),
            r <= rows,
            grid_view(out@) == target.take(r as int),
        decreases rows - r,
    {
        let mut row: Vec<Pixel> = Vec::new();
        let n = grid[r].len();
        let mut c: usize = 0;
        while c < n
            invariant
                g == grid_view(grid@),
                r < rows,
                rows == g.len(),
                n == g[r as int].len(),
                target == filled_spec(g, col0 as int, row0 as int, rw as int, rh as int, color),
                rows > 0 ==> cols == g[0].len(),
                rectangular(g),
                col1 == min(col0 + rw, cols as int),
                row1 == min(row0 + rh, rows as int),
                nr == row1 - row0,
                rows > 0 ==> nc == col1 - col0,
                rows > 0 ==> col0 <= col1,
                c <= n,
                row@ == target[r as int].take(c as int),
            decreases n - c,
        {
            let px = if row0 <= r && r < row1 && col0 <= c && c < col1 {
                let ch = border_char_exec(r - row0, c - col0, nr, nc);
                Pixel { ch, bg: color, fg: (255, 255, 255) }
            } else {
                grid[r][c]
            };
            row.push(px);
            assert(row@ =~= target[r as int].take(c + 1));
            c = c + 1;
        }
        assert(target[r as int].take(n as int) =~= target[r as int]);
        let ghost o0 = out@;
        out.push(row);
        assert(grid_view(out@) =~= grid_view(o0).push(row@));
        assert(grid_view(out@) =~= target.take(r + 1));
        r = r + 1;
    }
    assert(target.take(rows as int) =~= target);
    *grid = out;
}

/// The grid with the characters of `s` written from (`col`, `row`) on,
/// those past the row's end left out.
pub open spec fn written_spec(g: Seq<Seq<Pixel>>, row: int, col: int, s: Seq<char>, bg: Color, fg: Color) -> Seq<Seq<Pixel>> {
    if row >= g.len() {
        g
    } else {
        g.update(row, written_row(g[row], col, s, bg, fg))
    }
}

/// A copy of a row of cells.
fn copy_row(row: &Vec<Pixel>) -> (r: Vec<Pixel>)
    ensures
        r@ == row@,
{
    let mut out: Vec<Pixel> = Vec::new();
    let mut c: usize = 0;
    while c < row.len()
        invariant
            c <= row@.len(),
            out@ == row@.take(c as int),
        decreases row@.len() - c,
    {
        out.push(row[c]);
        c = c + 1;
        assert(out@ =~= row@.take(c as int));
    }
    assert(row@.take(c as int) =~= row@);
    out
}

/// The row `r` with the characters of `s` from column `col` on.
pub open spec fn written_row(line: Seq<Pixel>, col: int, s: Seq<char>, bg: Color, fg: Color) -> Seq<Pixel> {
    Seq::new(line.len(), |c: int| written_cell(line, col, s, bg, fg, c))
}

/// Cell `c` of `line` after writing `s` from column `col`.
pub open spec fn written_cell(line: Seq<Pixel>, col: int, s: Seq<char>, bg: Color, fg: Color, c: int) -> Pixel {
    if col <= c < col + s.len() {
        Pixel { ch: s[c - col], bg, fg }
    } else {
        line[c]
    }
}

fn write_row(row: &Vec<Pixel>, col: usize, cs: &Vec<char>, bg: Color, fg: Color) -> (r: Vec<Pixel>)
    requires
        col + cs@.len() <= usize::MAX,
    ensures
        r@ == written_row(row@, col as int, cs@, bg, fg),
{
    let ghost target = written_row(row@, col as int, cs@, bg, fg);
    let mut line: Vec<Pixel> = Vec::new();
    let mut c: usize = 0;
    while c < row.len()
        invariant
            col + cs@.len() <= usize::MAX,
            target == written_row(row@, col as int, cs@, bg, fg),
            c <= row@.len(),
            line@ == target.take(c as int),
        decreases row@.len() - c,
    {
        let px = if col <= c && c < col + cs.len() {
            Pixel { ch: cs[c - col], bg, fg }
        } else {
            row[c]
        };
        assert(px == written_cell(row@, col as int, cs@, bg, fg, c as int));
        line.push(px);
        assert(line@ =~= target.take(c + 1));
        c = c + 1;
    }
    assert(target.take(c as int) =~= target);
    line
}

/// Writes `s` into row `row` from column `col`, clipped at the row's end.
pub fn write_str(grid: &mut Vec<Vec<Pixel>>, row: usize, col: usize, s: &str, bg: Color, fg: Color)
    requires
        col + s@.len() <= usize::MAX,
    ensures
        grid_view(final(grid)@) == written_spec(grid_view(old(grid)@), row as int, col as int, s@, bg, fg),
{
    let ghost g = grid_view(grid@);
    if row >= grid.len() {
        return;
    }
    let cs = crate::text::chars_of(s);
    let ghost want = written_spec(g, row as int, col as int, s@, bg, fg);
    assert(want =~= g.update(row as int, written_row(g[row as int], col as int, s@, bg, fg)));
    let mut out: Vec<Vec<Pixel>> = Vec::new();
    let mut r: usize = 0;
    while r < grid.len()
        invariant
            g == grid_view(grid@),
            row < g.len(),
            cs@ == s@,
            col + s@.len() <= usize::MAX,
            want == g.update(row as int, written_row(g[row as int], col as int, s@, bg, fg)),
            r <= g.len(),
            grid_view(out@) == want.take(r as int),
        decreases g.len() - r,
    {
        let line = if r == row {
            write_row(&grid[r], col, &cs, bg, fg)
        } else {
            copy_row(&grid[r])
        };
        assert(g[r as int] == grid@[r as int]@);
        let ghost o0 = out@;
        out.push(line);
        assert(grid_view(out@) =~= grid_view(o0).push(line@));
        assert(grid_view(out@) =~= want.take(r + 1));
        r = r + 1;
    }
    assert(want.take(g.len() as int) =~= want);
    *grid = out;
}

/// The grid after drawing one tile: its box when at least 3 by 2 cells, the
/// name on the first inner line when there is one, and the monthly and
/// yearly labels (lighter) on the next two when the box has room for them;
/// each text cut to the inner width.
pub open spec fn painted_spec(
    g: Seq<Seq<Pixel>>,
    col0: int,
    row0: int,
    rw: int,
    rh: int,
    color: Color,
    name: Seq<char>,
    monthly: Seq<char>,
    yearly: Seq<char>,
) -> Seq<Seq<Pixel>> {
    if rw < 3 || rh < 2 {
        g
    } else {
        let inner = rw - 2;
        let light = (blend(color.0), blend(color.1), blend(color.2));
        let g1 = filled_spec(g, col0, row0, rw, rh, color);
        let g2 = if rh >= 3 && inner > 0 {
            written_spec(g1, row0 + 1, col0 + 1, truncate_spec(name, inner), color, white())
        } else {
            g1
        };
        let g3 = if rh >= 4 && inner >= 5 {
            written_spec(g2, row0 + 2, col0 + 1, truncate_spec(monthly, inner), color, light)
        } else {
            g2
        };
        if rh >= 5 && inner >= 5 {
            written_spec(g3, row0 + 3, col0 + 1, truncate_spec(yearly, inner), color, light)
        } else {
            g3
        }
    }
}

/// Draws one expense's tile at whole-cell position and size, with its name
/// and its formatted monthly and yearly amounts.
pub fn paint_tile(
    grid: &mut Vec<Vec<Pixel>>,
    col0: usize,
    row0: usize,
    rw: usize,
    rh: usize,
    color: Color,
    name: &str,
    monthly: &str,
    yearly: &str,
)
    requires
        rectangular(grid_view(old(grid)@)),
        row0 <= old(grid)@.len(),
        old(grid)@.len() > 0 ==> col0 <= old(grid)@[0]@.len(),
        col0 + rw <= usize::MAX,
        row0 + rh <= usize::MAX,
    ensures
        grid_view(final(grid)@) == painted_spec(
            grid_view(old(grid)@),
            col0 as int,
            row0 as int,
            rw as int,
            rh as int,
            color,
            name@,
            monthly@,
            yearly@,
        ),
{
    if rw < 3 || rh < 2 {
        return;
    }
    fill_rect(grid, col0, row0, rw, rh, color);
    let inner = rw - 2;
    if rh >= 3 && inner > 0 {
        let t = truncate(name, inner);
        write_str(grid, row0 + 1, col0 + 1, t.as_str(), color, (255, 255, 255));
    }
    let light = lighten(color);
    if rh >= 4 && inner >= 5 {
        let t = truncate(monthly, inner);
        write_str(grid, row0 + 2, col0 + 1, t.as_str(), color, light);
    }
    if rh >= 5 && inner >= 5 {
        let t = truncate(yearly, inner);
        write_str(grid, row0 + 3, col0 + 1, t.as_str(), color, light);
    }
}

/// The distinct keys of the first `n` items, in order of first appearance.
pub open spec fn key_order(keys: Seq<Seq<char>>, n: int) -> Seq<Seq<char>>
    decreases n,
{
    if n <= 0 {
        Seq::empty()
    } else {
        let prev = key_order(keys, n - 1);
        if prev.contains(keys[n - 1]) {
            prev
        } else {
            prev.push(keys[n - 1])
        }
    }
}

/// The category of a tile as a key: none counts as the empty category.
pub open spec fn category_key(c: Option<Seq<char>>) -> Seq<char> {
    match c {
        Some(k) => k,
        None => Seq::empty(),
    }
}

/// Where `k` stands in `order`, or `order.len()`.
pub open spec fn position_of(order: Seq<Seq<char>>, k: Seq<char>) -> int {
    crate::store::first_where(order.len() as int, |j: int| order[j] == k)
}

proof fn lemma_key_order_prefix(keys: Seq<Seq<char>>, n: int, m: int)
    requires
        0 <= m <= n,
    ensures
        key_order(keys, m).len() <= key_order(keys, n).len(),
        forall|j: int| 0 <= j < key_order(keys, m).len() ==> #[trigger] key_order(keys, n)[j] == key_order(keys, m)[j],
    decreases n - m,
{
    if m < n {
        lemma_key_order_prefix(keys, n - 1, m);
    }
}

/// Colors for tiles by category: each category gets the next palette color
/// the first time it appears, and keeps it.
pub fn category_colors(categories: &Vec<Option<String>>) -> (r: Vec<Color>)
    ensures
        r@.len() == categories@.len(),
        forall|i: int| 0 <= i < r@.len() ==> {
            let keys = categories@.map_values(|c: Option<String>| category_key(crate::expense::opt_view(c)));
            let order = key_order(keys, keys.len() as int);
            #[trigger] r@[i] == PALETTE[position_of(order, keys[i]) % 10]
        },
{
    let ghost keys = categories@.map_values(|c: Option<String>| category_key(crate::expense::opt_view(c)));
    let mut seen: Vec<String> = Vec::new();
    let mut pos: Vec<usize> = Vec::new();
    let mut i: usize = 0;
    while i < categories.len()
        invariant
            keys == categories@.map_values(|c: Option<String>| category_key(crate::expense::opt_view(c))),
            i <= categories@.len(),
            crate::csv_format::strings_view(seen@) == key_order(keys, i as int),
            pos@.len() == i,
            forall|t: int| 0 <= t < i ==> (#[trigger] pos@[t]) as int == position_of(key_order(keys, i as int), keys[t]),
            forall|t: int| 0 <= t < i ==> position_of(key_order(keys, i as int), keys[t]) < key_order(keys, i as int).len(),
        decreases categories@.len() - i,
    {
        let key = match &categories[i] {
            Some(c) => crate::expense::clone_string(c),
            None => String::new(),
        };
        assert(key@ == keys[i as int]);
        let ghost order0 = key_order(keys, i as int);
        let mut j: usize = 0;
        while j < seen.len() && !crate::text::str_eq(seen[j].as_str(), key.as_str())
            invariant
                crate::csv_format::strings_view(seen@) == order0,
                j <= seen@.len(),
                forall|t: int| 0 <= t < j ==> order0[t] != key@,
            decreases seen@.len() - j,
        {
            j = j + 1;
        }
        let ghost p = |t: int| order0[t] == key@;
        proof {
            if j < seen.len() {
                assert(order0[j as int] == seen@[j as int]@);
            }
            crate::store::lemma_first_where(order0.len() as int, p, j as int);
            assert(keys.take(i + 1).len() == i + 1);
        }
        if j == seen.len() {
            let ghost s0 = seen@;
            seen.push(key);
            proof {
                assert(!order0.contains(keys[i as int]));
                assert(crate::csv_format::strings_view(seen@) =~= crate::csv_format::strings_view(s0).push(keys[i as int]));
            }
        } else {
            proof {
                assert(order0.contains(keys[i as int]));
            }
        }
        let ghost order1 = key_order(keys, i + 1);
        proof {
            assert forall|t: int| 0 <= t < i + 1 implies position_of(order1, keys[t]) == (if t == i { j as int } else { pos@[t] as int })
                && position_of(order1, keys[t]) < order1.len() by {
                let q = position_of(order0, keys[t]);
                let pt = |x: int| order1[x] == keys[t];
                if t < i {
                    let p0 = |x: int| order0[x] == keys[t];
                    crate::store::lemma_first_where_hit(order0.len() as int, p0);
                    assert forall|x: int| 0 <= x < q implies !#[trigger] pt(x) by {
                        assert(!p0(x));
                        assert(order1[x] == order0[x]);
                    }
                    assert(order1[q] == order0[q]);
                    crate::store::lemma_first_where(order1.len() as int, pt, q);
                } else {
                    assert forall|x: int| 0 <= x < j implies !#[trigger] pt(x) by {
                        assert(order1[x] == order0[x]);
                    }
                    crate::store::lemma_first_where(order1.len() as int, pt, j as int);
                }
            }
        }
        pos.push(j);
        i = i + 1;
    }
    let mut out: Vec<Color> = Vec::new();
    let mut k: usize = 0;
    while k < pos.len()
        invariant
            keys == categories@.map_values(|c: Option<String>| category_key(crate::expense::opt_view(c))),
            pos@.len() == categories@.len(),
            forall|t: int| 0 <= t < pos@.len() ==> (#[trigger] pos@[t]) as int == position_of(key_order(keys, keys.len() as int), keys[t]),
            k <= pos@.len(),
            out@.len() == k,
            forall|t: int| 0 <= t < k ==> #[trigger] out@[t] == PALETTE[position_of(key_order(keys, keys.len() as int), keys[t]) % 10],
        decreases pos@.len() - k,
    {
        out.push(PALETTE[pos[k] % 10]);
        k = k + 1;
    }
    out
}

} // verus!
