//! The cave decoder: header parsing, the legacy 8-bit pseudo-random fill,
//! and the tagged drawing-command stream.

use vstd::prelude::*;

use crate::screen::{flat_idx, col_hit, hline_seq, vline_seq, lemma_flat_index, Screen};

verus! {

// Tile symbols, as printable ASCII bytes.
pub const DIRT: u8 = 46; // '.'
pub const BORDER: u8 = 64; // '@'
pub const BOULDER: u8 = 79; // 'O'
pub const DIAMOND: u8 = 36; // '$'
pub const WALL: u8 = 87; // 'W'
pub const EMPTY: u8 = 32; // ' '
pub const SPAWN: u8 = 83; // 'S'
pub const PLAYER: u8 = 82; // 'R'
pub const BUTTERFLY: u8 = 69; // 'E'
pub const EXIT: u8 = 95; // '_'
/// Placeholder for legacy object codes this decoder has no symbol of its own for.
pub const UNKNOWN: u8 = 63; // '?'

// Object codes of the legacy cave format.
pub const BD_SPACE: u8 = 0x00;
pub const BD_DIRT: u8 = 0x01;
pub const BD_BRICK: u8 = 0x02;
pub const BD_MAGIC: u8 = 0x03;
pub const BD_EXIT: u8 = 0x04;
pub const BD_STEEL: u8 = 0x07;
pub const BD_FIREFLY: u8 = 0x08;
pub const BD_BOULDER: u8 = 0x10;
pub const BD_DIAMOND: u8 = 0x14;
pub const BD_PREROCKFORD: u8 = 0x25;
pub const BD_BUTTERFLY: u8 = 0x30;
pub const BD_ROCKFORD: u8 = 0x38;
pub const BD_AMOEBA: u8 = 0x3A;

/// Decoding fails as a whole: a cave either decodes fully or is rejected.
#[derive(Clone, Copy, Debug, PartialEq, Eq, Structural)]
pub enum CaveError {
    MalformedCave,
}

/// The fixed mapping from a legacy object code to this decoder's tile symbol.
/// Codes without a symbol of their own fall back to the exit placeholder.
pub open spec fn conv_spec(o: int) -> u8 {
    if o == BD_SPACE {
        EMPTY
    } else if o == BD_DIRT {
        DIRT
    } else if o == BD_BRICK {
        WALL
    } else if o == BD_MAGIC {
        UNKNOWN
    } else if o == BD_STEEL {
        BORDER
    } else if o == BD_FIREFLY {
        UNKNOWN
    } else if o == BD_BOULDER {
        BOULDER
    } else if o == BD_DIAMOND {
        DIAMOND
    } else if o == BD_BUTTERFLY {
        BUTTERFLY
    } else if o == BD_PREROCKFORD {
        SPAWN
    } else if o == BD_ROCKFORD {
        PLAYER
    } else if o == BD_EXIT {
        EXIT
    } else if o == BD_AMOEBA {
        UNKNOWN
    } else {
        EXIT
    }
}

pub fn conv(o: u8) -> (r: u8)
    ensures
        r == conv_spec(o as int),
{
    match o {
        BD_SPACE => EMPTY,
        BD_DIRT => DIRT,
        BD_BRICK => WALL,
        BD_MAGIC => UNKNOWN,
        BD_STEEL => BORDER,
        BD_FIREFLY => UNKNOWN,
        BD_BOULDER => BOULDER,
        BD_DIAMOND => DIAMOND,
        BD_BUTTERFLY => BUTTERFLY,
        BD_PREROCKFORD => SPAWN,
        BD_ROCKFORD => PLAYER,
        BD_EXIT => EXIT,
        BD_AMOEBA => UNKNOWN,
        _ => EXIT,
    }
}

/// Every converted object code lands in the closed tile alphabet.
pub open spec fn is_tile(t: u8) -> bool {
    t == EMPTY || t == DIRT || t == WALL || t == BORDER || t == BOULDER || t == DIAMOND
        || t == BUTTERFLY || t == SPAWN || t == PLAYER || t == EXIT || t == UNKNOWN
}

/// The legacy-code conversion never leaves the tile alphabet, whatever the
/// raw byte: malformed codes fall back to the exit placeholder.
pub proof fn lemma_conv_is_tile(o: int)
    ensures
        is_tile(conv_spec(o)),
{
}

/// One step of the legacy two-byte generator, as a pure state transition:
/// a rotate of the low bit into bit 7, a 9-bit sum folded back into 8 bits,
/// and the constant 0x13. Gameplay depends on this arithmetic bit for bit.
pub open spec fn rng_next(s0: u8, s1: u8) -> (u8, u8) {
    let tmp1 = (s0 as int % 2) * 128;
    let tmp2 = s1 as int / 2;
    let a = s1 as int + (s1 as int % 2) * 128;
    let b = a % 256 + a / 256 + 0x13;
    let ns1 = b % 256;
    let c = s0 as int + b / 256 + tmp1;
    let d = c % 256 + c / 256 + tmp2;
    let ns0 = d % 256;
    (ns0 as u8, ns1 as u8)
}

/// The generator state after `k` steps from `(s0, s1)`.
pub open spec fn rng_iter(s0: u8, s1: u8, k: nat) -> (u8, u8)
    decreases k,
{
    if k == 0 {
        (s0, s1)
    } else {
        let p = rng_iter(s0, s1, (k - 1) as nat);
        rng_next(p.0, p.1)
    }
}

/// The symbol the random fill picks once the first `n` of the four
/// `(object, threshold)` pairs have been consulted: dirt unless a threshold
/// admits the drawn byte, later entries overriding earlier ones.
pub open spec fn fill_choice(r: u8, objs: Seq<u8>, probs: Seq<u8>, n: int) -> u8
    decreases n,
{
    if n <= 0 {
        DIRT
    } else if r < probs[n - 1] {
        objs[n - 1]
    } else {
        fill_choice(r, objs, probs, n - 1)
    }
}

/// The symbol the random fill picks for a drawn byte `r`.
pub open spec fn fill_symbol_spec(r: u8, objs: Seq<u8>, probs: Seq<u8>) -> u8 {
    fill_choice(r, objs, probs, 4)
}

/// Picks the fill symbol for a drawn random byte: dirt by default, overridden
/// by the last object whose threshold lies strictly above the byte.
pub fn fill_symbol(r: u8, objects: &[u8; 4], probs: &[u8; 4]) -> (ch: u8)
    ensures
        ch == fill_symbol_spec(r, objects@, probs@),
{
    let mut ch = DIRT;
    let mut n: usize = 0;
    while n < 4
        invariant
            n <= 4,
            ch == fill_choice(r, objects@, probs@, n as int),
        decreases 4 - n,
    {
        if r < probs[n] {
            ch = objects[n];
        }
        n = n + 1;
    }
    ch
}

/// The override order of the random fill: the chosen symbol is the object of
/// the *last* index whose threshold lies strictly above the drawn byte, and
/// dirt when no threshold does.
pub proof fn lemma_fill_last_match(r: u8, objs: Seq<u8>, probs: Seq<u8>)
    requires
        objs.len() == 4,
        probs.len() == 4,
    ensures
        (forall|i: int| 0 <= i < 4 ==> r >= #[trigger] probs[i]) ==> fill_symbol_spec(
            r,
            objs,
            probs,
        ) == DIRT,
        forall|i: int|
            0 <= i < 4 && r < #[trigger] probs[i] && (forall|k: int|
                i < k < 4 ==> r >= #[trigger] probs[k]) ==> fill_symbol_spec(r, objs, probs)
                == objs[i],
{
    assert(fill_choice(r, objs, probs, 0) == DIRT);
    assert(fill_choice(r, objs, probs, 1) == (if r < probs[0] {
        objs[0]
    } else {
        DIRT
    }));
    assert(fill_choice(r, objs, probs, 2) == (if r < probs[1] {
        objs[1]
    } else {
        fill_choice(r, objs, probs, 1)
    }));
    assert(fill_choice(r, objs, probs, 3) == (if r < probs[2] {
        objs[2]
    } else {
        fill_choice(r, objs, probs, 2)
    }));
    assert(fill_choice(r, objs, probs, 4) == (if r < probs[3] {
        objs[3]
    } else {
        fill_choice(r, objs, probs, 3)
    }));
    assert forall|i: int|
        0 <= i < 4 && r < #[trigger] probs[i] && (forall|k: int|
            i < k < 4 ==> r >= #[trigger] probs[k]) implies fill_symbol_spec(r, objs, probs)
        == objs[i] by {
        if i == 0 {
            assert(r >= probs[1]);
            assert(r >= probs[2]);
            assert(r >= probs[3]);
        } else if i == 1 {
            assert(r >= probs[2]);
            assert(r >= probs[3]);
        } else if i == 2 {
            assert(r >= probs[3]);
        }
    }
}

/// The four fill objects of a cave header, already converted to tile symbols.
pub open spec fn header_objects(cave: Seq<u8>) -> Seq<u8> {
    seq![
        conv_spec(cave[0x18] as int),
        conv_spec(cave[0x19] as int),
        conv_spec(cave[0x1A] as int),
        conv_spec(cave[0x1B] as int),
    ]
}

/// The four fill probability thresholds of a cave header.
pub open spec fn header_probs(cave: Seq<u8>) -> Seq<u8> {
    seq![cave[0x1C], cave[0x1D], cave[0x1E], cave[0x1F]]
}

/// Horizontal unit step of the eight compass directions, clockwise from north.
pub open spec fn dir_dx(d: int) -> int {
    if d == 0 {
        0
    } else if d == 1 {
        1
    } else if d == 2 {
        1
    } else if d == 3 {
        1
    } else if d == 4 {
        0
    } else if d == 5 {
        -1
    } else if d == 6 {
        -1
    } else {
        -1
    }
}

/// Vertical unit step of the eight compass directions, clockwise from north.
pub open spec fn dir_dy(d: int) -> int {
    if d == 0 {
        -1
    } else if d == 1 {
        -1
    } else if d == 2 {
        0
    } else if d == 3 {
        1
    } else if d == 4 {
        1
    } else if d == 5 {
        1
    } else if d == 6 {
        0
    } else {
        -1
    }
}

/// Column of the `i`-th cell of a line starting at `x0` stepping by `dx`.
pub open spec fn ray_x(x0: int, dx: int, i: int) -> int {
    x0 + i * dx
}

/// Row of the `i`-th cell of a line starting at `y0` stepping by `dy`.
pub open spec fn ray_y(y0: int, dy: int, i: int) -> int {
    y0 + i * dy
}

/// The `i`-th cell of the line lies on a `w x h` grid.
pub open spec fn ray_cell_ok(w: int, h: int, x0: int, y0: int, dx: int, dy: int, i: int) -> bool {
    0 <= ray_x(x0, dx, i) < w && 0 <= ray_y(y0, dy, i) < h
}

/// Every one of the `len` cells of the line lies on a `w x h` grid.
pub open spec fn ray_in_bounds(w: int, h: int, x0: int, y0: int, dx: int, dy: int, len: int) -> bool {
    forall|i: int| 0 <= i < len ==> #[trigger] ray_cell_ok(w, h, x0, y0, dx, dy, i)
}

/// `j` is the flat index of one of the `len` cells of the line.
pub open spec fn ray_hit(j: int, w: int, x0: int, y0: int, dx: int, dy: int, len: int) -> bool {
    exists|i: int|
        0 <= i < len && j == flat_idx(w, #[trigger] ray_x(x0, dx, i), #[trigger] ray_y(y0, dy, i))
}

/// The buffer after drawing a `len`-cell line of `ch`.
pub open spec fn line_seq(
    g: Seq<u8>,
    w: int,
    x0: int,
    y0: int,
    dx: int,
    dy: int,
    len: int,
    ch: u8,
) -> Seq<u8> {
    Seq::new(g.len(), |j: int| if ray_hit(j, w, x0, y0, dx, dy, len) { ch } else { g[j] })
}

/// `j` is the flat index of a cell inside the `rw x rh` rectangle at `(rx, ry)`.
pub open spec fn rect_hit(j: int, w: int, rx: int, ry: int, rw: int, rh: int) -> bool {
    exists|xx: int, yy: int|
        rx <= xx < rx + rw && ry <= yy < ry + rh && j == #[trigger] flat_idx(w, xx, yy)
}

/// The buffer after filling the whole rectangle with `ch`.
pub open spec fn rect_fill_seq(g: Seq<u8>, w: int, rx: int, ry: int, rw: int, rh: int, ch: u8) -> Seq<u8> {
    Seq::new(g.len(), |j: int| if rect_hit(j, w, rx, ry, rw, rh) { ch } else { g[j] })
}

/// `(xx, yy)` lies on the one-cell-thick border ring of the rectangle.
pub open spec fn rect_edge(xx: int, yy: int, rx: int, ry: int, rw: int, rh: int) -> bool {
    rx <= xx < rx + rw && ry <= yy < ry + rh && (xx == rx || xx == rx + rw - 1 || yy == ry || yy
        == ry + rh - 1)
}

/// `j` is the flat index of a cell on the border ring of the rectangle.
pub open spec fn rect_edge_hit(j: int, w: int, rx: int, ry: int, rw: int, rh: int) -> bool {
    exists|xx: int, yy: int| rect_edge(xx, yy, rx, ry, rw, rh) && j == #[trigger] flat_idx(w, xx, yy)
}

/// The buffer after drawing the border ring of the rectangle with `ch`.
pub open spec fn rect_border_seq(g: Seq<u8>, w: int, rx: int, ry: int, rw: int, rh: int, ch: u8) -> Seq<u8> {
    Seq::new(g.len(), |j: int| if rect_edge_hit(j, w, rx, ry, rw, rh) { ch } else { g[j] })
}

/// The buffer after a bordered rectangle: the ring drawn with `ch`, the
/// interior, inset by one cell on every side, filled with `ch2`.
pub open spec fn filled_rect_seq(
    g: Seq<u8>,
    w: int,
    rx: int,
    ry: int,
    rw: int,
    rh: int,
    ch: u8,
    ch2: u8,
) -> Seq<u8> {
    rect_fill_seq(rect_border_seq(g, w, rx, ry, rw, rh, ch), w, rx + 1, ry + 1, rw - 2, rh - 2, ch2)
}

/// A step of a line stretches by exactly one direction unit.
pub proof fn lemma_ray_step(p0: int, d: int, i: int)
    ensures
        ray_x(p0, d, i + 1) == ray_x(p0, d, i) + d,
        -1 <= d <= 1 && 0 <= i ==> p0 - i - 1 <= ray_x(p0, d, i + 1) <= p0 + i + 1,
{
    assert((i + 1) * d == i * d + d) by (nonlinear_arith);
    if -1 <= d <= 1 && 0 <= i {
        assert(-i - 1 <= (i + 1) * d <= i + 1) by (nonlinear_arith)
            requires
                -1 <= d <= 1,
                0 <= i,
        ;
    }
}

/// The cave parameters read from the fixed header offsets.
#[derive(Debug)]
pub struct CaveBuilder {
    pub random_seed: u8,
    pub random_objects: [u8; 4],
    pub random_object_prob: [u8; 4],
    pub width: usize,
    pub height: usize,
}

impl CaveBuilder {
    pub fn new(cave: &Vec<u8>) -> (r: Result<Self, CaveError>)
        ensures
            r is Ok <==> cave@.len() >= 32,
            r matches Ok(cb) ==> cb.width == 40 && cb.height == 22 && cb.random_seed == cave@[4]
                && cb.random_objects@ == header_objects(cave@)
                && cb.random_object_prob@ == header_probs(cave@),
            r matches Err(e) ==> e == CaveError::MalformedCave,
    {
        if cave.len() < 32 {
            return Err(CaveError::MalformedCave);
        }
        let ro: [u8; 4] = [conv(cave[0x18]), conv(cave[0x19]), conv(cave[0x1A]), conv(cave[0x1B])];
        let rp: [u8; 4] = [cave[0x1C], cave[0x1D], cave[0x1E], cave[0x1F]];
        proof {
            assert(ro@ =~= header_objects(cave@));
            assert(rp@ =~= header_probs(cave@));
        }
        Ok(CaveBuilder {
            width: 40,
            height: 22,
            random_seed: cave[0x04],
            random_objects: ro,
            random_object_prob: rp,
        })
    }
}

/// A flat index on the 40-wide grid decomposes uniquely into coordinates.
pub proof fn lemma_flat_40(x: int, y: int)
    requires
        0 <= x < 40,
        0 <= y,
    ensures
        (y * 40 + x) % 40 == x,
        (y * 40 + x) / 40 == y,
{
    assert((y * 40 + x) % 40 == x && (y * 40 + x) / 40 == y) by (nonlinear_arith)
        requires
            0 <= x < 40,
            0 <= y,
    ;
}

/// The symbol the random fill gives the interior cell `(x, y)`: the fill
/// walks rows `1 .. 21` left to right, drawing one random byte per cell.
pub open spec fn fill_cell(seed: u8, objs: Seq<u8>, probs: Seq<u8>, x: int, y: int) -> u8 {
    fill_symbol_spec(rng_iter(0, seed, ((y - 1) * 40 + x + 1) as nat).0, objs, probs)
}

/// The 40 x 22 grid after the seeded random fill and the steel border frame,
/// before any drawing command has run.
pub open spec fn base_grid(seed: u8, objs: Seq<u8>, probs: Seq<u8>) -> Seq<u8> {
    Seq::new(
        880,
        |j: int|
            {
                let x = j % 40;
                let y = j / 40;
                if x == 0 || x == 39 || y == 0 || y == 21 {
                    BORDER
                } else {
                    fill_cell(seed, objs, probs, x, y)
                }
            },
    )
}

/// Runs the drawing-command stream over grid `g` from cursor `n`: stops at
/// the first terminator byte or at the end of the buffer, and yields `None`
/// for a malformed stream (truncated payload, bad direction, or any write
/// that would fall outside the grid).
pub open spec fn run_cmds(g: Seq<u8>, cave: Seq<u8>, n: int) -> Option<Seq<u8>>
    decreases cave.len() - n,
{
    if n < 0 || n >= cave.len() {
        Some(g)
    } else if cave[n] == 0xFF {
        Some(g)
    } else {
        let ch = conv_spec(cave[n] as int % 64);
        let tag = cave[n] as int / 64;
        if tag == 0 {
            if n + 3 <= cave.len() {
                let px = cave[n + 1] as int;
                let py = cave[n + 2] as int - 2;
                if 0 <= py && py < 22 && px < 40 {
                    run_cmds(g.update(flat_idx(40, px, py), ch), cave, n + 3)
                } else {
                    None
                }
            } else {
                None
            }
        } else if tag == 1 {
            if n + 5 <= cave.len() {
                let px = cave[n + 1] as int;
                let py = cave[n + 2] as int - 2;
                let ll = cave[n + 3] as int;
                let d = cave[n + 4] as int;
                if d < 8 && ray_in_bounds(40, 22, px, py, dir_dx(d), dir_dy(d), ll) {
                    run_cmds(line_seq(g, 40, px, py, dir_dx(d), dir_dy(d), ll, ch), cave, n + 5)
                } else {
                    None
                }
            } else {
                None
            }
        } else if tag == 2 {
            if n + 6 <= cave.len() {
                let rx = cave[n + 1] as int;
                let ry = cave[n + 2] as int - 2;
                let rw = cave[n + 3] as int;
                let rh = cave[n + 4] as int;
                let ch2 = conv_spec(cave[n + 5] as int % 64);
                if 0 <= ry && rw >= 2 && rh >= 2 && rx + rw <= 40 && ry + rh <= 22 {
                    run_cmds(filled_rect_seq(g, 40, rx, ry, rw, rh, ch, ch2), cave, n + 6)
                } else {
                    None
                }
            } else {
                None
            }
        } else {
            if n + 5 <= cave.len() {
                let rx = cave[n + 1] as int;
                let ry = cave[n + 2] as int - 2;
                let rw = cave[n + 3] as int;
                let rh = cave[n + 4] as int;
                if 0 <= ry && rx + rw <= 40 && ry + rh <= 22 {
                    run_cmds(rect_fill_seq(g, 40, rx, ry, rw, rh, ch), cave, n + 5)
                } else {
                    None
                }
            } else {
                None
            }
        }
    }
}

/// The whole decode: header, random fill, border frame, command stream.
/// `None` exactly when the cave is malformed.
pub open spec fn decode_cave(cave: Seq<u8>) -> Option<Seq<u8>> {
    if cave.len() < 32 {
        None
    } else {
        run_cmds(base_grid(cave[4], header_objects(cave), header_probs(cave)), cave, 0x20)
    }
}

/// A terminator byte stops decoding at once, whatever follows it.
pub proof fn lemma_terminator_stops(g: Seq<u8>, cave: Seq<u8>, n: int)
    requires
        0 <= n,
        n >= cave.len() || cave[n] == 0xFF,
    ensures
        run_cmds(g, cave, n) == Some(g),
{
}

/// A rectangle command whose span leaves the grid fails the whole load.
pub proof fn lemma_rect_oob_rejected(g: Seq<u8>, cave: Seq<u8>, n: int)
    requires
        0 <= n < cave.len(),
        cave[n] != 0xFF,
        cave[n] as int / 64 == 3,
        n + 5 <= cave.len(),
        cave[n + 1] as int + cave[n + 3] as int > 40 || cave[n + 2] as int - 2 < 0 || cave[n + 2]
            as int - 2 + cave[n + 4] as int > 22,
    ensures
        run_cmds(g, cave, n) is None,
{
}

/// A rectangle of cells, in corrected grid coordinates.
pub struct Rect {
    pub x: usize,
    pub y: usize,
    pub w: usize,
    pub h: usize,
}

impl Screen {
    /// Builds a rectangle from the four raw payload bytes of a command,
    /// correcting the row for the two reserved score rows.
    pub fn to_rect(x: u8, y: u8, w: u8, h: u8) -> (r: Rect)
        requires
            y >= 2,
        ensures
            r.x == x,
            r.y == y - 2,
            r.w == w,
            r.h == h,
    {
        Rect { x: x as usize, y: (y - 2) as usize, w: w as usize, h: h as usize }
    }

    /// The unit step of a compass direction, clockwise from north.
    fn dir_delta(d: u8) -> (r: (isize, isize))
        requires
            d < 8,
        ensures
            r.0 as int == dir_dx(d as int),
            r.1 as int == dir_dy(d as int),
    {
        if d == 0 {
            (0, -1)
        } else if d == 1 {
            (1, -1)
        } else if d == 2 {
            (1, 0)
        } else if d == 3 {
            (1, 1)
        } else if d == 4 {
            (0, 1)
        } else if d == 5 {
            (-1, 1)
        } else if d == 6 {
            (-1, 0)
        } else {
            (-1, -1)
        }
    }

    /// Draws a `len`-cell line of `ch` from `(x, y - 2)` along compass
    /// direction `dir`; every visited cell must lie on the grid.
    pub fn draw_line(&mut self, ch: u8, x: u8, y: u8, len: u8, dir: u8)
        requires
            old(self).wf(),
            dir < 8,
            ray_in_bounds(
                old(self).w as int,
                old(self).h as int,
                x as int,
                y as int - 2,
                dir_dx(dir as int),
                dir_dy(dir as int),
                len as int,
            ),
        ensures
            final(self).wf(),
            final(self).w == old(self).w,
            final(self).h == old(self).h,
            final(self).scr@ == line_seq(
                old(self).scr@,
                old(self).w as int,
                x as int,
                y as int - 2,
                dir_dx(dir as int),
                dir_dy(dir as int),
                len as int,
                ch,
            ),
    {
        let ghost g0 = self.scr@;
        let ghost w0 = self.w as int;
        let (dx, dy) = Self::dir_delta(dir);
        let mut px: isize = x as isize;
        let mut py: isize = (y as isize) - 2;
        let mut i: u8 = 0;
        while i < len
            invariant
                self.wf(),
                self.w == old(self).w,
                self.h == old(self).h,
                g0 == old(self).scr@,
                w0 == self.w as int,
                self.scr@.len() == g0.len(),
                i <= len,
                dir < 8,
                dx as int == dir_dx(dir as int),
                dy as int == dir_dy(dir as int),
                px as int == ray_x(x as int, dir_dx(dir as int), i as int),
                py as int == ray_y(y as int - 2, dir_dy(dir as int), i as int),
                ray_in_bounds(
                    self.w as int,
                    self.h as int,
                    x as int,
                    y as int - 2,
                    dir_dx(dir as int),
                    dir_dy(dir as int),
                    len as int,
                ),
                forall|j: int| 0 <= j < g0.len() ==>
                    self.scr@[j] == (if ray_hit(
                        j,
                        w0,
                        x as int,
                        y as int - 2,
                        dir_dx(dir as int),
                        dir_dy(dir as int),
                        i as int,
                    ) { ch } else { g0[j] }),
            decreases len - i,
        {
            let ghost gprev = self.scr@;
            let ghost x0 = x as int;
            let ghost y0 = y as int - 2;
            let ghost dxi = dir_dx(dir as int);
            let ghost dyi = dir_dy(dir as int);
            proof {
                assert(ray_cell_ok(self.w as int, self.h as int, x0, y0, dxi, dyi, i as int));
            }
            assert(0 <= ray_x(x0, dxi, i as int) < self.w && 0 <= ray_y(y0, dyi, i as int)
                < self.h);
            self.put(px as usize, py as usize, ch);
            proof {
                lemma_flat_index(w0, self.h as int, px as int, py as int);
                assert forall|j: int| 0 <= j < g0.len() implies
                    self.scr@[j] == (if ray_hit(j, w0, x0, y0, dxi, dyi, i as int + 1) { ch } else { g0[j] }) by {
                    if j == flat_idx(w0, px as int, py as int) {
                        assert(j == flat_idx(w0, ray_x(x0, dxi, i as int), ray_y(y0, dyi, i as int)));
                        assert(ray_hit(j, w0, x0, y0, dxi, dyi, i as int + 1));
                    } else {
                        assert(self.scr@[j] == gprev[j]);
                        if ray_hit(j, w0, x0, y0, dxi, dyi, i as int + 1) {
                            let k = choose|k: int|
                                0 <= k < i as int + 1 && j == flat_idx(
                                    w0,
                                    #[trigger] ray_x(x0, dxi, k),
                                    #[trigger] ray_y(y0, dyi, k),
                                );
                            assert(k != i as int);
                            assert(ray_hit(j, w0, x0, y0, dxi, dyi, i as int));
                        }
                    }
                }
                lemma_ray_step(x0, dxi, i as int);
                lemma_ray_step(y0, dyi, i as int);
                assert(-1 <= dxi <= 1 && -1 <= dyi <= 1);
                assert(-(i as int) <= i as int * dxi <= i as int) by (nonlinear_arith)
                    requires
                        -1 <= dxi <= 1,
                        0 <= i as int,
                ;
                assert(-(i as int) <= i as int * dyi <= i as int) by (nonlinear_arith)
                    requires
                        -1 <= dyi <= 1,
                        0 <= i as int,
                ;
            }
            px = px + dx;
            py = py + dy;
            i = i + 1;
        }
        proof {
            assert(self.scr@ =~= line_seq(
                g0,
                w0,
                x as int,
                y as int - 2,
                dir_dx(dir as int),
                dir_dy(dir as int),
                len as int,
                ch,
            ));
        }
    }

    /// Fills the whole rectangle with `ch`, row by row.
    pub fn rect_filed(&mut self, ch: u8, rect: &Rect)
        requires
            old(self).wf(),
            rect.x + rect.w <= old(self).w,
            rect.y + rect.h <= old(self).h,
        ensures
            final(self).wf(),
            final(self).w == old(self).w,
            final(self).h == old(self).h,
            final(self).scr@ == rect_fill_seq(
                old(self).scr@,
                old(self).w as int,
                rect.x as int,
                rect.y as int,
                rect.w as int,
                rect.h as int,
                ch,
            ),
    {
        let ghost g0 = self.scr@;
        let ghost w0 = self.w as int;
        let ghost rx = rect.x as int;
        let ghost ry = rect.y as int;
        let ghost rw = rect.w as int;
        let ghost rh = rect.h as int;
        let mut y = rect.y;
        while y < rect.y + rect.h
            invariant
                self.wf(),
                self.w == old(self).w,
                self.h == old(self).h,
                g0 == old(self).scr@,
                w0 == self.w as int,
                self.scr@.len() == g0.len(),
                rx == rect.x as int,
                ry == rect.y as int,
                rw == rect.w as int,
                rh == rect.h as int,
                rect.y <= y <= rect.y + rect.h,
                rect.x + rect.w <= self.w,
                rect.y + rect.h <= self.h,
                forall|j: int| 0 <= j < g0.len() ==>
                    self.scr@[j] == (if rect_hit(j, w0, rx, ry, rw, y as int - ry) { ch } else { g0[j] }),
            decreases rect.y + rect.h - y,
        {
            let ghost gprev = self.scr@;
            self.hline(y, rect.x, rect.x + rect.w, ch);
            proof {
                assert forall|j: int| 0 <= j < g0.len() implies
                    self.scr@[j] == (if rect_hit(j, w0, rx, ry, rw, y as int + 1 - ry) { ch } else { g0[j] }) by {
                    if flat_idx(w0, rx, y as int) <= j < flat_idx(w0, rx + rw, y as int) {
                        let xx = j - (y as int) * w0;
                        assert(j == flat_idx(w0, xx, y as int));
                        assert(rect_hit(j, w0, rx, ry, rw, y as int + 1 - ry));
                    } else {
                        assert(self.scr@[j] == gprev[j]);
                        if rect_hit(j, w0, rx, ry, rw, y as int + 1 - ry) {
                            let (xx, yy) = choose|xx: int, yy: int|
                                rx <= xx < rx + rw && ry <= yy < y as int + 1 && j == #[trigger] flat_idx(w0, xx, yy);
                            assert(yy != y as int);
                            assert(rect_hit(j, w0, rx, ry, rw, y as int - ry));
                        }
                    }
                }
            }
            y = y + 1;
        }
        proof {
            assert(self.scr@ =~= rect_fill_seq(g0, w0, rx, ry, rw, rh, ch));
        }
    }

    /// Draws the one-cell-thick border ring of the rectangle with `ch`.
    pub fn rect_border(&mut self, ch: u8, rect: &Rect)
        requires
            old(self).wf(),
            rect.w >= 1,
            rect.h >= 1,
            rect.x + rect.w <= old(self).w,
            rect.y + rect.h <= old(self).h,
        ensures
            final(self).wf(),
            final(self).w == old(self).w,
            final(self).h == old(self).h,
            final(self).scr@ == rect_border_seq(
                old(self).scr@,
                old(self).w as int,
                rect.x as int,
                rect.y as int,
                rect.w as int,
                rect.h as int,
                ch,
            ),
    {
        let ghost g0 = self.scr@;
        let ghost w0 = self.w as int;
        let ghost rx = rect.x as int;
        let ghost ry = rect.y as int;
        let ghost rw = rect.w as int;
        let ghost rh = rect.h as int;
        self.hline(rect.y, rect.x, rect.x + rect.w, ch);
        let ghost g1 = self.scr@;
        self.hline(rect.y + rect.h - 1, rect.x, rect.x + rect.w, ch);
        let ghost g2 = self.scr@;
        self.vline(rect.x, rect.y + 1, rect.y + rect.h - 1, ch);
        let ghost g3 = self.scr@;
        self.vline(rect.x + rect.w - 1, rect.y + 1, rect.y + rect.h - 1, ch);
        proof {
            assert forall|j: int| 0 <= j < g0.len() implies
                self.scr@[j] == (if rect_edge_hit(j, w0, rx, ry, rw, rh) { ch } else { g0[j] }) by {
                let hit1 = flat_idx(w0, rx, ry) <= j < flat_idx(w0, rx + rw, ry);
                let hit2 = flat_idx(w0, rx, ry + rh - 1) <= j < flat_idx(w0, rx + rw, ry + rh - 1);
                let hit3 = col_hit(j, w0, rx, ry + 1, ry + rh - 1);
                let hit4 = col_hit(j, w0, rx + rw - 1, ry + 1, ry + rh - 1);
                if hit1 {
                    let xx = j - ry * w0;
                    assert(j == flat_idx(w0, xx, ry));
                    assert(rect_edge(xx, ry, rx, ry, rw, rh));
                    assert(rect_edge_hit(j, w0, rx, ry, rw, rh));
                }
                if hit2 {
                    let xx = j - (ry + rh - 1) * w0;
                    assert(j == flat_idx(w0, xx, ry + rh - 1));
                    assert(rect_edge(xx, ry + rh - 1, rx, ry, rw, rh));
                    assert(rect_edge_hit(j, w0, rx, ry, rw, rh));
                }
                if hit3 {
                    let yy = choose|yy: int| ry + 1 <= yy < ry + rh - 1 && j == #[trigger] flat_idx(w0, rx, yy);
                    assert(rect_edge(rx, yy, rx, ry, rw, rh));
                    assert(rect_edge_hit(j, w0, rx, ry, rw, rh));
                }
                if hit4 {
                    let yy = choose|yy: int| ry + 1 <= yy < ry + rh - 1 && j == #[trigger] flat_idx(w0, rx + rw - 1, yy);
                    assert(rect_edge(rx + rw - 1, yy, rx, ry, rw, rh));
                    assert(rect_edge_hit(j, w0, rx, ry, rw, rh));
                }
                if !(hit1 || hit2 || hit3 || hit4) {
                    assert(self.scr@[j] == g0[j]);
                    if rect_edge_hit(j, w0, rx, ry, rw, rh) {
                        let (xx, yy) = choose|xx: int, yy: int|
                            rect_edge(xx, yy, rx, ry, rw, rh) && j == #[trigger] flat_idx(w0, xx, yy);
                        if yy == ry {
                            assert(hit1);
                        } else if yy == ry + rh - 1 {
                            assert(hit2);
                        } else if xx == rx {
                            assert(col_hit(j, w0, rx, ry + 1, ry + rh - 1));
                        } else {
                            assert(xx == rx + rw - 1);
                            assert(col_hit(j, w0, rx + rw - 1, ry + 1, ry + rh - 1));
                        }
                        assert(false);
                    }
                }
            }
            assert(self.scr@ =~= rect_border_seq(g0, w0, rx, ry, rw, rh, ch));
        }
    }

    /// Fills the rectangle with `ch`: border and interior share the symbol.
    pub fn draw_rect(&mut self, ch: u8, rect: Rect)
        requires
            old(self).wf(),
            rect.x + rect.w <= old(self).w,
            rect.y + rect.h <= old(self).h,
        ensures
            final(self).wf(),
            final(self).w == old(self).w,
            final(self).h == old(self).h,
            final(self).scr@ == rect_fill_seq(
                old(self).scr@,
                old(self).w as int,
                rect.x as int,
                rect.y as int,
                rect.w as int,
                rect.h as int,
                ch,
            ),
    {
        self.rect_filed(ch, &rect);
    }

    /// Draws a bordered rectangle: the ring with `ch`, the interior, inset by
    /// one cell on every side, with `ch2`.
    pub fn draw_filed_rect(&mut self, ch: u8, ch2: u8, rect: Rect)
        requires
            old(self).wf(),
            rect.w >= 2,
            rect.h >= 2,
            rect.x + rect.w <= old(self).w,
            rect.y + rect.h <= old(self).h,
        ensures
            final(self).wf(),
            final(self).w == old(self).w,
            final(self).h == old(self).h,
            final(self).scr@ == filled_rect_seq(
                old(self).scr@,
                old(self).w as int,
                rect.x as int,
                rect.y as int,
                rect.w as int,
                rect.h as int,
                ch,
                ch2,
            ),
    {
        self.rect_border(ch, &rect);
        self.draw_rect(
            ch2,
            Rect { x: rect.x + 1, y: rect.y + 1, w: rect.w - 2, h: rect.h - 2 },
        );
    }

    /// Decides at run time whether every cell of a line command stays on the
    /// 40 x 22 grid.
    fn line_ok(x: u8, y: u8, len: u8, dir: u8) -> (r: bool)
        requires
            dir < 8,
        ensures
            r == ray_in_bounds(
                40,
                22,
                x as int,
                y as int - 2,
                dir_dx(dir as int),
                dir_dy(dir as int),
                len as int,
            ),
    {
        let (dx, dy) = Self::dir_delta(dir);
        let mut px: isize = x as isize;
        let mut py: isize = (y as isize) - 2;
        let mut i: u8 = 0;
        while i < len
            invariant
                i <= len,
                dir < 8,
                dx as int == dir_dx(dir as int),
                dy as int == dir_dy(dir as int),
                px as int == ray_x(x as int, dir_dx(dir as int), i as int),
                py as int == ray_y(y as int - 2, dir_dy(dir as int), i as int),
                ray_in_bounds(
                    40,
                    22,
                    x as int,
                    y as int - 2,
                    dir_dx(dir as int),
                    dir_dy(dir as int),
                    i as int,
                ),
            decreases len - i,
        {
            if !(px >= 0 && px < 40 && py >= 0 && py < 22) {
                proof {
                    assert(!ray_cell_ok(
                        40,
                        22,
                        x as int,
                        y as int - 2,
                        dir_dx(dir as int),
                        dir_dy(dir as int),
                        i as int,
                    ));
                }
                return false;
            }
            proof {
                assert(ray_in_bounds(
                    40,
                    22,
                    x as int,
                    y as int - 2,
                    dir_dx(dir as int),
                    dir_dy(dir as int),
                    i as int + 1,
                )) by {
                    assert forall|k: int| 0 <= k < i as int + 1 implies #[trigger] ray_cell_ok(
                        40,
                        22,
                        x as int,
                        y as int - 2,
                        dir_dx(dir as int),
                        dir_dy(dir as int),
                        k,
                    ) by {
                        if k == i as int {
                            assert(ray_x(x as int, dir_dx(dir as int), k) == px as int);
                            assert(ray_y(y as int - 2, dir_dy(dir as int), k) == py as int);
                        } else {
                            assert(0 <= k < i as int);
                        }
                    }
                }
                lemma_ray_step(x as int, dir_dx(dir as int), i as int);
                lemma_ray_step(y as int - 2, dir_dy(dir as int), i as int);
            }
            px = px + dx;
            py = py + dy;
            i = i + 1;
        }
        true
    }

    /// Decodes a whole cave buffer into this grid: reads the header, runs the
    /// seeded random fill over the interior, frames the playfield with steel,
    /// then applies the drawing-command stream. A malformed cave (short
    /// header, truncated command, or any out-of-grid write) rejects the whole
    /// load; nothing is clamped.
    pub fn load_cave(&mut self, cave: &Vec<u8>) -> (r: Result<(), CaveError>)
        ensures
            r is Ok <==> decode_cave(cave@) is Some,
            r is Ok ==> final(self).wf() && final(self).w == 40 && final(self).h == 22
                && decode_cave(cave@) == Some(final(self).scr@),
            r matches Err(e) ==> e == CaveError::MalformedCave,
    {
        let cb = match CaveBuilder::new(cave) {
            Ok(cb) => cb,
            Err(e) => {
                return Err(e);
            },
        };
        let ghost sd = cb.random_seed;
        let ghost objs = header_objects(cave@);
        let ghost probs = header_probs(cave@);

        self.reset(cb.width, cb.height, EMPTY);
        let mut seeds: [u8; 2] = [0, cb.random_seed];
        let h = cb.height;
        let w = cb.width;
        let mut y: usize = 1;
        while y < h - 1
            invariant
                self.wf(),
                self.w == 40,
                self.h == 22,
                self.scr@.len() == 880,
                w == 40,
                h == 22,
                1 <= y <= 21,
                sd == cb.random_seed,
                objs == cb.random_objects@,
                probs == cb.random_object_prob@,
                seeds@.len() == 2,
                seeds@[0] == rng_iter(0, sd, ((y - 1) * 40) as nat).0,
                seeds@[1] == rng_iter(0, sd, ((y - 1) * 40) as nat).1,
                forall|j: int|
                    0 <= j < 880 ==> self.scr@[j] == (if 40 <= j < y * 40 {
                        fill_cell(sd, objs, probs, j % 40, j / 40)
                    } else {
                        EMPTY
                    }),
            decreases h - y,
        {
            let mut x: usize = 0;
            while x < w
                invariant
                    self.wf(),
                    self.w == 40,
                    self.h == 22,
                    self.scr@.len() == 880,
                    w == 40,
                    h == 22,
                    1 <= y <= 20,
                    x <= 40,
                    sd == cb.random_seed,
                    objs == cb.random_objects@,
                    probs == cb.random_object_prob@,
                    seeds@.len() == 2,
                    seeds@[0] == rng_iter(0, sd, ((y - 1) * 40 + x) as nat).0,
                    seeds@[1] == rng_iter(0, sd, ((y - 1) * 40 + x) as nat).1,
                    forall|j: int|
                        0 <= j < 880 ==> self.scr@[j] == (if 40 <= j < y * 40 + x {
                            fill_cell(sd, objs, probs, j % 40, j / 40)
                        } else {
                            EMPTY
                        }),
                decreases w - x,
            {
                let ghost k = (y - 1) * 40 + x;
                Screen::bdrandom(&mut seeds);
                proof {
                    assert(rng_iter(0, sd, (k + 1) as nat) == rng_next(
                        rng_iter(0, sd, k as nat).0,
                        rng_iter(0, sd, k as nat).1,
                    ));
                }
                let ch = fill_symbol(seeds[0], &cb.random_objects, &cb.random_object_prob);
                let ghost gprev = self.scr@;
                self.put(x, y, ch);
                proof {
                    lemma_flat_40(x as int, y as int);
                    assert forall|j: int| 0 <= j < 880 implies
                        self.scr@[j] == (if 40 <= j < y * 40 + x + 1 {
                            fill_cell(sd, objs, probs, j % 40, j / 40)
                        } else {
                            EMPTY
                        }) by {
                        if j == flat_idx(40, x as int, y as int) {
                            assert(ch == fill_cell(sd, objs, probs, x as int, y as int));
                            assert(j % 40 == x as int && j / 40 == y as int);
                        } else {
                            assert(self.scr@[j] == gprev[j]);
                        }
                    }
                }
                x = x + 1;
            }
            y = y + 1;
        }

        let playfield = Rect { x: 0, y: 0, w, h };
        let ghost gfill = self.scr@;
        self.rect_border(BORDER, &playfield);
        proof {
            assert forall|j: int| 0 <= j < 880 implies
                self.scr@[j] == base_grid(sd, objs, probs)[j] by {
                let xj = j % 40;
                let yj = j / 40;
                assert(j == flat_idx(40, xj, yj));
                if xj == 0 || xj == 39 || yj == 0 || yj == 21 {
                    assert(rect_edge(xj, yj, 0, 0, 40, 22));
                    assert(rect_edge_hit(j, 40, 0, 0, 40, 22));
                } else {
                    if rect_edge_hit(j, 40, 0, 0, 40, 22) {
                        let (xx, yy) = choose|xx: int, yy: int|
                            rect_edge(xx, yy, 0, 0, 40, 22) && j == #[trigger] flat_idx(40, xx, yy);
                        lemma_flat_40(xx, yy);
                        assert(false);
                    }
                    assert(40 <= j < 840);
                    assert(self.scr@[j] == gfill[j]);
                }
            }
            assert(self.scr@ =~= base_grid(sd, objs, probs));
        }

        let ghost gbase = self.scr@;
        let mut n: usize = 0x20;
        while n < cave.len() && cave[n] < 0xFF
            invariant
                self.wf(),
                self.w == 40,
                self.h == 22,
                self.scr@.len() == 880,
                0x20 <= n,
                cave@.len() >= 32,
                gbase == base_grid(cave@[4], header_objects(cave@), header_probs(cave@)),
                run_cmds(self.scr@, cave@, n as int) == run_cmds(gbase, cave@, 0x20),
            decreases cave.len() - n,
        {
            let ch = conv(cave[n] % 64);
            let kind = cave[n] / 64;
            let ghost gcur = self.scr@;
            if kind == 0 {
                if cave.len() - n < 3 {
                    return Err(CaveError::MalformedCave);
                }
                let px = cave[n + 1];
                let pyr = cave[n + 2];
                if !(px < 40 && pyr >= 2 && pyr - 2 < 22) {
                    return Err(CaveError::MalformedCave);
                }
                self.put(px as usize, (pyr - 2) as usize, ch);
                proof {
                    assert(run_cmds(self.scr@, cave@, n as int + 3) == run_cmds(
                        gcur,
                        cave@,
                        n as int,
                    ));
                }
                n = n + 3;
            } else if kind == 1 {
                if cave.len() - n < 5 {
                    return Err(CaveError::MalformedCave);
                }
                let px = cave[n + 1];
                let pyr = cave[n + 2];
                let ll = cave[n + 3];
                let d = cave[n + 4];
                if !(d < 8) {
                    return Err(CaveError::MalformedCave);
                }
                if !Self::line_ok(px, pyr, ll, d) {
                    return Err(CaveError::MalformedCave);
                }
                self.draw_line(ch, px, pyr, ll, d);
                proof {
                    assert(run_cmds(self.scr@, cave@, n as int + 5) == run_cmds(
                        gcur,
                        cave@,
                        n as int,
                    ));
                }
                n = n + 5;
            } else if kind == 2 {
                if cave.len() - n < 6 {
                    return Err(CaveError::MalformedCave);
                }
                let rx = cave[n + 1];
                let ryr = cave[n + 2];
                let rw = cave[n + 3];
                let rh = cave[n + 4];
                let ch2 = conv(cave[n + 5] % 64);
                if !(ryr >= 2 && rw >= 2 && rh >= 2 && (rx as usize) + (rw as usize) <= 40 && (ryr
                    as usize) - 2 + (rh as usize) <= 22) {
                    return Err(CaveError::MalformedCave);
                }
                let rect = Self::to_rect(rx, ryr, rw, rh);
                self.draw_filed_rect(ch, ch2, rect);
                proof {
                    assert(run_cmds(self.scr@, cave@, n as int + 6) == run_cmds(
                        gcur,
                        cave@,
                        n as int,
                    ));
                }
                n = n + 6;
            } else {
                if cave.len() - n < 5 {
                    return Err(CaveError::MalformedCave);
                }
                let rx = cave[n + 1];
                let ryr = cave[n + 2];
                let rw = cave[n + 3];
                let rh = cave[n + 4];
                if !(ryr >= 2 && (rx as usize) + (rw as usize) <= 40 && (ryr as usize) - 2 + (rh
                    as usize) <= 22) {
                    return Err(CaveError::MalformedCave);
                }
                let rect = Self::to_rect(rx, ryr, rw, rh);
                self.draw_rect(ch, rect);
                proof {
                    assert(run_cmds(self.scr@, cave@, n as int + 5) == run_cmds(
                        gcur,
                        cave@,
                        n as int,
                    ));
                }
                n = n + 5;
            }
        }
        proof {
            assert(run_cmds(self.scr@, cave@, n as int) == Some(self.scr@));
        }
        Ok(())
    }

    /// The low bit of `v`, rotated into bit 7: the carry feed of the generator.
    pub fn ror1b(v: u8) -> (r: u8)
        ensures
            r as int == (v as int % 2) * 128,
    {
        (v % 2) * 128
    }

    /// Advances the two-byte generator state in place, exactly one step.
    pub fn bdrandom(seeds: &mut [u8; 2])
        ensures
            final(seeds)@[0] == rng_next(old(seeds)@[0], old(seeds)@[1]).0,
            final(seeds)@[1] == rng_next(old(seeds)@[0], old(seeds)@[1]).1,
    {
        let s0 = seeds[0];
        let s1 = seeds[1];
        let tmp1 = Self::ror1b(s0);
        let tmp2 = s1 / 2;
        let mut result: u16 = s1 as u16 + Self::ror1b(s1) as u16;
        result = (result % 256) + (result / 256) + 0x13;
        let ns1: u8 = (result % 256) as u8;
        result = s0 as u16 + (result / 256) + tmp1 as u16;
        result = (result % 256) + (result / 256) + tmp2 as u16;
        let ns0: u8 = (result % 256) as u8;
        *seeds = [ns0, ns1];
    }
}

} // verus!
