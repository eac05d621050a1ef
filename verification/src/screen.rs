//! The tile grid: a `width x height` buffer of one-byte tile symbols,
//! row-major, with bounds-checked point and line drawing primitives.

use vstd::prelude::*;

verus! {

pub struct Screen {
    pub w: usize,
    pub h: usize,
    pub scr: Vec<u8>,
}

/// Row-major index of the cell at column `x`, row `y` on a grid `w` cells wide.
pub open spec fn flat_idx(w: int, x: int, y: int) -> int {
    y * w + x
}

/// `j` is the index of a cell of column `x` with row in `y1 .. y2`.
pub open spec fn col_hit(j: int, w: int, x: int, y1: int, y2: int) -> bool {
    exists|yy: int| y1 <= yy < y2 && j == #[trigger] flat_idx(w, x, yy)
}

/// The buffer after a horizontal run of `ch` on row `y`, columns `x1 .. x2`.
pub open spec fn hline_seq(g: Seq<u8>, w: int, y: int, x1: int, x2: int, ch: u8) -> Seq<u8> {
    Seq::new(g.len(), |j: int| if flat_idx(w, x1, y) <= j < flat_idx(w, x2, y) { ch } else { g[j] })
}

/// The buffer after a vertical run of `ch` on column `x`, rows `y1 .. y2`.
pub open spec fn vline_seq(g: Seq<u8>, w: int, x: int, y1: int, y2: int, ch: u8) -> Seq<u8> {
    Seq::new(g.len(), |j: int| if col_hit(j, w, x, y1, y2) { ch } else { g[j] })
}

/// A cell's flat index stays inside a `w x h` buffer.
pub proof fn lemma_flat_index(w: int, h: int, x: int, y: int)
    requires
        0 <= x < w,
        0 <= y < h,
    ensures
        0 <= flat_idx(w, x, y) < w * h,
{
    assert(0 <= y * w + x && y * w + x < w * h) by (nonlinear_arith)
        requires
            0 <= x < w,
            0 <= y < h,
    ;
}

impl Screen {
    /// The buffer holds exactly one symbol per cell.
    pub open spec fn wf(self) -> bool {
        self.scr@.len() == self.w * self.h
    }

    /// The symbol at column `x`, row `y`.
    pub open spec fn cell(self, x: int, y: int) -> u8 {
        self.scr@[flat_idx(self.w as int, x, y)]
    }

    pub fn new(w: usize, h: usize, ch: u8) -> (s: Self)
        requires
            w * h <= usize::MAX,
        ensures
            s.wf(),
            s.w == w,
            s.h == h,
            s.scr@ == Seq::new((w * h) as nat, |j: int| ch),
    {
        let mut s = Self { w, h, scr: Vec::new() };
        s.reset(w, h, ch);
        s
    }

    pub fn reset(&mut self, w: usize, h: usize, ch: u8)
        requires
            w * h <= usize::MAX,
        ensures
            final(self).wf(),
            final(self).w == w,
            final(self).h == h,
            final(self).scr@ == Seq::new((w * h) as nat, |j: int| ch),
    {
        let n = w * h;
        let mut scr: Vec<u8> = Vec::new();
        let mut i: usize = 0;
        while i < n
            invariant
                i <= n,
                scr@.len() == i,
                forall|j: int| 0 <= j < i ==> scr@[j] == ch,
            decreases n - i,
        {
            scr.push(ch);
            i = i + 1;
        }
        self.scr = scr;
        self.w = w;
        self.h = h;
        proof {
            assert(self.scr@ =~= Seq::new((w * h) as nat, |j: int| ch));
        }
    }

    pub fn put(&mut self, x: usize, y: usize, ch: u8)
        requires
            old(self).wf(),
            x < old(self).w,
            y < old(self).h,
        ensures
            final(self).wf(),
            final(self).w == old(self).w,
            final(self).h == old(self).h,
            final(self).scr@ == old(self).scr@.update(flat_idx(old(self).w as int, x as int, y as int), ch),
    {
        proof {
            lemma_flat_index(self.w as int, self.h as int, x as int, y as int);
        }
        // Reading the length first also bounds the flat index by usize::MAX.
        let n = self.scr.len();
        let i: usize = y * self.w + x;
        assert(i < n);
        self.scr[i] = ch;
    }

    /// Reads the cell at flat index `i + d`, or `def` when that falls outside
    /// the buffer.
    pub fn get(&self, i: usize, d: isize, def: u8) -> (r: u8)
        ensures
            r == if 0 <= i + d < self.scr@.len() { self.scr@[i + d] } else { def },
    {
        let n = self.scr.len();
        if d >= 0 {
            let dd = d as usize;
            if usize::MAX - i >= dd {
                let k = i + dd;
                if k < n {
                    return self.scr[k];
                }
            }
            def
        } else {
            let nd = -(d as i128);
            if (i as i128) >= nd {
                let k = i - (nd as usize);
                if k < n {
                    self.scr[k]
                } else {
                    def
                }
            } else {
                def
            }
        }
    }

    pub fn hline(&mut self, y: usize, x1: usize, x2: usize, ch: u8)
        requires
            old(self).wf(),
            x1 < x2 ==> x2 <= old(self).w && y < old(self).h,
        ensures
            final(self).wf(),
            final(self).w == old(self).w,
            final(self).h == old(self).h,
            final(self).scr@ == hline_seq(old(self).scr@, old(self).w as int, y as int, x1 as int, x2 as int, ch),
    {
        let ghost g0 = self.scr@;
        let ghost w0 = self.w as int;
        let mut x = x1;
        while x < x2
            invariant
                self.wf(),
                self.w == old(self).w,
                self.h == old(self).h,
                g0 == old(self).scr@,
                w0 == self.w as int,
                x1 <= x,
                x <= x2 || x == x1,
                x1 < x2 ==> x2 <= self.w && y < self.h,
                self.scr@.len() == g0.len(),
                forall|j: int| 0 <= j < g0.len() ==>
                    self.scr@[j] == if flat_idx(w0, x1 as int, y as int) <= j < flat_idx(w0, x as int, y as int) { ch } else { g0[j] },
            decreases x2 - x,
        {
            let ghost gprev = self.scr@;
            self.put(x, y, ch);
            proof {
                lemma_flat_index(w0, self.h as int, x as int, y as int);
                assert forall|j: int| 0 <= j < g0.len() implies
                    self.scr@[j] == (if flat_idx(w0, x1 as int, y as int) <= j < flat_idx(w0, x as int + 1, y as int) { ch } else { g0[j] }) by {
                    if j != flat_idx(w0, x as int, y as int) {
                        assert(self.scr@[j] == gprev[j]);
                    }
                }
            }
            x = x + 1;
        }
        proof {
            assert(self.scr@ =~= hline_seq(g0, w0, y as int, x1 as int, x2 as int, ch));
        }
    }

    pub fn vline(&mut self, x: usize, y1: usize, y2: usize, ch: u8)
        requires
            old(self).wf(),
            y1 < y2 ==> y2 <= old(self).h && x < old(self).w,
        ensures
            final(self).wf(),
            final(self).w == old(self).w,
            final(self).h == old(self).h,
            final(self).scr@ == vline_seq(old(self).scr@, old(self).w as int, x as int, y1 as int, y2 as int, ch),
    {
        let ghost g0 = self.scr@;
        let ghost w0 = self.w as int;
        let mut y = y1;
        while y < y2
            invariant
                self.wf(),
                self.w == old(self).w,
                self.h == old(self).h,
                g0 == old(self).scr@,
                w0 == self.w as int,
                y1 <= y,
                y <= y2 || y == y1,
                y1 < y2 ==> y2 <= self.h && x < self.w,
                self.scr@.len() == g0.len(),
                forall|j: int| 0 <= j < g0.len() ==>
                    self.scr@[j] == if col_hit(j, w0, x as int, y1 as int, y as int) { ch } else { g0[j] },
            decreases y2 - y,
        {
            let ghost gprev = self.scr@;
            self.put(x, y, ch);
            proof {
                lemma_flat_index(w0, self.h as int, x as int, y as int);
                assert forall|j: int| 0 <= j < g0.len() implies
                    self.scr@[j] == (if col_hit(j, w0, x as int, y1 as int, y as int + 1) { ch } else { g0[j] }) by {
                    if j == flat_idx(w0, x as int, y as int) {
                        assert(col_hit(j, w0, x as int, y1 as int, y as int + 1));
                    } else {
                        assert(self.scr@[j] == gprev[j]);
                        if col_hit(j, w0, x as int, y1 as int, y as int + 1) {
                            let yy = choose|yy: int| y1 <= yy < y as int + 1 && j == #[trigger] flat_idx(w0, x as int, yy);
                            assert(yy != y as int);
                            assert(col_hit(j, w0, x as int, y1 as int, y as int));
                        }
                    }
                }
            }
            y = y + 1;
        }
        proof {
            assert(self.scr@ =~= vline_seq(g0, w0, x as int, y1 as int, y2 as int, ch));
        }
    }
}

} // verus!
