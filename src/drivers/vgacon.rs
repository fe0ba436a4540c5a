use vstd::prelude::*;

verus! {

/// An empty text cell.
pub const BLANK: u16 = 0x0000;

/// Columns of the text screen.
pub const VGACON_C: usize = 80;

/// Rows of the text screen.
pub const VGACON_R: usize = 25;

/// Cells of text memory.
pub const VRAM_CELLS: usize = 2000;

/// Base of the mark shown in a console's top-right cell; its number is
/// added.
pub const VGA_INDEX_MARK: u16 = 0x0530;

/// The cell shown left of the mark while the view is scrolled back.
pub const VISUAL_INDICATOR: u16 = 0xe056;

/// Clears the cursor-disable bit.
pub const CURSOR_ENABLE_MASK: u8 = 0xdf;

/// The cursor-disable bit.
pub const CURSOR_DISABLE_MASK: u8 = 0x20;

/// Indexes of the CRT controller registers.
#[derive(Copy, Clone, Debug, PartialEq, Eq, Structural)]
pub enum CTRCRegistersIndexes {
    VgaCrtcHTotal,
    VgaCrtcHDisp,
    VgaCrtcHBlankStart,
    VgaCrtcHBlankEnd,
    VgaCrtcHSyncStart,
    VgaCrtcHSyncEnd,
    VgaCrtcVTotal,
    VgaCrtcOverflow,
    VgaCrtcPresetRow,
    VgaCrtcMaxScan,
    VgaCrtcCursorStart,
    VgaCrtcCursorEnd,
    VgaCrtcStartHi,
    VgaCrtcStartLo,
    VgaCrtcCursorHi,
    VgaCrtcCursorLo,
    VgaCrtcVSyncStart,
    VgaCrtcVSyncEnd,
    VgaCrtcVDispEnd,
    VgaCrtcOffset,
    VgaCrtcUnderline,
    VgaCrtcVBlankStart,
    VgaCrtcVBlankEnd,
    VgaCrtcMode,
    VgaCrtcLineCompare,
}

/// Scrolling requests.
#[derive(Copy, Clone, Debug, PartialEq, Eq, Structural)]
pub enum ScrollDir {
    ScUp,
    ScDown,
    GoToBottom,
    GoToTop,
}

/// Marks drawn on the screen.
#[derive(Copy, Clone, Debug, PartialEq, Eq, Structural)]
pub enum VgaConIndicators {
    Visual,
}

/// What `blank` clears: the screen, the screen and the visible part of the
/// buffer, the whole buffer, or all of these.
#[derive(Copy, Clone, Debug, PartialEq, Eq, Structural)]
pub enum BlankingMode {
    BlankScreen,
    BlankScreenVisibleBuffer,
    BlankFullBuffer,
    BlankAll,
}

/// The sixteen text-mode colors.
#[derive(Copy, Clone, Debug, PartialEq, Eq, Structural)]
pub enum Color {
    Black,
    Blue,
    Green,
    Cyan,
    Red,
    Magenta,
    Brown,
    LightGray,
    DarkGray,
    LightBlue,
    LightGreen,
    LightCyan,
    LightRed,
    Pink,
    Yellow,
    White,
}

impl Color {
    pub open spec fn spec_code(&self) -> u8 {
        match self {
            Color::Black => 0,
            Color::Blue => 1,
            Color::Green => 2,
            Color::Cyan => 3,
            Color::Red => 4,
            Color::Magenta => 5,
            Color::Brown => 6,
            Color::LightGray => 7,
            Color::DarkGray => 8,
            Color::LightBlue => 9,
            Color::LightGreen => 10,
            Color::LightCyan => 11,
            Color::LightRed => 12,
            Color::Pink => 13,
            Color::Yellow => 14,
            Color::White => 15,
        }
    }

    /// The color's 4-bit code.
    pub fn code(&self) -> (r: u8)
        ensures
            r == self.spec_code(),
            r < 16,
    {
        match self {
            Color::Black => 0,
            Color::Blue => 1,
            Color::Green => 2,
            Color::Cyan => 3,
            Color::Red => 4,
            Color::Magenta => 5,
            Color::Brown => 6,
            Color::LightGray => 7,
            Color::DarkGray => 8,
            Color::LightBlue => 9,
            Color::LightGreen => 10,
            Color::LightCyan => 11,
            Color::LightRed => 12,
            Color::Pink => 13,
            Color::Yellow => 14,
            Color::White => 15,
        }
    }
}

/// The text cell for byte `c` in colors `fg` on `bg`.
pub open spec fn cell(c: u8, fg: u8, bg: u8) -> u16 {
    (c as u16 | ((bg & 0xf) as u16) << 12u16 | ((fg & 0xf) as u16) << 8u16) as u16
}

/// Where cell `index` of a window `cols` cells wide at (`hoffset`,
/// `voffset`) lies in text memory.
pub open spec fn cell_offset(cols: int, voffset: int, hoffset: int, index: int) -> int {
    (index / cols + voffset) * VGACON_C as int + hoffset + index % cols
}

/// A text console: a window of `vc_rows` x `vc_cols` cells at
/// (`vc_hoffset`, `vc_voffset`) of the screen, over a scroll-back buffer of
/// several screens. `vc_origin` is where the newest screen starts in the
/// buffer, `vc_visible_origin` where the shown one starts and `vc_index`
/// the next cell to write on the newest screen. `vram` is the text memory
/// as the console leaves it and `cursor_*` the CRT controller's cursor
/// registers.
pub struct VgaCon {
    pub vc_num: u8,
    pub vc_voffset: usize,
    pub vc_hoffset: usize,
    pub vc_index: usize,
    pub vc_screen_size: usize,
    pub vc_foreground_color: Color,
    pub vc_background_color: Color,
    pub vc_screenbuf: Vec<u16>,
    pub vc_screenbuf_size: usize,
    pub vc_visible_origin: usize,
    pub vc_origin: usize,
    pub vc_rows: usize,
    pub vc_cols: usize,
    pub vram: Vec<u16>,
    pub cursor_start: u8,
    pub cursor_end: u8,
    pub cursor_pos: u16,
}

impl VgaCon {
    pub open spec fn wf(&self) -> bool {
        &&& self.vc_num < 10
        &&& 1 <= self.vc_rows
        &&& 2 <= self.vc_cols
        &&& self.vc_voffset + self.vc_rows <= VGACON_R
        &&& self.vc_hoffset + self.vc_cols <= VGACON_C
        &&& self.vc_screen_size == self.vc_rows * self.vc_cols
        &&& self.vc_cols <= self.vc_screen_size
        &&& self.vc_screenbuf@.len() == self.vc_screenbuf_size
        &&& self.vc_screen_size <= self.vc_origin + self.vc_screen_size == self.vc_screenbuf_size
        &&& self.vc_visible_origin <= self.vc_origin
        &&& self.vc_index <= self.vc_screen_size
        &&& self.vram@.len() == VRAM_CELLS
    }

    /// Where cell `index` of the window lies in text memory.
    pub open spec fn offset(&self, index: int) -> int {
        cell_offset(self.vc_cols as int, self.vc_voffset as int, self.vc_hoffset as int, index)
    }

    proof fn lemma_offset(&self, index: int)
        requires
            self.wf(),
            0 <= index <= self.vc_screen_size,
        ensures
            0 <= self.offset(index) < VRAM_CELLS + VGACON_C,
            index < self.vc_screen_size ==> self.offset(index) < VRAM_CELLS,
    {
        let c = self.vc_cols as int;
        let q = index / c;
        let r = index % c;
        assert(index == c * q + r && 0 <= r < c) by (nonlinear_arith)
            requires
                c > 0,
                q == index / c,
                r == index % c,
        ;
        assert(0 <= q <= self.vc_rows) by (nonlinear_arith)
            requires
                index == c * q + r,
                0 <= r < c,
                0 <= index <= self.vc_rows * c,
                c > 0,
        ;
        if index < self.vc_screen_size {
            assert(q < self.vc_rows) by (nonlinear_arith)
                requires
                    index == c * q + r,
                    0 <= r < c,
                    index < self.vc_rows * c,
                    c > 0,
            ;
        }
        assert(0 <= self.offset(index) <= (q + self.vc_voffset) * 80 + 79) by (nonlinear_arith)
            requires
                self.offset(index) == (q + self.vc_voffset) * 80 + self.vc_hoffset + r,
                0 <= r < c,
                self.vc_hoffset + c <= 80,
                q >= 0,
        ;
        assert((q + self.vc_voffset) * 80 + 79 < VRAM_CELLS + 80 || q + self.vc_voffset <= 25) by (nonlinear_arith)
            requires
                q + self.vc_voffset <= 25,
        ;
        if index < self.vc_screen_size {
            assert((q + self.vc_voffset) * 80 + 79 < VRAM_CELLS) by (nonlinear_arith)
                requires
                    q + self.vc_voffset <= 24,
            ;
        } else {
            assert((q + self.vc_voffset) * 80 + 79 < VRAM_CELLS + 80) by (nonlinear_arith)
                requires
                    q + self.vc_voffset <= 25,
            ;
        }
    }

    /// A console numbered `id` over a window of `rows` x `cols` cells at
    /// (`horizontal_offset`, `vertical_offset`) with `areas` screens of
    /// scroll-back, its buffer and the text memory blank and writing at the
    /// start of the last row.
    pub fn new(
        id: u8,
        horizontal_offset: usize,
        vertical_offset: usize,
        foreground_color: Color,
        background_color: Color,
        rows: usize,
        cols: usize,
        areas: usize,
    ) -> (r: VgaCon)
        requires
            id < 10,
            1 <= rows,
            2 <= cols,
            1 <= areas,
            rows * cols * areas <= usize::MAX,
            vertical_offset + rows <= VGACON_R,
            horizontal_offset + cols <= VGACON_C,
        ensures
            r.wf(),
            r.vc_num == id,
            r.vc_rows == rows,
            r.vc_cols == cols,
            r.vc_hoffset == horizontal_offset,
            r.vc_voffset == vertical_offset,
            r.vc_foreground_color == foreground_color,
            r.vc_background_color == background_color,
            r.vc_screen_size == rows * cols,
            r.vc_index == cols * (rows - 1),
            r.vc_origin == rows * cols * (areas - 1),
            r.vc_origin == r.vc_visible_origin,
            r.vc_screenbuf_size == rows * cols * areas,
            r.cursor_start == 0 && r.cursor_end == 0 && r.cursor_pos == 0,
            forall|i: int| 0 <= i < r.vc_screenbuf@.len() ==> r.vc_screenbuf@[i] == BLANK,
            forall|i: int| 0 <= i < VRAM_CELLS ==> r.vram@[i] == BLANK,
    {
        proof {
            assert(rows * cols <= 2000) by (nonlinear_arith)
                requires
                    rows <= 25,
                    cols <= 80,
            ;
            assert(rows * cols * areas == rows * cols * (areas - 1) + rows * cols) by (nonlinear_arith);
            assert(cols * (rows - 1) <= rows * cols && cols <= rows * cols) by (nonlinear_arith)
                requires
                    rows >= 1,
            ;
        }
        let screen = rows * cols;
        let size = screen * areas;
        VgaCon {
            vc_num: id,
            vc_voffset: vertical_offset,
            vc_hoffset: horizontal_offset,
            vc_index: cols * (rows - 1),
            vc_screen_size: screen,
            vc_foreground_color: foreground_color,
            vc_background_color: background_color,
            vc_screenbuf: vec![BLANK; size],
            vc_screenbuf_size: size,
            vc_visible_origin: screen * (areas - 1),
            vc_origin: screen * (areas - 1),
            vc_rows: rows,
            vc_cols: cols,
            vram: vec![BLANK; VRAM_CELLS],
            cursor_start: 0,
            cursor_end: 0,
            cursor_pos: 0,
        }
    }

    /// Writes `word` to the text-memory cell of window cell `index`.
    fn write_cell(&mut self, index: usize, word: u16)
        requires
            old(self).wf(),
            index < old(self).vc_screen_size,
        ensures
            final(self).wf(),
            final(self).vram@ == old(self).vram@.update(old(self).offset(index as int), word),
            *final(self) == (VgaCon { vram: final(self).vram, ..*old(self) }),
    {
        proof {
            self.lemma_offset(index as int);
        }
        let off = (index / self.vc_cols + self.vc_voffset) * VGACON_C + self.vc_hoffset + index
            % self.vc_cols;
        self.vram.set(off, word);
    }

    /// The text memory shows the window's view: each cell below the top row
    /// holds the shown part of the buffer, the top-right cell the console's
    /// mark and, while the view is scrolled back, the cell left of it the
    /// indicator.
    pub open spec fn drawn(&self) -> bool {
        &&& self.vram@[self.offset(self.vc_cols - 1)] == VGA_INDEX_MARK + self.vc_num
        &&& self.vc_visible_origin != self.vc_origin ==> self.vram@[self.offset(self.vc_cols - 2)]
            == VISUAL_INDICATOR
        &&& forall|i: int|
            self.vc_cols <= i < self.vc_screen_size ==> self.vram@[#[trigger] self.offset(i)]
                == self.vc_screenbuf@[self.vc_visible_origin + i]
    }

    /// `self` and `o` have the same geometry, number, colors and cursor
    /// registers.
    pub open spec fn same_shape(&self, o: &VgaCon) -> bool {
        &&& self.vc_num == o.vc_num
        &&& self.vc_voffset == o.vc_voffset
        &&& self.vc_hoffset == o.vc_hoffset
        &&& self.vc_screen_size == o.vc_screen_size
        &&& self.vc_foreground_color == o.vc_foreground_color
        &&& self.vc_background_color == o.vc_background_color
        &&& self.vc_screenbuf_size == o.vc_screenbuf_size
        &&& self.vc_rows == o.vc_rows
        &&& self.vc_cols == o.vc_cols
    }

    /// Redraws the window from the shown part of the buffer, then the
    /// console's mark in the top-right cell and, while the view is scrolled
    /// back, the indicator left of it.
    pub fn restore(&mut self)
        requires
            old(self).wf(),
        ensures
            final(self).wf(),
            final(self).same_shape(&*old(self)),
            final(self).vc_screenbuf@ == old(self).vc_screenbuf@,
            final(self).vc_index == old(self).vc_index,
            final(self).vc_origin == old(self).vc_origin,
            final(self).vc_visible_origin == old(self).vc_visible_origin,
            final(self).cursor_pos == old(self).cursor_pos,
            final(self).cursor_start == old(self).cursor_start,
            final(self).cursor_end == old(self).cursor_end,
            final(self).drawn(),
    {
        let n = self.vc_screen_size;
        let mut i: usize = 0;
        while i < n
            invariant
                self.wf(),
                self.same_shape(&*old(self)),
                n == self.vc_screen_size,
                i <= n,
                self.vc_screenbuf@ == old(self).vc_screenbuf@,
                self.vc_index == old(self).vc_index,
                self.vc_origin == old(self).vc_origin,
                self.vc_visible_origin == old(self).vc_visible_origin,
                self.cursor_pos == old(self).cursor_pos,
                self.cursor_start == old(self).cursor_start,
                self.cursor_end == old(self).cursor_end,
                forall|j: int|
                    0 <= j < i ==> self.vram@[#[trigger] self.offset(j)] == self.vc_screenbuf@[self.vc_visible_origin + j],
            decreases n - i,
        {
            let ghost before = self.vram@;
            let ghost s0 = *self;
            let word = self.vc_screenbuf[self.vc_visible_origin + i];
            self.write_cell(i, word);
            proof {
                assert forall|j: int| 0 <= j < i + 1 implies self.vram@[#[trigger] self.offset(j)]
                    == self.vc_screenbuf@[self.vc_visible_origin + j] by {
                    self.lemma_offset(i as int);
                    self.lemma_offset(j);
                    if j < i {
                        self.lemma_offset_injective(j, i as int);
                        assert(before[s0.offset(j)] == s0.vc_screenbuf@[s0.vc_visible_origin + j]);
                        assert(s0.offset(j) == self.offset(j));
                    }
                }
            }
            i = i + 1;
        }
        let ghost drawn = self.vram@;
        let ghost s1 = *self;
        proof {
            self.lemma_offset(self.vc_cols - 1);
            self.lemma_offset(self.vc_cols - 2);
        }
        self.write_cell(self.vc_cols - 1, VGA_INDEX_MARK + self.vc_num as u16);
        let ghost marked = self.vram@;
        if self.vc_visible_origin != self.vc_origin {
            self.write_cell(self.vc_cols - 2, VISUAL_INDICATOR);
            proof {
                self.lemma_offset_injective(self.vc_cols - 2, self.vc_cols - 1);
                assert(self.vram@[self.offset(self.vc_cols - 1)] == marked[self.offset(self.vc_cols - 1)]);
            }
        }
        proof {
            assert forall|j: int| self.vc_cols <= j < self.vc_screen_size implies self.vram@[#[trigger] self.offset(j)]
                == self.vc_screenbuf@[self.vc_visible_origin + j] by {
                self.lemma_offset(j);
                self.lemma_offset_injective(self.vc_cols - 1, j);
                self.lemma_offset_injective(self.vc_cols - 2, j);
                assert(drawn[s1.offset(j)] == s1.vc_screenbuf@[s1.vc_visible_origin + j]);
                assert(s1.offset(j) == self.offset(j));
                assert(marked[self.offset(j)] == drawn[self.offset(j)]);
            }
            assert forall|j: int| old(self).vc_cols <= j < old(self).vc_screen_size implies self.vram@[#[trigger] old(self).offset(j)]
                == old(self).vc_screenbuf@[old(self).vc_visible_origin + j] by {
                assert(old(self).offset(j) == self.offset(j));
            }
            assert(old(self).offset(old(self).vc_cols - 1) == self.offset(self.vc_cols - 1));
            assert(old(self).offset(old(self).vc_cols - 2) == self.offset(self.vc_cols - 2));
        }
    }

    proof fn lemma_offset_injective(&self, a: int, b: int)
        requires
            self.wf(),
            0 <= a < b < self.vc_screen_size,
        ensures
            self.offset(a) != self.offset(b),
    {
        let c = self.vc_cols as int;
        let qa = a / c;
        let ra = a % c;
        let qb = b / c;
        let rb = b % c;
        assert(a == c * qa + ra && 0 <= ra < c && b == c * qb + rb && 0 <= rb < c) by (nonlinear_arith)
            requires
                c > 0,
                qa == a / c,
                ra == a % c,
                qb == b / c,
                rb == b % c,
        ;
        if qa == qb {
            assert(ra != rb) by (nonlinear_arith)
                requires
                    a == c * qa + ra,
                    b == c * qb + rb,
                    qa == qb,
                    a < b,
            ;
        } else {
            assert(self.offset(a) != self.offset(b)) by (nonlinear_arith)
                requires
                    self.offset(a) == (qa + self.vc_voffset) * 80 + self.vc_hoffset + ra,
                    self.offset(b) == (qb + self.vc_voffset) * 80 + self.vc_hoffset + rb,
                    qa != qb,
                    0 <= ra < c,
                    0 <= rb < c,
                    c <= 80,
            ;
        }
    }

    /// Moves the view: `ScUp` / `ScDown` by `lines` rows (nothing without
    /// a count), `GoToTop` / `GoToBottom` to the oldest / newest screen.
    /// Scrolling down past the newest screen pushes the buffer up by the
    /// excess, blank rows entering at the bottom, and writing resumes at the
    /// start of the last row. The window is then redrawn.
    pub fn scroll(&mut self, dir: ScrollDir, lines: Option<usize>)
        requires
            old(self).wf(),
        ensures
            final(self).wf(),
            final(self).same_shape(&*old(self)),
            final(self).vc_origin == old(self).vc_origin,
            final(self).cursor_pos == old(self).cursor_pos,
            final(self).drawn(),
            ({
                let delta = match lines {
                    Some(l) => if l * old(self).vc_cols > usize::MAX {
                        usize::MAX as int
                    } else {
                        l * old(self).vc_cols
                    },
                    None => 0,
                };
                let v = old(self).vc_visible_origin as int;
                let o = old(self).vc_origin as int;
                let size = old(self).vc_screenbuf_size as int;
                let sum = if v + delta > usize::MAX {
                    usize::MAX as int
                } else {
                    v + delta
                };
                let adj = if sum - o < size {
                    sum - o
                } else {
                    size
                };
                if dir == ScrollDir::ScDown && lines is Some {
                    &&& final(self).vc_visible_origin == if sum < o {
                        sum
                    } else {
                        o
                    }
                    &&& final(self).vc_index == old(self).vc_cols * (old(self).vc_rows - 1)
                    &&& final(self).vc_screenbuf@ == Seq::new(
                        size as nat,
                        |i: int|
                            if adj > 0 && i + adj < size {
                                old(self).vc_screenbuf@[i + adj]
                            } else if adj > 0 {
                                BLANK
                            } else {
                                old(self).vc_screenbuf@[i]
                            },
                    )
                } else {
                    &&& final(self).vc_index == old(self).vc_index
                    &&& final(self).vc_screenbuf@ == old(self).vc_screenbuf@
                    &&& final(self).vc_visible_origin == match dir {
                        ScrollDir::ScUp => if lines is Some {
                            if delta > v {
                                0
                            } else {
                                v - delta
                            }
                        } else {
                            v
                        },
                        ScrollDir::GoToBottom => o,
                        ScrollDir::GoToTop => 0,
                        ScrollDir::ScDown => v,
                    }
                }
            }),
    {
        let delta: usize = match lines {
            Some(l) => {
                let c = self.vc_cols;
                if l > usize::MAX / c {
                    proof {
                        assert(l * c > usize::MAX) by (nonlinear_arith)
                            requires
                                l > usize::MAX as int / c as int,
                                c > 0,
                        ;
                    }
                    usize::MAX
                } else {
                    proof {
                        assert(l * c <= usize::MAX) by (nonlinear_arith)
                            requires
                                l <= usize::MAX as int / c as int,
                                c > 0,
                        ;
                    }
                    l * c
                }
            },
            None => 0,
        };
        match dir {
            ScrollDir::ScUp => {
                if lines.is_some() {
                    self.vc_visible_origin = if delta > self.vc_visible_origin {
                        0
                    } else {
                        self.vc_visible_origin - delta
                    };
                }
            },
            ScrollDir::ScDown => {
                if lines.is_some() {
                    let sum = if delta > usize::MAX - self.vc_visible_origin {
                        usize::MAX
                    } else {
                        self.vc_visible_origin + delta
                    };
                    let excess = if sum > self.vc_origin {
                        sum - self.vc_origin
                    } else {
                        0
                    };
                    let adjusted = if excess < self.vc_screenbuf_size {
                        excess
                    } else {
                        self.vc_screenbuf_size
                    };
                    self.vc_visible_origin = if sum < self.vc_origin {
                        sum
                    } else {
                        self.vc_origin
                    };
                    if adjusted > 0 {
                        self.shift_buffer(adjusted);
                    }
                    proof {
                        assert(self.vc_cols * (self.vc_rows - 1) <= self.vc_screen_size) by (nonlinear_arith)
                            requires
                                self.vc_screen_size == self.vc_rows * self.vc_cols,
                                self.vc_rows >= 1,
                        ;
                    }
                    self.vc_index = self.vc_cols * (self.vc_rows - 1);
                }
            },
            ScrollDir::GoToBottom => {
                self.vc_visible_origin = self.vc_origin;
            },
            ScrollDir::GoToTop => {
                self.vc_visible_origin = 0;
            },
        }
        let ghost before = self.vc_screenbuf@;
        self.restore();
        proof {
            if dir == ScrollDir::ScDown && lines is Some {
                let size = self.vc_screenbuf_size as int;
                assert(self.vc_screenbuf@ =~= Seq::new(
                    size as nat,
                    |i: int|
                        if before == old(self).vc_screenbuf@ {
                            old(self).vc_screenbuf@[i]
                        } else {
                            before[i]
                        },
                ));
            }
        }
    }

    /// Moves the buffer up by `by` cells, blank cells entering at the end.
    fn shift_buffer(&mut self, by: usize)
        requires
            old(self).wf(),
            0 < by <= old(self).vc_screenbuf_size,
        ensures
            final(self).vc_screenbuf@ == Seq::new(
                old(self).vc_screenbuf_size as nat,
                |i: int|
                    if i + by < old(self).vc_screenbuf_size {
                        old(self).vc_screenbuf@[i + by]
                    } else {
                        BLANK
                    },
            ),
            *final(self) == (VgaCon { vc_screenbuf: final(self).vc_screenbuf, ..*old(self) }),
            final(self).wf(),
    {
        let n = self.vc_screenbuf_size;
        let mut i: usize = 0;
        while i < n
            invariant
                i <= n,
                n == old(self).vc_screenbuf_size,
                0 < by <= n,
                *self == (VgaCon { vc_screenbuf: self.vc_screenbuf, ..*old(self) }),
                self.vc_screenbuf@.len() == n,
                forall|j: int|
                    0 <= j < i ==> self.vc_screenbuf@[j] == if j + by < n {
                        old(self).vc_screenbuf@[j + by]
                    } else {
                        BLANK
                    },
                forall|j: int| i <= j < n ==> self.vc_screenbuf@[j] == old(self).vc_screenbuf@[j],
            decreases n - i,
        {
            let w = if i < n - by {
                self.vc_screenbuf[i + by]
            } else {
                BLANK
            };
            self.vc_screenbuf.set(i, w);
            i = i + 1;
        }
        assert(self.vc_screenbuf@ =~= Seq::new(
            old(self).vc_screenbuf_size as nat,
            |i: int|
                if i + by < old(self).vc_screenbuf_size {
                    old(self).vc_screenbuf@[i + by]
                } else {
                    BLANK
                },
        ));
    }

    /// Stores the cursor position (the text-memory cell of the next write)
    /// for the CRT controller.
    pub fn cursor_update(&mut self)
        requires
            old(self).wf(),
        ensures
            final(self).cursor_pos == old(self).offset(old(self).vc_index as int),
            *final(self) == (VgaCon { cursor_pos: final(self).cursor_pos, ..*old(self) }),
    {
        proof {
            self.lemma_offset(self.vc_index as int);
        }
        let pos = (self.vc_index / self.vc_cols + self.vc_voffset) * VGACON_C + self.vc_hoffset
            + self.vc_index % self.vc_cols;
        self.cursor_pos = pos as u16;
    }

    /// Writes byte `c` at the cursor in colors `foreground` on `background`
    /// (the console's own where `None`), after returning the view to the
    /// newest screen and, on a full screen, scrolling one row.
    pub fn cputc(&mut self, c: u8, foreground: Option<u8>, background: Option<u8>)
        requires
            old(self).wf(),
        ensures
            final(self).wf(),
            final(self).same_shape(&*old(self)),
            final(self).vc_origin == old(self).vc_origin,
            final(self).vc_visible_origin == final(self).vc_origin,
            1 <= final(self).vc_index,
            ({
                let bg = match background {
                    Some(b) => b,
                    None => old(self).vc_background_color.spec_code(),
                };
                let fg = match foreground {
                    Some(f) => f,
                    None => old(self).vc_foreground_color.spec_code(),
                };
                let w = cell(c, fg, bg);
                let at = final(self).vc_index - 1;
                &&& final(self).vc_screenbuf@[final(self).vc_origin + at] == w
                &&& final(self).vram@[final(self).offset(at)] == w
                &&& (old(self).vc_visible_origin == old(self).vc_origin && old(self).vc_index
                    < old(self).vc_screen_size) ==> {
                    &&& final(self).vc_index == old(self).vc_index + 1
                    &&& final(self).vc_screenbuf@ == old(self).vc_screenbuf@.update(
                        old(self).vc_origin + old(self).vc_index,
                        w,
                    )
                }
            }),
            final(self).cursor_pos == final(self).offset(final(self).vc_index as int),
    {
        let bg = match background {
            Some(b) => b,
            None => self.vc_background_color.code(),
        };
        let fg = match foreground {
            Some(f) => f,
            None => self.vc_foreground_color.code(),
        };
        let word = (c as u16 | ((bg & 0xf) as u16) << 12u16 | ((fg & 0xf) as u16) << 8u16) as u16;
        if self.vc_visible_origin != self.vc_origin {
            self.scroll(ScrollDir::GoToBottom, None);
        }
        if self.vc_index == self.vc_screen_size {
            self.scroll(ScrollDir::ScDown, Some(1));
            proof {
                assert(self.vc_cols * (self.vc_rows - 1) < self.vc_screen_size) by (nonlinear_arith)
                    requires
                        self.vc_screen_size == self.vc_rows * self.vc_cols,
                        self.vc_cols >= 2,
                        self.vc_index == self.vc_cols * (self.vc_rows - 1),
                ;
            }
        }
        let index = self.vc_index;
        self.vc_screenbuf.set(index + self.vc_origin, word);
        self.write_cell(index, word);
        self.vc_index = index + 1;
        self.cursor_update();
        proof {
            self.lemma_offset(index as int);
            assert(word == cell(c, fg, bg));
            assert(self.vc_screenbuf@[self.vc_origin + index] == word);
            assert(self.vram@[self.offset(index as int)] == word);
        }
    }

    /// Writes byte `c` at the cursor in the console's colors.
    pub fn putc(&mut self, c: u8)
        requires
            old(self).wf(),
        ensures
            final(self).wf(),
            final(self).same_shape(&*old(self)),
            1 <= final(self).vc_index,
            final(self).vc_screenbuf@[final(self).vc_origin + final(self).vc_index - 1] == cell(
                c,
                old(self).vc_foreground_color.spec_code(),
                old(self).vc_background_color.spec_code(),
            ),
    {
        self.cputc(c, None, None);
    }

    /// Writes `bytes` in colors `foreground` on `background`: a newline
    /// scrolls one row, printable ASCII is written as is and any other byte
    /// as a block (0xfe) in the console's colors.
    pub fn cputstr(&mut self, bytes: &[u8], foreground: Option<u8>, background: Option<u8>)
        requires
            old(self).wf(),
        ensures
            final(self).wf(),
            final(self).same_shape(&*old(self)),
    {
        let mut i: usize = 0;
        while i < bytes.len()
            invariant
                self.wf(),
                self.same_shape(&*old(self)),
                i <= bytes@.len(),
            decreases bytes@.len() - i,
        {
            let b = bytes[i];
            if b == 0x0a {
                self.scroll(ScrollDir::ScDown, Some(1));
            } else if 0x20 <= b && b <= 0x7e {
                self.cputc(b, foreground, background);
            } else {
                self.cputc(0xfe, None, None);
            }
            i = i + 1;
        }
    }

    /// Writes `bytes` in the console's colors.
    pub fn putstr(&mut self, bytes: &[u8])
        requires
            old(self).wf(),
        ensures
            final(self).wf(),
            final(self).same_shape(&*old(self)),
    {
        self.cputstr(bytes, None, None);
    }

    /// Enables or disables the text cursor in the cursor-start register.
    pub fn cursor(&mut self, enable: bool)
        ensures
            enable ==> final(self).cursor_start == old(self).cursor_start & CURSOR_ENABLE_MASK,
            !enable ==> final(self).cursor_start == old(self).cursor_start | CURSOR_DISABLE_MASK,
            *final(self) == (VgaCon { cursor_start: final(self).cursor_start, ..*old(self) }),
    {
        if enable {
            self.cursor_start = self.cursor_start & CURSOR_ENABLE_MASK;
        } else {
            self.cursor_start = self.cursor_start | CURSOR_DISABLE_MASK;
        }
    }

    /// Sets the cursor to span scan lines `from` to `to`; a line above 16
    /// leaves the registers as they are.
    pub fn cursor_size(&mut self, from: u8, to: u8)
        ensures
            from > 16 || to > 16 ==> *final(self) == *old(self),
            from <= 16 && to <= 16 ==> final(self).cursor_start == (old(self).cursor_start & 0xc0) | from
                && final(self).cursor_end == (old(self).cursor_end & 0xe0) | to,
            *final(self) == (VgaCon {
                cursor_start: final(self).cursor_start,
                cursor_end: final(self).cursor_end,
                ..*old(self)
            }),
    {
        if from > 16 || to > 16 {
            return;
        }
        self.cursor_start = (self.cursor_start & 0xc0) | from;
        self.cursor_end = (self.cursor_end & 0xe0) | to;
    }

    /// Clears what `mode` names: the window in text memory
    /// (`BlankScreen`, `BlankScreenVisibleBuffer`, `BlankAll`), the shown
    /// part of the buffer (`BlankScreenVisibleBuffer`, `BlankAll`) and the
    /// whole buffer (`BlankFullBuffer`, `BlankAll`).
    pub fn blank(&mut self, mode: BlankingMode)
        requires
            old(self).wf(),
        ensures
            final(self).wf(),
            final(self).same_shape(&*old(self)),
            final(self).vc_visible_origin == old(self).vc_visible_origin,
            final(self).vc_origin == old(self).vc_origin,
            final(self).vc_index == old(self).vc_index,
            mode != BlankingMode::BlankFullBuffer ==> forall|i: int|
                0 <= i < old(self).vc_screen_size ==> final(self).vram@[#[trigger] old(self).offset(i)] == BLANK,
            mode == BlankingMode::BlankFullBuffer ==> final(self).vram@ == old(self).vram@,
            ({
                let v = old(self).vc_visible_origin as int;
                let n = old(self).vc_screen_size as int;
                forall|i: int|
                    0 <= i < old(self).vc_screenbuf_size ==> #[trigger] final(self).vc_screenbuf@[i] == if mode
                        == BlankingMode::BlankAll || mode == BlankingMode::BlankFullBuffer || (mode
                        == BlankingMode::BlankScreenVisibleBuffer && v <= i < v + n) {
                        BLANK
                    } else {
                        old(self).vc_screenbuf@[i]
                    }
            }),
    {
        let n = self.vc_screen_size;
        if mode != BlankingMode::BlankFullBuffer {
            let mut i: usize = 0;
            while i < n
                invariant
                    self.wf(),
                    n == self.vc_screen_size,
                    i <= n,
                    *self == (VgaCon { vram: self.vram, ..*old(self) }),
                    forall|j: int| 0 <= j < i ==> self.vram@[#[trigger] self.offset(j)] == BLANK,
                decreases n - i,
            {
                let ghost s0 = *self;
                self.write_cell(i, BLANK);
                proof {
                    assert forall|j: int| 0 <= j < i + 1 implies self.vram@[#[trigger] self.offset(j)]
                        == BLANK by {
                        self.lemma_offset(i as int);
                        self.lemma_offset(j);
                        if j < i {
                            self.lemma_offset_injective(j, i as int);
                            assert(s0.vram@[s0.offset(j)] == BLANK);
                            assert(s0.offset(j) == self.offset(j));
                        }
                    }
                }
                i = i + 1;
            }
        }
        let ghost screen = self.vram@;
        let ghost s1 = *self;
        let size = self.vc_screenbuf_size;
        let v = self.vc_visible_origin;
        let mut k: usize = 0;
        while k < size
            invariant
                self.wf(),
                size == self.vc_screenbuf_size,
                v == self.vc_visible_origin,
                k <= size,
                self.vram@ == screen,
                *self == (VgaCon { vc_screenbuf: self.vc_screenbuf, vram: self.vram, ..*old(self) }),
                self.same_shape(&*old(self)),
                self.vc_origin == old(self).vc_origin,
                self.vc_index == old(self).vc_index,
                forall|j: int|
                    0 <= j < size ==> #[trigger] self.vc_screenbuf@[j] == if j < k && (mode == BlankingMode::BlankAll
                        || mode == BlankingMode::BlankFullBuffer || (mode
                        == BlankingMode::BlankScreenVisibleBuffer && v <= j < v + n)) {
                        BLANK
                    } else {
                        old(self).vc_screenbuf@[j]
                    },
            decreases size - k,
        {
            if mode == BlankingMode::BlankAll || mode == BlankingMode::BlankFullBuffer || (mode
                == BlankingMode::BlankScreenVisibleBuffer && v <= k && k - v < n) {
                self.vc_screenbuf.set(k, BLANK);
            }
            k = k + 1;
        }
        proof {
            if mode != BlankingMode::BlankFullBuffer {
                assert forall|i: int| 0 <= i < old(self).vc_screen_size implies self.vram@[#[trigger] old(self).offset(i)]
                    == BLANK by {
                    assert(s1.vram@[s1.offset(i)] == BLANK);
                    assert(s1.offset(i) == old(self).offset(i));
                }
            }
        }
    }
}

} // verus!
