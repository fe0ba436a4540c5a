use vstd::prelude::*;

verus! {

/// A blank cell: a space, light gray on black.
pub const BLANK: u16 = 0x0720;

/// The sixteen text-mode colors.
#[derive(Copy, Clone, Debug, PartialEq, Eq, Structural)]
pub enum VGAColor {
    Black,
    Blue,
    Green,
    Cyan,
    Red,
    Magenta,
    Brown,
    LightGray,
    DarkGray,
    LightBlue,
    LightGreen,
    LightCyan,
    LightRed,
    Pink,
    Yellow,
    White,
}

/// Cursor shapes; `Hidden` turns the cursor off.
#[derive(Copy, Clone, Debug, PartialEq, Eq, Structural)]
pub enum CursorTypes {
    Underline,
    LowerThird,
    LowerHalf,
    Full,
    Hidden,
}

/// Windows of video memory the console can use.
#[derive(Copy, Clone, Debug, PartialEq, Eq, Structural)]
pub enum MemoryRanges {
    Large,
    Medium,
    Small,
}

/// Scrolling requests.
#[derive(Copy, Clone, Debug, PartialEq, Eq, Structural)]
pub enum ScrollDir {
    VisualUp,
    VisualDown,
    Down,
    Top,
    Bottom,
}

impl MemoryRanges {
    pub open spec fn spec_base(&self) -> u32 {
        match self {
            MemoryRanges::Small => 0xb8000,
            _ => 0xa0000,
        }
    }

    pub open spec fn spec_size(&self) -> u32 {
        match self {
            MemoryRanges::Large => 0x20000,
            MemoryRanges::Medium => 0x10000,
            MemoryRanges::Small => 0x8000,
        }
    }

    /// Start of the window.
    pub fn base(&self) -> (r: u32)
        ensures
            r == self.spec_base(),
    {
        match self {
            MemoryRanges::Small => 0xb8000,
            _ => 0xa0000,
        }
    }

    /// Bytes in the window.
    pub fn size(&self) -> (r: u32)
        ensures
            r == self.spec_size(),
    {
        match self {
            MemoryRanges::Large => 0x20000,
            MemoryRanges::Medium => 0x10000,
            MemoryRanges::Small => 0x8000,
        }
    }

    /// The value of the graphics controller's memory-map register that
    /// selects the window, where it must be set (the text window is the
    /// default).
    pub fn misc_value(&self) -> (r: Option<u8>)
        ensures
            *self == MemoryRanges::Large ==> r == Some(0u8),
            *self == MemoryRanges::Medium ==> r == Some(1u8),
            *self == MemoryRanges::Small ==> r is None,
    {
        match self {
            MemoryRanges::Large => Some(0),
            MemoryRanges::Medium => Some(1),
            MemoryRanges::Small => None,
        }
    }
}

/// The scan lines the start and end registers select for a cursor shape;
/// `None` for a hidden cursor.
pub open spec fn cursor_span(t: CursorTypes) -> Option<(u8, u8)> {
    match t {
        CursorTypes::Full => Some((0u8, 16u8)),
        CursorTypes::LowerHalf => Some((8u8, 16u8)),
        CursorTypes::LowerThird => Some((10u8, 16u8)),
        CursorTypes::Underline => Some((15u8, 16u8)),
        CursorTypes::Hidden => None,
    }
}

/// Scan lines of the display for `height` rows of 16-line characters, as
/// the CRT controller counts them with maximum-scan register `max_scan`
/// (bit 7: scan doubling) and mode register `mode` (bit 2: clock halved).
pub open spec fn scanlines(height: u8, max_scan: u8, mode: u8) -> u32 {
    let s = (height as u32 * 16) as u32;
    let d = if max_scan & 0x80 != 0 {
        (s * 2) as u32
    } else {
        s
    };
    if mode & 0x04 != 0 {
        d / 2
    } else {
        d
    }
}

/// The register values that resize the display, in the order they are
/// written: the vertical-sync end with write protection off, the horizontal
/// display end, the vertical display end, the row offset, the vertical-sync
/// end again, the overflow register, and the vertical-sync end restored.
#[derive(Copy, Clone, Debug, PartialEq, Eq, Structural)]
pub struct ResizePlan {
    pub vsync_unprotected: u8,
    pub hdisp: u8,
    pub vdisp_end: u8,
    pub offset: u8,
    pub vsync_scanlines: u8,
    pub overflow: u8,
    pub vsync_restored: u8,
}

/// A text console over a window of video memory. Addresses are physical:
/// `vc_origin` starts the newest screen, `vc_visible_origin` the shown one
/// and `vc_index` is where the next cell goes; sizes are in bytes, two per
/// cell.
#[derive(Copy, Clone, Debug, PartialEq, Eq, Structural)]
pub struct VgaConsole {
    pub vc_vram_base: u32,
    pub vc_vram_end: u32,
    pub vc_index: u32,
    pub vc_vram_size: u32,
    pub vc_screen_size: u32,
    pub vc_foreground_color: VGAColor,
    pub vc_background_color: VGAColor,
    pub vc_visible_origin: u32,
    pub vc_origin: u32,
    pub vc_origin_end: u32,
    pub vc_rows: u8,
    pub vc_cols: u8,
    pub vc_cursor_type: CursorTypes,
}

impl VgaConsole {
    pub open spec fn wf(&self) -> bool {
        &&& 1 <= self.vc_cols
        &&& 1 <= self.vc_rows
        &&& self.vc_screen_size == self.vc_rows as int * self.vc_cols as int * 2
        &&& self.vc_vram_end == self.vc_vram_base + self.vc_vram_size
        &&& self.vc_vram_base <= self.vc_visible_origin <= self.vc_origin
        &&& self.vc_origin <= self.vc_index <= self.vc_origin_end
        &&& self.vc_origin_end == self.vc_origin + self.vc_screen_size
        &&& self.vc_origin_end <= self.vc_vram_end
    }

    /// A console of `rows` x `cols` cells in `memory_range`, with everything
    /// at the start of the window; its memory still has to be blanked and
    /// the controller programmed (`blank`, `cursor`, `resize`).
    pub fn new(
        foreground_color: VGAColor,
        background_color: VGAColor,
        rows: u8,
        cols: u8,
        memory_range: MemoryRanges,
    ) -> (r: VgaConsole)
        requires
            1 <= rows,
            1 <= cols,
            rows * cols * 2 <= memory_range.spec_size(),
        ensures
            r.wf(),
            r.vc_vram_base == memory_range.spec_base(),
            r.vc_vram_size == memory_range.spec_size(),
            r.vc_index == r.vc_origin,
            r.vc_origin == r.vc_visible_origin,
            r.vc_origin == r.vc_vram_base,
            r.vc_rows == rows,
            r.vc_cols == cols,
            r.vc_cursor_type == CursorTypes::Hidden,
    {
        let base = memory_range.base();
        let size = memory_range.size();
        let screen_size: u32 = rows as u32 * cols as u32 * 2;
        VgaConsole {
            vc_vram_base: base,
            vc_vram_end: base + size,
            vc_index: base,
            vc_vram_size: size,
            vc_screen_size: screen_size,
            vc_foreground_color: foreground_color,
            vc_background_color: background_color,
            vc_visible_origin: base,
            vc_origin: base,
            vc_origin_end: base + screen_size,
            vc_rows: rows,
            vc_cols: cols,
            vc_cursor_type: CursorTypes::Hidden,
        }
    }

    /// The start offset for the CRT controller: the shown screen's distance
    /// from the window start, in cells.
    pub fn set_mem_start(&self) -> (r: u16)
        requires
            self.wf(),
        ensures
            r == ((self.vc_visible_origin - self.vc_vram_base) / 2) as u16,
    {
        ((self.vc_visible_origin - self.vc_vram_base) / 2) as u16
    }

    /// The start of the row that holds address `pos`.
    pub fn start_of_line(&self, pos: u32) -> (r: u32)
        requires
            self.wf(),
            self.vc_vram_base <= pos,
        ensures
            r == pos - (pos - self.vc_vram_base) % (self.vc_cols as int * 2),
            self.vc_vram_base <= r <= pos,
            (r - self.vc_vram_base) % (self.vc_cols as int * 2) == 0,
    {
        let rel = pos - self.vc_vram_base;
        let width = self.vc_cols as u32 * 2;
        proof {
            vstd::arithmetic::div_mod::lemma_fundamental_div_mod(rel as int, width as int);
            vstd::arithmetic::div_mod::lemma_mod_multiples_basic(rel as int / width as int, width as int);
            assert((rel as int / width as int) * width == rel - rel % width) by (nonlinear_arith)
                requires
                    rel == width * (rel as int / width as int) + rel % width,
            ;
        }
        rel - rel % width + self.vc_vram_base
    }

    /// Empties the console: everything back at the window start. The
    /// window's memory is then to be filled with `BLANK`.
    pub fn blank(&mut self)
        requires
            old(self).wf(),
        ensures
            final(self).wf(),
            *final(self) == (VgaConsole {
                vc_origin: old(self).vc_vram_base,
                vc_visible_origin: old(self).vc_vram_base,
                vc_index: old(self).vc_vram_base,
                vc_origin_end: (old(self).vc_vram_base + old(self).vc_screen_size) as u32,
                ..*old(self)
            }),
    {
        self.vc_origin = self.vc_vram_base;
        self.vc_visible_origin = self.vc_vram_base;
        self.vc_index = self.vc_vram_base;
        self.vc_origin_end = self.vc_vram_base + self.vc_screen_size;
    }

    /// The new cursor-start and cursor-end register values for scan lines
    /// `from` to `to`, from their current values `start` and `end`.
    pub fn cursor_size(from: u8, to: u8, start: u8, end: u8) -> (r: (u8, u8))
        ensures
            r == ((start & 0xc0) | from, (end & 0xe0) | to),
    {
        ((start & 0xc0) | from, (end & 0xe0) | to)
    }

    /// The cursor registers after placing the cursor at the next cell and,
    /// for `Some(cursor_type)`, giving it that shape: the position in cells
    /// and the new cursor-start and cursor-end values, from their current
    /// values `start` and `end`. A console whose cursor is hidden enables it
    /// first.
    pub fn cursor(&self, cursor_type: Option<CursorTypes>, start: u8, end: u8) -> (r: (u16, u8, u8))
        requires
            self.wf(),
        ensures
            r.0 == ((self.vc_index - self.vc_vram_base) / 2) as u16,
            cursor_type is None ==> r.1 == start && r.2 == end,
            cursor_type matches Some(t) ==> {
                let enabled = if self.vc_cursor_type == CursorTypes::Hidden {
                    start & 0xdf
                } else {
                    start
                };
                match cursor_span(t) {
                    Some((from, to)) => r.1 == (enabled & 0xc0) | from && r.2 == (end & 0xe0) | to,
                    None => r.1 == start | 0x20 && r.2 == end,
                }
            },
    {
        let pos = ((self.vc_index - self.vc_vram_base) / 2) as u16;
        match cursor_type {
            None => (pos, start, end),
            Some(t) => {
                let enabled = if self.vc_cursor_type == CursorTypes::Hidden {
                    start & 0xdf
                } else {
                    start
                };
                let span: Option<(u8, u8)> = match t {
                    CursorTypes::Full => Some((0, 16)),
                    CursorTypes::LowerHalf => Some((8, 16)),
                    CursorTypes::LowerThird => Some((10, 16)),
                    CursorTypes::Underline => Some((15, 16)),
                    CursorTypes::Hidden => None,
                };
                match span {
                    Some((from, to)) => {
                        let (s, e) = Self::cursor_size(from, to, enabled, end);
                        (pos, s, e)
                    },
                    None => (pos, start | 0x20, end),
                }
            },
        }
    }

    /// Resizes the display to `height` rows of `width` columns: records the
    /// new size and gives the CRT register values to write, from the current
    /// maximum-scan, mode, overflow and vertical-sync-end values.
    pub fn resize(
        &mut self,
        height: u8,
        width: u8,
        max_scan: u8,
        mode: u8,
        overflow: u8,
        vsync_end: u8,
    ) -> (r: ResizePlan)
        requires
            1 <= height,
            1 <= width,
        ensures
            *final(self) == (VgaConsole { vc_rows: height, vc_cols: width, ..*old(self) }),
            ({
                let s = (scanlines(height, max_scan, mode) - 1) as u32;
                let r7 = overflow & !0x42u8;
                let r7 = if s & 0x100 != 0 {
                    r7 | 0x02
                } else {
                    r7
                };
                let r7 = if s & 0x200 != 0 {
                    r7 | 0x40
                } else {
                    r7
                };
                r == ResizePlan {
                    vsync_unprotected: vsync_end & !0x80u8,
                    hdisp: (width - 1) as u8,
                    vdisp_end: (s & 0xff) as u8,
                    offset: width >> 1u8,
                    vsync_scanlines: (s & 0xff) as u8,
                    overflow: r7,
                    vsync_restored: vsync_end,
                }
            }),
    {
        let mut lines: u32 = height as u32 * 16;
        if max_scan & 0x80 != 0 {
            lines = lines * 2;
        }
        if mode & 0x04 != 0 {
            lines = lines / 2;
        }
        lines = lines - 1;
        let lo = lines & 0xff;
        assert(lo <= 0xff) by (bit_vector)
            requires
                lo == lines & 0xff,
        ;
        let mut r7 = overflow & !0x42u8;
        if lines & 0x100 != 0 {
            r7 = r7 | 0x02;
        }
        if lines & 0x200 != 0 {
            r7 = r7 | 0x40;
        }
        self.vc_cols = width;
        self.vc_rows = height;
        ResizePlan {
            vsync_unprotected: vsync_end & !0x80u8,
            hdisp: width - 1,
            vdisp_end: lo as u8,
            offset: width >> 1u8,
            vsync_scanlines: lo as u8,
            overflow: r7,
            vsync_restored: vsync_end,
        }
    }
}

} // verus!
