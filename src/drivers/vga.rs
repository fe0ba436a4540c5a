use vstd::prelude::*;

verus! {

/// Columns of the screen.
pub const VGA_WIDTH: usize = 80;

/// Rows of the screen.
pub const VGA_HEIGHT: usize = 25;

/// Cells of the screen.
pub const VGA_CELLS: usize = 2000;

/// The sixteen text-mode colors.
#[derive(Copy, Clone, Debug, PartialEq, Eq, Structural)]
pub enum Color {
    Black,
    Blue,
    Green,
    Cyan,
    Red,
    Magenta,
    Brown,
    LightGray,
    DarkGray,
    LightBlue,
    LightGreen,
    LightCyan,
    LightRed,
    Pink,
    Yellow,
    White,
}

/// The cell for byte `c` in color `fg` on `bg`.
pub open spec fn vga_cell(c: u8, fg: u8, bg: u8) -> u16 {
    (c as u16 | ((fg | (bg << 4u8)) as u16) << 8u16) as u16
}

/// A text cell: the byte in the low half, the foreground color in bits
/// 8-11 and the background color in bits 12-15.
#[derive(Copy, Clone, Debug, PartialEq, Eq, Structural)]
pub struct VGAChar(pub u16);

impl VGAChar {
    /// The cell for byte `c` in color `fg` on `bg`.
    pub fn new(c: u8, fg: u8, bg: u8) -> (r: VGAChar)
        ensures
            r.0 == vga_cell(c, fg, bg),
    {
        VGAChar((c as u16 | ((fg | (bg << 4u8)) as u16) << 8u16) as u16)
    }

    /// The byte, foreground and background of cell `c`.
    pub fn get_vgac(c: VGAChar) -> (r: (u8, u8, u8))
        ensures
            r.0 == c.0 & 0xff,
            r.1 == (c.0 >> 8u16) & 0xf,
            r.2 == (c.0 >> 12u16) & 0xf,
    {
        let w = c.0;
        assert(w & 0xff <= 0xff && (w >> 8u16) & 0xf <= 0xf && (w >> 12u16) & 0xf <= 0xf) by (bit_vector);
        ((w & 0xff) as u8, ((w >> 8u16) & 0xf) as u8, ((w >> 12u16) & 0xf) as u8)
    }
}

/// Reading a cell back gives the byte and the two colors it was made from.
pub proof fn lemma_vga_char_round_trip(c: u8, fg: u8, bg: u8)
    requires
        fg < 16,
        bg < 16,
    ensures
        vga_cell(c, fg, bg) & 0xff == c,
        (vga_cell(c, fg, bg) >> 8u16) & 0xf == fg,
        (vga_cell(c, fg, bg) >> 12u16) & 0xf == bg,
{
    assert(((c as u16 | ((fg | (bg << 4u8)) as u16) << 8u16) as u16) & 0xff == c as u16 && (((c as u16
        | ((fg | (bg << 4u8)) as u16) << 8u16) as u16) >> 8u16) & 0xf == fg as u16 && (((c as u16 | ((fg
        | (bg << 4u8)) as u16) << 8u16) as u16) >> 12u16) & 0xf == bg as u16) by (bit_vector)
        requires
            fg < 16,
            bg < 16,
    ;
}

/// The blank cell: a space, white on black.
pub const BLANK_CELL: u16 = 0x0f20;

/// The screen after `putchar(c)` from cursor `index` over `screen`: a
/// newline moves to the start of the next row, any other byte is written
/// white on black at the cursor, which advances; a cursor that reaches the
/// end moves back one row and the screen scrolls up one row (the last row
/// keeps what it held).
pub open spec fn putchar_result(index: int, screen: Seq<u16>, c: u8) -> (int, Seq<u16>) {
    let (i1, s1) = if c == 0x0a {
        ((index / VGA_WIDTH as int + 1) * VGA_WIDTH as int, screen)
    } else {
        (index + 1, screen.update(index, vga_cell(c, 15, 0)))
    };
    if i1 == VGA_CELLS {
        (
            i1 - VGA_WIDTH,
            Seq::new(
                VGA_CELLS as nat,
                |j: int|
                    if j < VGA_CELLS - VGA_WIDTH {
                        s1[j + VGA_WIDTH as int]
                    } else {
                        s1[j]
                    },
            ),
        )
    } else {
        (i1, s1)
    }
}

/// The boot console: a screen of cells and a cursor.
pub struct VGA {
    c_index: usize,
    buffer: Vec<u16>,
}

impl VGA {
    /// The cursor.
    pub closed spec fn index(&self) -> int {
        self.c_index as int
    }

    /// The screen's cells, row by row.
    pub closed spec fn screen(&self) -> Seq<u16> {
        self.buffer@
    }

    pub closed spec fn wf(&self) -> bool {
        &&& self.buffer@.len() == VGA_CELLS
        &&& self.c_index < VGA_CELLS
    }

    /// A blank screen with the cursor at the top left.
    pub fn new() -> (r: VGA)
        ensures
            r.wf(),
            r.index() == 0,
            r.screen() == Seq::new(VGA_CELLS as nat, |i: int| BLANK_CELL),
    {
        let r = VGA { c_index: 0, buffer: vec![BLANK_CELL; VGA_CELLS] };
        assert(r.screen() =~= Seq::new(VGA_CELLS as nat, |i: int| BLANK_CELL));
        r
    }

    /// The screen's cells, to be copied to text memory.
    pub fn cells(&self) -> (r: &Vec<u16>)
        ensures
            r@ == self.screen(),
    {
        &self.buffer
    }

    /// Writes byte `c` (see `putchar_result`).
    pub fn putchar(&mut self, c: u8)
        requires
            old(self).wf(),
        ensures
            final(self).wf(),
            (final(self).index(), final(self).screen()) == putchar_result(old(self).index(), old(self).screen(), c),
    {
        if c == 0x0a {
            proof {
                let w = VGA_WIDTH as int;
                let i = self.c_index as int;
                assert((i / w + 1) * w <= VGA_CELLS && (i / w + 1) * w > i) by (nonlinear_arith)
                    requires
                        0 <= i < 2000,
                        w == 80,
                ;
            }
            self.c_index = (self.c_index / VGA_WIDTH + 1) * VGA_WIDTH;
        } else {
            let cell = VGAChar::new(c, 15, 0);
            self.buffer.set(self.c_index, cell.0);
            self.c_index = self.c_index + 1;
        }
        if self.c_index == VGA_CELLS {
            self.c_index = self.c_index - VGA_WIDTH;
            self.scrolldown(1);
        }
    }

    /// Moves every row up by `i` rows; the last `i` rows keep what they
    /// held.
    pub fn scrolldown(&mut self, i: usize)
        requires
            old(self).screen().len() == VGA_CELLS,
            i < VGA_HEIGHT,
        ensures
            final(self).index() == old(self).index(),
            final(self).screen() == Seq::new(
                VGA_CELLS as nat,
                |j: int|
                    if j < VGA_CELLS - i * VGA_WIDTH {
                        old(self).screen()[j + i * VGA_WIDTH]
                    } else {
                        old(self).screen()[j]
                    },
            ),
    {
        let shift = i * VGA_WIDTH;
        let mut y: usize = 0;
        let mut j: usize = shift;
        while j < VGA_CELLS
            invariant
                shift == i * VGA_WIDTH,
                shift <= j <= VGA_CELLS,
                y == j - shift,
                self.buffer@.len() == VGA_CELLS,
                self.c_index == old(self).c_index,
                forall|k: int| 0 <= k < y ==> self.buffer@[k] == old(self).buffer@[k + shift],
                forall|k: int| y <= k < VGA_CELLS ==> self.buffer@[k] == old(self).buffer@[k],
            decreases VGA_CELLS - j,
        {
            let v = self.buffer[j];
            self.buffer.set(y, v);
            y = y + 1;
            j = j + 1;
        }
        assert(self.screen() =~= Seq::new(
            VGA_CELLS as nat,
            |k: int|
                if k < VGA_CELLS - i * VGA_WIDTH {
                    old(self).screen()[k + i * VGA_WIDTH]
                } else {
                    old(self).screen()[k]
                },
        ));
    }

    /// Writes each byte of `bytes` with `putchar`.
    pub fn putstr(&mut self, bytes: &[u8])
        requires
            old(self).wf(),
        ensures
            final(self).wf(),
    {
        let mut k: usize = 0;
        while k < bytes.len()
            invariant
                self.wf(),
                k <= bytes@.len(),
            decreases bytes@.len() - k,
        {
            self.putchar(bytes[k]);
            k = k + 1;
        }
    }
}

} // verus!
