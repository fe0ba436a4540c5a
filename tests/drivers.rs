use kernel_core::drivers::vga::{VGAChar, BLANK_CELL, VGA, VGA_CELLS, VGA_WIDTH};
use kernel_core::drivers::vgac::{CursorTypes, MemoryRanges, VGAColor, VgaConsole};

#[test]
fn vga_char_fields() {
    let c = VGAChar::new(b'A', 0xE, 0x1);
    assert_eq!(c.0, 0x1E41);
    assert_eq!(VGAChar::get_vgac(c), (b'A', 0xE, 0x1));
}

#[test]
fn vga_putchar_and_newline() {
    let mut v = VGA::new();
    assert_eq!(v.cells()[0], BLANK_CELL);
    v.putstr(b"hi\nx");
    assert_eq!(v.cells()[0], 0x0f68);
    assert_eq!(v.cells()[1], 0x0f69);
    assert_eq!(v.cells()[VGA_WIDTH], 0x0f78);
}

#[test]
fn vga_scrolls_at_the_end() {
    let mut v = VGA::new();
    for _ in 0..24 {
        v.putchar(b'\n');
    }
    v.putstr(b"last");
    v.putchar(b'\n');
    let cells = v.cells();
    assert_eq!(cells[VGA_CELLS - 2 * VGA_WIDTH], 0x0f6c);
    assert_eq!(cells[VGA_CELLS - VGA_WIDTH], 0x0f6c);
    v.putchar(b'y');
    assert_eq!(v.cells()[VGA_CELLS - VGA_WIDTH], 0x0f79);
}

#[test]
fn vga_scrolldown_moves_rows_up() {
    let mut v = VGA::new();
    v.putstr(b"\nab");
    v.scrolldown(1);
    assert_eq!(v.cells()[0], 0x0f61);
    assert_eq!(v.cells()[1], 0x0f62);
}

#[test]
fn console_layout_and_registers() {
    let mut con = VgaConsole::new(VGAColor::White, VGAColor::Black, 25, 80, MemoryRanges::Small);
    assert_eq!(con.vc_vram_base, 0xb8000);
    assert_eq!(con.vc_vram_end, 0xc0000);
    assert_eq!(con.vc_origin_end, 0xb8000 + 4000);
    assert_eq!(con.start_of_line(0xb8000 + 165), 0xb8000 + 160);
    assert_eq!(con.set_mem_start(), 0);
    assert_eq!(con.cursor(Some(CursorTypes::Full), 0x2e, 0xff), (0, 0x00, 0xf0));
    assert_eq!(con.cursor(Some(CursorTypes::Hidden), 0x0e, 0x0f), (0, 0x2e, 0x0f));
    assert_eq!(con.cursor(None, 0x0e, 0x0f), (0, 0x0e, 0x0f));
    assert_eq!(VgaConsole::cursor_size(8, 16, 0xff, 0xff), (0xc8, 0xf0));
    let plan = con.resize(25, 80, 0x4f, 0x00, 0x1f, 0x8e);
    assert_eq!(plan.hdisp, 79);
    assert_eq!(plan.vdisp_end, 0x8f);
    assert_eq!(plan.offset, 40);
    assert_eq!(plan.overflow, 0x1f);
    assert_eq!(plan.vsync_unprotected, 0x0e);
    assert_eq!(plan.vsync_restored, 0x8e);
    let plan = con.resize(30, 80, 0xcf, 0x00, 0x00, 0x00);
    assert_eq!(plan.vdisp_end, 0xbf);
    assert_eq!(plan.overflow, 0x42);
    assert_eq!((con.vc_rows, con.vc_cols), (30, 80));
    con.blank();
    assert_eq!(con.vc_index, 0xb8000);
    assert_eq!(MemoryRanges::Large.misc_value(), Some(0));
    assert_eq!(MemoryRanges::Medium.size(), 0x10000);
    let medium = VgaConsole::new(VGAColor::White, VGAColor::Black, 25, 80, MemoryRanges::Medium);
    assert_eq!(medium.vc_vram_end, 0xb0000);
    assert_eq!(MemoryRanges::Small.misc_value(), None);
}
