use kernel_core::drivers::vgacon::{
    BlankingMode, Color, ScrollDir, VgaCon, VGACON_C, VGA_INDEX_MARK, VISUAL_INDICATOR,
};

fn console(id: u8, hoffset: usize, rows: usize, cols: usize, areas: usize) -> VgaCon {
    VgaCon::new(id, hoffset, 0, Color::White, Color::Black, rows, cols, areas)
}

#[test]
fn test_screen1() {
    let mut vga = console(1, 0, 25, 80, 1);
    vga.putc(b'>');
    for _i in 0..24 {
        vga.putstr(b"\n");
    }
    assert_eq!(vga.vram[0], 0x0f3e);
    vga.blank(BlankingMode::BlankAll);
    assert_eq!(vga.vram[0], 0);
}

#[test]
fn test_screen2() {
    let mut vga = console(1, 0, 25, 80, 1);
    for _i in 0..((25 * 80) - 1) {
        vga.putc(b'>');
    }
    assert_eq!(vga.vram[(25 * 80) - 2], 0x0f3e);
    assert_eq!(vga.vram[(25 * 80) - 1], 0x0000);
    vga.blank(BlankingMode::BlankAll);
}

#[test]
fn test_scroll() {
    let mut vga = console(1, 20, 25, 40, 3);
    for _i in 0..50 {
        vga.putstr(b">\n");
    }
    vga.scroll(ScrollDir::ScUp, Some(500));
    assert_eq!(vga.vram[20], 0x0000);
    vga.scroll(ScrollDir::ScDown, Some(26));
    assert_eq!(vga.vram[(VGACON_C * 24) + 20], 0x0f3e);
    vga.scroll(ScrollDir::ScDown, Some(1000));
    assert_eq!(vga.vram[20], 0x0000);
    vga.blank(BlankingMode::BlankAll);
}

#[test]
fn test_indicator() {
    let mut vga = console(1, 0, 25, 80, 2);
    vga.scroll(ScrollDir::ScUp, Some(5));
    assert_eq!(vga.vram[VGACON_C - 2], VISUAL_INDICATOR);
    assert_eq!(vga.vram[VGACON_C - 1], VGA_INDEX_MARK + 1);
    vga.scroll(ScrollDir::ScDown, Some(5));
    assert_eq!(vga.vram[VGACON_C - 2], 0x0000);
    assert_eq!(vga.vram[VGACON_C - 1], VGA_INDEX_MARK + 1);
    vga.blank(BlankingMode::BlankAll);
    let mut vga2 = console(2, 0, 25, 80, 1);
    vga2.scroll(ScrollDir::ScUp, Some(5));
    assert_ne!(vga2.vram[VGACON_C - 2], VISUAL_INDICATOR);
    assert_eq!(vga2.vram[VGACON_C - 1], VGA_INDEX_MARK + 2);
}

#[test]
fn colored_output_and_replacement_byte() {
    let mut vga = console(3, 0, 2, 10, 1);
    vga.cputstr(b"a\x01", Some(4), Some(1));
    let start = VGACON_C;
    assert_eq!(vga.vram[start], 0x1461);
    assert_eq!(vga.vram[start + 1], 0x0ffe);
    assert_eq!(vga.vc_index, 12);
    assert_eq!(vga.cursor_pos as usize, VGACON_C + 2);
}

#[test]
fn cursor_registers() {
    let mut vga = console(0, 0, 25, 80, 1);
    vga.cursor_start = 0xff;
    vga.cursor(true);
    assert_eq!(vga.cursor_start, 0xdf);
    vga.cursor(false);
    assert_eq!(vga.cursor_start, 0xff);
    vga.cursor_end = 0xff;
    vga.cursor_size(14, 15);
    assert_eq!((vga.cursor_start, vga.cursor_end), (0xce, 0xef));
    vga.cursor_size(17, 15);
    assert_eq!((vga.cursor_start, vga.cursor_end), (0xce, 0xef));
}

#[test]
fn blank_modes() {
    let mut vga = console(1, 0, 2, 10, 2);
    vga.putstr(b"xy");
    vga.blank(BlankingMode::BlankScreen);
    assert!(vga.vram[0..10].iter().all(|&w| w == 0));
    assert!(vga.vram[VGACON_C..VGACON_C + 10].iter().all(|&w| w == 0));
    assert_eq!(vga.vc_screenbuf[vga.vc_origin + 10], 0x0f78);
    vga.blank(BlankingMode::BlankScreenVisibleBuffer);
    assert_eq!(vga.vc_screenbuf[vga.vc_origin + 10], 0);
    vga.putstr(b"z");
    vga.restore();
    assert_eq!(vga.vram[VGACON_C + 2], 0x0f7a);
    vga.blank(BlankingMode::BlankFullBuffer);
    assert!(vga.vc_screenbuf.iter().all(|&w| w == 0));
    assert_eq!(vga.vram[VGACON_C + 2], 0x0f7a);
}
