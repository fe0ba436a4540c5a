pub mod crtc;
pub mod gfxc;
pub mod vga;
pub mod vgac;
pub mod vgacon;
