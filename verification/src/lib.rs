pub mod buffer2d;
pub mod guillotine_packer;
pub mod maxrect_packer;
pub mod rect;
pub mod shelf_packer;

pub use buffer2d::{Buffer2d, PixelBuffer, ResizeBuffer};
pub use guillotine_packer::GuillotinePacker;
pub use maxrect_packer::MaxrectPacker;
pub use rect::Rect;
pub use shelf_packer::ShelfPacker;
