use vstd::prelude::*;

verus! {

/// The two headers of a BMP container, kept so that an image can be written
/// back in the shape it was read from.
#[derive(Debug, Clone, Copy, PartialEq, Eq, Structural)]
pub struct Bitmap {
    pub file_header: BitmapFileHeader,
    pub info_header: BitmapInfoHeader,
}

/// The 14-byte BMP file header.
#[derive(Debug, Clone, Copy, PartialEq, Eq, Structural)]
pub struct BitmapFileHeader {
    pub header_field_a: u8,
    pub header_field_b: u8,
    pub file_size: u32,
    pub reserved_a: u16,
    pub reserved_b: u16,
    pub image_offset: u32,
}

/// The 40-byte BMP info header.
#[derive(Debug, Clone, Copy, PartialEq, Eq, Structural)]
pub struct BitmapInfoHeader {
    pub header_size: u32,
    pub bitmap_width: i32,
    pub bitmap_height: i32,
    pub color_planes: u16,
    pub bit_count: u16,
    pub compression_method: u32,
    pub image_size: u32,
    pub horizontal_resolution: i32,
    pub vertical_resolution: i32,
    pub color_palette: u32,
    pub important_colors: u32,
}

} // verus!
