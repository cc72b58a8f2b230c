//! Choosing a display mode, and the layout of a pixel.
use vstd::prelude::*;

verus! {

/// How the colours of a pixel are laid out.
#[derive(Copy, Clone, Debug, PartialEq, Eq, Structural)]
pub enum PixelFormat {
    /// Red, green, blue and a reserved byte, in this order from the lowest
    /// byte.
    Rgb,
    /// Blue, green, red and a reserved byte, in this order from the lowest
    /// byte.
    Bgr,
    /// The layout is given by a bitmask of its own.
    Bitmask,
    /// There is no frame buffer to write pixels to.
    BltOnly,
}

impl PixelFormat {
    /// The place of the format in the order of preference: lower is easier
    /// to work with.
    pub open spec fn order(self) -> int {
        match self {
            PixelFormat::Rgb => 0,
            PixelFormat::Bgr => 1,
            PixelFormat::Bitmask => 2,
            PixelFormat::BltOnly => 3,
        }
    }

    /// Pixels of this format can be written as four bytes of colour.
    pub open spec fn usable(self) -> bool {
        self == PixelFormat::Rgb || self == PixelFormat::Bgr
    }

    /// The place of the format in the order of preference.
    pub fn rank(&self) -> (r: u32)
        ensures
            r == self.order(),
    {
        match self {
            PixelFormat::Rgb => 0,
            PixelFormat::Bgr => 1,
            PixelFormat::Bitmask => 2,
            PixelFormat::BltOnly => 3,
        }
    }

    /// Whether pixels of this format can be written as four bytes of
    /// colour.
    pub fn is_usable(&self) -> (b: bool)
        ensures
            b == self.usable(),
    {
        match self {
            PixelFormat::Rgb => true,
            PixelFormat::Bgr => true,
            _ => false,
        }
    }
}

/// What is known of a display mode.
#[derive(Copy, Clone, Debug, PartialEq, Eq, Structural)]
pub struct ModeInfo {
    pub width: usize,
    pub height: usize,
    pub stride: usize,
    pub format: PixelFormat,
}

/// The frame buffer of the chosen mode: where it lies and how many bytes it
/// has.
#[derive(Copy, Clone, Debug, PartialEq, Eq, Structural)]
pub struct FB {
    pub base: u64,
    pub size: usize,
}

/// Bitmask used to indicate which bits of a pixel represent a given color.
#[derive(Copy, Clone, Debug, PartialEq, Eq, Structural)]
pub struct PixelBitmask {
    /// The bits indicating the red channel.
    pub red: u32,
    /// The bits indicating the green channel.
    pub green: u32,
    /// The bits indicating the blue channel.
    pub blue: u32,
    /// The reserved bits, which are ignored by the video hardware.
    pub reserved: u32,
}

/// The mode `new` is to be taken in place of the mode `cur`: it is at
/// least as wide and as high, and it is larger, or has a format that is
/// easier to work with, or wastes less of a line with a format that is no
/// harder.
pub open spec fn prefers(new: ModeInfo, cur: ModeInfo) -> bool {
    let no_smaller = new.width >= cur.width && new.height >= cur.height;
    let larger = new.width != cur.width || new.height != cur.height;
    no_smaller && (larger || new.format.order() < cur.format.order() || (new.stride < cur.stride
        && new.format.order() <= cur.format.order()))
}

/// The index of the mode that is chosen among the first `n`: modes are
/// taken in order; the first usable one is chosen, and each later usable one
/// takes its place if it is preferred to it.
pub open spec fn best_mode(modes: Seq<ModeInfo>, n: int) -> Option<int>
    decreases n,
{
    if n <= 0 {
        None
    } else {
        let before = best_mode(modes, n - 1);
        if !modes[n - 1].format.usable() {
            before
        } else {
            match before {
                None => Some(n - 1),
                Some(b) => if prefers(modes[n - 1], modes[b]) {
                    Some(n - 1)
                } else {
                    before
                },
            }
        }
    }
}

/// The chosen mode is one of the modes, and it is usable.
pub proof fn lemma_best_mode_usable(modes: Seq<ModeInfo>, n: int)
    requires
        0 <= n <= modes.len(),
    ensures
        best_mode(modes, n) matches Some(b) ==> 0 <= b < n && modes[b].format.usable(),
        best_mode(modes, n) is None <==> forall|i: int|
            0 <= i < n ==> !(#[trigger] modes[i]).format.usable(),
    decreases n,
{
    if n > 0 {
        lemma_best_mode_usable(modes, n - 1);
    }
}

/// Whether the mode `new` is to be taken in place of the mode `cur`.
pub fn is_preferred(new: &ModeInfo, cur: &ModeInfo) -> (b: bool)
    ensures
        b == prefers(*new, *cur),
{
    let no_smaller = new.width >= cur.width && new.height >= cur.height;
    let larger = new.width != cur.width || new.height != cur.height;
    let better_format = new.format.rank() < cur.format.rank();
    let no_worse_format = new.format.rank() <= cur.format.rank();
    no_smaller && (larger || better_format || (new.stride < cur.stride && no_worse_format))
}

/// Chooses the display mode to set: the index of the best usable mode, or
/// `None` if no mode is usable.
pub fn get_best_gop_fb(modes: &Vec<ModeInfo>) -> (r: Option<usize>)
    ensures
        match r {
            Some(i) => best_mode(modes@, modes@.len() as int) == Some(i as int) && i < modes@.len(),
            None => best_mode(modes@, modes@.len() as int) is None,
        },
{
    let mut best: Option<usize> = None;
    let mut i: usize = 0;
    while i < modes.len()
        invariant
            i <= modes@.len(),
            match best {
                Some(b) => best_mode(modes@, i as int) == Some(b as int) && b < i,
                None => best_mode(modes@, i as int) is None,
            },
        decreases modes@.len() - i,
    {
        if modes[i].format.is_usable() {
            match best {
                None => {
                    best = Some(i);
                },
                Some(b) => {
                    if is_preferred(&modes[i], &modes[b]) {
                        best = Some(i);
                    }
                },
            }
        }
        i += 1;
    }
    best
}

/// The masks of the colour channels of a pixel of the given format, for the
/// two formats that have fixed ones.
pub fn get_bitmask(format: PixelFormat) -> (r: Option<PixelBitmask>)
    ensures
        r == match format {
            PixelFormat::Rgb => Some(
                PixelBitmask {
                    red: 0x0000_00ff,
                    green: 0x0000_ff00,
                    blue: 0x00ff_0000,
                    reserved: 0xff00_0000,
                },
            ),
            PixelFormat::Bgr => Some(
                PixelBitmask {
                    red: 0x00ff_0000,
                    green: 0x0000_ff00,
                    blue: 0x0000_00ff,
                    reserved: 0xff00_0000,
                },
            ),
            _ => None,
        },
{
    match format {
        PixelFormat::Rgb => Some(
            PixelBitmask {
                red: 0x0000_00ff,
                green: 0x0000_ff00,
                blue: 0x00ff_0000,
                reserved: 0xff00_0000,
            },
        ),
        PixelFormat::Bgr => Some(
            PixelBitmask {
                red: 0x00ff_0000,
                green: 0x0000_ff00,
                blue: 0x0000_00ff,
                reserved: 0xff00_0000,
            },
        ),
        _ => None,
    }
}

/// The value of a pixel with the given colours: the colour that the format
/// names first in the lowest byte, green in the second, the other colour in
/// the third.
pub open spec fn pixel_value(low: u8, green: u8, high: u8) -> u32 {
    (low as u32) | ((green as u32) << 8) | ((high as u32) << 16)
}

/// The value to write for a pixel of the given format and colours, for the
/// two formats whose pixels are four bytes of colour.
pub fn get_pixel_value(format: PixelFormat, red: u8, green: u8, blue: u8) -> (r: Option<u32>)
    ensures
        r == match format {
            PixelFormat::Bgr => Some(pixel_value(blue, green, red)),
            PixelFormat::Rgb => Some(pixel_value(red, green, blue)),
            _ => None,
        },
{
    match format {
        PixelFormat::Bgr => Some((blue as u32) | ((green as u32) << 8) | ((red as u32) << 16)),
        PixelFormat::Rgb => Some((red as u32) | ((green as u32) << 8) | ((blue as u32) << 16)),
        _ => None,
    }
}

/// Each colour of a pixel value lies under the mask of its channel.
pub proof fn lemma_pixel_channels(low: u8, green: u8, high: u8)
    ensures
        pixel_value(low, green, high) & 0x0000_00ff == low,
        (pixel_value(low, green, high) & 0x0000_ff00) >> 8 == green,
        (pixel_value(low, green, high) & 0x00ff_0000) >> 16 == high,
        pixel_value(low, green, high) & 0xff00_0000 == 0,
{
    let l = low as u32;
    let g = green as u32;
    let h = high as u32;
    assert(l < 256 && g < 256 && h < 256 ==> {
        &&& (l | (g << 8) | (h << 16)) & 0x0000_00ff == l
        &&& ((l | (g << 8) | (h << 16)) & 0x0000_ff00) >> 8 == g
        &&& ((l | (g << 8) | (h << 16)) & 0x00ff_0000) >> 16 == h
        &&& (l | (g << 8) | (h << 16)) & 0xff00_0000 == 0
    }) by (bit_vector);
}

} // verus!
