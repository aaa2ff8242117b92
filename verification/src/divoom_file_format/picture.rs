use vstd::prelude::*;

verus! {

/// A colour of a palette.
#[derive(Clone, Copy, Debug, PartialEq, Eq, Structural)]
pub struct Rgb {
    pub red: u8,
    pub green: u8,
    pub blue: u8,
}

/// A pixel: a colour and its opacity.
#[derive(Clone, Copy, Debug, PartialEq, Eq, Structural)]
pub struct Rgba {
    pub red: u8,
    pub green: u8,
    pub blue: u8,
    pub alpha: u8,
}

impl Rgba {
    /// The colour of the pixel, its opacity left out.
    pub open spec fn color(self) -> Rgb {
        Rgb { red: self.red, green: self.green, blue: self.blue }
    }

    /// The fully opaque pixel of colour `c`.
    pub open spec fn opaque(c: Rgb) -> Rgba {
        Rgba { red: c.red, green: c.green, blue: c.blue, alpha: 255 }
    }

    pub fn to_rgb(&self) -> (c: Rgb)
        ensures
            c == self.color(),
    {
        Rgb { red: self.red, green: self.green, blue: self.blue }
    }

    pub fn from_rgb(c: Rgb) -> (p: Rgba)
        ensures
            p == Rgba::opaque(c),
    {
        Rgba { red: c.red, green: c.green, blue: c.blue, alpha: 255 }
    }
}

/// A picture of `width` by `height` pixels, stored row by row.
#[derive(Clone, Debug)]
pub struct Image {
    pub width: u32,
    pub height: u32,
    pub pixels: Vec<Rgba>,
}

impl Image {
    /// Every pixel of the picture is stored, and no more.
    pub open spec fn is_valid(self) -> bool {
        self.pixels@.len() == self.width * self.height
    }

    /// The pixel in column `x` of row `y`.
    pub open spec fn pixel_at(self, x: int, y: int) -> Rgba {
        self.pixels@[y * self.width + x]
    }

    pub fn get_pixel(&self, x: u32, y: u32) -> (p: Rgba)
        requires
            self.is_valid(),
            x < self.width,
            y < self.height,
        ensures
            p == self.pixel_at(x as int, y as int),
    {
        let len = self.pixels.len();
        assert(y * self.width + x < self.width * self.height) by (nonlinear_arith)
            requires
                x < self.width,
                y < self.height,
        ;
        assert(y * self.width <= y * self.width + x);
        self.pixels[y as usize * self.width as usize + x as usize]
    }
}

} // verus!
