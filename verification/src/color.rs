use vstd::prelude::*;

verus! {

/// Red channel of a packed `0x00RRGGBB` value.
pub open spec fn red_of(v: u32) -> int {
    (v as int / 0x1_0000) % 0x100
}

/// Green channel of a packed `0x00RRGGBB` value.
pub open spec fn green_of(v: u32) -> int {
    (v as int / 0x100) % 0x100
}

/// Blue channel of a packed `0x00RRGGBB` value.
pub open spec fn blue_of(v: u32) -> int {
    v as int % 0x100
}

/// The unused top byte of a packed value.
pub open spec fn top_of(v: u32) -> int {
    v as int / 0x100_0000
}

/// The packed value of the three channels.
pub open spec fn packed(r: int, g: int, b: int) -> int {
    r * 0x1_0000 + g * 0x100 + b
}

/// A colour in RGB form, stored as a `u32` in `0x00RRGGBB` order.
#[derive(Clone, Copy, PartialEq, Eq, Debug, Structural)]
pub struct Color(u32);

impl View for Color {
    type V = u32;

    closed spec fn view(&self) -> u32 {
        self.0
    }
}

impl Default for Color {
    fn default() -> (c: Color)
        ensures
            c@ == 0,
    {
        Color(0)
    }
}

impl Color {
    /// Builds a colour from its red, green and blue channels.
    pub fn new(r: u8, g: u8, b: u8) -> (c: Color)
        ensures
            c@ == packed(r as int, g as int, b as int),
    {
        let v: u32 = ((r as u32) << 16) | ((g as u32) << 8) | (b as u32);
        assert(v == packed(r as int, g as int, b as int)) by (bit_vector)
            requires v == ((r as u32) << 16) | ((g as u32) << 8) | (b as u32);
        Color(v)
    }

    /// The red channel.
    pub fn r(self) -> (r: u8)
        ensures
            r == red_of(self@),
    {
        let v = self.0;
        assert((v >> 16) as u8 == (v as int / 0x1_0000) % 0x100) by (bit_vector);
        (v >> 16) as u8
    }

    /// The green channel.
    pub fn g(self) -> (g: u8)
        ensures
            g == green_of(self@),
    {
        let v = self.0;
        assert((v >> 8) as u8 == (v as int / 0x100) % 0x100) by (bit_vector);
        (v >> 8) as u8
    }

    /// The blue channel.
    pub fn b(self) -> (b: u8)
        ensures
            b == blue_of(self@),
    {
        let v = self.0;
        assert(v as u8 == v as int % 0x100) by (bit_vector);
        v as u8
    }

    /// Replaces the red channel, keeping the others and the top byte.
    pub fn set_r(&mut self, r: u8)
        ensures
            final(self)@ == old(self)@ + (r - red_of(old(self)@)) * 0x1_0000,
    {
        let v = self.0;
        let n: u32 = (v & 0xFF00_FFFF) | ((r as u32) << 16);
        assert(n == v + (r - (v as int / 0x1_0000) % 0x100) * 0x1_0000) by (bit_vector)
            requires
                n == (v & 0xFF00_FFFF) | ((r as u32) << 16),
        ;
        self.0 = n;
    }

    /// Replaces the green channel, keeping the others and the top byte.
    pub fn set_g(&mut self, g: u8)
        ensures
            final(self)@ == old(self)@ + (g - green_of(old(self)@)) * 0x100,
    {
        let v = self.0;
        let n: u32 = (v & 0xFFFF_00FF) | ((g as u32) << 8);
        assert(n == v + (g - (v as int / 0x100) % 0x100) * 0x100) by (bit_vector)
            requires
                n == (v & 0xFFFF_00FF) | ((g as u32) << 8),
        ;
        self.0 = n;
    }

    /// Replaces the blue channel, keeping the others and the top byte.
    pub fn set_b(&mut self, b: u8)
        ensures
            final(self)@ == old(self)@ + (b - blue_of(old(self)@)),
    {
        let v = self.0;
        let n: u32 = (v & 0xFFFF_FF00) | (b as u32);
        assert(n == v + (b - v as int % 0x100)) by (bit_vector)
            requires
                n == (v & 0xFFFF_FF00) | (b as u32),
        ;
        self.0 = n;
    }

    /// The packed `0x00RRGGBB` value.
    pub fn as_u32(self) -> (v: u32)
        ensures
            v == self@,
    {
        self.0
    }

    /// The colour whose packed value is `v`.
    pub fn from_u32(v: u32) -> (c: Color)
        ensures
            c@ == v,
    {
        Color(v)
    }

    /// Black, `0x000000`.
    pub fn black() -> (c: Color)
        ensures
            c@ == 0x0000_0000,
    {
        Color(0x0000_0000)
    }

    /// Red, `0xFF0000`.
    pub fn red() -> (c: Color)
        ensures
            c@ == 0x00FF_0000,
    {
        Color(0x00FF_0000)
    }

    /// Green, `0x00FF00`.
    pub fn green() -> (c: Color)
        ensures
            c@ == 0x0000_FF00,
    {
        Color(0x0000_FF00)
    }

    /// Dark blue, `0x0000FF`.
    pub fn darkblue() -> (c: Color)
        ensures
            c@ == 0x0000_00FF,
    {
        Color(0x0000_00FF)
    }

    /// Light blue, `0x00FFFF`.
    pub fn lightblue() -> (c: Color)
        ensures
            c@ == 0x0000_FFFF,
    {
        Color(0x0000_FFFF)
    }

    /// Magenta, `0xFF00FF`.
    pub fn magenta() -> (c: Color)
        ensures
            c@ == 0x00FF_00FF,
    {
        Color(0x00FF_00FF)
    }

    /// Yellow, `0xFFFF00`.
    pub fn yellow() -> (c: Color)
        ensures
            c@ == 0x00FF_FF00,
    {
        Color(0x00FF_FF00)
    }

    /// White, `0xFFFFFF`.
    pub fn white() -> (c: Color)
        ensures
            c@ == 0x00FF_FFFF,
    {
        Color(0x00FF_FFFF)
    }
}

/// Two colours are equal exactly when their packed values are.
pub proof fn lemma_color_eq_by_value(a: Color, b: Color)
    ensures
        a == b <==> a@ == b@,
{
}

/// Reading the channels back from `new(r, g, b)` gives `r`, `g` and `b`, and the top byte is zero.
pub proof fn lemma_channels_of_packed(r: u8, g: u8, b: u8, v: u32)
    requires
        v == packed(r as int, g as int, b as int),
    ensures
        red_of(v) == r,
        green_of(v) == g,
        blue_of(v) == b,
        top_of(v) == 0,
{
}

/// A value whose top byte is zero is the packing of its own channels.
pub proof fn lemma_packed_of_channels(v: u32)
    requires
        top_of(v) == 0,
    ensures
        v == packed(red_of(v), green_of(v), blue_of(v)),
{
}

/// Setting the red channel makes it read back as the new value and leaves green, blue and the
/// top byte as they were.
pub proof fn lemma_set_red(v: u32, r: u8, n: u32)
    requires
        n == v + (r - red_of(v)) * 0x1_0000,
    ensures
        red_of(n) == r,
        green_of(n) == green_of(v),
        blue_of(n) == blue_of(v),
        top_of(n) == top_of(v),
{
}

/// Setting the green channel makes it read back as the new value and leaves red, blue and the
/// top byte as they were.
pub proof fn lemma_set_green(v: u32, g: u8, n: u32)
    requires
        n == v + (g - green_of(v)) * 0x100,
    ensures
        green_of(n) == g,
        red_of(n) == red_of(v),
        blue_of(n) == blue_of(v),
        top_of(n) == top_of(v),
{
}

/// Setting the blue channel makes it read back as the new value and leaves red, green and the
/// top byte as they were.
pub proof fn lemma_set_blue(v: u32, b: u8, n: u32)
    requires
        n == v + (b - blue_of(v)),
    ensures
        blue_of(n) == b,
        red_of(n) == red_of(v),
        green_of(n) == green_of(v),
        top_of(n) == top_of(v),
{
}

} // verus!
