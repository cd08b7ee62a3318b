//! Printer description: the second half of the rendering contract.
//!
//! Paper width and dialect cannot be inferred from a template, so a `Profile` is always a
//! separate input. Column counts are derived from it, never hardcoded.

use vstd::prelude::*;

verus! {

/// A target printer's fixed characteristics.
#[derive(Debug, Clone, PartialEq, Eq)]
pub struct Profile {
    /// Command dialect. Epson only.
    pub dialect: Dialect,
    /// Printable width in dots. 576 = 80mm, 384 = 58mm.
    pub width_dots: u16,
    /// Device font, which fixes the character cell width.
    pub font: Font,
    /// Character encoding for text.
    pub code_page: CodePage,
    /// Whether `GS V 66` (the partial feed-and-cut) is honored.
    pub supports_partial_cut: bool,
}

/// Command dialect. Bytes are not interchangeable across dialects.
#[derive(Debug, Clone, Copy, PartialEq, Eq)]
pub enum Dialect {
    Epson,
}

/// Device font. Determines the character cell width in dots.
#[derive(Debug, Clone, Copy, PartialEq, Eq)]
pub enum Font {
    /// 12 dots wide. 48 columns at 576 dots.
    A,
    /// 9 dots wide. 64 columns at 576 dots.
    B,
}

/// Text encoding. Page 0 is CP437 on essentially every device.
#[derive(Debug, Clone, Copy, PartialEq, Eq)]
pub enum CodePage {
    Cp437,
}

impl Font {
    /// Width of one character cell in dots at magnification 1x.
    pub open spec fn dots(self) -> u16 {
        match self {
            Font::A => 12,
            Font::B => 9,
        }
    }

    /// Width of one character cell, in dots, at magnification 1x.
    pub fn char_width_dots(self) -> (r: u16)
        ensures
            r == self.dots(),
            r == 12 || r == 9,
    {
        match self {
            Font::A => 12,
            Font::B => 9,
        }
    }
}

/// A magnification factor as the device reads it: zero counts as one.
pub open spec fn mag_factor(mag: u8) -> int {
    if mag == 0 { 1 } else { mag as int }
}

impl Profile {
    /// Characters per line at horizontal magnification `mag`.
    pub open spec fn spec_columns_at(&self, mag: u8) -> int {
        self.width_dots as int / (self.font.dots() as int * mag_factor(mag))
    }

    /// The single built-in profile: 80mm, 576 dots, Font A, Epson, CP437.
    pub fn epson_80mm() -> (p: Self)
        ensures
            p.dialect == Dialect::Epson,
            p.width_dots == 576,
            p.font == Font::A,
            p.code_page == CodePage::Cp437,
            p.supports_partial_cut,
    {
        Profile {
            dialect: Dialect::Epson,
            width_dots: 576,
            font: Font::A,
            code_page: CodePage::Cp437,
            supports_partial_cut: true,
        }
    }

    /// Characters per line at magnification 1x.
    pub fn columns(&self) -> (r: u16)
        ensures
            r as int == self.width_dots as int / self.font.dots() as int,
            r as int == self.spec_columns_at(1),
    {
        self.width_dots / self.font.char_width_dots()
    }

    /// Characters per line at the given horizontal magnification; 0 is read as 1.
    pub fn columns_at(&self, mag_w: u8) -> (r: u16)
        ensures
            r as int == self.spec_columns_at(mag_w),
    {
        let m: u16 = if mag_w == 0 { 1 } else { mag_w as u16 };
        let cw = self.font.char_width_dots();
        assert(cw * m <= 12 * 255) by (nonlinear_arith)
            requires cw <= 12, m <= 255;
        assert(cw * m >= 1) by (nonlinear_arith)
            requires cw >= 9, m >= 1;
        self.width_dots / (cw * m)
    }
}

impl Default for Profile {
    fn default() -> (p: Self)
        ensures
            p == Profile::spec_default(),
    {
        Profile::epson_80mm()
    }
}

impl Profile {
    /// The default profile is the built-in 80mm Epson profile.
    pub open spec fn spec_default() -> Profile {
        Profile {
            dialect: Dialect::Epson,
            width_dots: 576,
            font: Font::A,
            code_page: CodePage::Cp437,
            supports_partial_cut: true,
        }
    }
}

impl Default for Dialect {
    fn default() -> (d: Self)
        ensures
            d == Dialect::Epson,
    {
        Dialect::Epson
    }
}

impl Default for Font {
    fn default() -> (f: Self)
        ensures
            f == Font::A,
    {
        Font::A
    }
}

impl Default for CodePage {
    fn default() -> (c: Self)
        ensures
            c == CodePage::Cp437,
    {
        CodePage::Cp437
    }
}

/// Magnification divides the grid: the column count at magnification `m` is the 1x
/// column count divided by `m` (rounding down), so `{size 2x2}` halves 48 columns to 24.
pub proof fn law_magnification_divides_the_grid(p: Profile, m: u8)
    ensures
        p.spec_columns_at(m) == p.spec_columns_at(1) / mag_factor(m),
{
    let w = p.width_dots as int;
    let c = p.font.dots() as int;
    let k = mag_factor(m);
    assert(c > 0);
    assert(k > 0);
    vstd::arithmetic::div_mod::lemma_div_denominator(w, c, k);
}


/// The character grid in numbers: a cell of font A is 12 dots wide and of font B 9, and at
/// horizontal magnification `m` (zero read as one) a line holds the paper's width in dots
/// over `m` such cells, so the 576-dot paper holds 48 font-A characters at 1x.
pub proof fn law_cell_geometry(p: Profile, m: u8)
    ensures
        p.font == Font::A ==> p.font.dots() == 12,
        p.font == Font::B ==> p.font.dots() == 9,
        m >= 1 ==> p.spec_columns_at(m) == p.width_dots as int / (p.font.dots() as int * m as int),
        m == 0 ==> p.spec_columns_at(m) == p.width_dots as int / p.font.dots() as int,
        p.width_dots == 576 && p.font == Font::A ==> p.spec_columns_at(1) == 48,
{
}
} // verus!
