use vstd::prelude::*;

verus! {

/// The width and height that a metric provider reported for a piece of text
/// rendered at some font size.
#[derive(Clone, Copy, PartialEq, Eq, Structural, Debug)]
pub struct TextMetrics {
    pub width: u32,
    pub height: u32,
}

/// The cached measurement state of a leaf: the reported metrics together with
/// the font size they were taken at. The dimensions are clamped to 16 bits —
/// far beyond any real glyph run — so that the layout arithmetic over a whole
/// tree stays well within a 64-bit signed integer.
#[derive(Clone, Copy, PartialEq, Eq, Structural, Debug)]
pub struct TextRun {
    pub width: u16,
    pub height: u16,
    pub size: u32,
}

/// A reported dimension clamped to the 16 bits a `TextRun` stores.
pub open spec fn clamped_dim(d: u32) -> u16 {
    if d > 0xffff {
        0xffff as u16
    } else {
        d as u16
    }
}

/// The run that caching the metrics `m` at font size `size` produces.
pub open spec fn run_of(m: TextMetrics, size: u32) -> TextRun {
    TextRun { width: clamped_dim(m.width), height: clamped_dim(m.height), size }
}

impl TextRun {
    pub fn of(m: TextMetrics, size: u32) -> (r: TextRun)
        ensures
            r == run_of(m, size),
    {
        let width: u16 = if m.width > 0xffff {
            0xffff
        } else {
            m.width as u16
        };
        let height: u16 = if m.height > 0xffff {
            0xffff
        } else {
            m.height as u16
        };
        TextRun { width, height, size }
    }
}

/// A text measurement service: given a body string and a font size, it
/// reports the rendered width and height.
///
/// An implementation must behave as a function of the text and the size
/// alone, described by `metric_fn`; the builder relies on this to produce the
/// same tree for the same event stream.
pub trait MetricSource {
    /// The function of text and size that this source implements.
    spec fn metric_fn(&self) -> spec_fn(Seq<char>, u32) -> TextMetrics;

    /// Measure `text` at font size `size`.
    fn measure_text(&self, text: &str, size: u32) -> (m: TextMetrics)
        ensures
            m == (self.metric_fn())(text@, size);
    }

/// A deterministic metric source for tests and headless use: every character
/// occupies a square cell of the font size, so a run of `n` characters at
/// size `s` measures `n * s` wide and `s` tall (each factor capped at
/// `0xffff` so the product fits in a `u32`).
pub struct MonoMetrics;

impl MetricSource for MonoMetrics {
    open spec fn metric_fn(&self) -> spec_fn(Seq<char>, u32) -> TextMetrics {
        |text: Seq<char>, size: u32|
            TextMetrics {
                width: ((if text.len() > 0xffff {
                    0xffff as int
                } else {
                    text.len() as int
                }) * (if size > 0xffff {
                    0xffff as int
                } else {
                    size as int
                })) as u32,
                height: size,
            }
    }

    fn measure_text(&self, text: &str, size: u32) -> (m: TextMetrics)
        ensures
            m.height == size,
            text@.len() <= 0xffff && size <= 0xffff ==> m.width == text@.len() * size,
    {
        let n = text.unicode_len();
        let nc: u64 = if n > 0xffff {
            0xffff
        } else {
            n as u64
        };
        let sc: u64 = if size > 0xffff {
            0xffff
        } else {
            size as u64
        };
        proof {
            assert(nc * sc <= 0xffff * 0xffff) by (nonlinear_arith)
                requires
                    nc <= 0xffff,
                    sc <= 0xffff,
            ;
        }
        TextMetrics { width: (nc * sc) as u32, height: size }
    }
}

} // verus!
