//! Small state and formatting helpers for the interactive dashboard: tab
//! cycling, adjustment granularity, and human-readable byte sizes.

use vstd::prelude::*;

verus! {

/// Command-line arguments of the dashboard.
pub struct Cli {
    /// Tick period in milliseconds.
    pub tick_rate: u64,
    /// Use unicode graphics.
    pub enhanced_graphics: bool,
    /// Print version information.
    pub version: bool,
    /// Server address.
    pub addr: String,
    /// Config file path.
    pub config: String,
}

/// Which tab of the dashboard is selected.
pub struct TabsState {
    pub titles: Vec<String>,
    pub index: usize,
}

impl TabsState {
    /// Start on the first tab.
    pub fn new(titles: Vec<String>) -> (t: TabsState)
        ensures
            t.titles == titles,
            t.index == 0,
    {
        TabsState { titles, index: 0 }
    }

    /// Select the next tab, wrapping around.
    pub fn next(&mut self)
        requires
            old(self).titles@.len() > 0,
            old(self).index < old(self).titles@.len(),
        ensures
            final(self).titles == old(self).titles,
            final(self).index == (old(self).index + 1) % (old(self).titles@.len() as int),
    {
        let n = self.titles.len();
        self.index = (self.index + 1) % n;
    }

    /// Select the previous tab, wrapping around.
    pub fn prev(&mut self)
        requires
            old(self).titles@.len() > 0,
            old(self).index < old(self).titles@.len(),
        ensures
            final(self).titles == old(self).titles,
            final(self).index == (if old(self).index > 0 {
                old(self).index - 1
            } else {
                old(self).titles@.len() - 1
            }),
    {
        if self.index > 0 {
            self.index = self.index - 1;
        } else {
            self.index = self.titles.len() - 1;
        }
    }
}

/// Granularity of an interactive settings adjustment.
#[derive(Clone, Copy, PartialEq, Eq, Structural, Debug)]
pub enum Grain {
    Coarse,
    Medium,
    Fine,
}

/// The metric prefix group of a byte count: the largest multiple of three
/// no bigger than the count's order of magnitude, capped at the largest
/// named prefix.
pub open spec fn size_prefix(bytes: int) -> int {
    if bytes >= 1_000_000_000_000_000 {
        15
    } else if bytes >= 1_000_000_000_000 {
        12
    } else if bytes >= 1_000_000_000 {
        9
    } else if bytes >= 1_000_000 {
        6
    } else if bytes >= 1_000 {
        3
    } else {
        0
    }
}

/// The power of ten a byte count is scaled down by before rendering: three
/// orders below its metric prefix, so that three decimal places remain.
pub open spec fn size_divisor(bytes: int) -> int {
    if bytes >= 1_000_000_000_000_000 {
        1_000_000_000_000
    } else if bytes >= 1_000_000_000_000 {
        1_000_000_000
    } else if bytes >= 1_000_000_000 {
        1_000_000
    } else if bytes >= 1_000_000 {
        1_000
    } else {
        1
    }
}

/// The decimal digits of a nonnegative number, most significant first.
pub open spec fn dec_digits(n: int) -> Seq<char>
    decreases n,
{
    if n < 10 {
        seq![crate::flags::digit_char(n)]
    } else {
        dec_digits(n / 10).push(crate::flags::digit_char(n % 10))
    }
}

/// The string left-padded with `fill` to at least `w` characters.
pub open spec fn pad_left(s: Seq<char>, fill: char, w: int) -> Seq<char> {
    if s.len() >= w {
        s
    } else {
        Seq::new((w - s.len()) as nat, |i: int| fill) + s
    }
}

/// The unit name of a metric prefix group.
pub open spec fn size_unit(p: int) -> Seq<char> {
    if p == 0 {
        "B"@
    } else if p == 3 {
        "kB"@
    } else if p == 6 {
        "MB"@
    } else if p == 9 {
        "GB"@
    } else if p == 12 {
        "TB"@
    } else {
        "PB"@
    }
}

/// How a byte count renders: scaled to its largest metric prefix with three
/// decimal places — the whole part right-aligned to three characters, the
/// fraction zero-padded to three — or, past the largest named prefix, the
/// plain count of bytes.
pub open spec fn rendered_size(bytes: int) -> Seq<char> {
    if bytes >= 1_000_000_000_000_000_000 {
        dec_digits(bytes) + " B"@
    } else {
        let v = bytes / size_divisor(bytes);
        pad_left(dec_digits(v / 1000), ' ', 3) + "."@ + pad_left(dec_digits(v % 1000), '0', 3)
            + " "@ + size_unit(size_prefix(bytes))
    }
}

/// Relies on `format!` of std: `{:>3}` right-aligns the decimal digits with
/// spaces to width three, `{:03}` zero-pads them to width three.
#[verifier::external_body]
fn format_size(int_part: u64, frac_part: u64, unit: &str) -> (r: String)
    ensures
        r@ == pad_left(dec_digits(int_part as int), ' ', 3) + "."@ + pad_left(
            dec_digits(frac_part as int),
            '0',
            3,
        ) + " "@ + unit@,
{
    format!("{0:>3}.{1:03} {2}", int_part, frac_part, unit)
}

/// Relies on `format!` of std: `{}` renders the decimal digits.
#[verifier::external_body]
fn format_plain_size(bytes: u64) -> (r: String)
    ensures
        r@ == dec_digits(bytes as int) + " B"@,
{
    format!("{} B", bytes)
}

/// Human-readable string encoding a size in bytes with its largest metric
/// prefix to three decimal places; sizes past the largest named prefix
/// render as a plain byte count.
pub fn sizefmt(bytes: usize) -> (r: String)
    ensures
        r@ == rendered_size(bytes as int),
{
    let b = bytes as u64;
    if b >= 1_000_000_000_000_000_000 {
        return format_plain_size(b);
    }
    let (divisor, unit): (u64, &str) = if b >= 1_000_000_000_000_000 {
        (1_000_000_000_000, "PB")
    } else if b >= 1_000_000_000_000 {
        (1_000_000_000, "TB")
    } else if b >= 1_000_000_000 {
        (1_000_000, "GB")
    } else if b >= 1_000_000 {
        (1_000, "MB")
    } else if b >= 1_000 {
        (1, "kB")
    } else {
        (1, "B")
    };
    let value = b / divisor;
    format_size(value / 1_000, value % 1_000, unit)
}

} // verus!
