//! A small engine that models a filesystem subtree, aggregates directory
//! sizes, and renders the result as a text tree with box-drawing connectors.
//!
//! The scanning and rendering logic lives in [`tree`]; this root module holds
//! the size-display unit and the decimal formatting of byte counts.

use vstd::prelude::*;
use vstd::string::StringExecFns;

pub mod tree;

verus! {

/// The unit a size is displayed in. Conversion is integer division by a
/// decimal (not binary) divisor, with a two-letter abbreviation appended.
#[derive(Copy, Clone, PartialEq, Eq, PartialOrd, Ord, Structural, Debug)]
pub enum FileSizeFormat {
    /// Bytes.
    Byte,
    /// Kilobytes.
    Kilo,
    /// Megabytes.
    Mega,
    /// Gigabytes.
    Giga,
    /// Terabytes.
    Tera,
}

/// The divisor a raw byte count is divided by before display.
pub open spec fn unit_divisor(unit: FileSizeFormat) -> int {
    match unit {
        FileSizeFormat::Byte => 1,
        FileSizeFormat::Kilo => 1_000,
        FileSizeFormat::Mega => 1_000_000,
        FileSizeFormat::Giga => 1_000_000_000,
        FileSizeFormat::Tera => 1_000_000_000_000,
    }
}

/// The abbreviation appended to a converted size.
pub open spec fn unit_abbreviation(unit: FileSizeFormat) -> Seq<char> {
    match unit {
        FileSizeFormat::Byte => seq!['B'],
        FileSizeFormat::Kilo => seq!['K', 'B'],
        FileSizeFormat::Mega => seq!['M', 'B'],
        FileSizeFormat::Giga => seq!['G', 'B'],
        FileSizeFormat::Tera => seq!['T', 'B'],
    }
}

/// The character for one decimal digit.
pub open spec fn digit_char(d: nat) -> char {
    if d == 0 {
        '0'
    } else if d == 1 {
        '1'
    } else if d == 2 {
        '2'
    } else if d == 3 {
        '3'
    } else if d == 4 {
        '4'
    } else if d == 5 {
        '5'
    } else if d == 6 {
        '6'
    } else if d == 7 {
        '7'
    } else if d == 8 {
        '8'
    } else {
        '9'
    }
}

/// The decimal representation of `n`, most significant digit first, with no
/// leading zeros (`0` itself is the single character `'0'`).
pub open spec fn dec_digits(n: nat) -> Seq<char>
    decreases n,
{
    if n < 10 {
        seq![digit_char(n)]
    } else {
        dec_digits(n / 10).push(digit_char(n % 10))
    }
}

/// The full size suffix text for a raw byte count: the count divided by the
/// unit's divisor (truncating), followed by the unit's abbreviation.
pub open spec fn size_label(unit: FileSizeFormat, size: int) -> Seq<char> {
    dec_digits((size / unit_divisor(unit)) as nat) + unit_abbreviation(unit)
}

fn digit_str(d: u64) -> (r: &'static str)
    requires
        d < 10,
    ensures
        r@ == seq![digit_char(d as nat)],
{
    proof {
        reveal_strlit("0");
        reveal_strlit("1");
        reveal_strlit("2");
        reveal_strlit("3");
        reveal_strlit("4");
        reveal_strlit("5");
        reveal_strlit("6");
        reveal_strlit("7");
        reveal_strlit("8");
        reveal_strlit("9");
    }
    match d {
        0 => "0",
        1 => "1",
        2 => "2",
        3 => "3",
        4 => "4",
        5 => "5",
        6 => "6",
        7 => "7",
        8 => "8",
        _ => "9",
    }
}

fn dec_string(n: u64) -> (r: String)
    ensures
        r@ == dec_digits(n as nat),
    decreases n,
{
    if n < 10 {
        digit_str(n).to_owned()
    } else {
        let mut s = dec_string(n / 10);
        s.append(digit_str(n % 10));
        proof {
            assert(s@ =~= dec_digits(n as nat));
        }
        s
    }
}

fn unit_str(unit: FileSizeFormat) -> (r: &'static str)
    ensures
        r@ == unit_abbreviation(unit),
{
    proof {
        reveal_strlit("B");
        reveal_strlit("KB");
        reveal_strlit("MB");
        reveal_strlit("GB");
        reveal_strlit("TB");
    }
    match unit {
        FileSizeFormat::Byte => "B",
        FileSizeFormat::Kilo => "KB",
        FileSizeFormat::Mega => "MB",
        FileSizeFormat::Giga => "GB",
        FileSizeFormat::Tera => "TB",
    }
}

impl FileSizeFormat {
    /// Renders `size` in this unit: integer division by the unit's divisor,
    /// then the unit's two-letter abbreviation.
    pub fn to_string(&self, size: u64) -> (r: String)
        ensures
            r@ == size_label(*self, size as int),
    {
        let divisor: u64 = match self {
            FileSizeFormat::Byte => 1,
            FileSizeFormat::Kilo => 1_000,
            FileSizeFormat::Mega => 1_000_000,
            FileSizeFormat::Giga => 1_000_000_000,
            FileSizeFormat::Tera => 1_000_000_000_000,
        };
        let mut s = dec_string(size / divisor);
        s.append(unit_str(*self));
        s
    }
}

} // verus!
