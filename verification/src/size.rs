//! The unit in which the console shows a file size.

use vstd::prelude::*;

use crate::addr::{decimal, push_decimal};
use vstd::string::StringExecFns;

verus! {

pub const KB: u64 = 1024;
pub const MB: u64 = 1024 * 1024;
pub const GB: u64 = 1024 * 1024 * 1024;

/// A unit of size, in powers of 1024.
#[derive(Clone, Copy, Debug, PartialEq, Eq, Structural)]
pub enum SizeUnit {
    Bytes,
    Kilobytes,
    Megabytes,
    Gigabytes,
}

/// The largest unit that the size reaches, bytes below one kilobyte.
pub fn size_unit(bytes: u64) -> (u: SizeUnit)
    ensures
        u == (if bytes >= GB {
            SizeUnit::Gigabytes
        } else if bytes >= MB {
            SizeUnit::Megabytes
        } else if bytes >= KB {
            SizeUnit::Kilobytes
        } else {
            SizeUnit::Bytes
        }),
{
    if bytes >= GB {
        SizeUnit::Gigabytes
    } else if bytes >= MB {
        SizeUnit::Megabytes
    } else if bytes >= KB {
        SizeUnit::Kilobytes
    } else {
        SizeUnit::Bytes
    }
}

impl SizeUnit {
    /// How many bytes the unit holds.
    pub fn divisor(&self) -> (d: u64)
        ensures
            d == (match self {
                SizeUnit::Bytes => 1,
                SizeUnit::Kilobytes => KB,
                SizeUnit::Megabytes => MB,
                SizeUnit::Gigabytes => GB,
            }),
    {
        match self {
            SizeUnit::Bytes => 1,
            SizeUnit::Kilobytes => KB,
            SizeUnit::Megabytes => MB,
            SizeUnit::Gigabytes => GB,
        }
    }

    /// The unit's name after the number.
    pub fn suffix(&self) -> (s: &'static str)
        ensures
            s@ == (match self {
                SizeUnit::Bytes => "B"@,
                SizeUnit::Kilobytes => "KB"@,
                SizeUnit::Megabytes => "MB"@,
                SizeUnit::Gigabytes => "GB"@,
            }),
    {
        match self {
            SizeUnit::Bytes => "B",
            SizeUnit::Kilobytes => "KB",
            SizeUnit::Megabytes => "MB",
            SizeUnit::Gigabytes => "GB",
        }
    }
}

/// A size under one kilobyte, as the console shows it: the number of bytes
/// and `B`.
pub fn format_small_size(bytes: u64) -> (s: String)
    requires
        bytes < KB,
    ensures
        s@ == decimal(bytes as nat) + " B"@,
{
    let mut s = String::new();
    push_decimal(&mut s, bytes);
    s.append(" B");
    s
}

} // verus!
