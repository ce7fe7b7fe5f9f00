//! The closed table of unit aliases of the binary prefix system, and the
//! display names of the five unit levels.
//!
//! Level 0 is bytes per second; levels 1 to 4 are the kibi, mebi, gibi and
//! tebi multiples. An alias is one of the five base spellings (`Bps`,
//! `Byte/s`, `B/s`, `ops`, `o/s`), optionally preceded by a prefix letter
//! in either case and the letter `i` (`KiB/s`, `miByte/s`, ...).

use vstd::prelude::*;
use crate::strutil::sub_matches;

verus! {

/// The base spellings, shared by every level.
pub open spec fn suffix_ok(u: Seq<char>) -> bool {
    u == "Bps"@ || u == "Byte/s"@ || u == "B/s"@ || u == "ops"@ || u == "o/s"@
}

/// The level selected by a prefix letter; 0 means the letter is no prefix.
pub open spec fn prefix_level(c: char) -> int {
    if c == 'k' || c == 'K' {
        1
    } else if c == 'm' || c == 'M' {
        2
    } else if c == 'g' || c == 'G' {
        3
    } else if c == 't' || c == 'T' {
        4
    } else {
        0
    }
}

/// The unit level an alias resolves to, or `None` for text outside the table.
pub open spec fn unit_level(u: Seq<char>) -> Option<int> {
    if suffix_ok(u) {
        Some(0int)
    } else if u.len() >= 2 && prefix_level(u[0]) != 0 && u[1] == 'i' && suffix_ok(
        u.subrange(2, u.len() as int),
    ) {
        Some(prefix_level(u[0]))
    } else {
        None
    }
}

/// Resolves the alias written at `s[start..end]` (character indices)
/// against the table.
pub fn resolve_unit(s: &str, start: usize, end: usize) -> (r: Option<u32>)
    requires
        start <= end <= s@.len(),
    ensures
        match r {
            Some(l) => l <= 4 && unit_level(s@.subrange(start as int, end as int)) == Some(l as int),
            None => unit_level(s@.subrange(start as int, end as int)) is None,
        },
{
    if base_alias(s, start, end) {
        return Some(0);
    }
    if end - start >= 2 {
        let p = s.get_char(start);
        let level: u32 = if p == 'k' || p == 'K' {
            1
        } else if p == 'm' || p == 'M' {
            2
        } else if p == 'g' || p == 'G' {
            3
        } else if p == 't' || p == 'T' {
            4
        } else {
            0
        };
        if level != 0 && s.get_char(start + 1) == 'i' && base_alias(s, start + 2, end) {
            proof {
                let u = s@.subrange(start as int, end as int);
                assert(u[0] == s@[start as int]);
                assert(u[1] == s@[start as int + 1]);
                assert(u.subrange(2, u.len() as int) =~= s@.subrange(
                    start as int + 2,
                    end as int,
                ));
            }
            return Some(level);
        }
    }
    proof {
        let u = s@.subrange(start as int, end as int);
        if u.len() >= 2 {
            assert(u[0] == s@[start as int]);
            assert(u[1] == s@[start as int + 1]);
            assert(u.subrange(2, u.len() as int) =~= s@.subrange(start as int + 2, end as int));
        }
    }
    None
}

/// Does `s[start..end]` spell one of the five base aliases?
fn base_alias(s: &str, start: usize, end: usize) -> (r: bool)
    requires
        start <= end <= s@.len(),
    ensures
        r == suffix_ok(s@.subrange(start as int, end as int)),
{
    sub_matches(s, start, end, "Bps") || sub_matches(s, start, end, "Byte/s") || sub_matches(
        s,
        start,
        end,
        "B/s",
    ) || sub_matches(s, start, end, "ops") || sub_matches(s, start, end, "o/s")
}

/// The display name of a unit level, as the formatter prints it.
pub open spec fn unit_name(l: int) -> Seq<char> {
    if l == 0 {
        "B/s"@
    } else if l == 1 {
        "KiB/s"@
    } else if l == 2 {
        "MiB/s"@
    } else if l == 3 {
        "GiB/s"@
    } else {
        "TiB/s"@
    }
}

/// The display name of a unit level.
pub fn unit_name_str(l: u32) -> (r: &'static str)
    requires
        l <= 4,
    ensures
        r@ == unit_name(l as int),
{
    if l == 0 {
        "B/s"
    } else if l == 1 {
        "KiB/s"
    } else if l == 2 {
        "MiB/s"
    } else if l == 3 {
        "GiB/s"
    } else {
        "TiB/s"
    }
}

} // verus!
