//! Where things are kept, and for how long they count as fresh.

pub mod announcements;
pub mod file;
pub mod financials;
pub mod record;
pub mod search;
pub mod ttl;

use vstd::prelude::*;
use vstd::string::*;

use crate::date::{calendar_day, civil_from_days, day_number};
use crate::error::{ErrorView, SiftError, concat2, concat3, outcome};
use crate::text::{
    chars_of, decimal, digits_value, lemma_decimal_value, lemma_digits_value_padded, opt_str,
    pad_left, zero_padded,
};

verus! {

/// For how many seconds listings count as fresh: one day.
pub const CACHE_TTL_SEARCH_SECS: u64 = 86400;

/// `part` below `base`; an absolute `part` stands for itself.
pub open spec fn joined(base: Seq<char>, part: Seq<char>) -> Seq<char> {
    if part.len() > 0 && part[0] == '/' {
        part
    } else if base.len() == 0 || base.last() == '/' {
        base + part
    } else {
        base + "/"@ + part
    }
}

/// A path below another ends with its own text and, unless it is absolute, begins
/// with the text of the other, with one separator between them; an absolute one
/// stands for itself.
pub proof fn law_a_joined_path_is_below_its_base(base: Seq<char>, part: Seq<char>)
    ensures
        part.is_suffix_of(joined(base, part)),
        part.len() > 0 && part[0] == '/' ==> joined(base, part) == part,
        !(part.len() > 0 && part[0] == '/') ==> {
            let at = joined(base, part).len() - part.len();
            &&& base.is_prefix_of(joined(base, part))
            &&& base.len() <= at <= base.len() + 1
            &&& at > 0 ==> joined(base, part)[at - 1] == '/'
            &&& at == base.len() + 1 ==> base.len() > 0 && base.last() != '/'
        },
{
    reveal_strlit("/");
    let whole = joined(base, part);
    assert(whole.subrange(whole.len() - part.len(), whole.len() as int) =~= part);
}

/// `part` below `base`.
pub fn join_path(base: &str, part: &str) -> (out: String)
    ensures
        out@ == joined(base@, part@),
{
    let b = chars_of(base);
    let p = chars_of(part);
    if p.len() > 0 && p[0] == '/' {
        part.to_owned()
    } else if b.len() == 0 || b[b.len() - 1] == '/' {
        concat2(base, part)
    } else {
        concat3(base, "/", part)
    }
}

/// The home directory: `HOME` where it is set and not empty, otherwise what
/// the system says.
pub fn home_dir(env_home: Option<String>, system_home: Option<String>) -> (r: Option<String>)
    ensures
        r == (match env_home {
            Some(h) if h@.len() > 0 => Some(h),
            _ => system_home,
        }),
{
    match env_home {
        Some(h) => {
            if h.as_str().is_empty() {
                system_home
            } else {
                Some(h)
            }
        },
        None => system_home,
    }
}

/// The root of the cache below a home directory.
pub open spec fn root_below(home: Option<Seq<char>>) -> Result<Seq<char>, ErrorView> {
    match home {
        Some(h) => Ok(joined(joined(h, ".sift"@), "cache"@)),
        None => Err(ErrorView::Io("cannot resolve $HOME"@)),
    }
}

/// The root of the cache lies below the home directory; without one there is none.
pub proof fn law_the_cache_is_below_home(home: Seq<char>)
    ensures
        root_below(None) is Err,
        root_below(Some(home)) matches Ok(root) && home.is_prefix_of(root)
            && ".sift/cache"@.is_suffix_of(root),
{
    reveal_strlit(".sift");
    reveal_strlit("cache");
    reveal_strlit("/");
    reveal_strlit(".sift/cache");
    let below = joined(home, ".sift"@);
    law_a_joined_path_is_below_its_base(home, ".sift"@);
    let root = joined(below, "cache"@);
    assert(below.last() == 't') by {
        let end = below.subrange(below.len() - 5, below.len() as int);
        assert(end == ".sift"@);
        assert(end[4] == below[below.len() - 1]);
    }
    assert(root == below + "/"@ + "cache"@);
    assert(root.subrange(root.len() - 11, root.len() as int) =~= ".sift/cache"@) by {
        assert(below.subrange(below.len() - 5, below.len() as int) == ".sift"@);
        assert forall|i: int| 0 <= i < 11 implies root[root.len() - 11 + i] == ".sift/cache"@[i] by {
            if i < 5 {
                assert(root[root.len() - 11 + i] == below[below.len() - 5 + i]);
                assert(below.subrange(below.len() - 5, below.len() as int)[i] == ".sift"@[i]);
            }
        }
    }
    assert(home.is_prefix_of(root)) by {
        assert(home == below.subrange(0, home.len() as int));
        assert(root.subrange(0, home.len() as int) =~= below.subrange(0, home.len() as int));
    }
}

/// The root of the cache: `.sift/cache` below the home directory.
pub fn cache_root(home: Option<&str>) -> (r: Result<String, SiftError>)
    ensures
        outcome(r) == root_below(opt_str(home)),
{
    match home {
        Some(h) => {
            let sift = join_path(h, ".sift");
            Ok(join_path(sift.as_str(), "cache"))
        },
        None => Err(SiftError::Io("cannot resolve $HOME".to_owned())),
    }
}

/// Whether a file counts as fresh: its age is known and below the limit.
pub fn is_fresh(age_secs: Option<u64>, ttl_secs: u64) -> (r: bool)
    ensures
        r == (age_secs matches Some(age) && age < ttl_secs),
{
    match age_secs {
        Some(age) => age < ttl_secs,
        None => false,
    }
}

/// Whether a file counts as there: it has some length.
pub fn is_present(file_len: Option<u64>) -> (r: bool)
    ensures
        r == (file_len matches Some(n) && n > 0),
{
    match file_len {
        Some(n) => n > 0,
        None => false,
    }
}

/// The extension of the file that is written first and then renamed: the
/// file's own, or `dat`, with `.tmp` behind it.
pub fn tmp_extension(ext: Option<&str>) -> (out: String)
    ensures
        out@ == (match ext {
            Some(e) => e@,
            None => "dat"@,
        }) + ".tmp"@,
{
    match ext {
        Some(e) => concat2(e, ".tmp"),
        None => concat2("dat", ".tmp"),
    }
}

/// Two digits.
pub open spec fn two(n: int) -> Seq<char> {
    pad_left(decimal(n as nat), 2, '0')
}

/// A day and a second of it as `YYYY-MM-DD HH:MM:SS`.
pub open spec fn stamp(year: int, month: int, day: int, second: int) -> Seq<char> {
    pad_left(decimal(year as nat), 4, '0') + "-"@ + two(month) + "-"@ + two(day) + " "@ + two(
        second / 3600,
    ) + ":"@ + two((second % 3600) / 60) + ":"@ + two(second % 60)
}

/// `out` is the UTC time `secs` seconds after the beginning of 1970.
pub open spec fn is_utc_stamp(secs: int, out: Seq<char>) -> bool {
    exists|y: int, m: int, d: int|
        calendar_day(y, m, d) && #[trigger] day_number(y, m, d) == secs / 86400 && out == stamp(
            y,
            m,
            d,
            secs % 86400,
        )
}

/// The UTC time `secs` seconds after the beginning of 1970, as
/// `YYYY-MM-DD HH:MM:SS`.
pub fn format_utc_secs(secs: u64) -> (out: String)
    ensures
        is_utc_stamp(secs as int, out@),
{
    let days: i64 = (secs / 86_400) as i64;
    let rest: u64 = secs % 86_400;
    let (y, m, d) = civil_from_days(days);
    proof {
        crate::date::lemma_year_not_before(y as int, m as int, d as int);
    }
    let mut out = concat3(zero_padded(y as u64, 4).as_str(), "-", zero_padded(m as u64, 2).as_str());
    out.append("-");
    out.append(zero_padded(d as u64, 2).as_str());
    out.append(" ");
    out.append(zero_padded(rest / 3600, 2).as_str());
    out.append(":");
    out.append(zero_padded((rest % 3600) / 60, 2).as_str());
    out.append(":");
    out.append(zero_padded(rest % 60, 2).as_str());
    proof {
        let s = secs as int % 86400;
        assert(rest == s);
        assert(out@ == stamp(y as int, m as int, d as int, s));
        assert(day_number(y as int, m as int, d as int) == secs as int / 86400);
    }
    out
}

/// A time has one text only.
pub proof fn law_utc_stamp_is_unique(secs: int, a: Seq<char>, b: Seq<char>)
    requires
        is_utc_stamp(secs, a),
        is_utc_stamp(secs, b),
    ensures
        a == b,
{
    let (y1, m1, d1) = choose|y: int, m: int, d: int|
        calendar_day(y, m, d) && #[trigger] day_number(y, m, d) == secs / 86400 && a == stamp(
            y,
            m,
            d,
            secs % 86400,
        );
    let (y2, m2, d2) = choose|y: int, m: int, d: int|
        calendar_day(y, m, d) && #[trigger] day_number(y, m, d) == secs / 86400 && b == stamp(
            y,
            m,
            d,
            secs % 86400,
        );
    crate::date::law_day_number_is_unique(y1, m1, d1, y2, m2, d2);
}

/// A time has nineteen characters, for years of four digits, and each of its
/// numbers stands at its place: the year first, then month, day, hour, minute and
/// second.
pub proof fn law_a_stamp_reads_from_left_to_right(year: int, month: int, day: int, second: int)
    requires
        0 <= year <= 9999,
        1 <= month <= 12,
        1 <= day <= 31,
        0 <= second < 86400,
    ensures
        ({
            let s = stamp(year, month, day, second);
            &&& s.len() == 19
            &&& digits_value(s.subrange(0, 4)) == year
            &&& digits_value(s.subrange(5, 7)) == month
            &&& digits_value(s.subrange(8, 10)) == day
            &&& digits_value(s.subrange(11, 13)) == second / 3600
            &&& digits_value(s.subrange(14, 16)) == (second / 60) % 60
            &&& digits_value(s.subrange(17, 19)) == second % 60
        }),
{
    reveal_strlit("-");
    reveal_strlit(" ");
    reveal_strlit(":");
    let s = stamp(year, month, day, second);
    let y = pad_left(decimal(year as nat), 4, '0');
    lemma_padded(year as nat, 4);
    lemma_padded(month as nat, 2);
    lemma_padded(day as nat, 2);
    lemma_padded((second / 3600) as nat, 2);
    lemma_padded(((second % 3600) / 60) as nat, 2);
    lemma_padded((second % 60) as nat, 2);
    assert((second % 3600) / 60 == (second / 60) % 60);
    assert(s.len() == 19);
    assert(s.subrange(0, 4) =~= y);
    assert(s.subrange(5, 7) =~= two(month));
    assert(s.subrange(8, 10) =~= two(day));
    assert(s.subrange(11, 13) =~= two(second / 3600));
    assert(s.subrange(14, 16) =~= two((second % 3600) / 60));
    assert(s.subrange(17, 19) =~= two(second % 60));
}

/// A number of few digits fills its places and spells itself.
proof fn lemma_padded(n: nat, width: nat)
    requires
        width == 2 && n < 100 || width == 4 && n < 10000,
    ensures
        pad_left(decimal(n), width, '0').len() == width,
        digits_value(pad_left(decimal(n), width, '0')) == n,
{
    lemma_decimal_value(n);
    lemma_digits_value_padded(decimal(n), width);
    reveal_with_fuel(decimal, 5);
}

/// When a file was written, for a warning; `?` where that is not known.
pub fn format_mtime_utc(mtime_secs: Option<u64>) -> (out: String)
    ensures
        match mtime_secs {
            Some(secs) => is_utc_stamp(secs as int, out@),
            None => out@ == "?"@,
        },
{
    match mtime_secs {
        Some(secs) => format_utc_secs(secs),
        None => "?".to_owned(),
    }
}

} // verus!
