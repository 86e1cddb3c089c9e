//! Decisions of a synchronisation cycle: whether the appliance's flat index
//! can be used, which files of it are wanted, and, for the walk through the
//! directory tree, which entries of each listing to descend into.

use vstd::prelude::*;
use crate::error::Error;
use crate::file_ref::{
    FilePath,
    SyncCursor,
    append_decimal,
    append_slash,
    decimal,
    file_le,
    files_sorted,
    parse_number,
    parsed_number,
    sort_files,
};

verus! {

/// Days of history that the appliance's flat index covers.
pub const FLAT_INDEX_DAYS: u64 = 25;

/// Seconds in a day.
pub const DAY_SECS: u64 = 86400;

/// The flat index may be used when the cursor lies within `window` of `now`.
pub open spec fn flat_index_usable(cursor: Option<SyncCursor>, now: u64, window: u64) -> bool {
    match cursor {
        Some(c) => c.last_timestamp as int >= now as int - window as int,
        None => false,
    }
}

/// Whether to list files through the flat index rather than by walking the
/// directory tree.
pub fn use_flat_index(cursor: &Option<SyncCursor>, now: u64, window: u64) -> (r: bool)
    ensures
        r == flat_index_usable(*cursor, now, window),
{
    match cursor {
        Some(c) => now < window || c.last_timestamp >= now - window,
        None => false,
    }
}

/// The files of the flat index at or after the cursor's file, in ascending
/// order.
pub fn select_from_index(files: &Vec<FilePath>, from: &FilePath) -> (r: Vec<FilePath>)
    ensures
        files_sorted(r@),
        r@.to_multiset() == files@.filter(|f: FilePath| file_le(*from, f)).to_multiset(),
{
    let mut kept: Vec<FilePath> = Vec::new();
    let mut i: usize = 0;
    while i < files.len()
        invariant
            i <= files@.len(),
            kept@ == files@.take(i as int).filter(|f: FilePath| file_le(*from, f)),
        decreases files@.len() - i,
    {
        let f = files[i];
        proof {
            assert(files@.take(i + 1) == files@.take(i as int).push(f));
            files@.take(i as int).lemma_filter_push(f, |f: FilePath| file_le(*from, f));
        }
        if from.at_or_before(&f) {
            kept.push(f);
        }
        i = i + 1;
    }
    assert(files@.take(files@.len() as int) == files@);
    sort_files(&kept)
}

pub open spec fn year_wanted(y: nat, from: Option<FilePath>) -> bool {
    match from {
        None => true,
        Some(c) => y >= c.year,
    }
}

pub open spec fn month_wanted(y: u16, m: nat, from: Option<FilePath>) -> bool {
    match from {
        None => true,
        Some(c) => y > c.year || (y == c.year && m >= c.month),
    }
}

pub open spec fn day_wanted(y: u16, m: u8, d: nat, from: Option<FilePath>) -> bool {
    match from {
        None => true,
        Some(c) => y > c.year || (y == c.year && (m > c.month || (m == c.month && d >= c.day))),
    }
}

pub open spec fn file_wanted(f: FilePath, from: Option<FilePath>) -> bool {
    match from {
        None => true,
        Some(c) => file_le(c, f),
    }
}


/// The walk's filters and the flat index's filter agree on every file: a
/// file at or after the cursor lies in a year, month and day that the walk
/// descends into, and the walk's last filter keeps exactly the files at or
/// after the cursor. So a walk through a tree that lists the same files as
/// the flat index keeps the same files.
pub proof fn lemma_walk_filters_agree(f: FilePath, from: Option<FilePath>)
    ensures
        file_wanted(f, from) ==> year_wanted(f.year as nat, from) && month_wanted(
            f.year,
            f.month as nat,
            from,
        ) && day_wanted(f.year, f.month, f.day as nat, from),
        from is Some ==> (file_wanted(f, from) <==> file_le(from->0, f)),
{
}

/// Whether every entry of a listing names a number no larger than `bound`.
pub open spec fn all_numbers(l: Seq<String>, bound: nat) -> bool {
    forall|i: int| 0 <= i < l.len() ==> (#[trigger] parsed_number(l[i]@, bound)) is Some
}

/// The value of an entry that names a number.
pub open spec fn number_of(s: String, bound: nat) -> nat {
    parsed_number(s@, bound)->0
}

/// The years of a root listing worth descending into.
pub open spec fn wanted_years(l: Seq<String>, from: Option<FilePath>) -> Seq<u16>
    decreases l.len(),
{
    if l.len() == 0 {
        Seq::empty()
    } else {
        let rest = wanted_years(l.drop_last(), from);
        let y = number_of(l.last(), 0xffff);
        if year_wanted(y, from) {
            rest.push(y as u16)
        } else {
            rest
        }
    }
}

pub open spec fn wanted_months(y: u16, l: Seq<String>, from: Option<FilePath>) -> Seq<u8>
    decreases l.len(),
{
    if l.len() == 0 {
        Seq::empty()
    } else {
        let rest = wanted_months(y, l.drop_last(), from);
        let m = number_of(l.last(), 0xff);
        if month_wanted(y, m, from) {
            rest.push(m as u8)
        } else {
            rest
        }
    }
}

pub open spec fn wanted_days(y: u16, m: u8, l: Seq<String>, from: Option<FilePath>) -> Seq<u8>
    decreases l.len(),
{
    if l.len() == 0 {
        Seq::empty()
    } else {
        let rest = wanted_days(y, m, l.drop_last(), from);
        let d = number_of(l.last(), 0xff);
        if day_wanted(y, m, d, from) {
            rest.push(d as u8)
        } else {
            rest
        }
    }
}

pub open spec fn wanted_files(y: u16, m: u8, d: u8, l: Seq<String>, from: Option<FilePath>) -> Seq<
    FilePath,
>
    decreases l.len(),
{
    if l.len() == 0 {
        Seq::empty()
    } else {
        let rest = wanted_files(y, m, d, l.drop_last(), from);
        let f = FilePath {
            year: y,
            month: m,
            day: d,
            timestamp: number_of(l.last(), 0xffff_ffff_ffff_ffff) as u64,
        };
        if file_wanted(f, from) {
            rest.push(f)
        } else {
            rest
        }
    }
}

/// The years of the root listing at or after the cursor's year. Every
/// entry must name a year.
pub fn walk_years(listing: &Vec<String>, from: &Option<FilePath>) -> (r: Result<Vec<u16>, Error>)
    ensures
        match r {
            Ok(v) => all_numbers(listing@, 0xffff) && v@ == wanted_years(listing@, *from),
            Err(e) => !all_numbers(listing@, 0xffff) && e is MalformedEntry,
        },
{
    let mut out: Vec<u16> = Vec::new();
    let mut i: usize = 0;
    while i < listing.len()
        invariant
            i <= listing@.len(),
            all_numbers(listing@.take(i as int), 0xffff),
            out@ == wanted_years(listing@.take(i as int), *from),
        decreases listing@.len() - i,
    {
        proof {
            assert(listing@.take(i + 1).drop_last() == listing@.take(i as int));
        }
        match parse_number(listing[i].as_str(), 0xffff) {
            Some(y) => {
                let wanted = match from {
                    None => true,
                    Some(c) => y as u16 >= c.year,
                };
                if wanted {
                    out.push(y as u16);
                }
            },
            None => {
                return Err(Error::MalformedEntry(listing[i].clone()));
            },
        }
        proof {
            assert forall|k: int| 0 <= k < i + 1 implies (#[trigger] parsed_number(
                listing@.take(i + 1)[k]@,
                0xffff,
            )) is Some by {
                if k < i {
                    assert(listing@.take(i + 1)[k] == listing@.take(i as int)[k]);
                }
            }
        }
        i = i + 1;
    }
    assert(listing@.take(listing@.len() as int) == listing@);
    Ok(out)
}

/// The months of a year's listing that can hold files at or after the
/// cursor. Every entry must name a month number.
pub fn walk_months(year: u16, listing: &Vec<String>, from: &Option<FilePath>) -> (r: Result<
    Vec<u8>,
    Error,
>)
    ensures
        match r {
            Ok(v) => all_numbers(listing@, 0xff) && v@ == wanted_months(year, listing@, *from),
            Err(e) => !all_numbers(listing@, 0xff) && e is MalformedEntry,
        },
{
    let mut out: Vec<u8> = Vec::new();
    let mut i: usize = 0;
    while i < listing.len()
        invariant
            i <= listing@.len(),
            all_numbers(listing@.take(i as int), 0xff),
            out@ == wanted_months(year, listing@.take(i as int), *from),
        decreases listing@.len() - i,
    {
        proof {
            assert(listing@.take(i + 1).drop_last() == listing@.take(i as int));
        }
        match parse_number(listing[i].as_str(), 0xff) {
            Some(m) => {
                let wanted = match from {
                    None => true,
                    Some(c) => year > c.year || (year == c.year && m as u8 >= c.month),
                };
                if wanted {
                    out.push(m as u8);
                }
            },
            None => {
                return Err(Error::MalformedEntry(listing[i].clone()));
            },
        }
        proof {
            assert forall|k: int| 0 <= k < i + 1 implies (#[trigger] parsed_number(
                listing@.take(i + 1)[k]@,
                0xff,
            )) is Some by {
                if k < i {
                    assert(listing@.take(i + 1)[k] == listing@.take(i as int)[k]);
                }
            }
        }
        i = i + 1;
    }
    assert(listing@.take(listing@.len() as int) == listing@);
    Ok(out)
}

/// The days of a month's listing that can hold files at or after the
/// cursor. Every entry must name a day number.
pub fn walk_days(year: u16, month: u8, listing: &Vec<String>, from: &Option<FilePath>) -> (r:
    Result<Vec<u8>, Error>)
    ensures
        match r {
            Ok(v) => all_numbers(listing@, 0xff) && v@ == wanted_days(year, month, listing@, *from),
            Err(e) => !all_numbers(listing@, 0xff) && e is MalformedEntry,
        },
{
    let mut out: Vec<u8> = Vec::new();
    let mut i: usize = 0;
    while i < listing.len()
        invariant
            i <= listing@.len(),
            all_numbers(listing@.take(i as int), 0xff),
            out@ == wanted_days(year, month, listing@.take(i as int), *from),
        decreases listing@.len() - i,
    {
        proof {
            assert(listing@.take(i + 1).drop_last() == listing@.take(i as int));
        }
        match parse_number(listing[i].as_str(), 0xff) {
            Some(d) => {
                let wanted = match from {
                    None => true,
                    Some(c) => year > c.year || (year == c.year && (month > c.month || (month
                        == c.month && d as u8 >= c.day))),
                };
                if wanted {
                    out.push(d as u8);
                }
            },
            None => {
                return Err(Error::MalformedEntry(listing[i].clone()));
            },
        }
        proof {
            assert forall|k: int| 0 <= k < i + 1 implies (#[trigger] parsed_number(
                listing@.take(i + 1)[k]@,
                0xff,
            )) is Some by {
                if k < i {
                    assert(listing@.take(i + 1)[k] == listing@.take(i as int)[k]);
                }
            }
        }
        i = i + 1;
    }
    assert(listing@.take(listing@.len() as int) == listing@);
    Ok(out)
}

/// The files of a day's listing at or after the cursor's file. Every entry
/// must name a timestamp.
pub fn walk_files(year: u16, month: u8, day: u8, listing: &Vec<String>, from: &Option<FilePath>) -> (r:
    Result<Vec<FilePath>, Error>)
    ensures
        match r {
            Ok(v) => all_numbers(listing@, 0xffff_ffff_ffff_ffff) && v@ == wanted_files(
                year,
                month,
                day,
                listing@,
                *from,
            ),
            Err(e) => !all_numbers(listing@, 0xffff_ffff_ffff_ffff) && e is MalformedEntry,
        },
{
    let mut out: Vec<FilePath> = Vec::new();
    let mut i: usize = 0;
    while i < listing.len()
        invariant
            i <= listing@.len(),
            all_numbers(listing@.take(i as int), 0xffff_ffff_ffff_ffff),
            out@ == wanted_files(year, month, day, listing@.take(i as int), *from),
        decreases listing@.len() - i,
    {
        proof {
            assert(listing@.take(i + 1).drop_last() == listing@.take(i as int));
        }
        match parse_number(listing[i].as_str(), 0xffff_ffff_ffff_ffff) {
            Some(t) => {
                let f = FilePath { year, month, day, timestamp: t };
                let wanted = match from {
                    None => true,
                    Some(c) => c.at_or_before(&f),
                };
                if wanted {
                    out.push(f);
                }
            },
            None => {
                return Err(Error::MalformedEntry(listing[i].clone()));
            },
        }
        proof {
            assert forall|k: int| 0 <= k < i + 1 implies (#[trigger] parsed_number(
                listing@.take(i + 1)[k]@,
                0xffff_ffff_ffff_ffff,
            )) is Some by {
                if k < i {
                    assert(listing@.take(i + 1)[k] == listing@.take(i as int)[k]);
                }
            }
        }
        i = i + 1;
    }
    assert(listing@.take(listing@.len() as int) == listing@);
    Ok(out)
}

/// The directory of a year: `/year`.
pub fn year_dir(year: u16) -> (r: String)
    ensures
        r@ == seq!['/'] + decimal(year as nat),
{
    let mut s = String::new();
    append_slash(&mut s);
    append_decimal(&mut s, year as u64);
    assert(s@ =~= seq!['/'] + decimal(year as nat));
    s
}

/// The directory of a month: `/year/month`.
pub fn month_dir(year: u16, month: u8) -> (r: String)
    ensures
        r@ == seq!['/'] + decimal(year as nat) + seq!['/'] + decimal(month as nat),
{
    let mut s = year_dir(year);
    append_slash(&mut s);
    append_decimal(&mut s, month as u64);
    s
}

/// The directory of a day: `/year/month/day`.
pub fn day_dir(year: u16, month: u8, day: u8) -> (r: String)
    ensures
        r@ == seq!['/'] + decimal(year as nat) + seq!['/'] + decimal(month as nat) + seq!['/']
            + decimal(day as nat),
{
    let mut s = month_dir(year, month);
    append_slash(&mut s);
    append_decimal(&mut s, day as u64);
    s
}

} // verus!
