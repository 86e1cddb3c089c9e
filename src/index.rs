//! The appliance's flat index: a JSON mapping year -> month -> day -> list
//! of timestamps, read into nested listings and flattened into file
//! references.

use vstd::prelude::*;
use std::collections::BTreeMap;
use crate::error::Error;
use crate::file_ref::{FilePath, files_sorted, parse_number, parsed_number, sort_files};

verus! {

/// The timestamps listed under one day.
pub struct DayEntry {
    pub day: String,
    pub files: Vec<String>,
}

/// The days listed under one month.
pub struct MonthEntry {
    pub month: String,
    pub days: Vec<DayEntry>,
}

/// The months listed under one year.
pub struct YearEntry {
    pub year: String,
    pub months: Vec<MonthEntry>,
}

pub open spec fn strings_view(v: Seq<String>) -> Seq<Seq<char>> {
    v.map_values(|s: String| s@)
}

pub open spec fn day_view(d: DayEntry) -> (Seq<char>, Seq<Seq<char>>) {
    (d.day@, strings_view(d.files@))
}

pub open spec fn month_view(m: MonthEntry) -> (Seq<char>, Seq<(Seq<char>, Seq<Seq<char>>)>) {
    (m.month@, m.days@.map_values(|d: DayEntry| day_view(d)))
}

pub open spec fn year_view(y: YearEntry) -> (
    Seq<char>,
    Seq<(Seq<char>, Seq<(Seq<char>, Seq<Seq<char>>)>)>,
) {
    (y.year@, y.months@.map_values(|m: MonthEntry| month_view(m)))
}

pub open spec fn index_view(v: Seq<YearEntry>) -> Seq<
    (Seq<char>, Seq<(Seq<char>, Seq<(Seq<char>, Seq<Seq<char>>)>)>),
> {
    v.map_values(|y: YearEntry| year_view(y))
}

/// The nested listing in a flat-index document, keys in ascending order.
pub uninterp spec fn json_index(b: Seq<u8>) -> Option<
    Seq<(Seq<char>, Seq<(Seq<char>, Seq<(Seq<char>, Seq<Seq<char>>)>)>)>,
>;

/// Relies on `serde_json::from_slice` into nested `BTreeMap`s of strings,
/// which hands its entries out in ascending key order.
#[verifier::external_body]
pub(crate) fn parse_index(b: &[u8]) -> (r: Option<Vec<YearEntry>>)
    ensures
        match r {
            Some(v) => json_index(b@) == Some(index_view(v@)),
            None => json_index(b@) is None,
        },
{
    let tree: BTreeMap<String, BTreeMap<String, BTreeMap<String, Vec<String>>>> =
        serde_json::from_slice(b).ok()?;
    Some(tree.into_iter().map(|(year, months)| YearEntry {
        year,
        months: months.into_iter().map(|(month, days)| MonthEntry {
            month,
            days: days.into_iter().map(|(day, files)| DayEntry { day, files }).collect(),
        }).collect(),
    }).collect())
}

/// Concatenation of `f` over `s`, or `None` as soon as `f` fails on an
/// element.
pub open spec fn concat_all<A>(s: Seq<A>, f: spec_fn(A) -> Option<Seq<FilePath>>) -> Option<
    Seq<FilePath>,
>
    decreases s.len(),
{
    if s.len() == 0 {
        Some(Seq::empty())
    } else {
        match concat_all(s.drop_last(), f) {
            None => None,
            Some(a) => match f(s.last()) {
                None => None,
                Some(b) => Some(a + b),
            },
        }
    }
}

proof fn lemma_concat_fails<A>(s: Seq<A>, f: spec_fn(A) -> Option<Seq<FilePath>>, j: int)
    requires
        0 <= j <= s.len(),
        concat_all(s.take(j), f) is None,
    ensures
        concat_all(s, f) is None,
    decreases s.len() - j,
{
    if j < s.len() {
        assert(s.take(j + 1).drop_last() == s.take(j));
        lemma_concat_fails(s, f, j + 1);
    } else {
        assert(s.take(j) == s);
    }
}

pub open spec fn day_files(y: u16, m: u8, d: (Seq<char>, Seq<Seq<char>>)) -> Option<Seq<FilePath>> {
    match parsed_number(d.0, 0xff) {
        None => None,
        Some(dn) => if forall|i: int|
            0 <= i < d.1.len() ==> (#[trigger] parsed_number(d.1[i], 0xffff_ffff_ffff_ffff)) is Some {
            Some(
                d.1.map_values(
                    |t: Seq<char>|
                        FilePath {
                            year: y,
                            month: m,
                            day: dn as u8,
                            timestamp: parsed_number(t, 0xffff_ffff_ffff_ffff)->0 as u64,
                        },
                ),
            )
        } else {
            None
        },
    }
}

pub open spec fn month_files(y: u16, m: (Seq<char>, Seq<(Seq<char>, Seq<Seq<char>>)>)) -> Option<
    Seq<FilePath>,
> {
    match parsed_number(m.0, 0xff) {
        None => None,
        Some(mn) => concat_all(m.1, |d: (Seq<char>, Seq<Seq<char>>)| day_files(y, mn as u8, d)),
    }
}

pub open spec fn year_files(
    y: (Seq<char>, Seq<(Seq<char>, Seq<(Seq<char>, Seq<Seq<char>>)>)>),
) -> Option<Seq<FilePath>> {
    match parsed_number(y.0, 0xffff) {
        None => None,
        Some(yn) => concat_all(
            y.1,
            |m: (Seq<char>, Seq<(Seq<char>, Seq<Seq<char>>)>)| month_files(yn as u16, m),
        ),
    }
}

/// Every file the index lists, or `None` where a key or a timestamp is not
/// a number of the right size.
pub open spec fn index_files(
    v: Seq<(Seq<char>, Seq<(Seq<char>, Seq<(Seq<char>, Seq<Seq<char>>)>)>)>,
) -> Option<Seq<FilePath>> {
    concat_all(
        v,
        |y: (Seq<char>, Seq<(Seq<char>, Seq<(Seq<char>, Seq<Seq<char>>)>)>)| year_files(y),
    )
}

fn day_refs(y: u16, m: u8, d: &DayEntry) -> (r: Result<Vec<FilePath>, Error>)
    ensures
        match r {
            Ok(v) => day_files(y, m, day_view(*d)) == Some(v@),
            Err(e) => day_files(y, m, day_view(*d)) is None && e is MalformedEntry,
        },
{
    let dn = match parse_number(d.day.as_str(), 0xff) {
        Some(dn) => dn,
        None => {
            return Err(Error::MalformedEntry(d.day.clone()));
        },
    };
    let ghost names = strings_view(d.files@);
    let mut out: Vec<FilePath> = Vec::new();
    let mut i: usize = 0;
    while i < d.files.len()
        invariant
            i <= d.files@.len(),
            names == strings_view(d.files@),
            names.len() == d.files@.len(),
            dn <= 0xff,
            parsed_number(d.day@, 0xff) == Some(dn as nat),
            out@.len() == i,
            forall|k: int| 0 <= k < i ==> (#[trigger] parsed_number(names[k], 0xffff_ffff_ffff_ffff)) is Some,
            forall|k: int|
                0 <= k < i ==> #[trigger] out@[k] == (FilePath {
                    year: y,
                    month: m,
                    day: dn as u8,
                    timestamp: parsed_number(names[k], 0xffff_ffff_ffff_ffff)->0 as u64,
                }),
        decreases d.files@.len() - i,
    {
        match parse_number(d.files[i].as_str(), 0xffff_ffff_ffff_ffff) {
            Some(t) => {
                out.push(FilePath { year: y, month: m, day: dn as u8, timestamp: t });
            },
            None => {
                assert(names[i as int] == d.files@[i as int]@);
                return Err(Error::MalformedEntry(d.files[i].clone()));
            },
        }
        i = i + 1;
    }
    proof {
        let expected = names.map_values(
            |t: Seq<char>|
                FilePath {
                    year: y,
                    month: m,
                    day: dn as u8,
                    timestamp: parsed_number(t, 0xffff_ffff_ffff_ffff)->0 as u64,
                },
        );
        assert(out@ =~= expected);
    }
    Ok(out)
}

fn month_refs(y: u16, me: &MonthEntry) -> (r: Result<Vec<FilePath>, Error>)
    ensures
        match r {
            Ok(v) => month_files(y, month_view(*me)) == Some(v@),
            Err(e) => month_files(y, month_view(*me)) is None && e is MalformedEntry,
        },
{
    let mn = match parse_number(me.month.as_str(), 0xff) {
        Some(mn) => mn,
        None => {
            return Err(Error::MalformedEntry(me.month.clone()));
        },
    };
    let ghost f = |d: (Seq<char>, Seq<Seq<char>>)| day_files(y, mn as u8, d);
    let ghost days = me.days@.map_values(|d: DayEntry| day_view(d));
    let mut out: Vec<FilePath> = Vec::new();
    let mut i: usize = 0;
    while i < me.days.len()
        invariant
            i <= me.days@.len(),
            days == me.days@.map_values(|d: DayEntry| day_view(d)),
            parsed_number(me.month@, 0xff) == Some(mn as nat),
            f == (|d: (Seq<char>, Seq<Seq<char>>)| day_files(y, mn as u8, d)),
            concat_all(days.take(i as int), f) == Some(out@),
        decreases me.days@.len() - i,
    {
        proof {
            assert(days.take(i + 1).drop_last() == days.take(i as int));
            assert(days.take(i + 1).last() == day_view(me.days@[i as int]));
        }
        match day_refs(y, mn as u8, &me.days[i]) {
            Ok(mut v) => {
                out.append(&mut v);
            },
            Err(e) => {
                proof {
                    assert(f(days.take(i + 1).last()) is None);
                    assert(concat_all(days.take(i + 1), f) is None);
                    lemma_concat_fails(days, f, i + 1);
                    assert(concat_all(days, f) is None);
                    let mv = month_view(*me);
                    let g = |d: (Seq<char>, Seq<Seq<char>>)| day_files(
                        y,
                        (parsed_number(mv.0, 0xff)->0) as u8,
                        d,
                    );
                    assert(mv.1 == days);
                    assert(parsed_number(mv.0, 0xff) == Some(mn as nat));
                    assert forall|d: (Seq<char>, Seq<Seq<char>>)| #[trigger] f(d) == g(d) by {}
                    assert(f =~= g);
                }
                return Err(e);
            },
        }
        i = i + 1;
    }
    assert(days.take(me.days@.len() as int) == days);
    Ok(out)
}

fn year_refs(ye: &YearEntry) -> (r: Result<Vec<FilePath>, Error>)
    ensures
        match r {
            Ok(v) => year_files(year_view(*ye)) == Some(v@),
            Err(e) => year_files(year_view(*ye)) is None && e is MalformedEntry,
        },
{
    let yn = match parse_number(ye.year.as_str(), 0xffff) {
        Some(yn) => yn,
        None => {
            return Err(Error::MalformedEntry(ye.year.clone()));
        },
    };
    let ghost f = |m: (Seq<char>, Seq<(Seq<char>, Seq<Seq<char>>)>)| month_files(yn as u16, m);
    let ghost months = ye.months@.map_values(|m: MonthEntry| month_view(m));
    let mut out: Vec<FilePath> = Vec::new();
    let mut i: usize = 0;
    while i < ye.months.len()
        invariant
            i <= ye.months@.len(),
            months == ye.months@.map_values(|m: MonthEntry| month_view(m)),
            parsed_number(ye.year@, 0xffff) == Some(yn as nat),
            f == (|m: (Seq<char>, Seq<(Seq<char>, Seq<Seq<char>>)>)| month_files(yn as u16, m)),
            concat_all(months.take(i as int), f) == Some(out@),
        decreases ye.months@.len() - i,
    {
        proof {
            assert(months.take(i + 1).drop_last() == months.take(i as int));
            assert(months.take(i + 1).last() == month_view(ye.months@[i as int]));
        }
        match month_refs(yn as u16, &ye.months[i]) {
            Ok(mut v) => {
                out.append(&mut v);
            },
            Err(e) => {
                proof {
                    assert(f(months.take(i + 1).last()) is None);
                    lemma_concat_fails(months, f, i + 1);
                    let yv = year_view(*ye);
                    let g = |m: (Seq<char>, Seq<(Seq<char>, Seq<Seq<char>>)>)| month_files(
                        (parsed_number(yv.0, 0xffff)->0) as u16,
                        m,
                    );
                    assert(yv.1 == months);
                    assert(parsed_number(yv.0, 0xffff) == Some(yn as nat));
                    assert forall|m: (Seq<char>, Seq<(Seq<char>, Seq<Seq<char>>)>)| #[trigger] f(m) == g(m) by {}
                    assert(f =~= g);
                }
                return Err(e);
            },
        }
        i = i + 1;
    }
    assert(months.take(ye.months@.len() as int) == months);
    Ok(out)
}

/// Flattens the nested listing of the flat index into file references in
/// ascending order. Every key and timestamp must be a number of the right
/// size.
pub fn flatten_index(index: &Vec<YearEntry>) -> (r: Result<Vec<FilePath>, Error>)
    ensures
        match r {
            Ok(v) => index_files(index_view(index@)) is Some && files_sorted(v@)
                && v@.to_multiset() == index_files(index_view(index@))->0.to_multiset(),
            Err(e) => index_files(index_view(index@)) is None && e is MalformedEntry,
        },
{
    let ghost f = |y: (Seq<char>, Seq<(Seq<char>, Seq<(Seq<char>, Seq<Seq<char>>)>)>)| year_files(y);
    let ghost years = index_view(index@);
    let mut out: Vec<FilePath> = Vec::new();
    let mut i: usize = 0;
    while i < index.len()
        invariant
            i <= index@.len(),
            years == index_view(index@),
            f == (|y: (Seq<char>, Seq<(Seq<char>, Seq<(Seq<char>, Seq<Seq<char>>)>)>)| year_files(y)),
            concat_all(years.take(i as int), f) == Some(out@),
        decreases index@.len() - i,
    {
        proof {
            assert(years.take(i + 1).drop_last() == years.take(i as int));
            assert(years.take(i + 1).last() == year_view(index@[i as int]));
        }
        match year_refs(&index[i]) {
            Ok(mut v) => {
                out.append(&mut v);
            },
            Err(e) => {
                proof {
                    lemma_concat_fails(years, f, i + 1);
                }
                return Err(e);
            },
        }
        i = i + 1;
    }
    assert(years.take(index@.len() as int) == years);
    Ok(sort_files(&out))
}

} // verus!
