//! The rolling-window store: an in-memory sequence of records, strictly
//! ascending by timestamp, and the last file they were read from.

use vstd::prelude::*;
use chrono::Datelike;
use crate::file_ref::{FilePath, SyncCursor, file_le};

verus! {

/// A record together with the timestamp that identifies it.
pub struct Stamped<T> {
    pub timestamp: u64,
    pub value: T,
}

/// Inclusive bounds of the stored timestamps.
#[derive(PartialEq, Eq, Structural, Debug, Clone, Copy)]
pub struct Timestamps {
    pub first: Option<i64>,
    pub last: Option<i64>,
}

/// Timestamps strictly ascending: sorted, and no timestamp twice.
pub open spec fn ascending<T>(s: Seq<Stamped<T>>) -> bool {
    forall|i: int, j: int|
        0 <= i < j < s.len() ==> (#[trigger] s[i]).timestamp < (#[trigger] s[j]).timestamp
}

pub open spec fn tail_timestamp<T>(s: Seq<Stamped<T>>) -> Option<u64> {
    if s.len() == 0 {
        None
    } else {
        Some(s.last().timestamp)
    }
}

/// Whether a record with timestamp `ts` is new: above the caller's floor and
/// above the newest stored record.
pub open spec fn admits(floor: Option<u64>, tail: Option<u64>, ts: u64) -> bool {
    (floor is None || ts > floor->0) && (tail is None || ts > tail->0)
}

/// `r` is one of the records of `incoming`.
#[verifier::opaque]
pub open spec fn arrived<T>(incoming: Seq<Stamped<T>>, r: Stamped<T>) -> bool {
    incoming.contains(r)
}

/// `new` is `old` followed by one record for each new timestamp among
/// `incoming`, in ascending order.
pub open spec fn merged<T>(
    old: Seq<Stamped<T>>,
    incoming: Seq<Stamped<T>>,
    floor: Option<u64>,
    new: Seq<Stamped<T>>,
) -> bool {
    &&& new.len() >= old.len()
    &&& new.take(old.len() as int) == old
    &&& ascending(new)
    &&& forall|i: int|
        old.len() <= i < new.len() ==> admits(floor, tail_timestamp(old), (#[trigger] new[i]).timestamp)
            && arrived(incoming, new[i])
    &&& forall|j: int|
        0 <= j < incoming.len() && admits(floor, tail_timestamp(old), (#[trigger] incoming[j]).timestamp)
            ==> exists|i: int| old.len() <= i < new.len() && (#[trigger] new[i]).timestamp == incoming[j].timestamp
}

/// The later of a file and an optional file.
pub open spec fn later(o: Option<FilePath>, f: FilePath) -> Option<FilePath> {
    match o {
        None => Some(f),
        Some(g) => if file_le(g, f) {
            Some(f)
        } else {
            Some(g)
        },
    }
}

/// The latest among `o` and `files`.
pub open spec fn latest(o: Option<FilePath>, files: Seq<FilePath>) -> Option<FilePath>
    decreases files.len(),
{
    if files.len() == 0 {
        o
    } else {
        later(latest(o, files.drop_last()), files.last())
    }
}

pub open spec fn batch_files<T>(b: Seq<(FilePath, Vec<Stamped<T>>)>) -> Seq<FilePath>
    decreases b.len(),
{
    if b.len() == 0 {
        Seq::empty()
    } else {
        batch_files(b.drop_last()).push(b.last().0)
    }
}

pub open spec fn batch_records<T>(b: Seq<(FilePath, Vec<Stamped<T>>)>) -> Seq<Stamped<T>>
    decreases b.len(),
{
    if b.len() == 0 {
        Seq::empty()
    } else {
        batch_records(b.drop_last()) + b.last().1@
    }
}

fn flatten_batch<T>(batch: Vec<(FilePath, Vec<Stamped<T>>)>) -> (r: (
    Vec<FilePath>,
    Vec<Stamped<T>>,
))
    ensures
        r.0@ == batch_files(batch@),
        r.1@ == batch_records(batch@),
{
    let ghost orig = batch@;
    let mut b = batch;
    let mut files: Vec<FilePath> = Vec::new();
    let mut recs: Vec<Stamped<T>> = Vec::new();
    let ghost mut k: int = 0;
    while b.len() > 0
        invariant
            0 <= k <= orig.len(),
            b@ == orig.skip(k),
            files@ == batch_files(orig.take(k)),
            recs@ == batch_records(orig.take(k)),
        decreases b.len(),
    {
        let (f, mut rs) = b.remove(0);
        proof {
            assert(orig.take(k + 1).drop_last() == orig.take(k));
            assert(orig.take(k + 1).last() == orig[k]);
        }
        files.push(f);
        recs.append(&mut rs);
        proof {
            k = k + 1;
            assert(b@ =~= orig.skip(k));
        }
    }
    assert(orig.take(k) == orig);
    (files, recs)
}


/// The latest of `o` and `files`, in the file order.
pub fn latest_file(o: Option<FilePath>, files: &Vec<FilePath>) -> (r: Option<FilePath>)
    ensures
        r == latest(o, files@),
{
    let mut acc = o;
    let mut i: usize = 0;
    while i < files.len()
        invariant
            i <= files@.len(),
            acc == latest(o, files@.take(i as int)),
        decreases files@.len() - i,
    {
        let f = files[i];
        proof {
            assert(files@.take(i + 1).drop_last() == files@.take(i as int));
        }
        acc = match acc {
            None => Some(f),
            Some(g) => if g.at_or_before(&f) {
                Some(f)
            } else {
                Some(g)
            },
        };
        i = i + 1;
    }
    assert(files@.take(files@.len() as int) == files@);
    acc
}

/// Every file of `files`, and `o` when present, comes no later than the
/// latest of them, which is one of them.
proof fn lemma_latest_bounds(o: Option<FilePath>, files: Seq<FilePath>)
    ensures
        latest(o, files) is None <==> (o is None && files.len() == 0),
        forall|i: int| 0 <= i < files.len() ==> file_le(#[trigger] files[i], latest(o, files)->0),
        o is Some ==> file_le(o->0, latest(o, files)->0),
    decreases files.len(),
{
    if files.len() > 0 {
        let rest = files.drop_last();
        lemma_latest_bounds(o, rest);
        let m = latest(o, rest);
        let f = files.last();
        if let Some(g) = m {
            crate::file_ref::lemma_file_order_total(g, f);
            assert forall|i: int| 0 <= i < files.len() implies file_le(
                #[trigger] files[i],
                latest(o, files)->0,
            ) by {
                if i < files.len() - 1 {
                    assert(files[i] == rest[i]);
                    if file_le(g, f) {
                        crate::file_ref::lemma_file_order_transitive(files[i], g, f);
                    }
                }
            }
            if let Some(h) = o {
                if file_le(g, f) {
                    crate::file_ref::lemma_file_order_transitive(h, g, f);
                }
            }
        }
    }
}

/// Starting from an upper bound of all `files`, the latest is that bound.
proof fn lemma_latest_of_bound(m: FilePath, files: Seq<FilePath>)
    requires
        forall|i: int| 0 <= i < files.len() ==> file_le(#[trigger] files[i], m),
    ensures
        latest(Some(m), files) == Some(m),
    decreases files.len(),
{
    if files.len() > 0 {
        let rest = files.drop_last();
        assert forall|i: int| 0 <= i < rest.len() implies file_le(#[trigger] rest[i], m) by {
            assert(rest[i] == files[i]);
        }
        lemma_latest_of_bound(m, rest);
        let f = files.last();
        assert(file_le(f, m));
        crate::file_ref::lemma_file_order_total(m, f);
    }
}

proof fn lemma_merge_idempotent<T>(
    s0: Seq<Stamped<T>>,
    s1: Seq<Stamped<T>>,
    s2: Seq<Stamped<T>>,
    incoming: Seq<Stamped<T>>,
    floor: Option<u64>,
)
    requires
        merged(s0, incoming, floor, s1),
        merged(s1, incoming, floor, s2),
    ensures
        s2 == s1,
{
    if s2.len() > s1.len() {
        let n = s1.len() as int;
        let x = s2[n];
        assert(admits(floor, tail_timestamp(s1), x.timestamp));
        assert(arrived(incoming, x));
        assert(incoming.contains(x)) by {
            reveal(arrived);
        }
        let j = choose|j: int| 0 <= j < incoming.len() && incoming[j] == x;
        assert(s1.len() > 0);
        if s0.len() > 0 {
            let m = s0.len() - 1;
            assert(s1.take(s0.len() as int)[m] == s0[m]);
            if m < s1.len() - 1 {
                assert(s1[m].timestamp < s1[s1.len() - 1].timestamp);
            }
        }
        assert(admits(floor, tail_timestamp(s0), incoming[j].timestamp));
        let i = choose|i: int|
            s0.len() <= i < s1.len() && (#[trigger] s1[i]).timestamp == incoming[j].timestamp;
        if i < s1.len() - 1 {
            assert(s1[i].timestamp < s1[s1.len() - 1].timestamp);
        }
    }
    assert(s2 =~= s2.take(s1.len() as int));
}

/// Storing the same batch a second time changes nothing: no record is added
/// twice and the file cursor stays where the first store left it.
pub proof fn lemma_store_idempotent<T>(
    s0: Seq<Stamped<T>>,
    s1: Seq<Stamped<T>>,
    s2: Seq<Stamped<T>>,
    incoming: Seq<Stamped<T>>,
    floor: Option<u64>,
    cursor: Option<FilePath>,
    files: Seq<FilePath>,
)
    requires
        merged(s0, incoming, floor, s1),
        merged(s1, incoming, floor, s2),
    ensures
        s2 == s1,
        latest(latest(cursor, files), files) == latest(cursor, files),
{
    lemma_merge_idempotent(s0, s1, s2, incoming, floor);
    lemma_latest_bounds(cursor, files);
    if latest(cursor, files) is Some {
        lemma_latest_of_bound(latest(cursor, files)->0, files);
    }
}


/// One point of a downsampled series: the stored records at indices
/// `start..end`, represented by the timestamp of the first of them.
#[derive(PartialEq, Eq, Structural, Debug, Clone, Copy)]
pub struct Group {
    pub start: usize,
    pub end: usize,
    pub timestamp: u64,
}

/// How many consecutive samples one point combines so that `n` samples give
/// at most `target` points: `ceil(n / target)`, and at least one.
pub open spec fn combine_count_spec(n: nat, target: nat) -> nat {
    if n == 0 {
        1
    } else if n % target == 0 {
        n / target
    } else {
        n / target + 1
    }
}

/// Number of samples that one point combines.
pub fn combine_count(n: u64, target: u64) -> (r: u64)
    requires
        target > 0,
    ensures
        r == combine_count_spec(n as nat, target as nat),
        r >= 1,
        r * target >= n,
{
    let q = n / target;
    proof {
        assert(n == target * q + n % target) by (nonlinear_arith)
            requires
                target > 0,
                q == n / target,
        ;
    }
    if n == 0 {
        1
    } else if n % target == 0 {
        proof {
            assert(q >= 1) by (nonlinear_arith)
                requires
                    n > 0,
                    n == target * q,
            ;
            assert(q * target >= n) by (nonlinear_arith)
                requires
                    n == target * q,
            ;
        }
        q
    } else {
        proof {
            assert(target >= 2);
            assert(q <= n / 2) by (nonlinear_arith)
                requires
                    target >= 2,
                    q == n / target,
            ;
            assert((q + 1) * target >= n) by (nonlinear_arith)
                requires
                    n == target * q + n % target,
                    n % target < target,
            ;
        }
        q + 1
    }
}

/// Indices `lo..hi` are exactly the records with timestamps in `from..=to`.
pub open spec fn in_range<T>(s: Seq<Stamped<T>>, from: u64, to: u64, lo: int, hi: int) -> bool {
    &&& 0 <= lo <= hi <= s.len()
    &&& forall|i: int| 0 <= i < lo ==> (#[trigger] s[i]).timestamp < from
    &&& forall|i: int| lo <= i < hi ==> from <= (#[trigger] s[i]).timestamp <= to
    &&& forall|i: int| hi <= i < s.len() ==> (#[trigger] s[i]).timestamp > to
}

/// `g` cuts `lo..hi` into consecutive groups of `c` indices, the last one
/// possibly shorter.
pub open spec fn chunked(g: Seq<Group>, lo: int, hi: int, c: int) -> bool {
    &&& g.len() == 0 <==> lo == hi
    &&& forall|k: int|
        0 <= k < g.len() ==> (#[trigger] g[k]).start == lo + k * c && g[k].end == if lo + (k + 1)
            * c < hi {
            lo + (k + 1) * c
        } else {
            hi
        }
    &&& g.len() > 0 ==> lo + (g.len() - 1) * c < hi
}


/// Seconds in seven days: how far back a store without history starts.
pub const WEEK_SECS: u64 = 604800;

/// Spacing of the appliance's samples in milliseconds.
pub const SAMPLE_MILLIS: u64 = 120000;

/// The UTC calendar date (year, month, day) of a Unix time in seconds.
pub uninterp spec fn utc_date(secs: int) -> Option<(int, int, int)>;

/// Relies on chrono's `DateTime::<Utc>::from_timestamp` and its `Datelike`
/// accessors: the UTC date of a Unix time, `None` outside chrono's range.
#[verifier::external_body]
fn utc_date_of(secs: i64) -> (r: Option<(i32, u32, u32)>)
    ensures
        match r {
            Some((y, m, d)) => utc_date(secs as int) == Some((y as int, m as int, d as int)) && 1
                <= m <= 12 && 1 <= d <= 31,
            None => utc_date(secs as int) is None,
        },
{
    match chrono::DateTime::from_timestamp(secs, 0) {
        Some(t) => Some((t.year(), t.month(), t.day())),
        None => None,
    }
}

/// The file reference a store without history resumes from: the date
/// directory of `secs`, or the very beginning where that date is unknown.
pub open spec fn start_file(secs: u64) -> FilePath {
    match utc_date(secs as int) {
        Some((y, m, d)) if secs <= i64::MAX => FilePath {
            year: y as u16,
            month: m as u8,
            day: d as u8,
            timestamp: secs,
        },
        _ => FilePath { year: 0, month: 0, day: 0, timestamp: secs },
    }
}

/// The file reference to resume from when nothing has been stored yet.
pub fn start_file_at(secs: u64) -> (r: FilePath)
    ensures
        r == start_file(secs),
{
    if secs <= i64::MAX as u64 {
        match utc_date_of(secs as i64) {
            Some((y, m, d)) => FilePath { year: y as u16, month: m as u8, day: d as u8, timestamp: secs },
            None => FilePath { year: 0, month: 0, day: 0, timestamp: secs },
        }
    } else {
        FilePath { year: 0, month: 0, day: 0, timestamp: secs }
    }
}

/// How a relational query over `first..=last` (milliseconds) groups samples
/// taken every `SAMPLE_MILLIS`: the number of samples per point and the
/// width of one group in milliseconds.
pub fn combine_window(first: u64, last: u64, max_points: u64) -> (r: (u64, u64))
    requires
        max_points > 0,
    ensures
        r.0 == combine_count_spec(
            (if last >= first {
                (last - first) / SAMPLE_MILLIS as int
            } else {
                0
            }) as nat,
            max_points as nat,
        ),
        r.1 == r.0 * SAMPLE_MILLIS,
{
    let n: u64 = if last >= first {
        (last - first) / SAMPLE_MILLIS
    } else {
        0
    };
    let c = combine_count(n, max_points);
    proof {
        assert(c <= n || c == 1) by (nonlinear_arith)
            requires
                c == combine_count_spec(n as nat, max_points as nat),
                max_points > 0,
        ;
        assert(n * SAMPLE_MILLIS <= u64::MAX) by (nonlinear_arith)
            requires
                n == (if last >= first { (last - first) / SAMPLE_MILLIS as int } else { 0 }),
                last <= u64::MAX,
        ;
        assert(c * SAMPLE_MILLIS <= u64::MAX) by (nonlinear_arith)
            requires
                c <= n || c == 1,
                n * SAMPLE_MILLIS <= u64::MAX,
        ;
    }
    (c, c * SAMPLE_MILLIS)
}


/// The records of `records` newer than `floor`, in their order: what a
/// store keeps of a batch when it resumes from a cursor.
pub fn fresh_records<T>(records: Vec<Stamped<T>>, floor: Option<u64>) -> (r: Vec<Stamped<T>>)
    ensures
        r@ == records@.filter(|x: Stamped<T>| admits(floor, None, x.timestamp)),
{
    let ghost orig = records@;
    let ghost keep = |x: Stamped<T>| admits(floor, None, x.timestamp);
    let mut rest = records;
    let mut out: Vec<Stamped<T>> = Vec::new();
    let ghost mut k: int = 0;
    while rest.len() > 0
        invariant
            0 <= k <= orig.len(),
            rest@ == orig.skip(k),
            keep == (|x: Stamped<T>| admits(floor, None, x.timestamp)),
            out@ == orig.take(k).filter(keep),
        decreases rest.len(),
    {
        let x = rest.remove(0);
        proof {
            assert(x == orig[k]);
            assert(orig.take(k + 1) == orig.take(k).push(x));
            orig.take(k).lemma_filter_push(x, keep);
        }
        let fresh = match floor {
            None => true,
            Some(f) => x.timestamp > f,
        };
        if fresh {
            out.push(x);
        }
        proof {
            k = k + 1;
            assert(rest@ =~= orig.skip(k));
        }
    }
    assert(orig.take(k) == orig);
    out
}


/// The relational backend groups the samples of `first..=last` into time
/// buckets `t / width`, with the width that `combine_window` gives. They
/// span at most `max_points + 2` buckets: one more than `max_points + 1`
/// because the range need not start at a bucket boundary.
pub proof fn lemma_bucket_count(first: u64, last: u64, max_points: u64, c: nat, width: nat)
    requires
        max_points > 0,
        first <= last,
        c == combine_count_spec(((last - first) / SAMPLE_MILLIS as int) as nat, max_points as nat),
        width == c * SAMPLE_MILLIS,
    ensures
        width > 0,
        last as int / width as int - first as int / width as int + 1 <= max_points + 2,
{
    let d = (last - first) as int;
    let n = d / SAMPLE_MILLIS as int;
    let m = max_points as int;
    let ci = c as int;
    let w = width as int;
    assert(n >= 0) by (nonlinear_arith)
        requires
            d >= 0,
            n == d / 120000,
    ;
    if n == 0 {
        assert(ci == 1);
    } else if n % m == 0 {
        assert(ci == n / m);
        assert(ci >= 1 && ci * m >= n) by (nonlinear_arith)
            requires
                n > 0,
                m > 0,
                n % m == 0,
                ci == n / m,
        ;
    } else {
        assert(ci == n / m + 1);
        assert(ci >= 1 && ci * m >= n) by (nonlinear_arith)
            requires
                n > 0,
                m > 0,
                ci == n / m + 1,
        ;
    }
    assert(d < (n + 1) * 120000) by (nonlinear_arith)
        requires
            n == d / 120000,
            d >= 0,
    ;
    assert(d < (m + 1) * w) by (nonlinear_arith)
        requires
            d < (n + 1) * 120000,
            ci * m >= n,
            ci >= 1,
            w == ci * 120000,
    ;
    let qa = first as int / w;
    let qb = last as int / w;
    assert(qb - qa <= m + 1) by (nonlinear_arith)
        requires
            w > 0,
            first as int >= 0,
            last as int == first as int + d,
            d < (m + 1) * w,
            qa == first as int / w,
            qb == last as int / w,
    ;
}

/// The in-memory store. Its records are strictly ascending by timestamp.
pub struct Sevendays<T> {
    last_file: Option<FilePath>,
    records: Vec<Stamped<T>>,
}

impl<T> Sevendays<T> {
    /// The records ascend strictly by timestamp.
    pub open spec fn wf(&self) -> bool {
        ascending(self.entries())
    }

    /// The stored records, oldest first.
    pub closed spec fn entries(&self) -> Seq<Stamped<T>> {
        self.records@
    }

    /// The last file that records were stored from.
    pub closed spec fn cursor_file(&self) -> Option<FilePath> {
        self.last_file
    }

    /// An empty store.
    pub fn new() -> (r: Self)
        ensures
            r.wf(),
            r.entries().len() == 0,
            r.cursor_file() is None,
    {
        Sevendays { last_file: None, records: Vec::new() }
    }

    /// A store rebuilt from a snapshot: one record for each distinct
    /// timestamp of `records`, in ascending order.
    pub fn from_snapshot(last_file: Option<FilePath>, records: Vec<Stamped<T>>) -> (r: Self)
        ensures
            r.wf(),
            r.cursor_file() == last_file,
            merged(Seq::empty(), records@, None, r.entries()),
    {
        let mut s = Sevendays { last_file, records: Vec::new() };
        s.merge(records, None);
        s
    }

    pub fn last_file(&self) -> (r: Option<FilePath>)
        ensures
            r == self.cursor_file(),
    {
        self.last_file
    }

    pub fn records(&self) -> (r: &Vec<Stamped<T>>)
        ensures
            r@ == self.entries(),
    {
        &self.records
    }

    /// Gives up the store as its parts, for writing a snapshot.
    pub fn into_parts(self) -> (r: (Option<FilePath>, Vec<Stamped<T>>))
        ensures
            r.0 == self.cursor_file(),
            r.1@ == self.entries(),
    {
        (self.last_file, self.records)
    }


    /// Stores a batch of (file, records) pairs: the records newer than
    /// `floor` and than every stored record are added, one per timestamp, in
    /// ascending order, and the file cursor moves to the latest file seen.
    pub fn store_batch(&mut self, batch: Vec<(FilePath, Vec<Stamped<T>>)>, floor: Option<u64>)
        requires
            old(self).wf(),
        ensures
            final(self).wf(),
            merged(old(self).entries(), batch_records(batch@), floor, final(self).entries()),
            final(self).cursor_file() == latest(old(self).cursor_file(), batch_files(batch@)),
    {
        let (files, records) = flatten_batch(batch);
        self.merge(records, floor);
        self.last_file = latest_file(self.last_file, &files);
    }

    /// Bounds of the stored timestamps.
    pub fn timestamps(&self) -> (r: Timestamps)
        ensures
            self.entries().len() == 0 ==> r.first is None && r.last is None,
            self.entries().len() > 0 ==> r.first == Some(self.entries()[0].timestamp as i64)
                && r.last == Some(self.entries().last().timestamp as i64),
            self.wf() ==> forall|i: int|
                0 <= i < self.entries().len() ==> self.entries()[0].timestamp <= (
                #[trigger] self.entries()[i]).timestamp <= self.entries().last().timestamp,
    {
        proof {
            if self.wf() {
                assert forall|i: int| 0 <= i < self.entries().len() implies self.entries()[0].timestamp
                    <= (#[trigger] self.entries()[i]).timestamp
                    <= self.entries().last().timestamp by {
                    if 0 < i {
                        assert(self.entries()[0].timestamp < self.entries()[i].timestamp);
                    }
                    if i < self.entries().len() - 1 {
                        assert(self.entries()[i].timestamp < self.entries()[self.entries().len() - 1].timestamp);
                    }
                }
            }
        }
        if self.records.len() == 0 {
            Timestamps { first: None, last: None }
        } else {
            Timestamps {
                first: Some(self.records[0].timestamp as i64),
                last: Some(self.records[self.records.len() - 1].timestamp as i64),
            }
        }
    }


    /// The indices of the records with timestamps in `from..=to`.
    pub fn range_bounds(&self, from: u64, to: u64) -> (r: (usize, usize))
        requires
            self.wf(),
        ensures
            in_range(self.entries(), from, to, r.0 as int, r.1 as int),
    {
        let mut lo: usize = 0;
        while lo < self.records.len() && self.records[lo].timestamp < from
            invariant
                lo <= self.records@.len(),
                forall|i: int| 0 <= i < lo ==> (#[trigger] self.records@[i]).timestamp < from,
            decreases self.records@.len() - lo,
        {
            lo = lo + 1;
        }
        let mut hi: usize = lo;
        while hi < self.records.len() && self.records[hi].timestamp <= to
            invariant
                lo <= hi <= self.records@.len(),
                lo < self.records@.len() ==> self.records@[lo as int].timestamp >= from,
                forall|i: int| lo <= i < hi ==> (#[trigger] self.records@[i]).timestamp <= to,
            decreases self.records@.len() - hi,
        {
            hi = hi + 1;
        }
        proof {
            assert forall|i: int| lo <= i < hi implies from <= (#[trigger] self.records@[i]).timestamp by {
                if i > lo {
                    assert(self.records@[lo as int].timestamp < self.records@[i].timestamp);
                }
            }
            assert forall|i: int| hi <= i < self.records@.len() implies (
            #[trigger] self.records@[i]).timestamp > to by {
                if i > hi {
                    assert(self.records@[hi as int].timestamp < self.records@[i].timestamp);
                }
            }
        }
        (lo, hi)
    }

    /// Downsamples the records with timestamps in `from..=to` to at most
    /// `target` points: consecutive groups of `ceil(n / target)` records, each
    /// represented by its earliest timestamp.
    pub fn query_groups(&self, from: u64, to: u64, target: u64) -> (r: Vec<Group>)
        requires
            self.wf(),
            target > 0,
        ensures
            exists|lo: int, hi: int|
                in_range(self.entries(), from, to, lo, hi) && chunked(
                    r@,
                    lo,
                    hi,
                    combine_count_spec((hi - lo) as nat, target as nat) as int,
                ),
            r@.len() <= target,
            forall|k: int|
                0 <= k < r@.len() ==> (#[trigger] r@[k]).start < r@[k].end <= self.entries().len()
                    && r@[k].timestamp == self.entries()[r@[k].start as int].timestamp,
            forall|k: int, i: int|
                0 <= k < r@.len() && r@[k].start <= i < r@[k].end ==> (#[trigger] r@[k]).timestamp
                    <= (#[trigger] self.entries()[i]).timestamp,
    {
        let (lo, hi) = self.range_bounds(from, to);
        let n = (hi - lo) as u64;
        let c = combine_count(n, target);
        let mut out: Vec<Group> = Vec::new();
        let mut start = lo;
        while start < hi
            invariant
                lo <= start <= hi <= self.records@.len(),
                ascending(self.records@),
                c >= 1,
                c * target >= n,
                n == hi - lo,
                start < hi ==> start == lo + out@.len() * c,
                start == hi ==> hi <= lo + out@.len() * c,
                out@.len() > 0 ==> lo + (out@.len() - 1) * c < hi,
                out@.len() == 0 ==> start == lo,
                forall|k: int|
                    0 <= k < out@.len() ==> (#[trigger] out@[k]).start == lo + k * c && out@[k].end
                        == if lo + (k + 1) * c < hi {
                        lo + (k + 1) * c
                    } else {
                        hi as int
                    },
                forall|k: int|
                    0 <= k < out@.len() ==> (#[trigger] out@[k]).start < out@[k].end <= hi
                        && out@[k].timestamp == self.records@[out@[k].start as int].timestamp,
            decreases hi - start,
        {
            let ghost len = out@.len();
            let end = if ((hi - start) as u64) > c {
                start + c as usize
            } else {
                hi
            };
            proof {
                assert(lo + (len + 1) * c == lo + len * c + c) by (nonlinear_arith);
            }
            out.push(Group { start, end, timestamp: self.records[start].timestamp });
            start = end;
        }
        proof {
            let len = out@.len();
            if len > 0 {
                assert((len - 1) * c < n);
                assert(len <= target) by (nonlinear_arith)
                    requires
                        (len - 1) * c < n,
                        c * target >= n,
                        c >= 1,
                ;
            }
            assert forall|k: int, i: int|
                0 <= k < out@.len() && out@[k].start <= i < out@[k].end implies (
                #[trigger] out@[k]).timestamp <= (#[trigger] self.records@[i]).timestamp by {
                if i > out@[k].start {
                    assert(self.records@[out@[k].start as int].timestamp < self.records@[i].timestamp);
                }
            }
            assert(in_range(self.records@, from, to, lo as int, hi as int));
            assert(chunked(out@, lo as int, hi as int, c as int));
        }
        out
    }


    /// Where synchronisation resumes: the last stored file and the newest
    /// stored timestamp, or, for what the store lacks, seven days before
    /// `now` (seconds). Record timestamps count `ticks_per_sec` to the
    /// second (1 for seconds, 1000 for milliseconds); the fallback timestamp
    /// is given in those ticks, saturating at the largest `u64`.
    pub fn last_cursor(&self, now: u64, ticks_per_sec: u64) -> (r: SyncCursor)
        ensures
            ({
                let week_ago = if now >= WEEK_SECS { (now - WEEK_SECS) as u64 } else { 0u64 };
                let fallback = if week_ago * ticks_per_sec <= u64::MAX {
                    (week_ago * ticks_per_sec) as u64
                } else {
                    u64::MAX
                };
                &&& r.last_file == match self.cursor_file() {
                    Some(f) => f,
                    None => start_file(week_ago),
                }
                &&& r.last_timestamp == match tail_timestamp(self.entries()) {
                    Some(t) => t,
                    None => fallback,
                }
            }),
    {
        let week_ago = if now >= WEEK_SECS {
            now - WEEK_SECS
        } else {
            0
        };
        let fallback: u64 = if ticks_per_sec == 0 || week_ago <= u64::MAX / ticks_per_sec {
            proof {
                if ticks_per_sec > 0 {
                    assert(week_ago * ticks_per_sec <= u64::MAX) by (nonlinear_arith)
                        requires
                            ticks_per_sec > 0,
                            week_ago <= u64::MAX / ticks_per_sec,
                    ;
                }
            }
            week_ago * ticks_per_sec
        } else {
            proof {
                assert(week_ago * ticks_per_sec > u64::MAX) by (nonlinear_arith)
                    requires
                        ticks_per_sec > 0,
                        week_ago > u64::MAX / ticks_per_sec,
                ;
            }
            u64::MAX
        };
        let last_file = match self.last_file {
            Some(f) => f,
            None => start_file_at(week_ago),
        };
        let last_timestamp = match self.tail() {
            Some(t) => t,
            None => fallback,
        };
        SyncCursor { last_file, last_timestamp }
    }

    fn tail(&self) -> (r: Option<u64>)
        ensures
            r == tail_timestamp(self.records@),
    {
        if self.records.len() == 0 {
            None
        } else {
            Some(self.records[self.records.len() - 1].timestamp)
        }
    }

    /// Adds the records of `incoming` that are newer than `floor` and than
    /// every stored record, one per timestamp, keeping the order.
    fn merge(&mut self, incoming: Vec<Stamped<T>>, floor: Option<u64>)
        requires
            old(self).wf(),
        ensures
            final(self).wf(),
            final(self).last_file == old(self).last_file,
            merged(old(self).records@, incoming@, floor, final(self).records@),
    {
        let ghost old_entries = self.records@;
        let ghost orig = incoming@;
        let tail = self.tail();
        let base = self.records.len();
        let mut recs = incoming;
        let ghost mut k: int = 0;
        while recs.len() > 0
            invariant
                0 <= k <= orig.len(),
                recs@ == orig.skip(k),
                base == old_entries.len(),
                tail == tail_timestamp(old_entries),
                self.last_file == old(self).last_file,
                ascending(self.records@),
                self.records@.len() >= base,
                self.records@.take(base as int) == old_entries,
                forall|i: int|
                    base <= i < self.records@.len() ==> admits(
                        floor,
                        tail,
                        (#[trigger] self.records@[i]).timestamp,
                    ) && arrived(orig, self.records@[i]),
                forall|j: int|
                    0 <= j < k && admits(floor, tail, (#[trigger] orig[j]).timestamp) ==> exists|i: int|
                        base <= i < self.records@.len() && (#[trigger] self.records@[i]).timestamp
                            == orig[j].timestamp,
            decreases recs.len(),
        {
            let x = recs.remove(0);
            proof {
                assert(x == orig[k]);
            }
            let fresh = match floor {
                None => true,
                Some(f) => x.timestamp > f,
            } && match tail {
                None => true,
                Some(t) => x.timestamp > t,
            };
            if fresh {
                let mut p = base;
                while p < self.records.len() && self.records[p].timestamp < x.timestamp
                    invariant
                        base <= p <= self.records@.len(),
                        forall|q: int| base <= q < p ==> (#[trigger] self.records@[q]).timestamp < x.timestamp,
                    decreases self.records@.len() - p,
                {
                    p = p + 1;
                }
                if p < self.records.len() && self.records[p].timestamp == x.timestamp {
                    proof {
                        assert forall|j: int|
                            0 <= j < k + 1 && admits(floor, tail, (#[trigger] orig[j]).timestamp) implies exists|i: int|
                                base <= i < self.records@.len() && (#[trigger] self.records@[i]).timestamp
                                    == orig[j].timestamp by {
                            if j == k {
                                assert(self.records@[p as int].timestamp == orig[j].timestamp);
                            }
                        }
                    }
                } else {
                    let ghost before = self.records@;
                    let ghost xt = x.timestamp;
                    self.records.insert(p, x);
                    proof {
                        let after = self.records@;
                        assert(after == before.insert(p as int, orig[k]));
                        assert(forall|i: int| 0 <= i < p ==> after[i] == before[i]);
                        assert(after[p as int] == orig[k]);
                        assert(forall|i: int| p < i < after.len() ==> after[i] == before[i - 1]);
                        assert forall|i: int| 0 <= i < base implies (#[trigger] before[i]).timestamp < xt by {
                            assert(tail == Some(before[base - 1].timestamp));
                            if i < base - 1 {
                                assert(before[i].timestamp < before[base - 1].timestamp);
                            }
                        }
                        assert forall|i: int, j: int| 0 <= i < j < after.len() implies (
                        #[trigger] after[i]).timestamp < (#[trigger] after[j]).timestamp by {
                            if j < p {
                            } else if j == p {
                                if i < base {
                                } else {
                                }
                            } else if i < p {
                                assert(after[j] == before[j - 1]);
                                if i < base {
                                    assert(before[i].timestamp < xt);
                                }
                                if p < before.len() {
                                    assert(before[p as int].timestamp > xt);
                                    if j - 1 > p {
                                        assert(before[p as int].timestamp < before[j - 1].timestamp);
                                    }
                                }
                            } else if i == p {
                                assert(before[p as int].timestamp > xt);
                                if j - 1 > p {
                                    assert(before[p as int].timestamp < before[j - 1].timestamp);
                                }
                            } else {
                            }
                        }
                        assert(after.take(base as int) =~= old_entries);
                        assert forall|i: int|
                            base <= i < after.len() implies admits(
                            floor,
                            tail,
                            (#[trigger] after[i]).timestamp,
                        ) && arrived(orig, after[i]) by {
                            if i < p {
                            } else if i == p {
                                assert(orig[k] == after[i]);
                                reveal(arrived);
                            } else {
                                assert(after[i] == before[i - 1]);
                            }
                        }
                        assert forall|j: int|
                            0 <= j < k + 1 && admits(floor, tail, (#[trigger] orig[j]).timestamp) implies exists|i: int|
                                base <= i < after.len() && (#[trigger] after[i]).timestamp
                                    == orig[j].timestamp by {
                            if j == k {
                                assert(after[p as int].timestamp == orig[j].timestamp);
                            } else {
                                let i0 = choose|i: int|
                                    base <= i < before.len() && (#[trigger] before[i]).timestamp
                                        == orig[j].timestamp;
                                if i0 < p {
                                    assert(after[i0] == before[i0]);
                                } else {
                                    assert(after[i0 + 1] == before[i0]);
                                }
                            }
                        }
                    }
                }
            }
            proof {
                k = k + 1;
                assert(recs@ =~= orig.skip(k));
            }
        }
        proof {
            assert(k == orig.len());
        }
    }
}

} // verus!
