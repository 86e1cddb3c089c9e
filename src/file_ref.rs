//! References to the files in which the appliance keeps its measurements,
//! their total order and their rendering as request paths.

use vstd::prelude::*;
use vstd::seq_lib::lemma_multiset_commutative;

verus! {

/// One file on the appliance: the date directory it lies in and the
/// timestamp that names it.
#[derive(PartialEq, Eq, Structural, PartialOrd, Ord, Debug, Clone, Copy, Hash)]
pub struct FilePath {
    pub year: u16,
    pub month: u8,
    pub day: u8,
    pub timestamp: u64,
}

/// The high-water mark of synchronisation: everything up to and including
/// `last_timestamp`, read from files up to `last_file`, is stored.
#[derive(PartialEq, Eq, Structural, Debug, Clone, Copy)]
pub struct SyncCursor {
    pub last_file: FilePath,
    pub last_timestamp: u64,
}

/// Strict lexicographic order on (year, month, day, timestamp).
pub open spec fn file_lt(a: FilePath, b: FilePath) -> bool {
    a.year < b.year || (a.year == b.year && (a.month < b.month || (a.month == b.month && (a.day
        < b.day || (a.day == b.day && a.timestamp < b.timestamp)))))
}

pub open spec fn file_le(a: FilePath, b: FilePath) -> bool {
    file_lt(a, b) || a == b
}

/// The character of a decimal digit.
pub open spec fn digit_char(d: nat) -> char {
    if d == 0 {
        '0'
    } else if d == 1 {
        '1'
    } else if d == 2 {
        '2'
    } else if d == 3 {
        '3'
    } else if d == 4 {
        '4'
    } else if d == 5 {
        '5'
    } else if d == 6 {
        '6'
    } else if d == 7 {
        '7'
    } else if d == 8 {
        '8'
    } else {
        '9'
    }
}

/// Decimal rendering of a natural number, without leading zeros.
pub open spec fn decimal(n: nat) -> Seq<char>
    decreases n,
{
    if n < 10 {
        seq![digit_char(n)]
    } else {
        decimal(n / 10).push(digit_char(n % 10))
    }
}

/// The request path of a file: `year/month/day/timestamp`.
pub open spec fn path_of(f: FilePath) -> Seq<char> {
    decimal(f.year as nat) + seq!['/'] + decimal(f.month as nat) + seq!['/'] + decimal(
        f.day as nat,
    ) + seq!['/'] + decimal(f.timestamp as nat)
}

/// Appends one decimal digit.
fn push_digit(s: &mut String, d: u64)
    requires
        d < 10,
    ensures
        final(s)@ == old(s)@.push(digit_char(d as nat)),
{
    if d == 0 {
        proof { reveal_strlit("0"); }
        s.append("0");
    } else if d == 1 {
        proof { reveal_strlit("1"); }
        s.append("1");
    } else if d == 2 {
        proof { reveal_strlit("2"); }
        s.append("2");
    } else if d == 3 {
        proof { reveal_strlit("3"); }
        s.append("3");
    } else if d == 4 {
        proof { reveal_strlit("4"); }
        s.append("4");
    } else if d == 5 {
        proof { reveal_strlit("5"); }
        s.append("5");
    } else if d == 6 {
        proof { reveal_strlit("6"); }
        s.append("6");
    } else if d == 7 {
        proof { reveal_strlit("7"); }
        s.append("7");
    } else if d == 8 {
        proof { reveal_strlit("8"); }
        s.append("8");
    } else {
        proof { reveal_strlit("9"); }
        s.append("9");
    }
}

/// Appends the decimal rendering of `n`.
pub fn append_decimal(s: &mut String, n: u64)
    ensures
        final(s)@ == old(s)@ + decimal(n as nat),
    decreases n,
{
    if n < 10 {
        push_digit(s, n);
    } else {
        append_decimal(s, n / 10);
        push_digit(s, n % 10);
        assert(final(s)@ =~= old(s)@ + decimal(n as nat));
    }
}

/// Appends a single `/`.
pub fn append_slash(s: &mut String)
    ensures
        final(s)@ == old(s)@ + seq!['/'],
{
    proof { reveal_strlit("/"); }
    s.append("/");
    assert(final(s)@ =~= old(s)@ + seq!['/']);
}


pub open spec fn is_digit(c: char) -> bool {
    48 <= (c as u32) <= 57
}

/// Value of a string of decimal digits, most significant first.
pub open spec fn digits_value(s: Seq<char>) -> nat
    decreases s.len(),
{
    if s.len() == 0 {
        0
    } else {
        digits_value(s.drop_last()) * 10 + ((s.last() as u32) - 48) as nat
    }
}

/// The number that a directory entry names: a non-empty run of decimal
/// digits whose value does not exceed `bound`.
pub open spec fn parsed_number(s: Seq<char>, bound: nat) -> Option<nat> {
    if s.len() > 0 && (forall|i: int| 0 <= i < s.len() ==> is_digit(#[trigger] s[i]))
        && digits_value(s) <= bound {
        Some(digits_value(s))
    } else {
        None
    }
}

/// Reads a directory entry as a number no larger than `bound`.
pub fn parse_number(s: &str, bound: u64) -> (r: Option<u64>)
    ensures
        match r {
            Some(v) => parsed_number(s@, bound as nat) == Some(v as nat),
            None => parsed_number(s@, bound as nat) is None,
        },
{
    let n = s.unicode_len();
    if n == 0 {
        return None;
    }
    let mut val: u64 = 0;
    let mut over = false;
    let mut i: usize = 0;
    while i < n
        invariant
            n == s@.len(),
            i <= n,
            forall|k: int| 0 <= k < i ==> is_digit(#[trigger] s@[k]),
            over ==> digits_value(s@.subrange(0, i as int)) > bound,
            !over ==> val == digits_value(s@.subrange(0, i as int)) && val <= bound,
        decreases n - i,
    {
        let c = s.get_char(i);
        let code = c as u32;
        if code < 48 || code > 57 {
            return None;
        }
        let d = (code - 48) as u64;
        assert(s@.subrange(0, i + 1).drop_last() == s@.subrange(0, i as int));
        if !over {
            let t: u128 = val as u128 * 10 + d as u128;
            if t > bound as u128 {
                over = true;
            } else {
                val = t as u64;
            }
        }
        i = i + 1;
    }
    assert(s@.subrange(0, n as int) == s@);
    if over {
        None
    } else {
        Some(val)
    }
}

/// Lexicographic order of character sequences, as `String`'s `<` orders
/// them.
pub open spec fn char_seq_lt(a: Seq<char>, b: Seq<char>) -> bool
    decreases a.len(),
{
    if a.len() == 0 {
        b.len() > 0
    } else if b.len() == 0 {
        false
    } else if a[0] != b[0] {
        (a[0] as u32) < (b[0] as u32)
    } else {
        char_seq_lt(a.drop_first(), b.drop_first())
    }
}


proof fn lemma_eq_by_first(s: Seq<char>, t: Seq<char>)
    requires
        s.len() == t.len(),
        s.len() > 0,
        s[0] == t[0],
        s.drop_first() == t.drop_first(),
    ensures
        s == t,
{
    assert forall|i: int| 0 <= i < s.len() implies s[i] == t[i] by {
        if i > 0 {
            assert(s[i] == s.drop_first()[i - 1]);
            assert(t[i] == t.drop_first()[i - 1]);
        }
    }
    assert(s =~= t);
}

proof fn lemma_eq_by_last(s: Seq<char>, t: Seq<char>)
    requires
        s.len() == t.len(),
        s.len() > 0,
        s.last() == t.last(),
        s.drop_last() == t.drop_last(),
    ensures
        s == t,
{
    assert forall|i: int| 0 <= i < s.len() implies s[i] == t[i] by {
        if i < s.len() - 1 {
            assert(s[i] == s.drop_last()[i]);
            assert(t[i] == t.drop_last()[i]);
        }
    }
    assert(s =~= t);
}

proof fn lemma_lt_common_prefix(p: Seq<char>, x: Seq<char>, y: Seq<char>)
    ensures
        char_seq_lt(p + x, p + y) == char_seq_lt(x, y),
    decreases p.len(),
{
    if p.len() > 0 {
        assert((p + x).drop_first() =~= p.drop_first() + x);
        assert((p + y).drop_first() =~= p.drop_first() + y);
        lemma_lt_common_prefix(p.drop_first(), x, y);
    } else {
        assert(p + x =~= x);
        assert(p + y =~= y);
    }
}

/// Between sequences of equal length that differ, the order does not depend
/// on what follows them.
proof fn lemma_lt_decided_before_tails(s: Seq<char>, t: Seq<char>, x: Seq<char>, y: Seq<char>)
    requires
        s.len() == t.len(),
        s != t,
    ensures
        char_seq_lt(s + x, t + y) == char_seq_lt(s, t),
    decreases s.len(),
{
    if s.len() == 0 {
        assert(s =~= t);
    } else if s[0] != t[0] {
        assert((s + x)[0] == s[0]);
        assert((t + y)[0] == t[0]);
    } else {
        assert((s + x).drop_first() =~= s.drop_first() + x);
        assert((t + y).drop_first() =~= t.drop_first() + y);
        if s.drop_first() == t.drop_first() {
            lemma_eq_by_first(s, t);
        }
        lemma_lt_decided_before_tails(s.drop_first(), t.drop_first(), x, y);
    }
}

/// On sequences of equal length, the order is decided by the prefixes
/// without their last elements unless those are equal.
proof fn lemma_lt_by_last(s: Seq<char>, t: Seq<char>)
    requires
        s.len() == t.len(),
        s.len() > 0,
    ensures
        char_seq_lt(s, t) == if s.drop_last() == t.drop_last() {
            (s.last() as u32) < (t.last() as u32)
        } else {
            char_seq_lt(s.drop_last(), t.drop_last())
        },
    decreases s.len(),
{
    if s.len() == 1 {
        assert(s.drop_last() =~= t.drop_last());
        assert(s.drop_first().len() == 0);
        assert(t.drop_first().len() == 0);
        assert(s.last() == s[0]);
        assert(t.last() == t[0]);
        if s[0] != t[0] {
            vstd::utf8::char_u32_cast(s[0], s[0] as u32);
            vstd::utf8::char_u32_cast(t[0], t[0] as u32);
            assert(s[0] as u32 != t[0] as u32);
        } else {
            assert(!char_seq_lt(s.drop_first(), t.drop_first()));
        }
    } else if s[0] != t[0] {
        assert(s.drop_last()[0] == s[0]);
        assert(t.drop_last()[0] == t[0]);
        assert(s.drop_last() != t.drop_last());
        assert(char_seq_lt(s, t) == ((s[0] as u32) < (t[0] as u32)));
        assert(char_seq_lt(s.drop_last(), t.drop_last()) == ((s[0] as u32) < (t[0] as u32)));
    } else {
        lemma_lt_by_last(s.drop_first(), t.drop_first());
        assert(s.drop_first().drop_last() =~= s.drop_last().drop_first());
        assert(t.drop_first().drop_last() =~= t.drop_last().drop_first());
        assert(s.drop_last()[0] == t.drop_last()[0]);
        if s.drop_last().drop_first() == t.drop_last().drop_first() {
            lemma_eq_by_first(s.drop_last(), t.drop_last());
        }
        if s.drop_last() == t.drop_last() {
            assert(s.drop_first().drop_last() == t.drop_first().drop_last());
        }
        assert(s.drop_first().last() == s.last());
        assert(t.drop_first().last() == t.last());
        assert(char_seq_lt(s, t) == char_seq_lt(s.drop_first(), t.drop_first()));
        if s.drop_last() != t.drop_last() {
            assert(char_seq_lt(s.drop_last(), t.drop_last()) == char_seq_lt(s.drop_last().drop_first(), t.drop_last().drop_first()));
        }
    }
}

pub open spec fn all_digits(s: Seq<char>) -> bool {
    forall|i: int| 0 <= i < s.len() ==> is_digit(#[trigger] s[i])
}

/// Digit strings of equal length compare as their values do.
proof fn lemma_digits_order(s: Seq<char>, t: Seq<char>)
    requires
        s.len() == t.len(),
        all_digits(s),
        all_digits(t),
    ensures
        char_seq_lt(s, t) <==> digits_value(s) < digits_value(t),
        s == t <==> digits_value(s) == digits_value(t),
    decreases s.len(),
{
    if s.len() == 0 {
        assert(s =~= t);
    } else {
        let s1 = s.drop_last();
        let t1 = t.drop_last();
        assert(all_digits(s1) && all_digits(t1)) by {
            assert forall|i: int| 0 <= i < s1.len() implies is_digit(#[trigger] s1[i]) by {
                assert(s1[i] == s[i]);
            }
            assert forall|i: int| 0 <= i < t1.len() implies is_digit(#[trigger] t1[i]) by {
                assert(t1[i] == t[i]);
            }
        }
        lemma_digits_order(s1, t1);
        lemma_lt_by_last(s, t);
        assert(is_digit(s.last()) && is_digit(t.last()));
        let c = ((s.last() as u32) - 48) as int;
        let e = ((t.last() as u32) - 48) as int;
        let vs = digits_value(s1) as int;
        let vt = digits_value(t1) as int;
        assert(digits_value(s) == vs * 10 + c);
        assert(digits_value(t) == vt * 10 + e);
        assert(0 <= c < 10 && 0 <= e < 10);
        if vs < vt {
            assert(vs * 10 + c < vt * 10 + e) by (nonlinear_arith)
                requires
                    vs < vt,
                    0 <= c < 10,
                    0 <= e < 10,
            ;
        } else if vs > vt {
            assert(vs * 10 + c > vt * 10 + e) by (nonlinear_arith)
                requires
                    vs > vt,
                    0 <= c < 10,
                    0 <= e < 10,
            ;
        }
        if digits_value(s) == digits_value(t) {
            assert(vs == vt && c == e) by (nonlinear_arith)
                requires
                    vs * 10 + c == vt * 10 + e,
                    0 <= c < 10,
                    0 <= e < 10,
            ;
            assert(s.last() as u32 == t.last() as u32);
            vstd::utf8::char_u32_cast(s.last(), s.last() as u32);
            vstd::utf8::char_u32_cast(t.last(), t.last() as u32);
            lemma_eq_by_last(s, t);
        }
    }
}

proof fn lemma_digit_char(d: nat)
    requires
        d < 10,
    ensures
        is_digit(digit_char(d)),
        (digit_char(d) as u32) - 48 == d,
{
}

/// The decimal rendering is a digit string worth the number.
proof fn lemma_decimal_digits(n: nat)
    ensures
        all_digits(decimal(n)),
        digits_value(decimal(n)) == n,
        decimal(n).len() >= 1,
    decreases n,
{
    if n < 10 {
        lemma_digit_char(n);
        assert(decimal(n).drop_last() =~= Seq::<char>::empty());
        assert(digits_value(Seq::<char>::empty()) == 0);
        assert(decimal(n).last() == digit_char(n));
    } else {
        lemma_decimal_digits(n / 10);
        lemma_digit_char(n % 10);
        let s = decimal(n);
        assert(s.drop_last() =~= decimal(n / 10));
        assert(s.last() == digit_char(n % 10));
        assert(n == (n / 10) * 10 + n % 10);
        assert forall|i: int| 0 <= i < s.len() implies is_digit(#[trigger] s[i]) by {
            if i < s.len() - 1 {
                assert(s[i] == decimal(n / 10)[i]);
            }
        }
    }
}

/// Numbers whose renderings have equal length compare as the renderings do,
/// whatever follows them.
proof fn lemma_decimal_lt(x: nat, y: nat, tx: Seq<char>, ty: Seq<char>)
    requires
        x < y,
        decimal(x).len() == decimal(y).len(),
    ensures
        char_seq_lt(decimal(x) + tx, decimal(y) + ty),
{
    lemma_decimal_digits(x);
    lemma_decimal_digits(y);
    lemma_digits_order(decimal(x), decimal(y));
    lemma_lt_decided_before_tails(decimal(x), decimal(y), tx, ty);
}

/// Whether two numbers are written with the same number of digits.
pub open spec fn same_width(x: nat, y: nat) -> bool {
    decimal(x).len() == decimal(y).len()
}

/// The path of a file, nested from the right: year, then `/` and the rest.
proof fn lemma_path_layout(f: FilePath)
    ensures
        path_of(f) == decimal(f.year as nat) + (seq!['/'] + (decimal(f.month as nat) + (seq!['/']
            + (decimal(f.day as nat) + (seq!['/'] + decimal(f.timestamp as nat)))))),
{
    assert(path_of(f) =~= decimal(f.year as nat) + (seq!['/'] + (decimal(f.month as nat) + (
    seq!['/'] + (decimal(f.day as nat) + (seq!['/'] + decimal(f.timestamp as nat)))))));
}

/// Numbers written alike followed by a slash: the order is the order of
/// what follows.
proof fn lemma_equal_component(x: nat, u: Seq<char>, v: Seq<char>)
    ensures
        char_seq_lt(decimal(x) + (seq!['/'] + u), decimal(x) + (seq!['/'] + v)) == char_seq_lt(u, v),
{
    lemma_lt_common_prefix(decimal(x), seq!['/'] + u, seq!['/'] + v);
    lemma_lt_common_prefix(seq!['/'], u, v);
}

/// When `a` comes before `b`, `a`'s path sorts before `b`'s as a string,
/// provided the first of year, month, day and timestamp at which they differ
/// is written with as many digits in both. (Without that proviso it fails:
/// `2021/10/1/0` sorts before `2021/9/1/0`.)
pub proof fn lemma_path_order(a: FilePath, b: FilePath)
    requires
        file_lt(a, b),
        a.year != b.year ==> same_width(a.year as nat, b.year as nat),
        a.year == b.year && a.month != b.month ==> same_width(a.month as nat, b.month as nat),
        a.year == b.year && a.month == b.month && a.day != b.day ==> same_width(
            a.day as nat,
            b.day as nat,
        ),
        a.year == b.year && a.month == b.month && a.day == b.day ==> same_width(
            a.timestamp as nat,
            b.timestamp as nat,
        ),
    ensures
        char_seq_lt(path_of(a), path_of(b)),
{
    lemma_path_layout(a);
    lemma_path_layout(b);
    let ta = decimal(a.timestamp as nat);
    let tb = decimal(b.timestamp as nat);
    let ra3 = seq!['/'] + ta;
    let rb3 = seq!['/'] + tb;
    let ra2 = seq!['/'] + (decimal(a.day as nat) + ra3);
    let rb2 = seq!['/'] + (decimal(b.day as nat) + rb3);
    let ra1 = seq!['/'] + (decimal(a.month as nat) + ra2);
    let rb1 = seq!['/'] + (decimal(b.month as nat) + rb2);
    if a.year != b.year {
        lemma_decimal_lt(a.year as nat, b.year as nat, ra1, rb1);
    } else if a.month != b.month {
        lemma_equal_component(a.year as nat, decimal(a.month as nat) + ra2, decimal(b.month as nat) + rb2);
        lemma_decimal_lt(a.month as nat, b.month as nat, ra2, rb2);
    } else if a.day != b.day {
        lemma_equal_component(a.year as nat, decimal(a.month as nat) + ra2, decimal(b.month as nat) + rb2);
        lemma_equal_component(a.month as nat, decimal(a.day as nat) + ra3, decimal(b.day as nat) + rb3);
        lemma_decimal_lt(a.day as nat, b.day as nat, ra3, rb3);
    } else {
        lemma_equal_component(a.year as nat, decimal(a.month as nat) + ra2, decimal(b.month as nat) + rb2);
        lemma_equal_component(a.month as nat, decimal(a.day as nat) + ra3, decimal(b.day as nat) + rb3);
        lemma_equal_component(a.day as nat, ta, tb);
        assert(ta + Seq::<char>::empty() == ta);
        assert(tb + Seq::<char>::empty() == tb);
        lemma_decimal_lt(a.timestamp as nat, b.timestamp as nat, Seq::empty(), Seq::empty());
    }
}

/// The pieces of `s` between occurrences of `sep`.
pub open spec fn split_on(s: Seq<char>, sep: char) -> Seq<Seq<char>>
    decreases s.len(),
{
    if s.len() == 0 {
        seq![Seq::empty()]
    } else {
        let p = split_on(s.drop_last(), sep);
        if s.last() == sep {
            p.push(Seq::empty())
        } else {
            p.update(p.len() - 1, p.last().push(s.last()))
        }
    }
}

/// The numbers between the `/` separators of a path.
pub open spec fn path_fields(s: Seq<char>) -> Seq<nat> {
    split_on(s, '/').map_values(|p: Seq<char>| digits_value(p))
}

/// Lexicographic order of sequences of numbers.
pub open spec fn fields_lt(a: Seq<nat>, b: Seq<nat>) -> bool
    decreases a.len(),
{
    if a.len() == 0 {
        b.len() > 0
    } else if b.len() == 0 {
        false
    } else if a[0] != b[0] {
        a[0] < b[0]
    } else {
        fields_lt(a.drop_first(), b.drop_first())
    }
}

/// Appending a piece free of the separator extends the last piece.
proof fn lemma_split_append(p: Seq<char>, u: Seq<char>, sep: char)
    requires
        forall|i: int| 0 <= i < u.len() ==> u[i] != sep,
    ensures
        split_on(p + u, sep) == split_on(p, sep).update(
            split_on(p, sep).len() - 1,
            split_on(p, sep).last() + u,
        ),
        split_on(p, sep).len() >= 1,
    decreases u.len(),
{
    lemma_split_nonempty(p, sep);
    if u.len() == 0 {
        assert(p + u =~= p);
        assert(split_on(p, sep).last() + u =~= split_on(p, sep).last());
        assert(split_on(p, sep).update(split_on(p, sep).len() - 1, split_on(p, sep).last())
            =~= split_on(p, sep));
    } else {
        let u1 = u.drop_last();
        lemma_split_append(p, u1, sep);
        assert((p + u).drop_last() =~= p + u1);
        assert((p + u).last() == u.last());
        let q = split_on(p, sep);
        assert(q.last() + u =~= (q.last() + u1).push(u.last()));
        assert(split_on(p + u, sep) =~= q.update(q.len() - 1, q.last() + u));
    }
}

proof fn lemma_split_nonempty(s: Seq<char>, sep: char)
    ensures
        split_on(s, sep).len() >= 1,
    decreases s.len(),
{
    if s.len() > 0 {
        lemma_split_nonempty(s.drop_last(), sep);
    }
}

/// A separator followed by a piece free of it adds that piece.
proof fn lemma_split_field(p: Seq<char>, u: Seq<char>, sep: char)
    requires
        forall|i: int| 0 <= i < u.len() ==> u[i] != sep,
    ensures
        split_on(p + seq![sep] + u, sep) == split_on(p, sep).push(u),
{
    let q = p + seq![sep];
    assert(q.drop_last() =~= p);
    assert(split_on(q, sep) == split_on(p, sep).push(Seq::empty()));
    lemma_split_append(q, u, sep);
    assert(Seq::<char>::empty() + u =~= u);
    assert(split_on(q + u, sep) =~= split_on(p, sep).push(u));
}

proof fn lemma_decimal_free_of_slash(n: nat)
    ensures
        forall|i: int| 0 <= i < decimal(n).len() ==> decimal(n)[i] != '/',
{
    lemma_decimal_digits(n);
    assert forall|i: int| 0 <= i < decimal(n).len() implies decimal(n)[i] != '/' by {
        assert(is_digit(decimal(n)[i]));
    }
}

/// The fields of a file's path are its year, month, day and timestamp.
pub proof fn lemma_path_fields(f: FilePath)
    ensures
        path_fields(path_of(f)) == seq![f.year as nat, f.month as nat, f.day as nat, f.timestamp as nat],
{
    let y = decimal(f.year as nat);
    let m = decimal(f.month as nat);
    let d = decimal(f.day as nat);
    let t = decimal(f.timestamp as nat);
    lemma_decimal_free_of_slash(f.year as nat);
    lemma_decimal_free_of_slash(f.month as nat);
    lemma_decimal_free_of_slash(f.day as nat);
    lemma_decimal_free_of_slash(f.timestamp as nat);
    lemma_decimal_digits(f.year as nat);
    lemma_decimal_digits(f.month as nat);
    lemma_decimal_digits(f.day as nat);
    lemma_decimal_digits(f.timestamp as nat);
    lemma_split_append(Seq::empty(), y, '/');
    assert(Seq::<char>::empty() + y =~= y);
    assert(split_on(Seq::empty(), '/') =~= seq![Seq::<char>::empty()]);
    assert(split_on(y, '/') =~= seq![y]);
    lemma_split_field(y, m, '/');
    lemma_split_field(y + seq!['/'] + m, d, '/');
    lemma_split_field(y + seq!['/'] + m + seq!['/'] + d, t, '/');
    assert(split_on(path_of(f), '/') =~= seq![y, m, d, t]);
    assert(path_fields(path_of(f)) =~= seq![f.year as nat, f.month as nat, f.day as nat, f.timestamp as nat]);
}

/// Paths compared field by field, as the numbers between their `/`
/// separators, are in the order of the files they name.
pub proof fn lemma_path_fields_order(a: FilePath, b: FilePath)
    ensures
        fields_lt(path_fields(path_of(a)), path_fields(path_of(b))) == file_lt(a, b),
{
    lemma_path_fields(a);
    lemma_path_fields(b);
    let fa = path_fields(path_of(a));
    let fb = path_fields(path_of(b));
    let a1 = fa.drop_first();
    let b1 = fb.drop_first();
    let a2 = a1.drop_first();
    let b2 = b1.drop_first();
    let a3 = a2.drop_first();
    let b3 = b2.drop_first();
    assert(a1 =~= seq![a.month as nat, a.day as nat, a.timestamp as nat]);
    assert(b1 =~= seq![b.month as nat, b.day as nat, b.timestamp as nat]);
    assert(a2 =~= seq![a.day as nat, a.timestamp as nat]);
    assert(b2 =~= seq![b.day as nat, b.timestamp as nat]);
    assert(a3 =~= seq![a.timestamp as nat]);
    assert(b3 =~= seq![b.timestamp as nat]);
    assert(a3.drop_first().len() == 0 && b3.drop_first().len() == 0);
    assert(!fields_lt(a3.drop_first(), b3.drop_first()));
    assert(fields_lt(a3, b3) == (a.timestamp < b.timestamp));
    assert(fields_lt(a2, b2) == (a.day < b.day || (a.day == b.day && a.timestamp < b.timestamp)));
    assert(fields_lt(a1, b1) == (a.month < b.month || (a.month == b.month && (a.day < b.day || (
    a.day == b.day && a.timestamp < b.timestamp)))));
}

/// Whether a sequence of file references is in ascending file order.
pub open spec fn files_sorted(s: Seq<FilePath>) -> bool {
    forall|i: int, j: int| 0 <= i < j < s.len() ==> file_le(#[trigger] s[i], #[trigger] s[j])
}

/// The file order is transitive.
pub proof fn lemma_file_order_transitive(a: FilePath, b: FilePath, c: FilePath)
    requires
        file_le(a, b),
        file_le(b, c),
    ensures
        file_le(a, c),
        file_lt(a, b) || file_lt(b, c) ==> file_lt(a, c),
{
}

/// The file order is total: of two references, exactly one is smaller or
/// they are equal.
pub proof fn lemma_file_order_total(a: FilePath, b: FilePath)
    ensures
        file_lt(a, b) || a == b || file_lt(b, a),
        !(file_lt(a, b) && file_lt(b, a)),
        !(file_lt(a, b) && a == b),
{
}

proof fn lemma_insert_multiset<A>(s: Seq<A>, p: int, x: A)
    requires
        0 <= p <= s.len(),
    ensures
        s.insert(p, x).to_multiset() == s.to_multiset().insert(x),
{
    broadcast use vstd::seq_lib::group_to_multiset_ensures;

    let a = s.subrange(0, p);
    let b = s.subrange(p, s.len() as int);
    assert(s == a + b);
    lemma_multiset_commutative(a, b);
    lemma_multiset_commutative(a.push(x), b);
    assert(s.insert(p, x) == a.push(x) + b);
    assert(s.insert(p, x).to_multiset() =~= s.to_multiset().insert(x));
}

/// Sorts file references into ascending file order.
pub fn sort_files(v: &Vec<FilePath>) -> (r: Vec<FilePath>)
    ensures
        files_sorted(r@),
        r@.to_multiset() == v@.to_multiset(),
{
    broadcast use vstd::seq_lib::group_to_multiset_ensures;

    let mut out: Vec<FilePath> = Vec::new();
    let mut i: usize = 0;
    while i < v.len()
        invariant
            i <= v.len(),
            files_sorted(out@),
            out@.to_multiset() == v@.subrange(0, i as int).to_multiset(),
        decreases v.len() - i,
    {
        let x = v[i];
        let mut p: usize = 0;
        while p < out.len() && out[p].at_or_before(&x)
            invariant
                p <= out.len(),
                forall|k: int| 0 <= k < p ==> file_le(#[trigger] out@[k], x),
            decreases out.len() - p,
        {
            p = p + 1;
        }
        proof {
            if p < out.len() {
                lemma_file_order_total(out@[p as int], x);
                assert forall|k: int| p <= k < out.len() implies file_lt(x, #[trigger] out@[k]) by {
                    if k > p {
                        lemma_file_order_transitive(x, out@[p as int], out@[k]);
                    }
                }
            }
            lemma_insert_multiset(out@, p as int, x);
            assert(v@.subrange(0, i + 1) == v@.subrange(0, i as int).push(x));
        }
        let ghost before = out@;
        out.insert(p, x);
        proof {
            assert(out@ == before.insert(p as int, x));
            assert(v@.subrange(0, i + 1) == v@.subrange(0, i as int).push(x));
            v@.subrange(0, i as int).to_multiset_ensures();
            assert(v@.subrange(0, i as int).push(x).to_multiset() == v@.subrange(
                0,
                i as int,
            ).to_multiset().insert(x));
            assert forall|a: int, b: int| 0 <= a < b < out@.len() implies file_le(
                #[trigger] out@[a],
                #[trigger] out@[b],
            ) by {
                if b < p {
                } else if b == p {
                } else if a < p {
                    lemma_file_order_transitive(out@[a], x, out@[b]);
                } else if a == p {
                } else {
                }
            }
        }
        i = i + 1;
    }
    assert(v@.subrange(0, v@.len() as int) == v@);
    out
}

impl FilePath {
    /// Whether `self` comes no later than `other` in the file order.
    pub fn at_or_before(&self, other: &FilePath) -> (r: bool)
        ensures
            r == file_le(*self, *other),
    {
        if self.year != other.year {
            self.year < other.year
        } else if self.month != other.month {
            self.month < other.month
        } else if self.day != other.day {
            self.day < other.day
        } else {
            self.timestamp <= other.timestamp
        }
    }

    /// The path under which the appliance serves this file.
    pub fn path(&self) -> (r: String)
        ensures
            r@ == path_of(*self),
    {
        let mut s = String::new();
        append_decimal(&mut s, self.year as u64);
        append_slash(&mut s);
        append_decimal(&mut s, self.month as u64);
        append_slash(&mut s);
        append_decimal(&mut s, self.day as u64);
        append_slash(&mut s);
        append_decimal(&mut s, self.timestamp);
        assert(s@ =~= path_of(*self));
        s
    }
}

} // verus!
