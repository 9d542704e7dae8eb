use vstd::prelude::*;
use crate::base::sim_time::SimTime;

verus! {

/// `c` is white space as `char::is_whitespace` has it (Unicode White_Space).
pub open spec fn is_space(c: char) -> bool {
    let u = c as u32;
    ||| 9 <= u <= 13
    ||| u == 32
    ||| u == 0x85
    ||| u == 0xA0
    ||| u == 0x1680
    ||| 0x2000 <= u <= 0x200A
    ||| u == 0x2028
    ||| u == 0x2029
    ||| u == 0x202F
    ||| u == 0x205F
    ||| u == 0x3000
}

/// `c` is one of the ASCII digits.
pub open spec fn is_digit(c: char) -> bool {
    48 <= (c as u32) <= 57
}

/// `s` without its leading white space.
pub open spec fn trim_start(s: Seq<char>) -> Seq<char>
    decreases s.len(),
{
    if s.len() > 0 && is_space(s[0]) {
        trim_start(s.drop_first())
    } else {
        s
    }
}

/// `s` without its trailing white space.
pub open spec fn trim_end(s: Seq<char>) -> Seq<char>
    decreases s.len(),
{
    if s.len() > 0 && is_space(s.last()) {
        trim_end(s.drop_last())
    } else {
        s
    }
}

/// `s` without its leading and trailing white space.
pub open spec fn trimmed(s: Seq<char>) -> Seq<char> {
    trim_end(trim_start(s))
}

/// The pieces of `s` between its newlines: one more than there are newlines.
pub open spec fn pieces(s: Seq<char>) -> Seq<Seq<char>>
    decreases s.len(),
{
    if s.len() == 0 {
        seq![Seq::<char>::empty()]
    } else if s.last() == '\n' {
        pieces(s.drop_last()).push(Seq::<char>::empty())
    } else {
        let p = pieces(s.drop_last());
        p.update(p.len() - 1, p.last().push(s.last()))
    }
}

/// The lines of a text: the pieces between its newlines, where a newline at
/// the end closes the last line rather than opening an empty one.
pub open spec fn lines_of(s: Seq<char>) -> Seq<Seq<char>> {
    if s.len() == 0 {
        Seq::empty()
    } else if s.last() == '\n' {
        pieces(s).drop_last()
    } else {
        pieces(s)
    }
}

/// The number that a sequence of decimal digits writes.
pub open spec fn digits_value(s: Seq<char>) -> int
    decreases s.len(),
{
    if s.len() == 0 {
        0
    } else {
        digits_value(s.drop_last()) * 10 + (s.last() as u32 - 48)
    }
}

/// Every character of `s` is a digit.
pub open spec fn all_digits(s: Seq<char>) -> bool {
    forall|i: int| 0 <= i < s.len() ==> is_digit(#[trigger] s[i])
}

/// `s` without its leading sign, if it has one.
pub open spec fn unsigned_part(s: Seq<char>) -> Seq<char> {
    if s.len() > 0 && (s[0] == '-' || s[0] == '+') {
        s.drop_first()
    } else {
        s
    }
}

/// The time that `s` writes in decimal, as `str::parse::<i64>` reads it: an
/// optional sign, then at least one digit, and a value in the range of
/// `SimTime`; None when `s` writes none.
pub open spec fn parsed_time(s: Seq<char>) -> Option<SimTime> {
    let ds = unsigned_part(s);
    let v = if s.len() > 0 && s[0] == '-' {
        -digits_value(ds)
    } else {
        digits_value(ds)
    };
    if ds.len() > 0 && all_digits(ds) && i64::MIN <= v <= i64::MAX {
        Some(v as SimTime)
    } else {
        None
    }
}

/// Whether `c` is white space.
fn is_space_char(c: char) -> (r: bool)
    ensures
        r == is_space(c),
{
    let u = c as u32;
    (9 <= u && u <= 13) || u == 32 || u == 0x85 || u == 0xA0 || u == 0x1680 || (0x2000 <= u && u
        <= 0x200A) || u == 0x2028 || u == 0x2029 || u == 0x202F || u == 0x205F || u == 0x3000
}

/// A sequence of digits writes a number at least as large as any of its prefixes.
proof fn lemma_digits_prefix(s: Seq<char>, m: int)
    requires
        0 <= m <= s.len(),
        all_digits(s),
    ensures
        digits_value(s) >= digits_value(s.take(m)) >= 0,
    decreases s.len(),
{
    if s.len() > 0 {
        let d = s.drop_last();
        assert forall|i: int| 0 <= i < d.len() implies is_digit(#[trigger] d[i]) by {
            assert(d[i] == s[i]);
        }
        assert(all_digits(d));
        assert(is_digit(s[s.len() - 1]));
        if m == s.len() {
            assert(s.take(m) =~= s);
            lemma_digits_prefix(d, 0);
        } else {
            assert(d.take(m) =~= s.take(m));
            lemma_digits_prefix(d, m);
        }
    } else {
        assert(s.take(m) =~= s);
    }
}

/// Reads a time written in decimal between white space: the trimmed text,
/// read as `str::parse::<i64>` reads it.
pub fn parse_time(line: &Vec<char>) -> (r: Option<SimTime>)
    ensures
        r == parsed_time(trimmed(line@)),
{
    let n = line.len();
    let mut a: usize = 0;
    assert(line@.skip(0) =~= line@);
    while a < n && is_space_char(line[a])
        invariant
            a <= n,
            n == line@.len(),
            trim_start(line@) == trim_start(line@.skip(a as int)),
        decreases n - a,
    {
        assert(line@.skip(a as int).drop_first() =~= line@.skip(a + 1));
        a = a + 1;
    }
    assert(trim_start(line@.skip(a as int)) == line@.skip(a as int));
    assert(line@.skip(a as int) =~= line@.subrange(a as int, n as int));
    let mut b: usize = n;
    while b > a && is_space_char(line[b - 1])
        invariant
            a <= b <= n,
            n == line@.len(),
            trim_end(line@.subrange(a as int, n as int)) == trim_end(
                line@.subrange(a as int, b as int),
            ),
        decreases b,
    {
        assert(line@.subrange(a as int, b as int).drop_last() =~= line@.subrange(
            a as int,
            b - 1,
        ));
        b = b - 1;
    }
    let ghost w = line@.subrange(a as int, b as int);
    assert(trim_end(w) == w);
    assert(trimmed(line@) == w);
    // An optional sign
    let mut i: usize = a;
    let mut neg = false;
    if i < b && (line[i] == '-' || line[i] == '+') {
        neg = line[i] == '-';
        i = i + 1;
    }
    let ghost ds = line@.subrange(i as int, b as int);
    assert(ds =~= unsigned_part(w));
    assert(neg == (w.len() > 0 && w[0] == '-'));
    if i == b {
        return None;
    }
    // The digits, with their value so far
    let mut mag: u64 = 0;
    let mut k: usize = i;
    while k < b
        invariant
            a <= i <= k <= b <= n,
            n == line@.len(),
            ds == line@.subrange(i as int, b as int),
            trimmed(line@) == w,
            ds == unsigned_part(w),
            neg == (w.len() > 0 && w[0] == '-'),
            mag == digits_value(ds.take(k - i)),
            forall|j: int| 0 <= j < k - i ==> is_digit(#[trigger] ds[j]),
        decreases b - k,
    {
        let c = line[k];
        assert(ds[k - i] == c);
        let u = c as u32;
        if u < 48 || u > 57 {
            assert(!is_digit(ds[k - i]));
            assert(!all_digits(ds));
            return None;
        }
        let d = (u - 48) as u64;
        let ghost next = ds.take(k - i + 1);
        assert(next.drop_last() =~= ds.take(k - i));
        assert(next.last() == c);
        let next_mag = match mag.checked_mul(10) {
            Some(t) => t.checked_add(d),
            None => None,
        };
        match next_mag {
            Some(v) => {
                mag = v;
            },
            None => {
                proof {
                    assert(digits_value(next) == mag * 10 + d);
                    assert(mag * 10 + d > u64::MAX);
                    if all_digits(ds) {
                        lemma_digits_prefix(ds, k - i + 1);
                        assert(digits_value(ds) > u64::MAX);
                    }
                }
                return None;
            },
        }
        k = k + 1;
    }
    assert(ds.take(ds.len() as int) =~= ds);
    if neg {
        if mag > 9223372036854775808u64 {
            None
        } else if mag == 9223372036854775808u64 {
            Some(i64::MIN)
        } else {
            let m = mag as i64;
            Some(-m)
        }
    } else {
        if mag > 9223372036854775807u64 {
            None
        } else {
            Some(mag as i64)
        }
    }
}

} // verus!
