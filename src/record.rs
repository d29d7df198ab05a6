//! The input line format: one sample per line, three comma-separated fields,
//! the last of which may carry surrounding whitespace.

use vstd::prelude::*;

verus! {

/// The field separator, `,`.
pub const COMMA: u8 = 44;

/// Why a line of input could not be read as a sample.
#[derive(Debug, Clone, Copy, PartialEq, Eq, Structural)]
pub enum LoadError {
    /// The line holds this many comma-separated fields instead of three.
    FieldCount(usize),
    /// The last field is not a decimal integer that fits in an `i32`.
    BadLabel,
}

/// The comma-separated fields of `s`, as `str::split(",")` yields them:
/// an empty line has one empty field, and every comma starts a new field.
pub open spec fn fields_of(s: Seq<u8>) -> Seq<Seq<u8>>
    decreases s.len(),
{
    if s.len() == 0 {
        seq![Seq::<u8>::empty()]
    } else {
        let f = fields_of(s.drop_last());
        if s.last() == COMMA {
            f.push(Seq::<u8>::empty())
        } else {
            f.update(f.len() - 1, f.last().push(s.last()))
        }
    }
}

/// ASCII whitespace: space, and tab through carriage return.
pub open spec fn is_space(b: u8) -> bool {
    b == 32 || (9 <= b && b <= 13)
}

pub open spec fn trim_start(s: Seq<u8>) -> Seq<u8>
    decreases s.len(),
{
    if s.len() > 0 && is_space(s[0]) {
        trim_start(s.drop_first())
    } else {
        s
    }
}

pub open spec fn trim_end(s: Seq<u8>) -> Seq<u8>
    decreases s.len(),
{
    if s.len() > 0 && is_space(s.last()) {
        trim_end(s.drop_last())
    } else {
        s
    }
}

/// `s` without its leading and trailing whitespace.
pub open spec fn trim(s: Seq<u8>) -> Seq<u8> {
    trim_end(trim_start(s))
}

proof fn lemma_fields_nonempty(s: Seq<u8>)
    ensures
        fields_of(s).len() >= 1,
    decreases s.len(),
{
    if s.len() > 0 {
        lemma_fields_nonempty(s.drop_last());
    }
}

/// Splits `line` at every comma.
pub fn split_fields(line: &[u8]) -> (r: Vec<Vec<u8>>)
    ensures
        r@.map_values(|f: Vec<u8>| f@) == fields_of(line@),
{
    let mut done: Vec<Vec<u8>> = Vec::new();
    let mut cur: Vec<u8> = Vec::new();
    let mut i: usize = 0;
    while i < line.len()
        invariant
            i <= line@.len(),
            done@.map_values(|f: Vec<u8>| f@).push(cur@) == fields_of(line@.take(i as int)),
        decreases line@.len() - i,
    {
        let b = line[i];
        proof {
            assert(line@.take(i + 1).drop_last() == line@.take(i as int));
            lemma_fields_nonempty(line@.take(i as int));
        }
        if b == COMMA {
            let old_cur = cur;
            done.push(old_cur);
            cur = Vec::new();
            assert(done@.map_values(|f: Vec<u8>| f@).push(cur@) == fields_of(line@.take(i + 1)));
        } else {
            cur.push(b);
            assert(done@.map_values(|f: Vec<u8>| f@).push(cur@) == fields_of(line@.take(i + 1)));
        }
        i = i + 1;
    }
    assert(line@.take(i as int) == line@);
    let ghost before = done@.map_values(|f: Vec<u8>| f@);
    done.push(cur);
    assert(done@.map_values(|f: Vec<u8>| f@) == before.push(cur@));
    done
}

/// Decimal digits `0` to `9`.
pub open spec fn is_digit(b: u8) -> bool {
    48 <= b && b <= 57
}

pub open spec fn all_digits(s: Seq<u8>) -> bool {
    forall|i: int| 0 <= i < s.len() ==> is_digit(#[trigger] s[i])
}

/// The value of a string of decimal digits, most significant first.
pub open spec fn digits_value(s: Seq<u8>) -> int
    decreases s.len(),
{
    if s.len() == 0 {
        0
    } else {
        digits_value(s.drop_last()) * 10 + (s.last() - 48)
    }
}

/// Whether `s` starts with a minus sign.
pub open spec fn is_negative(s: Seq<u8>) -> bool {
    s.len() > 0 && s[0] == 45
}

/// `s` without its sign, if it has one (`+` or `-`).
pub open spec fn magnitude(s: Seq<u8>) -> Seq<u8> {
    if s.len() > 0 && (s[0] == 43 || s[0] == 45) {
        s.drop_first()
    } else {
        s
    }
}

/// Whether `s` is an optional sign followed by at least one digit.
pub open spec fn is_decimal(s: Seq<u8>) -> bool {
    magnitude(s).len() > 0 && all_digits(magnitude(s))
}

/// The integer that the decimal text `s` denotes.
pub open spec fn decimal_value(s: Seq<u8>) -> int {
    if is_negative(s) {
        -digits_value(magnitude(s))
    } else {
        digits_value(magnitude(s))
    }
}

proof fn lemma_digits_nonneg(s: Seq<u8>)
    requires
        all_digits(s),
    ensures
        digits_value(s) >= 0,
    decreases s.len(),
{
    if s.len() > 0 {
        lemma_digits_nonneg(s.drop_last());
    }
}

/// Dropping trailing digits never makes the value larger.
proof fn lemma_digits_prefix(s: Seq<u8>, i: int)
    requires
        all_digits(s),
        0 <= i <= s.len(),
    ensures
        digits_value(s.take(i)) <= digits_value(s),
    decreases s.len(),
{
    if i < s.len() {
        let p = s.drop_last();
        assert(p.take(i) == s.take(i));
        lemma_digits_prefix(p, i);
        lemma_digits_nonneg(p);
    } else {
        assert(s.take(i) == s);
    }
}

/// Reads a decimal `i32`: an optional `+` or `-`, then one or more digits,
/// and nothing else. `None` when the text is not of that form or its value
/// does not fit.
pub fn parse_i32(b: &[u8]) -> (r: Option<i32>)
    ensures
        r.is_some() <==> (is_decimal(b@) && i32::MIN <= decimal_value(b@) <= i32::MAX),
        r.is_some() ==> r.unwrap() as int == decimal_value(b@),
{
    let n = b.len();
    let neg = n > 0 && b[0] == 45;
    let start: usize = if n > 0 && (b[0] == 43 || b[0] == 45) { 1 } else { 0 };
    let ghost u = magnitude(b@);
    assert(u == b@.subrange(start as int, n as int));
    if start == n {
        return None;
    }
    let mut v: u64 = 0;
    let mut i: usize = start;
    while i < n
        invariant
            start <= i <= n,
            n == b@.len(),
            u == b@.subrange(start as int, n as int),
            u == magnitude(b@),
            neg == is_negative(b@),
            v as int == digits_value(u.take(i - start)),
            v <= 0x8000_0000,
            all_digits(u.take(i - start)),
        decreases n - i,
    {
        let d = b[i];
        if d < 48 || d > 57 {
            assert(!is_digit(u[i - start]));
            return None;
        }
        proof {
            assert(u.take(i + 1 - start).drop_last() == u.take(i - start));
        }
        v = v * 10 + (d - 48) as u64;
        assert(all_digits(u.take(i + 1 - start)));
        if v > 0x8000_0000 {
            proof {
                if all_digits(u) {
                    lemma_digits_prefix(u, i + 1 - start);
                    assert(digits_value(u) > 0x8000_0000);
                }
            }
            return None;
        }
        i = i + 1;
    }
    assert(u.take(n - start) == u);
    if neg {
        Some((0 - v as i64) as i32)
    } else if v <= 0x7fff_ffff {
        Some(v as i32)
    } else {
        None
    }
}

/// Copies `b` without its leading and trailing whitespace.
pub fn trim_bytes(b: &[u8]) -> (r: Vec<u8>)
    ensures
        r@ == trim(b@),
{
    let n = b.len();
    let mut i: usize = 0;
    assert(b@.subrange(0, n as int) == b@);
    while i < n && (b[i] == 32 || (9 <= b[i] && b[i] <= 13))
        invariant
            i <= n,
            n == b@.len(),
            trim_start(b@) == trim_start(b@.subrange(i as int, n as int)),
        decreases n - i,
    {
        assert(b@.subrange(i + 1, n as int) == b@.subrange(i as int, n as int).drop_first());
        i = i + 1;
    }
    let ghost t = b@.subrange(i as int, n as int);
    assert(trim_start(t) == t);
    let mut j: usize = n;
    while j > i && (b[j - 1] == 32 || (9 <= b[j - 1] && b[j - 1] <= 13))
        invariant
            i <= j <= n,
            n == b@.len(),
            t == b@.subrange(i as int, n as int),
            trim_end(t) == trim_end(b@.subrange(i as int, j as int)),
        decreases j,
    {
        assert(b@.subrange(i as int, j - 1) == b@.subrange(i as int, j as int).drop_last());
        j = j - 1;
    }
    let mut r: Vec<u8> = Vec::new();
    let mut m: usize = i;
    while m < j
        invariant
            i <= m <= j,
            j <= n,
            n == b@.len(),
            r@ == b@.subrange(i as int, m as int),
        decreases j - m,
    {
        r.push(b[m]);
        assert(r@ == b@.subrange(i as int, m + 1));
        m = m + 1;
    }
    r
}

/// The three fields of an input line; the last one is trimmed of whitespace.
pub struct Fields {
    pub first: Vec<u8>,
    pub second: Vec<u8>,
    pub last: Vec<u8>,
}

/// Splits a line into its three fields. A line with any other number of
/// fields is an error that names the count.
pub fn record_fields(line: &[u8]) -> (r: Result<Fields, LoadError>)
    ensures
        fields_of(line@).len() != 3 ==> (r matches Err(LoadError::FieldCount(c)) && c
            == fields_of(line@).len()),
        fields_of(line@).len() == 3 ==> (r matches Ok(f) && f.first@ == fields_of(line@)[0]
            && f.second@ == fields_of(line@)[1] && f.last@ == trim(fields_of(line@)[2])),
{
    let mut all = split_fields(line);
    let count = all.len();
    assert(all@.map_values(|f: Vec<u8>| f@).len() == all@.len());
    if count != 3 {
        return Err(LoadError::FieldCount(count));
    }
    assert(all@.map_values(|f: Vec<u8>| f@)[2] == all@[2]@);
    let raw_last = all.pop().unwrap();
    let last = trim_bytes(raw_last.as_slice());
    let second = all.pop().unwrap();
    let first = all.pop().unwrap();
    Ok(Fields { first, second, last })
}

/// Whether a last field holds a class label: a decimal `i32` once trimmed.
pub open spec fn is_label(field: Seq<u8>) -> bool {
    is_decimal(trim(field)) && i32::MIN <= decimal_value(trim(field)) <= i32::MAX
}

/// Reads a labelled sample's line: two coordinate fields, handed back as
/// they stand, and an integer class label in the last field.
pub fn labeled_record(line: &[u8]) -> (r: Result<(Vec<u8>, Vec<u8>, i32), LoadError>)
    ensures
        fields_of(line@).len() != 3 ==> (r matches Err(LoadError::FieldCount(c)) && c
            == fields_of(line@).len()),
        fields_of(line@).len() == 3 && !is_label(fields_of(line@)[2]) ==> r == Err::<
            (Vec<u8>, Vec<u8>, i32),
            LoadError,
        >(LoadError::BadLabel),
        fields_of(line@).len() == 3 && is_label(fields_of(line@)[2]) ==> (r matches Ok(t)
            && t.0@ == fields_of(line@)[0] && t.1@ == fields_of(line@)[1] && t.2 as int
            == decimal_value(trim(fields_of(line@)[2]))),
{
    match record_fields(line) {
        Err(e) => Err(e),
        Ok(f) => match parse_i32(f.last.as_slice()) {
            Some(label) => Ok((f.first, f.second, label)),
            None => Err(LoadError::BadLabel),
        },
    }
}

} // verus!
