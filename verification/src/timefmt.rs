//! Wall-clock support. Inside the library a datetime is a plain value: its
//! UTC timestamp in whole seconds. Parsing a datetime string and rendering a
//! timestamp are chrono's work and stand behind trusted wrappers; the
//! cleanup a timestamp string gets before parsing — dropping a trailing `Z`
//! or a numeric timezone offset — is verified code here.

use vstd::prelude::*;

verus! {

/// What chrono's `NaiveDateTime::parse_from_str` yields for this text and
/// format, as a UTC timestamp in whole seconds.
pub uninterp spec fn datetime_parse_secs(s: Seq<char>, fmt: Seq<char>) -> Option<i64>;

/// What chrono's `NaiveDate::parse_from_str` with the plain date format
/// yields for this text, taken at midnight, as a UTC timestamp in seconds.
pub uninterp spec fn date_parse_secs(s: Seq<char>) -> Option<i64>;

/// How chrono renders the datetime at this UTC timestamp with the format
/// `%Y-%m-%dT%H:%M:%S`, or None when the timestamp lies outside chrono's
/// datetime range.
pub uninterp spec fn datetime_display_secs(secs: int) -> Option<Seq<char>>;

/// Relies on chrono's `NaiveDateTime::parse_from_str`: the outcome depends
/// on the text and the format alone. A successful parse is handed back as
/// its UTC timestamp in whole seconds (the formats used here carry no
/// sub-second part). chrono bounds years to about ±262000, so timestamps of
/// parseable datetimes lie strictly within ±2^43 seconds.
#[verifier::external_body]
fn parse_datetime_with_format(s: &str, fmt: &str) -> (r: Option<i64>)
    ensures
        r == datetime_parse_secs(s@, fmt@),
        r is Some ==> -0x800_0000_0000 < r.unwrap() < 0x800_0000_0000,
{
    chrono::NaiveDateTime::parse_from_str(s, fmt).ok().map(|dt| dt.and_utc().timestamp())
}

/// Relies on chrono's `NaiveDate::parse_from_str` with the `%Y-%m-%d`
/// format: a date-only value, taken as midnight, handed back as its UTC
/// timestamp. The same ±2^43 bound on parseable values applies.
#[verifier::external_body]
fn parse_date_midnight(s: &str) -> (r: Option<i64>)
    ensures
        r == date_parse_secs(s@),
        r is Some ==> -0x800_0000_0000 < r.unwrap() < 0x800_0000_0000,
{
    chrono::NaiveDate::parse_from_str(s, "%Y-%m-%d")
        .ok()
        .map(|d| d.and_hms_opt(0, 0, 0).unwrap().and_utc().timestamp())
}

/// Relies on chrono's `DateTime::from_timestamp` and its formatting: a
/// timestamp inside chrono's datetime range renders with the format
/// `%Y-%m-%dT%H:%M:%S`; one outside it gives None.
#[verifier::external_body]
pub fn format_timestamp(secs: i64) -> (r: Option<String>)
    ensures
        match (r, datetime_display_secs(secs as int)) {
            (Some(s), Some(v)) => s@ == v,
            (None, None) => true,
            _ => false,
        },
{
    chrono::DateTime::from_timestamp(secs, 0)
        .map(|dt| dt.naive_utc().format("%Y-%m-%dT%H:%M:%S").to_string())
}

/// `s` with every trailing 'Z' removed.
pub open spec fn strip_trailing_z(s: Seq<char>) -> Seq<char>
    decreases s.len(),
{
    if s.len() > 0 && s[s.len() - 1] == 'Z' {
        strip_trailing_z(s.drop_last())
    } else {
        s
    }
}

/// Index of the last occurrence of `c` in `s`, or -1 when absent.
pub open spec fn rfind_char(s: Seq<char>, c: char) -> int
    decreases s.len(),
{
    if s.len() == 0 {
        -1
    } else if s[s.len() - 1] == c {
        s.len() - 1
    } else {
        rfind_char(s.drop_last(), c)
    }
}

proof fn lemma_rfind_char(s: Seq<char>, c: char)
    ensures
        rfind_char(s, c) >= 0 ==> rfind_char(s, c) < s.len() && s[rfind_char(s, c)] == c,
        forall|j: int| 0 <= j < s.len() && s[j] == c ==> j <= rfind_char(s, c),
        rfind_char(s, c) == -1 <==> (forall|j: int| 0 <= j < s.len() ==> s[j] != c),
    decreases s.len(),
{
    if s.len() == 0 {
    } else if s[s.len() - 1] == c {
        assert(s[s.len() - 1] == c);
    } else {
        lemma_rfind_char(s.drop_last(), c);
        assert forall|j: int| 0 <= j < s.drop_last().len() implies s.drop_last()[j] == s[j] by {}
        if rfind_char(s.drop_last(), c) >= 0 {
            assert(s[rfind_char(s.drop_last(), c)] == s.drop_last()[rfind_char(
                s.drop_last(),
                c,
            )]);
        }
        assert forall|j: int| 0 <= j < s.len() && s[j] == c implies j <= rfind_char(s, c) by {
            assert(j < s.len() - 1);
            assert(s.drop_last()[j] == s[j]);
        }
        if rfind_char(s.drop_last(), c) == -1 {
            assert forall|j: int| 0 <= j < s.len() implies s[j] != c by {
                if j < s.len() - 1 {
                    assert(s[j] == s.drop_last()[j]);
                }
            }
        }
    }
}

/// The timestamp text after cleanup: trailing 'Z's dropped; then, when a
/// '+' stands past position ten, everything from it on dropped (a "+HH:MM"
/// offset); then, when position nineteen holds a '-', everything from there
/// on dropped (a "-HH:MM" offset after a full date-time prefix).
pub open spec fn cleaned_datetime_str(s: Seq<char>) -> Seq<char> {
    let a = strip_trailing_z(s);
    let b = if rfind_char(a, '+') > 10 {
        a.take(rfind_char(a, '+'))
    } else {
        a
    };
    if b.len() > 19 && b[19] == '-' {
        b.take(19)
    } else {
        b
    }
}

/// What `parse_datetime` yields: the cleaned text tried against each
/// accepted format in order, then as a plain date at midnight.
pub open spec fn parse_datetime_spec(s: Seq<char>) -> Option<i64> {
    let c = cleaned_datetime_str(s);
    if datetime_parse_secs(c, "%Y-%m-%dT%H:%M:%S"@) is Some {
        datetime_parse_secs(c, "%Y-%m-%dT%H:%M:%S"@)
    } else if datetime_parse_secs(c, "%Y-%m-%dT%H:%M"@) is Some {
        datetime_parse_secs(c, "%Y-%m-%dT%H:%M"@)
    } else if datetime_parse_secs(c, "%Y-%m-%d %H:%M:%S"@) is Some {
        datetime_parse_secs(c, "%Y-%m-%d %H:%M:%S"@)
    } else if datetime_parse_secs(c, "%Y-%m-%d %H:%M"@) is Some {
        datetime_parse_secs(c, "%Y-%m-%d %H:%M"@)
    } else if datetime_parse_secs(c, "%Y-%m-%d"@) is Some {
        datetime_parse_secs(c, "%Y-%m-%d"@)
    } else {
        date_parse_secs(c)
    }
}

/// Every timestamp `parse_datetime_spec` can yield lies within ±2^43.
pub open spec fn parse_result_in_range(r: Option<i64>) -> bool {
    r is Some ==> -0x800_0000_0000 < r.unwrap() < 0x800_0000_0000
}

/// Parses a timestamp string: strips a trailing 'Z' or numeric timezone
/// offset, then tries ISO 8601 date-time forms with and without seconds,
/// space-separated variants, and a plain date taken as midnight. Returns
/// the UTC timestamp in seconds.
pub fn parse_datetime(s: &str) -> (r: Option<i64>)
    ensures
        r == parse_datetime_spec(s@),
        parse_result_in_range(r),
{
    let n = s.unicode_len();
    proof {
        assert(s@.take(n as int) =~= s@);
    }
    // Strip trailing 'Z's.
    let mut e: usize = n;
    while e > 0 && s.get_char(e - 1) == 'Z'
        invariant
            0 <= e <= n,
            n == s@.len(),
            strip_trailing_z(s@) == strip_trailing_z(s@.take(e as int)),
        decreases e,
    {
        proof {
            assert(s@.take(e as int).drop_last() =~= s@.take(e as int - 1));
            assert(s@.take(e as int)[e - 1] == s@[e - 1]);
        }
        e = e - 1;
    }
    proof {
        if e > 0 {
            assert(s@.take(e as int)[e - 1] == s@[e - 1]);
        }
        assert(strip_trailing_z(s@.take(e as int)) == s@.take(e as int));
    }
    let t1 = s.substring_char(0, e);
    let ghost a = strip_trailing_z(s@);

    // Drop a "+HH:MM" style offset when the '+' stands past position ten.
    let mut p: usize = e;
    let mut plus: Option<usize> = None;
    while p > 0
        invariant
            0 <= p <= e,
            t1@ == a,
            e == a.len(),
            match plus {
                Some(q) => q == rfind_char(a, '+'),
                None => forall|j: int| p <= j < a.len() ==> a[j] != '+',
            },
            plus is Some ==> p == 0,
        decreases p,
    {
        p = p - 1;
        if t1.get_char(p) == '+' {
            proof {
                lemma_rfind_char(a, '+');
                assert(a[p as int] == '+');
                let l = rfind_char(a, '+');
                assert(l >= 0);
                if l > p as int {
                    assert(a[l] == '+');
                    assert(false);
                }
            }
            plus = Some(p);
            p = 0;
        }
    }
    proof {
        lemma_rfind_char(a, '+');
        if plus is None {
            assert(rfind_char(a, '+') == -1);
        }
    }
    let t2: &str = match plus {
        Some(q) => {
            if q > 10 {
                t1.substring_char(0, q)
            } else {
                t1
            }
        }
        None => t1,
    };
    let ghost b = if rfind_char(a, '+') > 10 {
        a.take(rfind_char(a, '+'))
    } else {
        a
    };
    proof {
        assert(t2@ == b);
    }

    // Drop a "-HH:MM" style offset after a full date-time prefix.
    let t2len = t2.unicode_len();
    let t3: &str = if t2len > 19 && t2.get_char(19) == '-' {
        t2.substring_char(0, 19)
    } else {
        t2
    };
    proof {
        assert(t3@ == cleaned_datetime_str(s@));
    }

    if let Some(v) = parse_datetime_with_format(t3, "%Y-%m-%dT%H:%M:%S") {
        return Some(v);
    }
    if let Some(v) = parse_datetime_with_format(t3, "%Y-%m-%dT%H:%M") {
        return Some(v);
    }
    if let Some(v) = parse_datetime_with_format(t3, "%Y-%m-%d %H:%M:%S") {
        return Some(v);
    }
    if let Some(v) = parse_datetime_with_format(t3, "%Y-%m-%d %H:%M") {
        return Some(v);
    }
    if let Some(v) = parse_datetime_with_format(t3, "%Y-%m-%d") {
        return Some(v);
    }
    parse_date_midnight(t3)
}

} // verus!
