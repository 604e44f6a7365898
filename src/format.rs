//! Detection of well-known string formats (dates, e-mail addresses, UUIDs, ...).
use vstd::prelude::*;
use vstd::string::*;
use vstd::utf8::encode_utf8;

verus! {

/// Calendar date `YYYY-MM-DD`.
pub const DATE_PATTERN: &'static str = r"^\d{4}-\d{2}-\d{2}$";

/// Date and time, with optional fraction and zone.
pub const DATE_TIME_PATTERN: &'static str = r"^\d{4}-\d{2}-\d{2}T\d{2}:\d{2}:\d{2}(.\d+)?(Z|[+-]\d{2}:\d{2})?$";

/// Time of day, with optional fraction.
pub const TIME_PATTERN: &'static str = r"^\d{2}:\d{2}:\d{2}(.\d+)?$";

/// A plain e-mail address.
pub const EMAIL_PATTERN: &'static str = r"^[a-zA-Z0-9._%+-]+@[a-zA-Z0-9.-]+\.[a-zA-Z]{2,}$";

/// A canonical UUID in lower case.
pub const UUID_PATTERN: &'static str = r"^[0-9a-f]{8}-[0-9a-f]{4}-[0-9a-f]{4}-[0-9a-f]{4}-[0-9a-f]{12}$";

/// Four dot-separated groups of one to three digits.
pub const IPV4_PATTERN: &'static str = r"^(\d{1,3}\.){3}\d{1,3}$";

/// An IPv6 address, full or with a `::` run.
pub const IPV6_PATTERN: &'static str = r"^(([0-9a-fA-F]{1,4}:){7}[0-9a-fA-F]{1,4}|([0-9a-fA-F]{1,4}:){1,7}:|([0-9a-fA-F]{1,4}:){1,6}:[0-9a-fA-F]{1,4})$";

/// Whether the regex crate, given `pattern`, compiles it and finds a match in `text`.
pub uninterp spec fn regex_accepts(pattern: Seq<char>, text: Seq<char>) -> bool;

/// The lower-case mapping of `s` as std performs it.
pub uninterp spec fn lower_of(s: Seq<char>) -> Seq<char>;

/// Relies on `regex::Regex::new` and `regex::Regex::is_match`: whether the
/// pattern compiles and matches somewhere in `text` (false when it does not
/// compile).
#[verifier::external_body]
fn regex_is_match(pattern: &str, text: &str) -> (r: bool)
    ensures
        r == regex_accepts(pattern@, text@),
{
    match regex::Regex::new(pattern) {
        Ok(re) => re.is_match(text),
        Err(_) => false,
    }
}

/// Relies on `str::to_lowercase`: the result depends on the characters alone.
#[verifier::external_body]
fn lowercase(s: &str) -> (r: String)
    ensures
        r@ == lower_of(s@),
{
    s.to_lowercase()
}

/// The verdicts of the pattern matches behind format detection.
#[derive(Debug, Clone, Copy)]
pub struct FormatVerdicts {
    pub date: bool,
    pub email: bool,
    pub uuid: bool,
    pub date_time: bool,
    pub time: bool,
    pub ipv4: bool,
    pub ipv6: bool,
}

/// The verdicts the patterns give on `s` (the UUID pattern sees `s` in lower case).
pub open spec fn verdicts_of(s: Seq<char>) -> FormatVerdicts {
    FormatVerdicts {
        date: regex_accepts(DATE_PATTERN@, s),
        email: regex_accepts(EMAIL_PATTERN@, s),
        uuid: regex_accepts(UUID_PATTERN@, lower_of(s)),
        date_time: regex_accepts(DATE_TIME_PATTERN@, s),
        time: regex_accepts(TIME_PATTERN@, s),
        ipv4: regex_accepts(IPV4_PATTERN@, s),
        ipv6: regex_accepts(IPV6_PATTERN@, s),
    }
}

/// `b` begins with `p`.
pub open spec fn has_prefix(b: Seq<u8>, p: Seq<u8>) -> bool {
    p.len() <= b.len() && b.take(p.len() as int) == p
}

/// The URI schemes that count.
pub open spec fn uri_prefix(b: Seq<u8>) -> bool {
    has_prefix(b, seq![104u8, 116, 116, 112, 58, 47, 47]) || has_prefix(
        b,
        seq![104u8, 116, 116, 112, 115, 58, 47, 47],
    ) || has_prefix(b, seq![102u8, 116, 112, 58, 47, 47]) || has_prefix(
        b,
        seq![102u8, 105, 108, 101, 58, 47, 47],
    )
}

/// An ASCII digit.
pub open spec fn is_digit(c: u8) -> bool {
    48 <= c <= 57
}

/// The value of a string of ASCII digits.
pub open spec fn digits_value(d: Seq<u8>) -> nat
    decreases d.len(),
{
    if d.len() == 0 {
        0
    } else {
        digits_value(d.drop_last()) * 10 + (d.last() - 48) as nat
    }
}

/// What `u8`'s parser accepts: an optional `+`, then one or more ASCII
/// digits whose value is at most 255.
pub open spec fn parses_as_u8(p: Seq<u8>) -> bool {
    &&& unsigned_digits(p).len() > 0
    &&& forall|i: int| 0 <= i < unsigned_digits(p).len() ==> is_digit(#[trigger] unsigned_digits(p)[i])
    &&& digits_value(unsigned_digits(p)) <= 255
}

/// The digits of a number's text after an optional `+`.
pub open spec fn unsigned_digits(p: Seq<u8>) -> Seq<u8> {
    if p.len() > 0 && p[0] == 43u8 {
        p.drop_first()
    } else {
        p
    }
}

/// The pieces of `b` between dots.
pub open spec fn dot_parts(b: Seq<u8>) -> Seq<Seq<u8>>
    decreases b.len(),
{
    if b.len() == 0 {
        seq![Seq::empty()]
    } else {
        let parts = dot_parts(b.drop_last());
        if b.last() == 46u8 {
            parts.push(Seq::empty())
        } else {
            parts.update(parts.len() - 1, parts.last().push(b.last()))
        }
    }
}

/// Every dot-separated piece of `b` parses as a `u8`.
pub open spec fn all_parts_u8(b: Seq<u8>) -> bool {
    forall|i: int| 0 <= i < dot_parts(b).len() ==> parses_as_u8(#[trigger] dot_parts(b)[i])
}

/// The format of a string with UTF-8 bytes `b`, given the pattern verdicts:
/// the first check in a fixed order whose length or character guard holds
/// and whose pattern accepts.
pub open spec fn format_choice(b: Seq<u8>, v: FormatVerdicts) -> Option<Seq<char>> {
    let n = b.len();
    if n == 0 {
        None
    } else if n > 6 && uri_prefix(b) {
        Some(seq!['u', 'r', 'i'])
    } else if n == 10 && b[4] == 45u8 && b[7] == 45u8 && v.date {
        Some(seq!['d', 'a', 't', 'e'])
    } else if n > 5 && n < 255 && b.contains(64u8) && v.email {
        Some(seq!['e', 'm', 'a', 'i', 'l'])
    } else if n == 36 && b[8] == 45u8 && v.uuid {
        Some(seq!['u', 'u', 'i', 'd'])
    } else if n >= 19 && b[10] == 84u8 && v.date_time {
        Some(seq!['d', 'a', 't', 'e', '-', 't', 'i', 'm', 'e'])
    } else if n >= 8 && b.contains(58u8) && v.time {
        Some(seq!['t', 'i', 'm', 'e'])
    } else if n < 16 && b.contains(46u8) && v.ipv4 && all_parts_u8(b) {
        Some(seq!['i', 'p', 'v', '4'])
    } else if b.contains(58u8) && v.ipv6 {
        Some(seq!['i', 'p', 'v', '6'])
    } else {
        None
    }
}

/// The format detected in `s`.
pub open spec fn format_of(s: Seq<char>) -> Option<Seq<char>> {
    format_choice(encode_utf8(s), verdicts_of(s))
}

/// The view of an optional string.
pub open spec fn opt_view(o: Option<String>) -> Option<Seq<char>> {
    match o {
        Some(s) => Some(s@),
        None => None,
    }
}

/// Whether byte `c` occurs in `b`.
fn bytes_contain(b: &[u8], c: u8) -> (r: bool)
    ensures
        r == b@.contains(c),
{
    let mut i: usize = 0;
    while i < b.len()
        invariant
            i <= b.len(),
            forall|j: int| 0 <= j < i ==> b@[j] != c,
        decreases b.len() - i,
    {
        if b[i] == c {
            assert(b@[i as int] == c);
            return true;
        }
        i = i + 1;
    }
    false
}

/// Whether `b` begins with the bytes of `p`.
fn bytes_start_with(b: &[u8], p: &[u8]) -> (r: bool)
    ensures
        r == has_prefix(b@, p@),
{
    if p.len() > b.len() {
        return false;
    }
    let mut i: usize = 0;
    while i < p.len()
        invariant
            p.len() <= b.len(),
            i <= p.len(),
            forall|j: int| 0 <= j < i ==> b@[j] == p@[j],
        decreases p.len() - i,
    {
        if b[i] != p[i] {
            assert(b@.take(p.len() as int)[i as int] != p@[i as int]);
            return false;
        }
        i = i + 1;
    }
    assert(b@.take(p.len() as int) =~= p@);
    true
}

/// Whether one piece parses as a `u8`.
fn part_parses_as_u8(p: &Vec<u8>) -> (r: bool)
    ensures
        r == parses_as_u8(p@),
{
    let start: usize = if p.len() > 0 && p[0] == 43u8 {
        1
    } else {
        0
    };
    let ghost d = unsigned_digits(p@);
    assert(d =~= p@.subrange(start as int, p@.len() as int));
    if start >= p.len() {
        return false;
    }
    let mut value: u64 = 0;
    let mut i: usize = start;
    while i < p.len()
        invariant
            start <= i <= p.len(),
            d =~= p@.subrange(start as int, p@.len() as int),
            d == unsigned_digits(p@),
            forall|j: int| 0 <= j < i - start ==> is_digit(#[trigger] d[j]),
            value == if digits_value(d.take(i - start)) < 256 {
                digits_value(d.take(i - start))
            } else {
                256
            },
        decreases p.len() - i,
    {
        let c = p[i];
        if c < 48 || c > 57 {
            assert(!is_digit(d[i - start]));
            return false;
        }
        assert(d.take(i - start + 1).drop_last() =~= d.take(i - start));
        let digit: u64 = (c - 48) as u64;
        if value < 256 {
            value = value * 10 + digit;
            if value > 256 {
                value = 256;
            }
        }
        i = i + 1;
    }
    assert(d.take(p.len() - start) =~= d);
    value <= 255
}

/// Whether every dot-separated piece of `b` parses as a `u8`.
fn dotted_parts_are_u8(b: &[u8]) -> (r: bool)
    ensures
        r == all_parts_u8(b@),
{
    let mut parts: Vec<Vec<u8>> = Vec::new();
    let mut current: Vec<u8> = Vec::new();
    let mut i: usize = 0;
    while i < b.len()
        invariant
            i <= b.len(),
            dot_parts(b@.take(i as int)) =~= Seq::new(parts.len() as nat, |j: int| parts@[j]@).push(current@),
        decreases b.len() - i,
    {
        assert(b@.take(i + 1).drop_last() =~= b@.take(i as int));
        if b[i] == 46u8 {
            let done = current;
            parts.push(done);
            current = Vec::new();
        } else {
            current.push(b[i]);
        }
        i = i + 1;
    }
    assert(b@.take(b.len() as int) =~= b@);
    parts.push(current);
    let ghost all = dot_parts(b@);
    assert(all =~= Seq::new(parts.len() as nat, |j: int| parts@[j]@));
    let mut k: usize = 0;
    while k < parts.len()
        invariant
            k <= parts.len(),
            all =~= Seq::new(parts.len() as nat, |j: int| parts@[j]@),
            all == dot_parts(b@),
            forall|j: int| 0 <= j < k ==> parses_as_u8(#[trigger] all[j]),
        decreases parts.len() - k,
    {
        if !part_parses_as_u8(&parts[k]) {
            assert(!parses_as_u8(all[k as int]));
            return false;
        }
        k = k + 1;
    }
    true
}

/// The format of `value` given the pattern verdicts: the checks are tried in
/// a fixed order, each behind its length or character guard, first match wins.
pub fn choose_format(value: &str, v: &FormatVerdicts) -> (r: Option<String>)
    ensures
        opt_view(r) == format_choice(value.spec_bytes(), *v),
{
    let b = value.as_bytes();
    let n = b.len();
    proof {
        reveal_strlit("uri");
        reveal_strlit("date");
        reveal_strlit("email");
        reveal_strlit("uuid");
        reveal_strlit("date-time");
        reveal_strlit("time");
        reveal_strlit("ipv4");
        reveal_strlit("ipv6");
    }
    if n == 0 {
        return None;
    }
    if n > 6 {
        let http: [u8; 7] = [104u8, 116, 116, 112, 58, 47, 47];
        let https: [u8; 8] = [104u8, 116, 116, 112, 115, 58, 47, 47];
        let ftp: [u8; 6] = [102u8, 116, 112, 58, 47, 47];
        let file: [u8; 7] = [102u8, 105, 108, 101, 58, 47, 47];
        assert(http@ =~= seq![104u8, 116, 116, 112, 58, 47, 47]);
        assert(https@ =~= seq![104u8, 116, 116, 112, 115, 58, 47, 47]);
        assert(ftp@ =~= seq![102u8, 116, 112, 58, 47, 47]);
        assert(file@ =~= seq![102u8, 105, 108, 101, 58, 47, 47]);
        if bytes_start_with(b, &http) || bytes_start_with(b, &https) || bytes_start_with(b, &ftp)
            || bytes_start_with(b, &file) {
            return Some(String::from_str("uri"));
        }
    }
    if n == 10 && b[4] == 45u8 && b[7] == 45u8 && v.date {
        return Some(String::from_str("date"));
    }
    if n > 5 && n < 255 && bytes_contain(b, 64u8) && v.email {
        return Some(String::from_str("email"));
    }
    if n == 36 && b[8] == 45u8 && v.uuid {
        return Some(String::from_str("uuid"));
    }
    if n >= 19 && b[10] == 84u8 && v.date_time {
        return Some(String::from_str("date-time"));
    }
    let has_colon = bytes_contain(b, 58u8);
    if n >= 8 && has_colon && v.time {
        return Some(String::from_str("time"));
    }
    if n < 16 && bytes_contain(b, 46u8) && v.ipv4 && dotted_parts_are_u8(b) {
        return Some(String::from_str("ipv4"));
    }
    if has_colon && v.ipv6 {
        return Some(String::from_str("ipv6"));
    }
    None
}

/// Whether `s` is a calendar date.
fn is_iso_date(s: &str) -> (r: bool)
    ensures
        r == regex_accepts(DATE_PATTERN@, s@),
{
    regex_is_match(DATE_PATTERN, s)
}

/// Whether `s` is a date and time.
fn is_iso_datetime(s: &str) -> (r: bool)
    ensures
        r == regex_accepts(DATE_TIME_PATTERN@, s@),
{
    regex_is_match(DATE_TIME_PATTERN, s)
}

/// Whether `s` is a time of day.
fn is_iso_time(s: &str) -> (r: bool)
    ensures
        r == regex_accepts(TIME_PATTERN@, s@),
{
    regex_is_match(TIME_PATTERN, s)
}

/// Whether `s` is an e-mail address.
fn is_email(s: &str) -> (r: bool)
    ensures
        r == regex_accepts(EMAIL_PATTERN@, s@),
{
    regex_is_match(EMAIL_PATTERN, s)
}

/// Whether `s`, in lower case, is a UUID.
fn is_uuid(s: &str) -> (r: bool)
    ensures
        r == regex_accepts(UUID_PATTERN@, lower_of(s@)),
{
    regex_is_match(UUID_PATTERN, lowercase(s).as_str())
}

/// Whether `s` has the shape of an IPv4 address and each part is a byte value.
fn is_ipv4(s: &str) -> (r: bool)
    ensures
        r == (regex_accepts(IPV4_PATTERN@, s@) && all_parts_u8(s.spec_bytes())),
{
    regex_is_match(IPV4_PATTERN, s) && dotted_parts_are_u8(s.as_bytes())
}

/// Whether `s` is an IPv6 address.
fn is_ipv6(s: &str) -> (r: bool)
    ensures
        r == regex_accepts(IPV6_PATTERN@, s@),
{
    regex_is_match(IPV6_PATTERN, s)
}

/// The format detected in `value`: `uri`, `date`, `email`, `uuid`,
/// `date-time`, `time`, `ipv4` or `ipv6`, tried in that order; a pattern is
/// consulted only when its cheap guard holds.
pub fn detect_format(value: &str) -> (r: Option<String>)
    ensures
        opt_view(r) == format_of(value@),
{
    let b = value.as_bytes();
    let n = b.len();
    let has_at = bytes_contain(b, 64u8);
    let has_colon = bytes_contain(b, 58u8);
    let has_dot = bytes_contain(b, 46u8);
    let v = FormatVerdicts {
        date: n == 10 && b[4] == 45u8 && b[7] == 45u8 && is_iso_date(value),
        email: n > 5 && n < 255 && has_at && is_email(value),
        uuid: n == 36 && b[8] == 45u8 && is_uuid(value),
        date_time: n >= 19 && b[10] == 84u8 && is_iso_datetime(value),
        time: n >= 8 && has_colon && is_iso_time(value),
        ipv4: n < 16 && has_dot && is_ipv4(value),
        ipv6: has_colon && is_ipv6(value),
    };
    choose_format(value, &v)
}

} // verus!
