//! File names of posts: `YYYY-MM-DD-<slug>.<ext>`, and the page address derived from them.
use vstd::prelude::*;
use crate::text::{
    all_digits, chars_of, is_digit, lemma_prefix_value_le,
    lemma_zero_padded, numeral_value, parsed_i32, parsed_u32, push_zero_padded, string_of,
    unsigned_magnitude, zero_padded,
};

verus! {

/// The first position at or after `from` that holds `c`.
pub open spec fn index_from(s: Seq<char>, c: char, from: int) -> Option<int>
    decreases s.len() - from,
{
    if from < 0 || from >= s.len() {
        None
    } else if s[from] == c {
        Some(from)
    } else {
        index_from(s, c, from + 1)
    }
}

/// The last position before `end` that holds `c`.
pub open spec fn last_index_before(s: Seq<char>, c: char, end: int) -> Option<int>
    decreases end,
{
    if end <= 0 || end > s.len() {
        None
    } else if s[end - 1] == c {
        Some(end - 1)
    } else {
        last_index_before(s, c, end - 1)
    }
}

/// The four hyphen-separated fields of a file name, the last of which keeps any
/// further hyphens; `None` with fewer than three hyphens.
pub open spec fn name_fields(s: Seq<char>) -> Option<(Seq<char>, Seq<char>, Seq<char>, Seq<char>)> {
    match index_from(s, '-', 0) {
        None => None,
        Some(a) => match index_from(s, '-', a + 1) {
            None => None,
            Some(b) => match index_from(s, '-', b + 1) {
                None => None,
                Some(c) => Some(
                    (s.subrange(0, a), s.subrange(a + 1, b), s.subrange(b + 1, c), s.skip(c + 1)),
                ),
            },
        },
    }
}

/// Year, month, day and slug of a file name; `None` when it is malformed.
pub open spec fn parsed_name(s: Seq<char>) -> Option<(i32, u32, u32, Seq<char>)> {
    match name_fields(s) {
        None => None,
        Some((y, m, d, slug)) => match (parsed_i32(y), parsed_u32(m), parsed_u32(d)) {
            (Some(year), Some(month), Some(day)) => Some((year, month, day, slug)),
            _ => None,
        },
    }
}

/// The file name of a post with these fields: the year padded with zeros to
/// `year_width` digits, month and day written with two digits.
pub open spec fn name_of(year: nat, year_width: nat, month: nat, day: nat, slug: Seq<char>) -> Seq<char> {
    zero_padded(year, year_width) + seq!['-'] + zero_padded(month, 2) + seq!['-'] + zero_padded(day, 2) + seq!['-']
        + slug
}

pub open spec fn html_suffix() -> Seq<char> {
    seq!['.', 'h', 't', 'm', 'l']
}

/// A file name with its extension replaced by `html`, or `html` added where it
/// has none, as `PathBuf::set_extension` does; the names `""`, `.` and `..` stay.
pub open spec fn html_name(slug: Seq<char>) -> Seq<char> {
    if slug.len() == 0 || slug == seq!['.'] || slug == seq!['.', '.'] {
        slug
    } else {
        match last_index_before(slug, '.', slug.len() as int) {
            Some(k) => if k > 0 {
                slug.take(k) + html_suffix()
            } else {
                slug + html_suffix()
            },
            None => slug + html_suffix(),
        }
    }
}

/// A year as `{:04}` writes it: four places, the sign counted among them.
pub open spec fn year_field(year: int) -> Seq<char> {
    if year < 0 {
        seq!['-'] + zero_padded((-year) as nat, 3)
    } else {
        zero_padded(year as nat, 4)
    }
}

/// The address of a post's page: `YYYY/MM/DD/<slug>.html`.
pub open spec fn url_of(year: i32, month: u32, day: u32, slug: Seq<char>) -> Seq<char> {
    year_field(year as int) + seq!['/'] + zero_padded(month as nat, 2) + seq!['/'] + zero_padded(
        day as nat,
        2,
    ) + seq!['/'] + html_name(slug)
}

/// The fields read from a post's file name.
pub struct NameParts {
    pub year: i32,
    pub month: u32,
    pub day: u32,
    pub slug: String,
}

proof fn lemma_index_from_at(s: Seq<char>, c: char, from: int, k: int)
    requires
        0 <= from <= k < s.len(),
        s[k] == c,
        forall|j: int| from <= j < k ==> s[j] != c,
    ensures
        index_from(s, c, from) == Some(k),
    decreases k - from,
{
    if from < k {
        lemma_index_from_at(s, c, from + 1, k);
    }
}

proof fn lemma_index_from_found(s: Seq<char>, c: char, from: int)
    ensures
        index_from(s, c, from) matches Some(k) ==> from <= k < s.len() && s[k] == c && forall|
            j: int,
        |
            from <= j < k ==> s[j] != c,
    decreases s.len() - from,
{
    if 0 <= from < s.len() && s[from] != c {
        lemma_index_from_found(s, c, from + 1);
    }
}

proof fn lemma_last_index_found(s: Seq<char>, c: char, end: int)
    ensures
        last_index_before(s, c, end) matches Some(k) ==> 0 <= k < end && s[k] == c,
    decreases end,
{
    if 0 < end <= s.len() && s[end - 1] != c {
        lemma_last_index_found(s, c, end - 1);
    }
}

proof fn lemma_digit_field_parses(f: Seq<char>)
    requires
        f.len() > 0,
        all_digits(f),
    ensures
        unsigned_magnitude(f) == Some(numeral_value(f)),
        f[0] != '-',
{
    assert(is_digit(f[0]));
}

/// Writing a file name from a year, a month, a day and a slug, with the year
/// padded to any width and the month and the day in two digits, and reading it
/// back gives the same four values.
pub proof fn lemma_name_round_trip(year: i32, year_width: nat, month: u32, day: u32, slug: Seq<char>)
    requires
        year >= 0,
    ensures
        parsed_name(name_of(year as nat, year_width, month as nat, day as nat, slug)) == Some(
            (year, month, day, slug),
        ),
{
    let y = zero_padded(year as nat, year_width);
    let m = zero_padded(month as nat, 2);
    let d = zero_padded(day as nat, 2);
    let s = name_of(year as nat, year_width, month as nat, day as nat, slug);
    lemma_zero_padded(year as nat, year_width);
    lemma_zero_padded(month as nat, 2);
    lemma_zero_padded(day as nat, 2);
    let a = y.len() as int;
    let b = a + 1 + m.len();
    let c = b + 1 + d.len();
    assert(s =~= y + seq!['-'] + m + seq!['-'] + d + seq!['-'] + slug);
    assert(s.subrange(0, a) =~= y);
    assert(s.subrange(a + 1, b) =~= m);
    assert(s.subrange(b + 1, c) =~= d);
    assert(s.skip(c + 1) =~= slug);
    assert forall|j: int| 0 <= j < a implies s[j] != '-' by {
        assert(s[j] == y[j]);
        assert(is_digit(y[j]));
    }
    assert forall|j: int| a + 1 <= j < b implies s[j] != '-' by {
        assert(s[j] == m[j - a - 1]);
        assert(is_digit(m[j - a - 1]));
    }
    assert forall|j: int| b + 1 <= j < c implies s[j] != '-' by {
        assert(s[j] == d[j - b - 1]);
        assert(is_digit(d[j - b - 1]));
    }
    lemma_index_from_at(s, '-', 0, a);
    lemma_index_from_at(s, '-', a + 1, b);
    lemma_index_from_at(s, '-', b + 1, c);
    lemma_digit_field_parses(y);
    lemma_digit_field_parses(m);
    lemma_digit_field_parses(d);
    assert(y[0] != '+') by { assert(is_digit(y[0])); }
    assert(m[0] != '+') by { assert(is_digit(m[0])); }
    assert(d[0] != '+') by { assert(is_digit(d[0])); }
}

fn find_from(s: &[char], c: char, from: usize) -> (r: Option<usize>)
    requires
        from <= s@.len(),
    ensures
        r matches Some(k) ==> index_from(s@, c, from as int) == Some(k as int),
        r is None ==> index_from(s@, c, from as int) is None,
{
    let mut i = from;
    while i < s.len()
        invariant
            from <= i <= s@.len(),
            index_from(s@, c, from as int) == index_from(s@, c, i as int),
        decreases s@.len() - i,
    {
        if s[i] == c {
            return Some(i);
        }
        i = i + 1;
    }
    None
}

fn rfind_before(s: &[char], c: char, end: usize) -> (r: Option<usize>)
    requires
        end <= s@.len(),
    ensures
        r matches Some(k) ==> last_index_before(s@, c, end as int) == Some(k as int),
        r is None ==> last_index_before(s@, c, end as int) is None,
{
    let mut i = end;
    while i > 0
        invariant
            i <= end <= s@.len(),
            last_index_before(s@, c, end as int) == last_index_before(s@, c, i as int),
        decreases i,
    {
        if s[i - 1] == c {
            return Some(i - 1);
        }
        i = i - 1;
    }
    None
}

/// The value of the digits in `s[lo..hi]`, when that is a non-empty run of
/// digits whose value is at most `limit`.
fn numeral_in(s: &[char], lo: usize, hi: usize, limit: u64) -> (r: Option<u64>)
    requires
        lo <= hi <= s@.len(),
        limit < 0x1_0000_0000,
    ensures
        r matches Some(v) ==> {
            &&& hi > lo
            &&& all_digits(s@.subrange(lo as int, hi as int))
            &&& v as nat == numeral_value(s@.subrange(lo as int, hi as int))
            &&& v <= limit
        },
        r is None ==> !(hi > lo && all_digits(s@.subrange(lo as int, hi as int)) && numeral_value(
            s@.subrange(lo as int, hi as int),
        ) <= limit),
{
    let ghost body = s@.subrange(lo as int, hi as int);
    if hi == lo {
        return None;
    }
    let mut acc: u64 = 0;
    let mut i: usize = lo;
    while i < hi
        invariant
            lo <= i <= hi <= s@.len(),
            body == s@.subrange(lo as int, hi as int),
            limit < 0x1_0000_0000,
            all_digits(body.take(i - lo)),
            acc as nat == numeral_value(body.take(i - lo)),
            acc <= limit,
        decreases hi - i,
    {
        proof {
            assert(body.take(i - lo + 1).drop_last() =~= body.take(i - lo));
            assert(body[i - lo] == s@[i as int]);
        }
        let c = s[i];
        if !('0' <= c && c <= '9') {
            assert(!is_digit(body[i - lo]));
            return None;
        }
        let d = (c as u32 - '0' as u32) as u64;
        acc = acc * 10 + d;
        i = i + 1;
        assert(all_digits(body.take(i - lo))) by {
            assert forall|j: int| 0 <= j < body.take(i - lo).len() implies is_digit(
                #[trigger] body.take(i - lo)[j],
            ) by {
                if j < i - lo - 1 {
                    assert(body.take(i - lo)[j] == body.take(i - lo - 1)[j]);
                }
            }
        }
        if acc > limit {
            proof {
                if all_digits(body) {
                    lemma_prefix_value_le(body, i - lo);
                }
            }
            return None;
        }
    }
    assert(body.take(i - lo) =~= body);
    Some(acc)
}

/// Reads `s[lo..hi]` as `str::parse::<u32>` does.
fn parse_u32_in(s: &[char], lo: usize, hi: usize) -> (r: Option<u32>)
    requires
        lo <= hi <= s@.len(),
    ensures
        r == parsed_u32(s@.subrange(lo as int, hi as int)),
{
    let ghost whole = s@.subrange(lo as int, hi as int);
    let start = if lo < hi && s[lo] == '+' { lo + 1 } else { lo };
    assert(s@.subrange(start as int, hi as int) =~= (if whole.len() > 0 && whole[0] == '+' {
        whole.drop_first()
    } else {
        whole
    }));
    match numeral_in(s, start, hi, 0xFFFF_FFFF) {
        Some(v) => Some(v as u32),
        None => None,
    }
}

/// Reads `s[lo..hi]` as `str::parse::<i32>` does.
fn parse_i32_in(s: &[char], lo: usize, hi: usize) -> (r: Option<i32>)
    requires
        lo <= hi <= s@.len(),
    ensures
        r == parsed_i32(s@.subrange(lo as int, hi as int)),
{
    let ghost whole = s@.subrange(lo as int, hi as int);
    if lo < hi && s[lo] == '-' {
        assert(s@.subrange(lo + 1, hi as int) =~= whole.drop_first());
        match numeral_in(s, lo + 1, hi, 0x8000_0000) {
            Some(v) => Some((0 - v as i64) as i32),
            None => None,
        }
    } else {
        let start = if lo < hi && s[lo] == '+' { lo + 1 } else { lo };
        assert(s@.subrange(start as int, hi as int) =~= (if whole.len() > 0 && whole[0] == '+' {
            whole.drop_first()
        } else {
            whole
        }));
        match numeral_in(s, start, hi, 0x7FFF_FFFF) {
            Some(v) => Some(v as i32),
            None => None,
        }
    }
}

/// Reads year, month, day and slug from a post's file name.
pub fn parse_file_name(name: &str) -> (r: Option<NameParts>)
    ensures
        match r {
            Some(p) => parsed_name(name@) == Some((p.year, p.month, p.day, p.slug@)),
            None => parsed_name(name@) is None,
        },
{
    let s = chars_of(name);
    let a = match find_from(s.as_slice(), '-', 0) {
        Some(a) => a,
        None => return None,
    };
    proof { lemma_index_from_found(s@, '-', 0); }
    let b = match find_from(s.as_slice(), '-', a + 1) {
        Some(b) => b,
        None => return None,
    };
    proof { lemma_index_from_found(s@, '-', a + 1); }
    let c = match find_from(s.as_slice(), '-', b + 1) {
        Some(c) => c,
        None => return None,
    };
    proof { lemma_index_from_found(s@, '-', b + 1); }
    let year = parse_i32_in(s.as_slice(), 0, a);
    let month = parse_u32_in(s.as_slice(), a + 1, b);
    let day = parse_u32_in(s.as_slice(), b + 1, c);
    match (year, month, day) {
        (Some(year), Some(month), Some(day)) => {
            let mut rest: Vec<char> = Vec::new();
            let mut i = c + 1;
            while i < s.len()
                invariant
                    c + 1 <= i <= s@.len(),
                    rest@ == s@.subrange(c + 1, i as int),
                decreases s@.len() - i,
            {
                rest.push(s[i]);
                i = i + 1;
                assert(rest@ =~= s@.subrange(c + 1, i as int));
            }
            assert(rest@ =~= s@.skip(c + 1));
            let slug = string_of(rest.as_slice());
            Some(NameParts { year, month, day, slug })
        },
        _ => None,
    }
}

/// Appends the slug with its extension replaced by `html`.
fn push_html_name(out: &mut Vec<char>, slug: &[char])
    ensures
        final(out)@ == old(out)@ + html_name(slug@),
{
    let ghost start = out@;
    let n = slug.len();
    let special = n == 0 || (n == 1 && slug[0] == '.') || (n == 2 && slug[0] == '.' && slug[1]
        == '.');
    assert(special == (slug@.len() == 0 || slug@ =~= seq!['.'] || slug@ =~= seq!['.', '.']));
    proof { lemma_last_index_found(slug@, '.', n as int); }
    let keep = if special {
        n
    } else {
        match rfind_before(slug, '.', n) {
            Some(k) => if k > 0 { k } else { n },
            None => n,
        }
    };
    let mut i: usize = 0;
    while i < keep
        invariant
            keep <= n == slug@.len(),
            i <= keep,
            out@ == start + slug@.take(i as int),
        decreases keep - i,
    {
        out.push(slug[i]);
        i = i + 1;
        assert(out@ =~= start + slug@.take(i as int));
    }
    if !special {
        out.push('.');
        out.push('h');
        out.push('t');
        out.push('m');
        out.push('l');
    }
    assert(slug@.take(n as int) =~= slug@);
    assert(out@ =~= start + html_name(slug@));
}

/// The address of a post's page, `YYYY/MM/DD/<slug>.html`.
pub fn post_url(year: i32, month: u32, day: u32, slug: &str) -> (r: String)
    ensures
        r@ == url_of(year, month, day, slug@),
{
    let mut out: Vec<char> = Vec::new();
    if year < 0 {
        out.push('-');
        push_zero_padded(&mut out, (0 - year as i64) as u64, 3);
    } else {
        push_zero_padded(&mut out, year as u64, 4);
    }
    assert(out@ =~= year_field(year as int));
    out.push('/');
    push_zero_padded(&mut out, month as u64, 2);
    out.push('/');
    push_zero_padded(&mut out, day as u64, 2);
    out.push('/');
    let slug_chars = chars_of(slug);
    push_html_name(&mut out, slug_chars.as_slice());
    assert(out@ =~= url_of(year, month, day, slug@));
    string_of(out.as_slice())
}

} // verus!
