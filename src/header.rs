//! The fenced header at the top of a post, and the decoding of a YAML document
//! that must hold exactly two named string fields.
use vstd::prelude::*;
use crate::text::{chars_of, string_of};

verus! {

#[verifier::external_type_specification]
#[verifier::external_body]
pub struct ExYamlError(serde_yaml::Error);

/// The entries, key and value, of the YAML mapping from strings to strings that
/// `text` holds, in the order of their keys; `None` when `text` holds no such
/// mapping, or one in which a key is repeated.
pub uninterp spec fn yaml_string_map(text: Seq<char>) -> Option<Seq<(Seq<char>, Seq<char>)>>;

pub open spec fn entries_view(v: Seq<(String, String)>) -> Seq<(Seq<char>, Seq<char>)> {
    v.map_values(|e: (String, String)| (e.0@, e.1@))
}

/// Relies on `serde_yaml::from_str`, into a `serde_yaml::Mapping` (which refuses a
/// repeated key) and into a `BTreeMap<String, String>`: whether the document
/// decodes, and to which entries, depends on its text alone.
#[verifier::external_body]
fn decode_string_map(text: &str) -> (r: Result<Vec<(String, String)>, serde_yaml::Error>)
    ensures
        r is Ok <==> yaml_string_map(text@) is Some,
        r matches Ok(v) ==> yaml_string_map(text@) == Some(entries_view(v@)),
{
    serde_yaml::from_str::<serde_yaml::Mapping>(text)?;
    serde_yaml::from_str::<std::collections::BTreeMap<String, String>>(text).map(
        |m| m.into_iter().collect(),
    )
}

/// Whether `---` starts at position `k`.
pub open spec fn fence_at(s: Seq<char>, k: int) -> bool {
    0 <= k && k + 3 <= s.len() && s[k] == '-' && s[k + 1] == '-' && s[k + 2] == '-'
}

/// The first position at or after `from` where `---` starts.
pub open spec fn fence_from(s: Seq<char>, from: int) -> Option<int>
    decreases s.len() - from,
{
    if from < 0 || from + 3 > s.len() {
        None
    } else if fence_at(s, from) {
        Some(from)
    } else {
        fence_from(s, from + 1)
    }
}

/// The length of the opening marker `---\n`, which is skipped unread.
pub const OPENING_LEN: usize = 4;

/// A post's content cut into its header (everything before the first `---` that
/// follows the opening marker) and its body (what follows that `---` and the one
/// character after it); `None` when no closing `---` is found.
pub open spec fn split_header(s: Seq<char>) -> Option<(Seq<char>, Seq<char>)> {
    match fence_from(s, OPENING_LEN as int) {
        None => None,
        Some(k) => Some((s.take(k), s.skip(if k + 4 <= s.len() { k + 4 } else { s.len() as int }))),
    }
}

/// The values of keys `k1` and `k2` among `entries`, the later entry winning;
/// `None` when some other key occurs.
pub open spec fn gather(entries: Seq<(Seq<char>, Seq<char>)>, k1: Seq<char>, k2: Seq<char>) -> Option<
    (Option<Seq<char>>, Option<Seq<char>>),
>
    decreases entries.len(),
{
    if entries.len() == 0 {
        Some((None, None))
    } else {
        match gather(entries.drop_last(), k1, k2) {
            None => None,
            Some((x, y)) => {
                let (k, v) = entries.last();
                if k == k1 {
                    Some((Some(v), y))
                } else if k == k2 {
                    Some((x, Some(v)))
                } else {
                    None
                }
            },
        }
    }
}

/// The two values of a document whose keys are exactly `k1` and `k2`, both present.
pub open spec fn exact_fields(text: Seq<char>, k1: Seq<char>, k2: Seq<char>) -> Option<
    (Seq<char>, Seq<char>),
> {
    match yaml_string_map(text) {
        None => None,
        Some(entries) => match gather(entries, k1, k2) {
            Some((Some(x), Some(y))) => Some((x, y)),
            _ => None,
        },
    }
}

proof fn lemma_gather_stays_none(e: Seq<(Seq<char>, Seq<char>)>, k1: Seq<char>, k2: Seq<char>, n: int)
    requires
        0 <= n <= e.len(),
        gather(e.take(n), k1, k2) is None,
    ensures
        gather(e, k1, k2) is None,
    decreases e.len() - n,
{
    if n < e.len() {
        assert(e.take(n + 1).drop_last() =~= e.take(n));
        lemma_gather_stays_none(e, k1, k2, n + 1);
    } else {
        assert(e.take(n) =~= e);
    }
}

/// Decodes a YAML document that must map exactly the keys `k1` and `k2` to strings.
pub fn decode_exact_fields(text: &str, k1: &str, k2: &str) -> (r: Option<(String, String)>)
    ensures
        match r {
            Some((x, y)) => exact_fields(text@, k1@, k2@) == Some((x@, y@)),
            None => exact_fields(text@, k1@, k2@) is None,
        },
{
    let entries = match decode_string_map(text) {
        Ok(v) => v,
        Err(_) => return None,
    };
    let ghost ev = entries_view(entries@);
    let key1 = k1.to_owned();
    let key2 = k2.to_owned();
    let mut x: Option<String> = None;
    let mut y: Option<String> = None;
    let mut i: usize = 0;
    while i < entries.len()
        invariant
            i <= entries@.len(),
            ev == entries_view(entries@),
            yaml_string_map(text@) == Some(ev),
            key1@ == k1@,
            key2@ == k2@,
            gather(ev.take(i as int), k1@, k2@) == Some(
                (
                    match x {
                        Some(s) => Some(s@),
                        None => None::<Seq<char>>,
                    },
                    match y {
                        Some(s) => Some(s@),
                        None => None::<Seq<char>>,
                    },
                ),
            ),
        decreases entries@.len() - i,
    {
        proof {
            assert(ev.take(i + 1).drop_last() =~= ev.take(i as int));
            assert(ev.take(i + 1).last() == ev[i as int]);
            assert(ev[i as int] == (entries@[i as int].0@, entries@[i as int].1@));
        }
        let key = &entries[i].0;
        if *key == key1 {
            x = Some(entries[i].1.clone());
        } else if *key == key2 {
            y = Some(entries[i].1.clone());
        } else {
            proof {
                let t = ev.take(i + 1);
                assert(gather(t, k1@, k2@) is None);
                lemma_gather_stays_none(ev, k1@, k2@, i + 1);
            }
            return None;
        }
        i = i + 1;
    }
    assert(ev.take(i as int) =~= ev);
    match (x, y) {
        (Some(x), Some(y)) => Some((x, y)),
        _ => None,
    }
}

fn fence_from_exec(s: &[char], from: usize) -> (r: Option<usize>)
    ensures
        match r {
            Some(k) => fence_from(s@, from as int) == Some(k as int),
            None => fence_from(s@, from as int) is None,
        },
{
    let mut i = from;
    while i < s.len() && 3 <= s.len() - i
        invariant
            from <= i,
            fence_from(s@, from as int) == fence_from(s@, i as int),
        decreases s@.len() - i,
    {
        if s[i] == '-' && s[i + 1] == '-' && s[i + 2] == '-' {
            return Some(i);
        }
        i = i + 1;
    }
    None
}

proof fn lemma_fence_found(s: Seq<char>, from: int)
    ensures
        fence_from(s, from) matches Some(k) ==> from <= k && k + 3 <= s.len(),
    decreases s.len() - from,
{
    if !(from < 0 || from + 3 > s.len()) && !fence_at(s, from) {
        lemma_fence_found(s, from + 1);
    }
}

fn chars_between(s: &[char], lo: usize, hi: usize) -> (r: String)
    requires
        lo <= hi <= s@.len(),
    ensures
        r@ == s@.subrange(lo as int, hi as int),
{
    let mut v: Vec<char> = Vec::new();
    let mut i = lo;
    while i < hi
        invariant
            lo <= i <= hi <= s@.len(),
            v@ == s@.subrange(lo as int, i as int),
        decreases hi - i,
    {
        v.push(s[i]);
        i = i + 1;
        assert(v@ =~= s@.subrange(lo as int, i as int));
    }
    string_of(v.as_slice())
}

/// Cuts a post's content into its header and its body.
pub fn split_header_exec(contents: &str) -> (r: Option<(String, String)>)
    ensures
        match r {
            Some((h, b)) => split_header(contents@) == Some((h@, b@)),
            None => split_header(contents@) is None,
        },
{
    let s = chars_of(contents);
    match fence_from_exec(s.as_slice(), OPENING_LEN) {
        None => None,
        Some(k) => {
            proof { lemma_fence_found(s@, OPENING_LEN as int); }
            let rest = if s.len() - k >= 4 { k + 4 } else { s.len() };
            let header = chars_between(s.as_slice(), 0, k);
            let body = chars_between(s.as_slice(), rest, s.len());
            assert(s@.subrange(0, k as int) =~= s@.take(k as int));
            assert(s@.subrange(rest as int, s@.len() as int) =~= s@.skip(rest as int));
            Some((header, body))
        },
    }
}

} // verus!
