//! The blog: its manifest and its posts in display order, with the year marks
//! and the distinct update times that presentation needs.
use vstd::prelude::*;
use crate::filename::{lemma_name_round_trip, name_of, parsed_name};
use crate::header::{decode_exact_fields, exact_fields};
use crate::posts::Post;
use crate::text::{
    chars_of, digits, lemma_between_keeps_prefix, lemma_seq_lt_irreflexive, lemma_seq_lt_total, lemma_seq_lt_transitive,
    push_signed, push_zero_padded, seq_lt, signed_decimal, zero_padded,
};
use crate::time::PostTime;

verus! {

/// Why a blog could not be loaded.
#[derive(Clone, Copy, Debug, PartialEq, Eq, Structural)]
pub enum BlogError {
    /// The manifest is not a mapping of exactly `title` and `index-title` to strings.
    ManifestDecode,
}

/// The blog-wide settings.
pub struct Manifest {
    /// Title to display in the top row.
    pub title: String,
    /// Title to use in the HTML header.
    pub index_title: String,
}

pub open spec fn manifest_title_key() -> Seq<char> {
    seq!['t', 'i', 't', 'l', 'e']
}

pub open spec fn index_title_key() -> Seq<char> {
    seq!['i', 'n', 'd', 'e', 'x', '-', 't', 'i', 't', 'l', 'e']
}

impl Manifest {
    /// Decodes a manifest: a YAML mapping of exactly `title` and `index-title`.
    pub fn parse(text: &str) -> (r: Result<Manifest, BlogError>)
        ensures
            match r {
                Ok(m) => exact_fields(text@, manifest_title_key(), index_title_key()) == Some(
                    (m.title@, m.index_title@),
                ),
                Err(e) => e == BlogError::ManifestDecode && exact_fields(
                    text@,
                    manifest_title_key(),
                    index_title_key(),
                ) is None,
            },
    {
        proof {
            reveal_strlit("title");
            reveal_strlit("index-title");
            assert("title"@ =~= manifest_title_key());
            assert("index-title"@ =~= index_title_key());
        }
        match decode_exact_fields(text, "title", "index-title") {
            Some((title, index_title)) => Ok(Manifest { title, index_title }),
            None => Err(BlogError::ManifestDecode),
        }
    }
}

/// The key that orders posts: `{year}-{month:02}-{day:02}-{slug}`.
pub open spec fn sort_key(p: Post) -> Seq<char> {
    signed_decimal(p.year as int) + seq!['-'] + zero_padded(p.month as nat, 2) + seq!['-']
        + zero_padded(p.day as nat, 2) + seq!['-'] + p.filename@
}

/// Whether the post with key `ka` at input position `ia` is shown before the one
/// with key `kb` at `ib`: keys descending, and equal keys in reverse input order.
pub open spec fn shown_before(ka: Seq<char>, ia: int, kb: Seq<char>, ib: int) -> bool {
    seq_lt(kb, ka) || (ka == kb && ia > ib)
}

/// `order` is `posts` in display order, `perm` telling where each entry came from.
pub open spec fn is_display_order(posts: Seq<Post>, order: Seq<Post>, perm: Seq<int>) -> bool {
    &&& order.len() == posts.len()
    &&& perm.len() == posts.len()
    &&& forall|i: int|
        0 <= i < order.len() ==> 0 <= #[trigger] perm[i] < posts.len() && order[i]
            == posts[perm[i]]
    &&& forall|i: int, j: int| 0 <= i < j < order.len() ==> perm[i] != perm[j]
    &&& forall|i: int, j: int|
        0 <= i < j < order.len() ==> shown_before(
            sort_key(#[trigger] order[i]),
            perm[i],
            sort_key(#[trigger] order[j]),
            perm[j],
        )
}

/// Whether the post at position `i` of the display order shows its year: the
/// first does, and each other one whose year differs from its predecessor's.
pub open spec fn shows_year(order: Seq<Post>, i: int) -> bool {
    i == 0 || order[i - 1].year != order[i].year
}

/// The position whose update time later equal times are counted from, at `i`.
pub open spec fn anchor(u: Seq<PostTime>, i: int) -> int
    decreases i,
{
    if i <= 0 {
        0
    } else {
        let a = anchor(u, i - 1);
        if u[i] == u[a] {
            a
        } else {
            i
        }
    }
}

/// The update time at position `i` once equal times are told apart: a time equal
/// to the anchor's gets as many seconds as the positions between them.
pub open spec fn restamped(u: Seq<PostTime>, i: int) -> PostTime {
    if i > 0 && u[i] == u[anchor(u, i - 1)] {
        PostTime { seconds: (i - anchor(u, i - 1)) as u64, ..u[i] }
    } else {
        u[i]
    }
}

pub open spec fn update_times(order: Seq<Post>) -> Seq<PostTime> {
    order.map_values(|p: Post| p.updated)
}

/// `q` is `p` with at most the year mark and the update time changed.
pub open spec fn same_record(p: Post, q: Post) -> bool {
    &&& q.filename == p.filename
    &&& q.title == p.title
    &&& q.author == p.author
    &&& q.year == p.year
    &&& q.month == p.month
    &&& q.day == p.day
    &&& q.contents == p.contents
    &&& q.url == p.url
    &&& q.published == p.published
}

/// `out` is the display order `order` with its year marks and update times set.
pub open spec fn is_finalized(order: Seq<Post>, out: Seq<Post>) -> bool {
    &&& out.len() == order.len()
    &&& forall|i: int|
        0 <= i < out.len() ==> {
            &&& same_record(order[i], #[trigger] out[i])
            &&& out[i].show_year == shows_year(order, i)
            &&& out[i].updated == restamped(update_times(order), i)
        }
}

/// The posts of a blog, as assembled from the posts read.
pub open spec fn is_assembled(posts: Seq<Post>, out: Seq<Post>) -> bool {
    exists|order: Seq<Post>, perm: Seq<int>|
        is_display_order(posts, order, perm) && is_finalized(order, out)
}

/// `p` was last updated at midnight starting its own date, in a year from 0 on,
/// as a post freshly read is.
pub open spec fn fresh_update_time(p: Post) -> bool {
    p.year >= 0 && p.updated == (PostTime { year: p.year, month: p.month, day: p.day, seconds: 0 })
}

proof fn lemma_anchor(u: Seq<PostTime>, i: int)
    requires
        0 <= i < u.len(),
    ensures
        0 <= anchor(u, i) <= i,
        u[anchor(u, i)] == u[i],
        forall|k: int| anchor(u, i) <= k <= i ==> u[k] == u[i],
        anchor(u, i) == 0 || u[anchor(u, i) - 1] != u[i],
    decreases i,
{
    if i > 0 {
        lemma_anchor(u, i - 1);
    }
}

proof fn lemma_restamped_fresh(u: Seq<PostTime>, i: int)
    requires
        0 <= i < u.len(),
        u[i].seconds == 0,
    ensures
        restamped(u, i) == (PostTime { seconds: (i - anchor(u, i)) as u64, ..u[i] }),
{
    if i > 0 {
        assert(anchor(u, i) == (if u[i] == u[anchor(u, i - 1)] { anchor(u, i - 1) } else { i }));
    }
}

/// The sort key of a post from year 0 on is its file name with an unpadded year.
proof fn lemma_key_is_name(p: Post)
    requires
        p.year >= 0,
    ensures
        sort_key(p) == name_of(p.year as nat, 0, p.month as nat, p.day as nat, Seq::empty())
            + p.filename@,
        sort_key(p) == name_of(p.year as nat, 0, p.month as nat, p.day as nat, p.filename@),
{
    assert(signed_decimal(p.year as int) == digits(p.year as nat));
    assert(zero_padded(p.year as nat, 0) == digits(p.year as nat));
    assert(sort_key(p) =~= name_of(p.year as nat, 0, p.month as nat, p.day as nat, Seq::empty())
        + p.filename@);
    assert(sort_key(p) =~= name_of(p.year as nat, 0, p.month as nat, p.day as nat, p.filename@));
}

/// In display order, freshly read posts of one date stand next to each other.
proof fn lemma_same_date_together(posts: Seq<Post>, order: Seq<Post>, perm: Seq<int>, p: int, q: int, r: int)
    requires
        is_display_order(posts, order, perm),
        0 <= p < q < r < order.len(),
        fresh_update_time(order[p]),
        fresh_update_time(order[q]),
        fresh_update_time(order[r]),
        order[p].updated == order[r].updated,
    ensures
        order[q].updated == order[p].updated,
{
    let a = order[p];
    let b = order[r];
    let c = order[q];
    let (ka, kb, kc) = (sort_key(a), sort_key(b), sort_key(c));
    assert(shown_before(ka, perm[p], kc, perm[q]));
    assert(shown_before(kc, perm[q], kb, perm[r]));
    lemma_seq_lt_total(ka, kc);
    lemma_seq_lt_irreflexive(ka);
    lemma_seq_lt_total(kc, kb);
    lemma_seq_lt_irreflexive(kc);
    let pre = name_of(a.year as nat, 0, a.month as nat, a.day as nat, Seq::empty());
    lemma_key_is_name(a);
    lemma_key_is_name(b);
    lemma_key_is_name(c);
    assert(ka.take(pre.len() as int) =~= pre);
    assert(kb.take(pre.len() as int) =~= pre);
    lemma_between_keeps_prefix(pre, ka, kb, kc);
    let rest = kc.skip(pre.len() as int);
    assert(kc =~= pre + rest);
    assert(pre + rest =~= name_of(a.year as nat, 0, a.month as nat, a.day as nat, rest));
    lemma_name_round_trip(a.year, 0, a.month, a.day, rest);
    lemma_name_round_trip(c.year, 0, c.month, c.day, c.filename@);
}

/// Within one blog no two posts share an update time, when the posts were
/// assembled freshly read: each last updated at midnight starting its own date,
/// in a year from 0 on.
pub proof fn lemma_update_times_distinct(posts: Seq<Post>, out: Seq<Post>)
    requires
        is_assembled(posts, out),
        posts.len() <= usize::MAX,
        forall|i: int| 0 <= i < posts.len() ==> fresh_update_time(#[trigger] posts[i]),
    ensures
        forall|i: int, j: int|
            0 <= i < j < out.len() ==> (#[trigger] out[i]).updated != (#[trigger] out[j]).updated,
{
    let (order, perm) = choose|order: Seq<Post>, perm: Seq<int>|
        is_display_order(posts, order, perm) && is_finalized(order, out);
    let u = update_times(order);
    assert forall|i: int| 0 <= i < order.len() implies fresh_update_time(#[trigger] order[i])
        && u[i] == order[i].updated by {
        assert(order[i] == posts[perm[i]]);
    }
    assert forall|i: int, j: int| 0 <= i < j < out.len() implies (#[trigger] out[i]).updated
        != (#[trigger] out[j]).updated by {
        assert(fresh_update_time(order[i]) && u[i] == order[i].updated);
        assert(fresh_update_time(order[j]) && u[j] == order[j].updated);
        lemma_anchor(u, i);
        lemma_anchor(u, j);
        lemma_restamped_fresh(u, i);
        lemma_restamped_fresh(u, j);
        let ai = anchor(u, i);
        let aj = anchor(u, j);
        assert(out[i].updated == restamped(u, i));
        assert(out[j].updated == restamped(u, j));
        if out[i].updated == out[j].updated {
            assert(u[i] == u[j]);
            if ai < aj {
                if aj - 1 <= i {
                    assert(u[aj - 1] == u[i]);
                } else {
                    assert(fresh_update_time(order[aj - 1]) && u[aj - 1] == order[aj - 1].updated);
                    lemma_same_date_together(posts, order, perm, i, aj - 1, j);
                }
            } else if aj < ai {
                assert(u[ai - 1] == u[j]);
            }
            assert(ai == aj);
            assert((i - ai) as u64 != (j - aj) as u64);
        }
    }
}

/// A blog, ready to be rendered.
pub struct Blog {
    title: String,
    index_title: String,
    posts: Vec<Post>,
}

impl Blog {
    pub closed spec fn title_view(&self) -> Seq<char> {
        self.title@
    }

    pub closed spec fn index_title_view(&self) -> Seq<char> {
        self.index_title@
    }

    pub closed spec fn posts_view(&self) -> Seq<Post> {
        self.posts@
    }
}

fn key_of(p: &Post) -> (r: Vec<char>)
    ensures
        r@ == sort_key(*p),
{
    let mut k: Vec<char> = Vec::new();
    push_signed(&mut k, p.year as i64);
    k.push('-');
    push_zero_padded(&mut k, p.month as u64, 2);
    k.push('-');
    push_zero_padded(&mut k, p.day as u64, 2);
    k.push('-');
    let mut slug = chars_of(p.filename.as_str());
    k.append(&mut slug);
    assert(k@ =~= sort_key(*p));
    k
}

fn seq_less(a: &Vec<char>, b: &Vec<char>) -> (r: bool)
    ensures
        r == seq_lt(a@, b@),
{
    let mut i: usize = 0;
    assert(a@.skip(0) =~= a@);
    assert(b@.skip(0) =~= b@);
    while i < a.len() && i < b.len()
        invariant
            i <= a@.len(),
            i <= b@.len(),
            seq_lt(a@, b@) == seq_lt(a@.skip(i as int), b@.skip(i as int)),
        decreases a@.len() - i,
    {
        assert(a@.skip(i as int)[0] == a@[i as int]);
        assert(b@.skip(i as int)[0] == b@[i as int]);
        if a[i] != b[i] {
            return a[i] < b[i];
        }
        assert(a@.skip(i as int).drop_first() =~= a@.skip(i + 1));
        assert(b@.skip(i as int).drop_first() =~= b@.skip(i + 1));
        i = i + 1;
    }
    i == a.len() && i < b.len()
}

proof fn lemma_shown_before_transitive(
    ka: Seq<char>,
    ia: int,
    kb: Seq<char>,
    ib: int,
    kc: Seq<char>,
    ic: int,
)
    requires
        shown_before(ka, ia, kb, ib),
        shown_before(kb, ib, kc, ic),
    ensures
        shown_before(ka, ia, kc, ic),
{
    if seq_lt(kb, ka) && seq_lt(kc, kb) {
        lemma_seq_lt_transitive(kc, kb, ka);
    }
}

proof fn lemma_shown_before_total(ka: Seq<char>, ia: int, kb: Seq<char>, ib: int)
    requires
        ia != ib,
    ensures
        shown_before(ka, ia, kb, ib) || shown_before(kb, ib, ka, ia),
        !(shown_before(ka, ia, kb, ib) && shown_before(kb, ib, ka, ia)),
{
    lemma_seq_lt_total(ka, kb);
    lemma_seq_lt_irreflexive(ka);
}

fn shown_before_exec(ka: &Vec<char>, ia: usize, kb: &Vec<char>, ib: usize) -> (r: bool)
    ensures
        r == shown_before(ka@, ia as int, kb@, ib as int),
{
    let lt_ba = seq_less(kb, ka);
    let lt_ab = seq_less(ka, kb);
    proof {
        lemma_seq_lt_total(ka@, kb@);
    }
    lt_ba || (!lt_ab && !lt_ba && ia > ib)
}

/// Puts the posts in display order.
fn display_order(posts: Vec<Post>) -> (r: (Vec<Post>, Ghost<Seq<int>>))
    ensures
        is_display_order(posts@, r.0@, r.1@),
{
    let ghost orig = posts@;
    let n = posts.len();
    let mut rest = posts;
    let mut out: Vec<Post> = Vec::new();
    let mut keys: Vec<Vec<char>> = Vec::new();
    let mut idx: Vec<usize> = Vec::new();
    while rest.len() > 0
        invariant
            n == orig.len(),
            rest@ == orig.take(rest@.len() as int),
            out@.len() == keys@.len() == idx@.len(),
            out@.len() + rest@.len() == n,
            forall|i: int|
                0 <= i < out@.len() ==> rest@.len() <= #[trigger] idx@[i] < n && out@[i]
                    == orig[idx@[i] as int] && keys@[i]@ == sort_key(out@[i]),
            forall|i: int, j: int| 0 <= i < j < out@.len() ==> idx@[i] != idx@[j],
            forall|i: int, j: int|
                0 <= i < j < out@.len() ==> shown_before(
                    sort_key(#[trigger] out@[i]),
                    idx@[i] as int,
                    sort_key(#[trigger] out@[j]),
                    idx@[j] as int,
                ),
        decreases rest@.len(),
    {
        let ghost old_out = out@;
        let ghost old_idx = idx@;
        let ghost old_keys = keys@;
        let x = rest.pop().unwrap();
        let xi = rest.len();
        assert(x == orig[xi as int]);
        assert(rest@ =~= orig.take(rest@.len() as int));
        let xk = key_of(&x);
        assert forall|i: int| 0 <= i < out@.len() implies #[trigger] keys@[i]@ == sort_key(
            out@[i],
        ) by {
            assert(idx@[i] < n);
        }
        let mut k: usize = 0;
        while k < out.len() && !shown_before_exec(&xk, xi, &keys[k], idx[k])
            invariant
                k <= out@.len() == keys@.len() == idx@.len(),
                out@ == old_out,
                idx@ == old_idx,
                keys@ == old_keys,
                forall|i: int| 0 <= i < out@.len() ==> #[trigger] keys@[i]@ == sort_key(out@[i]),
                forall|m: int|
                    0 <= m < k ==> !shown_before(
                        xk@,
                        xi as int,
                        sort_key(#[trigger] out@[m]),
                        idx@[m] as int,
                    ),
            decreases out@.len() - k,
        {
            k = k + 1;
        }
        proof {
            assert forall|m: int| 0 <= m < old_out.len() implies idx@[m] != xi by {}
            assert forall|m: int| 0 <= m < k implies shown_before(
                sort_key(#[trigger] old_out[m]),
                old_idx[m] as int,
                xk@,
                xi as int,
            ) by {
                lemma_shown_before_total(xk@, xi as int, sort_key(old_out[m]), old_idx[m] as int);
            }
            assert forall|m: int| k <= m < old_out.len() implies shown_before(
                xk@,
                xi as int,
                sort_key(#[trigger] old_out[m]),
                old_idx[m] as int,
            ) by {
                if m > k {
                    lemma_shown_before_transitive(
                        xk@,
                        xi as int,
                        sort_key(old_out[k as int]),
                        old_idx[k as int] as int,
                        sort_key(old_out[m]),
                        old_idx[m] as int,
                    );
                }
            }
        }
        out.insert(k, x);
        keys.insert(k, xk);
        idx.insert(k, xi);
        proof {
            assert forall|i: int| 0 <= i < out@.len() implies #[trigger] out@[i] == (if i < k {
                old_out[i]
            } else if i == k {
                x
            } else {
                old_out[i - 1]
            }) && idx@[i] == (if i < k {
                old_idx[i]
            } else if i == k {
                xi
            } else {
                old_idx[i - 1]
            }) && keys@[i] == (if i < k {
                old_keys[i]
            } else if i == k {
                xk
            } else {
                old_keys[i - 1]
            }) by {}
            assert forall|i: int, j: int| 0 <= i < j < out@.len() implies shown_before(
                sort_key(#[trigger] out@[i]),
                idx@[i] as int,
                sort_key(#[trigger] out@[j]),
                idx@[j] as int,
            ) by {
                if i < k && j > k {
                    lemma_shown_before_transitive(
                        sort_key(old_out[i]),
                        old_idx[i] as int,
                        xk@,
                        xi as int,
                        sort_key(old_out[j - 1]),
                        old_idx[j - 1] as int,
                    );
                }
            }
        }
    }
    let ghost perm = idx@.map_values(|v: usize| v as int);
    proof {
        assert(rest@.len() == 0);
    }
    (out, Ghost(perm))
}

impl Blog {
    /// Assembles a blog from its manifest and the posts read: the posts in
    /// display order, each marked when it shows its year, and update times that
    /// are equal re-stamped so that they differ.
    pub fn assemble(manifest: Manifest, posts: Vec<Post>) -> (r: Blog)
        ensures
            r.title_view() == manifest.title@,
            r.index_title_view() == manifest.index_title@,
            is_assembled(posts@, r.posts_view()),
    {
        let (mut out, Ghost(perm)) = display_order(posts);
        let ghost order = out@;
        let ghost u = update_times(order);
        let n = out.len();
        // Year marks.
        let mut i: usize = 0;
        while i < n
            invariant
                n == out@.len() == order.len(),
                i <= n,
                forall|j: int|
                    0 <= j < n ==> same_record(order[j], #[trigger] out@[j]) && out@[j].updated
                        == order[j].updated,
                forall|j: int| 0 <= j < i ==> #[trigger] out@[j].show_year == shows_year(order, j),
            decreases n - i,
        {
            let shows = i == 0 || out[i - 1].year != out[i].year;
            out[i].show_year = shows;
            i = i + 1;
        }
        // Update times.
        if n > 0 {
            let mut a: usize = 0;
            let mut i: usize = 1;
            while i < n
                invariant
                    n == out@.len() == order.len() == u.len(),
                    u == update_times(order),
                    1 <= i <= n,
                    a < i,
                    a as int == anchor(u, i - 1),
                    out@[a as int].updated == u[a as int],
                    forall|j: int|
                        0 <= j < n ==> same_record(order[j], #[trigger] out@[j])
                            && out@[j].show_year == shows_year(order, j),
                    forall|j: int| 0 <= j < i ==> #[trigger] out@[j].updated == restamped(u, j),
                    forall|j: int| i <= j < n ==> #[trigger] out@[j].updated == u[j],
                decreases n - i,
            {
                if out[i].updated == out[a].updated {
                    let t = out[i].updated;
                    out[i].updated = PostTime { seconds: (i - a) as u64, ..t };
                } else {
                    a = i;
                }
                i = i + 1;
            }
            proof {
                assert(restamped(u, 0) == u[0]);
            }
        }
        assert(is_finalized(order, out@));
        Blog { title: manifest.title, index_title: manifest.index_title, posts: out }
    }

    /// Loads a blog from the text of its manifest and the posts read.
    pub fn load(manifest_text: &str, posts: Vec<Post>) -> (r: Result<Blog, BlogError>)
        ensures
            match r {
                Ok(b) => {
                    &&& exact_fields(manifest_text@, manifest_title_key(), index_title_key())
                        == Some((b.title_view(), b.index_title_view()))
                    &&& is_assembled(posts@, b.posts_view())
                },
                Err(e) => e == BlogError::ManifestDecode && exact_fields(
                    manifest_text@,
                    manifest_title_key(),
                    index_title_key(),
                ) is None,
            },
    {
        let manifest = Manifest::parse(manifest_text)?;
        Ok(Blog::assemble(manifest, posts))
    }

    /// Title to display in the top row.
    pub fn title(&self) -> (r: &str)
        ensures
            r@ == self.title_view(),
    {
        self.title.as_str()
    }

    /// Title to use in the HTML header.
    pub fn index_title(&self) -> (r: &str)
        ensures
            r@ == self.index_title_view(),
    {
        self.index_title.as_str()
    }

    /// The path from a rendered index back to the site's root: the root itself.
    pub fn path_back_to_root(&self) -> (r: String)
        ensures
            r@ == Seq::<char>::empty(),
    {
        String::new()
    }

    /// The posts, in display order.
    pub fn posts(&self) -> (r: &[Post])
        ensures
            r@ == self.posts_view(),
    {
        self.posts.as_slice()
    }
}

} // verus!
