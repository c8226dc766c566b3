//! A blog post: parsed from its file name and content.
use vstd::prelude::*;
use crate::filename::{parse_file_name, parsed_name, post_url, url_of};
use crate::header::{decode_exact_fields, exact_fields, split_header, split_header_exec};
use crate::time::{calendar_date, date_exists, day_time_text, PostTime};

verus! {

/// Why a post could not be read.
#[derive(Clone, Copy, Debug, PartialEq, Eq, Structural)]
pub enum PostError {
    /// The file name is not `YYYY-MM-DD-<slug>` with three numbers.
    MalformedFilename,
    /// No `---` closes the header.
    HeaderNotTerminated,
    /// The header is not a mapping of exactly `title` and `author` to strings.
    HeaderDecode,
    /// The file name's date is not a day of the calendar.
    InvalidDate,
}

/// The HTML that comrak makes of a Markdown text, with raw HTML passed through,
/// heading anchors, footnotes and tables enabled.
pub uninterp spec fn markdown_html(md: Seq<char>) -> Seq<char>;

/// Relies on `comrak::markdown_to_html`: its output depends on the text and the options alone.
#[verifier::external_body]
fn render_markdown(md: &str) -> (r: String)
    ensures
        r@ == markdown_html(md@),
{
    let mut options = comrak::ComrakOptions::default();
    options.render.unsafe_ = true;
    options.extension.header_ids = Some(String::new());
    options.extension.footnotes = true;
    options.extension.table = true;
    comrak::markdown_to_html(md, &options)
}

pub open spec fn title_key() -> Seq<char> {
    seq!['t', 'i', 't', 'l', 'e']
}

pub open spec fn author_key() -> Seq<char> {
    seq!['a', 'u', 't', 'h', 'o', 'r']
}

/// The error that reading a post with this file name and content meets first, if any.
pub open spec fn parse_error(name: Seq<char>, contents: Seq<char>) -> Option<PostError> {
    match parsed_name(name) {
        None => Some(PostError::MalformedFilename),
        Some((year, month, day, _)) => match split_header(contents) {
            None => Some(PostError::HeaderNotTerminated),
            Some((header, _)) => match exact_fields(header, title_key(), author_key()) {
                None => Some(PostError::HeaderDecode),
                Some(_) => if calendar_date(year, month, day) {
                    None
                } else {
                    Some(PostError::InvalidDate)
                },
            },
        },
    }
}

/// A post as it is read from one file.
#[derive(Clone, Debug)]
pub struct Post {
    /// The slug: what follows the date in the file name, extension included.
    pub filename: String,
    pub title: String,
    pub author: String,
    pub year: i32,
    pub show_year: bool,
    pub month: u32,
    pub day: u32,
    /// The body, rendered to HTML.
    pub contents: String,
    pub url: String,
    pub published: PostTime,
    pub updated: PostTime,
}

/// Whether `p` is the post read from a file with this name and content.
pub open spec fn is_post_of(p: Post, name: Seq<char>, contents: Seq<char>) -> bool {
    match (parsed_name(name), split_header(contents)) {
        (Some((year, month, day, slug)), Some((header, body))) => match exact_fields(
            header,
            title_key(),
            author_key(),
        ) {
            Some((title, author)) => {
                &&& p.filename@ == slug
                &&& p.title@ == title
                &&& p.author@ == author
                &&& p.year == year
                &&& p.month == month
                &&& p.day == day
                &&& !p.show_year
                &&& p.contents@ == markdown_html(body)
                &&& p.url@ == url_of(year, month, day, slug)
                &&& p.published == PostTime { year, month, day, seconds: 0 }
                &&& p.updated == p.published
            },
            None => false,
        },
        _ => false,
    }
}

impl Post {
    /// Reads a post from its file name and its content.
    pub fn parse(file_name: &str, contents: &str) -> (r: Result<Post, PostError>)
        ensures
            match r {
                Ok(p) => parse_error(file_name@, contents@) is None && is_post_of(
                    p,
                    file_name@,
                    contents@,
                ),
                Err(e) => parse_error(file_name@, contents@) == Some(e),
            },
    {
        let name = match parse_file_name(file_name) {
            Some(n) => n,
            None => return Err(PostError::MalformedFilename),
        };
        let (header, body) = match split_header_exec(contents) {
            Some(parts) => parts,
            None => return Err(PostError::HeaderNotTerminated),
        };
        proof {
            reveal_strlit("title");
            reveal_strlit("author");
            assert("title"@ =~= title_key());
            assert("author"@ =~= author_key());
        }
        let (title, author) = match decode_exact_fields(header.as_str(), "title", "author") {
            Some(fields) => fields,
            None => return Err(PostError::HeaderDecode),
        };
        if !date_exists(name.year, name.month, name.day) {
            return Err(PostError::InvalidDate);
        }
        let html = render_markdown(body.as_str());
        let url = post_url(name.year, name.month, name.day, name.slug.as_str());
        let published = PostTime::midnight(name.year, name.month, name.day);
        Ok(Post {
            filename: name.slug,
            title,
            author,
            year: name.year,
            show_year: false,
            month: name.month,
            day: name.day,
            contents: html,
            url,
            published,
            updated: published,
        })
    }

    /// Sets the updated time to `seconds` after midnight of the post's date.
    pub fn set_updated(&mut self, seconds: u32)
        ensures
            final(self).updated == (PostTime {
                year: old(self).year,
                month: old(self).month,
                day: old(self).day,
                seconds: seconds as u64,
            }),
            final(self).filename == old(self).filename,
            final(self).title == old(self).title,
            final(self).author == old(self).author,
            final(self).year == old(self).year,
            final(self).show_year == old(self).show_year,
            final(self).month == old(self).month,
            final(self).day == old(self).day,
            final(self).contents == old(self).contents,
            final(self).url == old(self).url,
            final(self).published == old(self).published,
    {
        self.updated = PostTime { year: self.year, month: self.month, day: self.day, seconds: seconds as u64 };
    }

    /// The publication time as RFC 3339 text.
    pub fn published_text(&self) -> (r: Option<String>)
        ensures
            r matches Some(s) ==> s@ == crate::time::rfc3339_at(
                self.published.year,
                self.published.month,
                self.published.day,
                self.published.seconds,
            ),
            calendar_date(self.published.year, self.published.month, self.published.day)
                && self.published.seconds < 86400 ==> r is Some,
            !calendar_date(self.published.year, self.published.month, self.published.day) ==> r is None,
            calendar_date(self.published.year, self.published.month, self.published.day) && 0 <= self.published.year
                <= 9999 && self.published.seconds < 86400 ==> (r matches Some(s) && s@ == day_time_text(
                self.published.year as nat,
                self.published.month as nat,
                self.published.day as nat,
                self.published.seconds as nat,
            )),
    {
        self.published.rfc3339()
    }

    /// The time of the last update as RFC 3339 text.
    pub fn updated_text(&self) -> (r: Option<String>)
        ensures
            r matches Some(s) ==> s@ == crate::time::rfc3339_at(
                self.updated.year,
                self.updated.month,
                self.updated.day,
                self.updated.seconds,
            ),
            calendar_date(self.updated.year, self.updated.month, self.updated.day)
                && self.updated.seconds < 86400 ==> r is Some,
            !calendar_date(self.updated.year, self.updated.month, self.updated.day) ==> r is None,
            calendar_date(self.updated.year, self.updated.month, self.updated.day) && 0 <= self.updated.year
                <= 9999 && self.updated.seconds < 86400 ==> (r matches Some(s) && s@ == day_time_text(
                self.updated.year as nat,
                self.updated.month as nat,
                self.updated.day as nat,
                self.updated.seconds as nat,
            )),
    {
        self.updated.rfc3339()
    }
}

} // verus!
