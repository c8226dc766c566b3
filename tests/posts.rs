use blog::filename::{parse_file_name, post_url};
use blog::posts::{Post, PostError};
use blog::time::PostTime;

const SIMPLE: &str = "---\ntitle: T\nauthor: A\n---\n\nBody";

#[test]
fn file_name_round_trip() {
    let cases: [(i32, u32, u32, &str); 4] = [
        (2021, 5, 5, "hello-world.md"),
        (1999, 12, 31, "a.md"),
        (7, 1, 9, "x"),
        (2020, 10, 10, ""),
    ];
    for (y, m, d, slug) in cases {
        let name = format!("{}-{:02}-{:02}-{}", y, m, d, slug);
        let p = parse_file_name(&name).expect("well-formed name");
        assert_eq!((p.year, p.month, p.day, p.slug.as_str()), (y, m, d, slug));
    }
}

#[test]
fn file_name_with_sign_and_wide_numbers() {
    let p = parse_file_name("+2021-005-7-post.md").unwrap();
    assert_eq!((p.year, p.month, p.day, p.slug.as_str()), (2021, 5, 7, "post.md"));
}

#[test]
fn file_name_malformed() {
    assert!(parse_file_name("2021-05-05.md").is_none());
    assert!(parse_file_name("2021-05").is_none());
    assert!(parse_file_name("abcd-05-05-x.md").is_none());
    assert!(parse_file_name("2021-xx-05-x.md").is_none());
    assert!(parse_file_name("2021--05-x.md").is_none());
    assert!(parse_file_name("2021-05-99999999999-x.md").is_none());
    assert!(parse_file_name("-2021-05-05-x.md").is_none());
}

#[test]
fn url_swaps_extension() {
    assert_eq!(post_url(2021, 5, 5, "hello.md"), "2021/05/05/hello.html");
    assert_eq!(post_url(2021, 11, 25, "a.b.md"), "2021/11/25/a.b.html");
    assert_eq!(post_url(99, 1, 2, "plain"), "0099/01/02/plain.html");
    assert_eq!(post_url(2021, 1, 2, ".hidden"), "2021/01/02/.hidden.html");
    assert_eq!(post_url(2021, 1, 2, ""), "2021/01/02/");
    assert_eq!(post_url(-5, 1, 2, "n.md"), "-005/01/02/n.html");
}

#[test]
fn header_boundary() {
    let p = Post::parse("2021-05-05-first-post.md", SIMPLE).unwrap();
    assert_eq!(p.title, "T");
    assert_eq!(p.author, "A");
    assert!(p.contents.contains("Body"));
    assert_eq!(p.filename, "first-post.md");
    assert_eq!((p.year, p.month, p.day), (2021, 5, 5));
    assert_eq!(p.url, "2021/05/05/first-post.html");
    assert!(!p.show_year);
    assert_eq!(p.published, PostTime { year: 2021, month: 5, day: 5, seconds: 0 });
    assert_eq!(p.updated, p.published);
}

#[test]
fn header_not_terminated() {
    let r = Post::parse("2021-05-05-a.md", "---\ntitle: T\nauthor: A\n\nBody");
    assert_eq!(r.err(), Some(PostError::HeaderNotTerminated));
    let r = Post::parse("2021-05-05-a.md", "---");
    assert_eq!(r.err(), Some(PostError::HeaderNotTerminated));
}

#[test]
fn unknown_header_field() {
    let r = Post::parse("2021-05-05-a.md", "---\ntitle: T\nauthor: A\ndraft: true\n---\n\nBody");
    assert_eq!(r.err(), Some(PostError::HeaderDecode));
}

#[test]
fn missing_header_field() {
    let r = Post::parse("2021-05-05-a.md", "---\ntitle: T\n---\n\nBody");
    assert_eq!(r.err(), Some(PostError::HeaderDecode));
    let r = Post::parse("2021-05-05-a.md", "---\n- T\n- A\n---\n\nBody");
    assert_eq!(r.err(), Some(PostError::HeaderDecode));
}

#[test]
fn malformed_file_name_error() {
    let r = Post::parse("hello.md", SIMPLE);
    assert_eq!(r.err(), Some(PostError::MalformedFilename));
}

#[test]
fn invalid_date_error() {
    assert_eq!(Post::parse("2021-02-30-a.md", SIMPLE).err(), Some(PostError::InvalidDate));
    assert_eq!(Post::parse("2021-13-01-a.md", SIMPLE).err(), Some(PostError::InvalidDate));
    assert!(Post::parse("2020-02-29-a.md", SIMPLE).is_ok());
}

#[test]
fn markdown_extensions() {
    let text = "---\ntitle: T\nauthor: A\n---\n\n# Heading\n\n| a | b |\n|---|---|\n| 1 | 2 |\n\n<span>raw</span>\n";
    let p = Post::parse("2021-05-05-a.md", text).unwrap();
    assert!(p.contents.contains("<table>"));
    assert!(p.contents.contains("<span>raw</span>"));
    assert!(p.contents.contains("id=\"heading\""));
}

#[test]
fn set_updated_restamps() {
    let mut p = Post::parse("2021-05-05-a.md", SIMPLE).unwrap();
    p.set_updated(7);
    assert_eq!(p.updated, PostTime { year: 2021, month: 5, day: 5, seconds: 7 });
    assert_eq!(p.published.seconds, 0);
    assert_eq!(p.updated_text().unwrap(), "2021-05-05T00:00:07+00:00");
    assert_eq!(p.published_text().unwrap(), "2021-05-05T00:00:00+00:00");
}

#[test]
fn rfc3339_text() {
    let t = PostTime { year: 2020, month: 1, day: 1, seconds: 61 };
    assert_eq!(t.rfc3339().unwrap(), "2020-01-01T00:01:01+00:00");
    let bad = PostTime { year: 2020, month: 2, day: 30, seconds: 0 };
    assert!(bad.rfc3339().is_none());
}

#[test]
fn repeated_header_key() {
    let r = Post::parse("2021-05-05-a.md", "---\ntitle: T\nauthor: A\ntitle: U\n---\n\nBody");
    assert_eq!(r.err(), Some(PostError::HeaderDecode));
}

#[test]
fn file_name_with_padded_year() {
    let name = format!("{:04}-{:02}-{:02}-{}", 999, 3, 4, "my-post.md");
    assert_eq!(name, "0999-03-04-my-post.md");
    let p = parse_file_name(&name).unwrap();
    assert_eq!((p.year, p.month, p.day, p.slug.as_str()), (999, 3, 4, "my-post.md"));
}

#[test]
fn rfc3339_text_within_day() {
    let t = PostTime { year: 999, month: 3, day: 4, seconds: 3 * 3600 + 25 * 60 + 9 };
    assert_eq!(t.rfc3339().unwrap(), "0999-03-04T03:25:09+00:00");
    let day_zero = PostTime { year: 2021, month: 1, day: 0, seconds: 0 };
    assert!(day_zero.rfc3339().is_none());
    let month_13 = PostTime { year: 2021, month: 13, day: 1, seconds: 0 };
    assert!(month_13.rfc3339().is_none());
}
