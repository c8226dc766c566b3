use blog::blogs::{Blog, BlogError, Manifest};
use blog::posts::Post;

fn post(name: &str) -> Post {
    Post::parse(name, "---\ntitle: T\nauthor: A\n---\n\nBody").unwrap()
}

fn manifest() -> Manifest {
    Manifest { title: "Blog".to_string(), index_title: "Index".to_string() }
}

#[test]
fn sort_order() {
    let posts = vec![post("2020-01-01-x.md"), post("2021-05-05-a.md"), post("2021-05-05-b.md")];
    let blog = Blog::assemble(manifest(), posts);
    let names: Vec<&str> = blog.posts().iter().map(|p| p.url.as_str()).collect();
    assert_eq!(names, vec!["2021/05/05/b.html", "2021/05/05/a.html", "2020/01/01/x.html"]);
}

#[test]
fn show_year_marks() {
    let posts = vec![post("2020-01-01-x.md"), post("2021-05-05-a.md"), post("2021-05-05-b.md")];
    let blog = Blog::assemble(manifest(), posts);
    let marks: Vec<bool> = blog.posts().iter().map(|p| p.show_year).collect();
    assert_eq!(marks, vec![true, false, true]);
}

#[test]
fn timestamp_disambiguation() {
    let posts = vec![
        post("2021-05-05-a.md"),
        post("2020-01-01-a.md"),
        post("2021-05-05-c.md"),
        post("2020-01-01-b.md"),
        post("2021-05-05-b.md"),
    ];
    let blog = Blog::assemble(manifest(), posts);
    let seconds: Vec<u64> = blog.posts().iter().map(|p| p.updated.seconds).collect();
    assert_eq!(seconds, vec![0, 1, 2, 0, 1]);
    let texts: Vec<String> = blog.posts().iter().map(|p| p.updated_text().unwrap()).collect();
    assert_eq!(
        texts,
        vec![
            "2021-05-05T00:00:00+00:00",
            "2021-05-05T00:00:01+00:00",
            "2021-05-05T00:00:02+00:00",
            "2020-01-01T00:00:00+00:00",
            "2020-01-01T00:00:01+00:00",
        ]
    );
    for p in blog.posts() {
        assert_eq!(p.published.seconds, 0);
    }
}

#[test]
fn non_adjacent_duplicates_restart() {
    let mut a = post("2021-05-05-a.md");
    let mut b = post("2021-05-04-b.md");
    let c = post("2021-05-03-c.md");
    b.updated = a.updated;
    a.updated = c.updated;
    // display order: a (updated = c's), b (updated = a's first time), c
    let blog = Blog::assemble(manifest(), vec![c, b, a]);
    let seconds: Vec<u64> = blog.posts().iter().map(|p| p.updated.seconds).collect();
    assert_eq!(seconds, vec![0, 0, 0]);
}

#[test]
fn year_key_is_not_padded() {
    let posts = vec![post("999-01-01-a.md"), post("2020-01-01-b.md")];
    let blog = Blog::assemble(manifest(), posts);
    assert_eq!(blog.posts()[0].year, 999);
    assert_eq!(blog.posts()[1].year, 2020);
}

#[test]
fn empty_input() {
    let blog = Blog::assemble(manifest(), Vec::new());
    assert!(blog.posts().is_empty());
    assert_eq!(blog.title(), "Blog");
    assert_eq!(blog.index_title(), "Index");
    assert_eq!(blog.path_back_to_root(), "");
}

#[test]
fn manifest_decoding() {
    let m = Manifest::parse("title: My Blog\nindex-title: All posts\n").ok().unwrap();
    assert_eq!(m.title, "My Blog");
    assert_eq!(m.index_title, "All posts");
    assert_eq!(Manifest::parse("title: X\n").err(), Some(BlogError::ManifestDecode));
    assert_eq!(
        Manifest::parse("title: X\nindex-title: Y\nextra: Z\n").err(),
        Some(BlogError::ManifestDecode)
    );
}

#[test]
fn load_builds_blog() {
    let blog = Blog::load("title: B\nindex-title: I\n", vec![post("2021-01-01-a.md")]).ok().unwrap();
    assert_eq!(blog.title(), "B");
    assert_eq!(blog.index_title(), "I");
    assert_eq!(blog.posts().len(), 1);
    assert!(blog.posts()[0].show_year);
    assert!(Blog::load("nonsense", Vec::new()).is_err());
}
