use vimwiki_rename_link::location::AbsolutePath;
use vimwiki_rename_link::wiki::Wiki;

fn books_wiki() -> Wiki {
    Wiki::new(
        AbsolutePath::new("/dropbox/vimwiki"),
        AbsolutePath::new("/dropbox/vimwiki/books/note.md"),
    )
}

#[test]
fn it_replace_diary_links() {
    let wiki = books_wiki();
    let content = r#"
        Here is a [diary](diary:2010-01-01).
        "#;
    assert_eq!(
        wiki.replace_links(
            content,
            &AbsolutePath::new("/dropbox/vimwiki/diary/2010-01-01.md"),
            &AbsolutePath::new("/dropbox/vimwiki/diary/2020-02-02.md")
        ),
        r#"
        Here is a [diary](diary:2020-02-02).
        "#
    );
}

#[test]
fn it_replace_diary_links_to_non_dairy() {
    let wiki = books_wiki();
    let content = r#"
        Here is a [diary](diary:2010-01-01).
        "#;
    assert_eq!(
        wiki.replace_links(
            content,
            &AbsolutePath::new("/dropbox/vimwiki/diary/2010-01-01.md"),
            &AbsolutePath::new("/dropbox/vimwiki/non-dairy.md")
        ),
        r#"
        Here is a [diary](../non-dairy).
        "#
    );
}

#[test]
fn it_replace_absolute_link() {
    let wiki = books_wiki();
    let content = r#"
        Here is a [absolute to root](/link).
        "#;
    assert_eq!(
        wiki.replace_links(
            content,
            &AbsolutePath::new("/dropbox/vimwiki/link.md"),
            &AbsolutePath::new("/dropbox/vimwiki/renamed.md")
        ),
        r#"
        Here is a [absolute to root](../renamed).
        "#
    );
}

#[test]
fn it_replace_all_matched_links() {
    let wiki = books_wiki();
    let content = r#"
        - [local link relative link](local:./link).
        - [file link](file:link).
        - [reserve link](other)
        - [[link | default wiki link]]
        - {{ link | transclusion link }}
        "#;
    assert_eq!(
        wiki.replace_links(
            content,
            &AbsolutePath::new("/dropbox/vimwiki/books/link.md"),
            &AbsolutePath::new("/dropbox/vimwiki/books/renamed.md")
        ),
        r#"
        - [local link relative link](local:renamed).
        - [file link](file:renamed).
        - [reserve link](other)
        - [[renamed | default wiki link]]
        - {{ renamed | transclusion link }}
        "#
    );
}

#[test]
fn it_leaves_unrelated_text_unchanged() {
    let wiki = books_wiki();
    let content = r#"
        No link here resolves to the renamed file.
        - [unrelated](other)
        - [[another]]
        - {{third}}
        "#;
    assert_eq!(
        wiki.replace_links(
            content,
            &AbsolutePath::new("/dropbox/vimwiki/books/link.md"),
            &AbsolutePath::new("/dropbox/vimwiki/books/renamed.md")
        ),
        content
    );
}

#[test]
fn it_is_stable_under_noop_rename() {
    let wiki = books_wiki();
    let content = r#"
        Here is a [link](link) and [[link]].
        "#;
    assert_eq!(
        wiki.replace_links(
            content,
            &AbsolutePath::new("/dropbox/vimwiki/books/link.md"),
            &AbsolutePath::new("/dropbox/vimwiki/books/link.md")
        ),
        content
    );
}

#[test]
fn it_inserts_space_before_pipe_led_description() {
    let wiki = books_wiki();
    let content = "[[link|description]]";
    assert_eq!(
        wiki.replace_links(
            content,
            &AbsolutePath::new("/dropbox/vimwiki/books/link.md"),
            &AbsolutePath::new("/dropbox/vimwiki/books/renamed.md")
        ),
        "[[renamed |description]]"
    );
}

#[test]
fn it_preserves_anchor_text_on_rewrite() {
    let wiki = books_wiki();
    let content = "[see](link#section) and [[link#section]]";
    assert_eq!(
        wiki.replace_links(
            content,
            &AbsolutePath::new("/dropbox/vimwiki/books/link.md"),
            &AbsolutePath::new("/dropbox/vimwiki/books/renamed.md")
        ),
        "[see](renamed#section) and [[renamed#section]]"
    );
}

#[test]
fn it_retargets_diary_links_from_any_document() {
    let wiki = Wiki::new(
        AbsolutePath::new("/dropbox/vimwiki"),
        AbsolutePath::new("/dropbox/vimwiki/deep/nested/page.md"),
    );
    let content = "[diary](diary:2010-01-01)";
    assert_eq!(
        wiki.replace_links(
            content,
            &AbsolutePath::new("/dropbox/vimwiki/diary/2010-01-01.md"),
            &AbsolutePath::new("/dropbox/vimwiki/diary/2020-02-02.md")
        ),
        "[diary](diary:2020-02-02)"
    );
}

#[test]
fn it_matches_links_with_and_without_extension() {
    assert!(AbsolutePath::new("/root/note") == AbsolutePath::new("/root/note.md"));
    assert!(AbsolutePath::new("/root/note.md") == AbsolutePath::new("/root/note"));
    assert!(AbsolutePath::new("/root/note") != AbsolutePath::new("/root/notebook.md"));
    assert!(AbsolutePath::new("/root/note.md") != AbsolutePath::new("/root/notebook.md"));
    assert!(AbsolutePath::new("/root/note.md") != AbsolutePath::new("/root/note.txt"));
}

#[test]
fn it_normalizes_paths_on_construction() {
    let p = AbsolutePath::new("/a/b/../c/./d//e");
    assert_eq!(p.get_path(), "/a/c/d/e");
    let root = AbsolutePath::new("/..");
    assert_eq!(root.get_path(), "/");
}

#[test]
fn it_reports_the_diary_area() {
    assert!(AbsolutePath::new("/w/diary/2020-02-02.md").is_in_diary());
    assert!(!AbsolutePath::new("/w/pages/note.md").is_in_diary());
    assert!(!AbsolutePath::new("/diary").is_in_diary());
}

#[test]
fn it_strips_extension_from_file_name() {
    let p = AbsolutePath::new("/w/diary/2020-02-02.md");
    assert_eq!(p.get_file_name().unwrap(), "2020-02-02");
    let root = AbsolutePath::new("/");
    assert!(root.get_file_name().is_none());
}

#[test]
fn it_computes_relative_paths() {
    let wiki = books_wiki();
    let rel = wiki
        .get_relative_path(&AbsolutePath::new("/dropbox/vimwiki/other/thing.md"))
        .unwrap();
    assert_eq!(rel, "../other/thing");
    let rel = wiki
        .get_relative_path(&AbsolutePath::new("/dropbox/vimwiki/books/thing.md"))
        .unwrap();
    assert_eq!(rel, "thing");
}

#[test]
fn it_normalizes_diary_targets_to_diary_form() {
    let wiki = Wiki::new(
        AbsolutePath::new("/dropbox/vimwiki"),
        AbsolutePath::new("/dropbox/vimwiki/a.md"),
    );
    let content = "[x](/pages/note) and [[file:pages/note]]";
    assert_eq!(
        wiki.replace_links(
            content,
            &AbsolutePath::new("/dropbox/vimwiki/pages/note.md"),
            &AbsolutePath::new("/dropbox/vimwiki/diary/2020-02-02.md")
        ),
        "[x](diary:2020-02-02) and [[diary:2020-02-02]]"
    );
}

#[test]
fn it_leaves_link_unchanged_when_no_relative_path() {
    let wiki = books_wiki();
    let from = AbsolutePath::new("/dropbox/vimwiki/...");
    let to = AbsolutePath::new("/dropbox/vimwiki/...");
    let content = "[[/...]]";
    assert_eq!(wiki.replace_links(content, &from, &to), content);
    let padded = "[[ /... ]]";
    assert_eq!(wiki.replace_links(padded, &from, &to), padded);
    let piped = "[[/...|d]]";
    assert_eq!(wiki.replace_links(piped, &from, &to), piped);
}

#[test]
fn it_never_rewrites_empty_paths_even_when_directory_matches() {
    let wiki = books_wiki();
    let content = "[[ ]] and {{ }}";
    assert_eq!(
        wiki.replace_links(
            content,
            &AbsolutePath::new("/dropbox/vimwiki/books.md"),
            &AbsolutePath::new("/dropbox/vimwiki/elsewhere.md")
        ),
        content
    );
}

#[test]
fn it_trims_unicode_whitespace_around_paths() {
    let wiki = books_wiki();
    let from = AbsolutePath::new("/dropbox/vimwiki/books/link.md");
    let to = AbsolutePath::new("/dropbox/vimwiki/books/renamed.md");
    assert_eq!(
        wiki.replace_links("[x](\u{a0}link\u{a0})", &from, &to),
        "[x](renamed)"
    );
    assert_eq!(
        wiki.replace_links("[[\u{2009}link]]", &from, &to),
        "[[\u{2009}renamed]]"
    );
}

#[test]
fn it_rewrites_empty_trimmed_paths_never() {
    let wiki = books_wiki();
    let content = "[[ ]] and {{  }}";
    assert_eq!(
        wiki.replace_links(
            content,
            &AbsolutePath::new("/dropbox/vimwiki/books/link.md"),
            &AbsolutePath::new("/dropbox/vimwiki/books/renamed.md")
        ),
        content
    );
}
