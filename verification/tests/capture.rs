use vimwiki_rename_link::link::{find_link, LinkPrefix, Notation};

#[test]
fn it_capture_plain_link() {
    let cap = find_link("[[This is a link]]", 0, Notation::WikiLink).unwrap();
    assert_eq!(
        format!("{}{}{}", cap.left, cap.path, cap.right),
        "[[This is a link]]"
    );
    assert_eq!(cap.path, "This is a link");
}

#[test]
fn it_capture_plain_link_with_prefix() {
    let cap = find_link("[[diary:This is a link]]", 0, Notation::WikiLink).unwrap();
    assert_eq!(cap.path, "This is a link");
    assert_eq!(cap.prefix.unwrap().text(), "diary");

    let cap = find_link("[[file:This is a link]]", 0, Notation::WikiLink).unwrap();
    assert_eq!(cap.path, "This is a link");
    assert_eq!(cap.prefix.unwrap().text(), "file");

    let cap = find_link("[[local:This is a link]]", 0, Notation::WikiLink).unwrap();
    assert_eq!(cap.path, "This is a link");
    assert_eq!(cap.prefix.unwrap().text(), "local");
}

#[test]
fn it_capture_plain_link_with_description() {
    let cap = find_link("[[This is a link|Description of the link]]", 0, Notation::WikiLink)
        .unwrap();
    assert_eq!(cap.path, "This is a link");
}

#[test]
fn it_capture_transclusion_link() {
    let cap = find_link(
        "{{file:../../images/vimwiki_logo.png}}",
        0,
        Notation::Transclusion,
    )
    .unwrap();
    assert_eq!(cap.path, "../../images/vimwiki_logo.png");
    assert_eq!(cap.prefix, Some(LinkPrefix::File));
}

#[test]
fn it_capture_transclusion_link_complex() {
    let cap = find_link(
        r#"{{http://.../vimwiki_logo.png|cool stuff|style="width:150px;height:120px;"}}"#,
        0,
        Notation::Transclusion,
    )
    .unwrap();
    assert_eq!(cap.path, "http://.../vimwiki_logo.png");
}

#[test]
fn it_capture_markdown_link() {
    let cap = find_link("[Looks like this](URL)", 0, Notation::Markdown).unwrap();
    assert_eq!(cap.path, "URL");
    assert!(cap.prefix.is_none());

    let cap = find_link("[Looks like this](diary:URL)", 0, Notation::Markdown).unwrap();
    assert_eq!(cap.path, "URL");
    assert_eq!(cap.prefix.unwrap().text(), "diary");

    let cap = find_link("[Looks like this](file:URL)", 0, Notation::Markdown).unwrap();
    assert_eq!(cap.path, "URL");
    assert_eq!(cap.prefix.unwrap().text(), "file");

    let cap = find_link("[Looks like this](local:URL)", 0, Notation::Markdown).unwrap();
    assert_eq!(cap.path, "URL");
    assert_eq!(cap.prefix.unwrap().text(), "local");
}

#[test]
fn it_capture_wiki_link_with_anchors() {
    let cap = find_link("[[This is a link#Tommorrow]]", 0, Notation::WikiLink).unwrap();
    assert_eq!(cap.path, "This is a link");
}

#[test]
fn it_capture_markdown_link_with_anchors() {
    let cap = find_link("[Looks like this](URL#anchor)", 0, Notation::Markdown).unwrap();
    assert_eq!(cap.path, "URL");
}

#[test]
fn it_capture_keeps_delimiters_verbatim() {
    let cap = find_link("{{ link | transclusion link }}", 0, Notation::Transclusion).unwrap();
    assert_eq!(cap.left, "{{ ");
    assert_eq!(cap.path, "link ");
    assert_eq!(cap.right, "| transclusion link }}");
    assert_eq!(cap.start, 0);
    assert_eq!(cap.end, 30);
}

#[test]
fn it_capture_finds_leftmost_match_only_from_start() {
    let text = "plain text [[one]] and [[two]]";
    let cap = find_link(text, 0, Notation::WikiLink).unwrap();
    assert_eq!(cap.path, "one");
    let cap2 = find_link(text, cap.end, Notation::WikiLink).unwrap();
    assert_eq!(cap2.path, "two");
    assert!(find_link(text, cap2.end, Notation::WikiLink).is_none());
}

#[test]
fn it_capture_reports_no_match_without_closer() {
    assert!(find_link("[[unclosed", 0, Notation::WikiLink).is_none());
    assert!(find_link("[text](unclosed", 0, Notation::Markdown).is_none());
    assert!(find_link("{{unclosed", 0, Notation::Transclusion).is_none());
}
