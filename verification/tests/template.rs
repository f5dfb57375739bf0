use termrec::template::template_name;

#[test]
fn template_names_drop_the_extension() {
    assert_eq!(template_name("markdown.jinja"), "markdown");
    assert_eq!(template_name("custom.txt"), "custom");
    assert_eq!(template_name("archive.tar.gz"), "archive.tar");
    assert_eq!(template_name("plain"), "plain");
    assert_eq!(template_name(".hidden"), ".hidden");
    assert_eq!(template_name("trailing."), "trailing");
}

#[test]
fn names_without_a_file_are_unknown() {
    assert_eq!(template_name(""), "<Unknown>");
    assert_eq!(template_name(".."), "<Unknown>");
    assert_eq!(template_name("..x"), "<Unknown>");
    assert_eq!(template_name("..."), "<Unknown>");
}

#[test]
fn nested_names_keep_their_file_stem() {
    assert_eq!(template_name("sub/plain.txt"), "plain");
}
