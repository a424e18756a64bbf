use tcp_localhost::homepage::{replace_with_stem, template_line_str};
use tcp_localhost::paths::{file_stem, is_html, is_reports, is_templates, report_counterpart};

#[test]
fn templates_segment_is_recognised() {
    assert!(is_templates("/root/Templates/a.html"));
    assert!(is_templates("Templates"));
    assert!(is_templates("C:\\site\\Templates\\a.html"));
    assert!(!is_templates("/root/TemplatesX/a.html"));
    assert!(!is_templates("/root/XTemplates/a.html"));
    assert!(!is_templates("/root/templates/a.html"));
    assert!(!is_templates("/root/Reports/a.html"));
}

#[test]
fn reports_segment_is_recognised() {
    assert!(is_reports("/root/Reports/a.html"));
    assert!(!is_reports("/root/Templates/a.html"));
    assert!(!is_reports("/root/Reportsdir/a.html"));
}

#[test]
fn html_extension_is_exact() {
    assert!(is_html("/root/Templates/a.html"));
    assert!(is_html("a.html"));
    assert!(is_html("/x/a.b.html"));
    assert!(!is_html("/root/Templates/a.HTML"));
    assert!(!is_html("/root/Templates/a.htm"));
    assert!(!is_html("/root/Templates/a.htmlx"));
    assert!(!is_html("/root/Templates/html"));
    assert!(!is_html(".html"));
    assert!(!is_html("/x/.html"));
    assert!(!is_html("dir.html/file"));
    assert!(!is_html(""));
}

#[test]
fn counterpart_replaces_first_occurrence_only() {
    assert_eq!(
        report_counterpart("/r/Templates/a.html"),
        "/r/Reports/a.html".to_string()
    );
    assert_eq!(
        report_counterpart("/a/Templates/Templates/x.html"),
        "/a/Reports/Templates/x.html".to_string()
    );
    assert_eq!(report_counterpart("/plain/path"), "/plain/path".to_string());
}

#[test]
fn stems_drop_the_last_extension() {
    assert_eq!(file_stem("/x/a.html"), Some("a".to_string()));
    assert_eq!(file_stem("/x/a.b.html"), Some("a.b".to_string()));
    assert_eq!(file_stem("/x/.html"), Some(".html".to_string()));
    assert_eq!(file_stem("plain"), Some("plain".to_string()));
    assert_eq!(file_stem("/x/"), None);
    assert_eq!(file_stem(""), None);
}

#[test]
fn stem_substitution_renders_a_line() {
    let line = replace_with_stem(template_line_str(), "tdoc", "/r/Templates/foo.html");
    let expected = template_line_str().replace("tdoc", "foo");
    assert_eq!(line, Some(expected));
    assert_eq!(replace_with_stem(template_line_str(), "tdoc", "/r/Templates/"), None);
}
