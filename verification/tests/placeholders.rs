use yaak::placeholders::{apply_path_placeholders, replace_path_placeholder, HttpUrlParameter};

fn param(name: &str, value: &str, enabled: bool) -> HttpUrlParameter {
    HttpUrlParameter { name: name.into(), value: value.into(), enabled, id: None }
}

#[test]
fn placeholder_middle() {
    let p = HttpUrlParameter { name: "{foo}".into(), value: "xxx".into(), enabled: true, id: None };
    assert_eq!(
        replace_path_placeholder(&p, "https://example.com/{foo}/bar"),
        "https://example.com/xxx/bar",
    );
}

#[test]
fn placeholder_end() {
    let p = HttpUrlParameter { name: "{foo}".into(), value: "xxx".into(), enabled: true, id: None };
    assert_eq!(replace_path_placeholder(&p, "https://example.com/{foo}"), "https://example.com/xxx",);
}

#[test]
fn placeholder_with_literal_colon_suffix() {
    let p = HttpUrlParameter { name: "{id}".into(), value: "42".into(), enabled: true, id: None };
    assert_eq!(
        replace_path_placeholder(&p, "https://example.com/tasks/{id}:increment-importance"),
        "https://example.com/tasks/42:increment-importance",
    );
}

#[test]
fn placeholder_multiple_occurrences() {
    let p = HttpUrlParameter { name: "{foo}".into(), value: "xxx".into(), enabled: true, id: None };
    assert_eq!(
        replace_path_placeholder(&p, "https://example.com/{foo}/bar/{foo}"),
        "https://example.com/xxx/bar/xxx",
    );
}

#[test]
fn placeholder_missing() {
    let p = HttpUrlParameter { enabled: true, name: "".to_string(), value: "".to_string(), id: None };
    assert_eq!(
        replace_path_placeholder(&p, "https://example.com/{missing}"),
        "https://example.com/{missing}",
    );
}

#[test]
fn placeholder_disabled() {
    let p = HttpUrlParameter { enabled: false, name: "{foo}".to_string(), value: "xxx".to_string(), id: None };
    assert_eq!(replace_path_placeholder(&p, "https://example.com/{foo}"), "https://example.com/{foo}",);
}

#[test]
fn placeholder_non_brace_name_left_alone() {
    let p = HttpUrlParameter { name: "foo".into(), value: "xxx".into(), enabled: true, id: None };
    assert_eq!(replace_path_placeholder(&p, "https://example.com/{foo}"), "https://example.com/{foo}",);
}

#[test]
fn placeholder_encode() {
    let p = HttpUrlParameter { name: "{foo}".into(), value: "Hello World".into(), enabled: true, id: None };
    assert_eq!(
        replace_path_placeholder(&p, "https://example.com/{foo}"),
        "https://example.com/Hello%20World",
    );
}

#[test]
fn apply_placeholder() {
    let url = "example.com/{a}/bar".to_string();
    let url_parameters = vec![
        HttpUrlParameter { name: "b".to_string(), value: "bbb".to_string(), enabled: true, id: None },
        HttpUrlParameter { name: "{a}".to_string(), value: "aaa".to_string(), enabled: true, id: None },
    ];

    let (url, url_parameters) = apply_path_placeholders(&url, &url_parameters);

    assert_eq!(url, "example.com/aaa/bar");
    assert_eq!(url_parameters.len(), 1);
    assert_eq!(url_parameters[0].name, "b");
    assert_eq!(url_parameters[0].value, "bbb");
}

#[test]
fn placeholder_encodes_utf8_and_reserved_bytes() {
    let p = param("{q}", "é/a-b_c.d~e+", true);
    assert_eq!(replace_path_placeholder(&p, "/x/{q}"), "/x/%C3%A9%2Fa-b_c.d~e%2B");
}

#[test]
fn placeholder_empty_braces_left_alone() {
    let p = param("{}", "v", true);
    assert_eq!(replace_path_placeholder(&p, "/a/{}/b"), "/a/{}/b");
}

#[test]
fn placeholder_replaced_left_to_right_without_overlap() {
    let p = param("{aa}", "X", true);
    assert_eq!(replace_path_placeholder(&p, "{aa}{aa}a}"), "XXa}");
}

#[test]
fn apply_keeps_parameters_that_do_not_match() {
    let params = vec![
        param("{missing}", "1", true),
        param("q", "2", true),
        param("", "3", true),
        param("{a}", "4", false),
        param("{a}", "5", true),
        param("{a}", "6", true),
    ];
    let (url, kept) = apply_path_placeholders("/p/{a}?x", &params);
    assert_eq!(url, "/p/5?x");
    let names: Vec<(&str, &str)> = kept.iter().map(|p| (p.name.as_str(), p.value.as_str())).collect();
    assert_eq!(names, vec![("{missing}", "1"), ("q", "2"), ("{a}", "6")]);
}

#[test]
fn apply_keeps_ids_of_kept_parameters() {
    let params = vec![HttpUrlParameter {
        name: "q".into(),
        value: "1".into(),
        enabled: true,
        id: Some("abc".into()),
    }];
    let (url, kept) = apply_path_placeholders("/p", &params);
    assert_eq!(url, "/p");
    assert_eq!(kept.len(), 1);
    assert_eq!(kept[0].id.as_deref(), Some("abc"));
    assert!(kept[0].enabled);
}

#[test]
fn query_parameters_leave_url_untouched() {
    let params = vec![param("q", "1", true), param("r", "2", false), param("", "3", true), param("s", "4", true)];
    let (url, kept) = apply_path_placeholders("/a/{q}/b", &params);
    assert_eq!(url, "/a/{q}/b");
    let names: Vec<&str> = kept.iter().map(|p| p.name.as_str()).collect();
    assert_eq!(names, vec!["q", "s"]);
}

#[test]
fn placeholder_not_in_url() {
    let p = param("{foo}", "xxx", true);
    assert_eq!(replace_path_placeholder(&p, "https://example.com/{fo}/o}"), "https://example.com/{fo}/o}");
}
