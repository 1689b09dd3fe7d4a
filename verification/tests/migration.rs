use yaak::migration::{
    migration_failure_message, order_migrations, sha384_hex_prefixed, split_migration_filename,
};
use yaak::rename::{rewrite_one_request, rewrite_request_names, rewrite_url_for_param};

#[test]
fn rewrite_url_anchors_at_boundaries() {
    assert_eq!(
        rewrite_url_for_param("https://example.com/users/:id/edit", ":id", "{id}"),
        "https://example.com/users/{id}/edit"
    );
}

#[test]
fn rewrite_url_at_end_of_string() {
    assert_eq!(
        rewrite_url_for_param("https://example.com/users/:id", ":id", "{id}"),
        "https://example.com/users/{id}"
    );
}

#[test]
fn rewrite_url_does_not_corrupt_prefixes() {
    assert_eq!(
        rewrite_url_for_param("https://example.com/x/:foobar", ":foo", "{foo}"),
        "https://example.com/x/:foobar"
    );
}

#[test]
fn rewrite_url_before_query() {
    assert_eq!(
        rewrite_url_for_param("https://example.com/users/:id?q=x", ":id", "{id}"),
        "https://example.com/users/{id}?q=x"
    );
}

#[test]
fn rewrite_request_full() {
    let url = "https://example.com/users/:id/posts/:postId?q=x";
    let params = r#"[
            {"name":":id","value":"42","enabled":true},
            {"name":":postId","value":"7","enabled":true},
            {"name":"q","value":"x","enabled":true}
        ]"#;
    let (new_url, new_params) = rewrite_one_request(url, params).expect("should change");
    assert_eq!(new_url, "https://example.com/users/{id}/posts/{postId}?q=x");
    let parsed: serde_json::Value = serde_json::from_str(&new_params).unwrap();
    assert_eq!(parsed[0]["name"], "{id}");
    assert_eq!(parsed[1]["name"], "{postId}");
    assert_eq!(parsed[2]["name"], "q");
}

#[test]
fn rewrite_request_no_path_params_returns_none() {
    let url = "https://example.com/x";
    let params = r#"[{"name":"q","value":"1","enabled":true}]"#;
    assert!(rewrite_one_request(url, params).is_none());
}

#[test]
fn rewrite_handles_prefix_overlap_with_longest_first() {
    let url = "https://example.com/:foo/:foobar";
    let params = r#"[
            {"name":":foo","value":"a"},
            {"name":":foobar","value":"b"}
        ]"#;
    let (new_url, _) = rewrite_one_request(url, params).expect("should change");
    assert_eq!(new_url, "https://example.com/{foo}/{foobar}");
}

#[test]
fn rewrite_url_at_fragment_and_repeated() {
    assert_eq!(rewrite_url_for_param(":a/:a#:a?:ab", ":a", "{a}"), "{a}/{a}#{a}?:ab");
}

#[test]
fn rewrite_url_missing_old_unchanged() {
    assert_eq!(rewrite_url_for_param("https://example.com/users", ":id", "{id}"), "https://example.com/users");
}

#[test]
fn rewrite_request_invalid_json_returns_none() {
    assert!(rewrite_one_request("/:a", "not json").is_none());
    assert!(rewrite_one_request("/:a", r#"{"name":":a"}"#).is_none());
}

#[test]
fn rewrite_request_bare_colon_not_renamed() {
    assert!(rewrite_one_request("/:", r#"[{"name":":"}]"#).is_none());
}

#[test]
fn rewrite_request_keeps_other_fields_and_values() {
    let params = r#"[{"name":":id","value":"42","id":"p1"}, 5, {"value":"x"}]"#;
    let (new_url, new_params) = rewrite_one_request("/u/:id", params).expect("should change");
    assert_eq!(new_url, "/u/{id}");
    let parsed: serde_json::Value = serde_json::from_str(&new_params).unwrap();
    assert_eq!(parsed[0]["name"], "{id}");
    assert_eq!(parsed[0]["value"], "42");
    assert_eq!(parsed[0]["id"], "p1");
    assert_eq!(parsed[1], 5);
    assert_eq!(parsed[2]["value"], "x");
}

#[test]
fn rewrite_request_is_idempotent() {
    let url = "https://example.com/:foo/:foobar";
    let params = r#"[{"name":":foo"},{"name":":foobar"},{"name":"q"}]"#;
    let (new_url, new_params) = rewrite_one_request(url, params).expect("should change");
    assert!(rewrite_one_request(&new_url, &new_params).is_none());
}

#[test]
fn rewrite_request_names_orders_and_renames() {
    let names = vec![Some(":a".to_string()), None, Some("b".to_string()), Some(":ab".to_string())];
    let (url, new_names) = rewrite_request_names("/:a/:ab/:a", &names).expect("should change");
    assert_eq!(url, "/{a}/{ab}/{a}");
    assert_eq!(new_names, vec![Some("{a}".to_string()), None, None, Some("{ab}".to_string())]);
    assert!(rewrite_request_names("/x", &vec![None, Some("q".to_string())]).is_none());
}

#[test]
fn rename_order_is_by_bytes_not_chars() {
    // ":éé" is 5 bytes but 3 characters; ":abcd" is 5 bytes too, so the
    // earlier name stays first.
    let names = vec![Some(":éé".to_string()), Some(":abcd".to_string())];
    let (url, _) = rewrite_request_names("/:éé/:abcd", &names).expect("should change");
    assert_eq!(url, "/{éé}/{abcd}");
}

#[test]
fn split_migration_filename_cases() {
    assert_eq!(
        split_migration_filename("20230101000000_create_tables.sql"),
        Some(("20230101000000".to_string(), "create_tables".to_string()))
    );
    assert_eq!(split_migration_filename("_x.sql"), Some(("".to_string(), "x".to_string())));
    assert_eq!(split_migration_filename("1_.sql"), Some(("1".to_string(), "".to_string())));
    assert_eq!(split_migration_filename("20230101.sql"), None);
    assert_eq!(split_migration_filename("2023_x.txt"), None);
    assert_eq!(split_migration_filename("sql"), None);
    assert_eq!(split_migration_filename("_.sql"), Some(("".to_string(), "".to_string())));
}

#[test]
fn checksum_of_empty_input() {
    assert_eq!(
        sha384_hex_prefixed(b""),
        "0x38B060A751AC96384CD9327EB1B1E36A21FDB71114BE07434C0CC7BF63F6E1DA274EDEBFE76F65FBD51AD2F14898B95B"
    );
}

#[test]
fn checksum_of_abc() {
    let c = sha384_hex_prefixed(b"abc");
    assert_eq!(
        c,
        "0xCB00753F45A35E8BB5A03D699AC65007272C32AB0EDED1631A8B605A43FF5BED8086072BA1E7CC2358BAECA134C825A7"
    );
    assert_eq!(c.len(), 98);
}

#[test]
fn order_migrations_sorts_sql_files() {
    let paths: Vec<String> = vec![
        "20240102_b.sql", "README.md", "20240101_a.sql", ".sql", "x.sql.bak", "20231231_z.sql", "a.SQL",
    ]
    .into_iter()
    .map(String::from)
    .collect();
    assert_eq!(order_migrations(&paths), vec![5, 2, 0]);
}

#[test]
fn order_migrations_equal_names_keep_order() {
    let paths: Vec<String> = vec!["b.sql", "a.sql", "b.sql", "é.sql", "z.sql"].into_iter().map(String::from).collect();
    assert_eq!(order_migrations(&paths), vec![1, 0, 2, 4, 3]);
}

#[test]
fn failure_message_format() {
    assert_eq!(
        migration_failure_message("20240101_a.sql", "syntax error"),
        "20240101_a.sql failed with syntax error"
    );
}

#[test]
fn rewrite_url_empty_old_leaves_url() {
    assert_eq!(rewrite_url_for_param("abc", "", "X"), "abc");
}
