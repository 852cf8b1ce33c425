use lib::route::{
    normalize_path, normalize_segment, param_name, split_method, split_method_with,
};
use lib::tool::{
    append_file, format_location, format_text, parse_args, plan_in_place, record_collision,
    run_check, CollisionTable,
};
use lib::{collision_key, normalize_route, NormalizeError};

fn norm(line: &str) -> String {
    normalize_route(line).unwrap().unwrap()
}

#[test]
fn canonical_routes_are_fixed_points() {
    for r in ["GET /users/:id", "DELETE /", "OPTIONS /a/*/b", "PATCH /x_y/:z9"] {
        assert_eq!(norm(r), r);
    }
}

#[test]
fn normalizing_twice_changes_nothing() {
    for line in [
        "get /Users/{id}/Posts//",
        "app.get('/Users/{id}', handler)",
        "  post   //A//B//  ",
        "router.delete(\"/items/<item_id>\")",
        "foo/bar",
        "HEAD /Ü",
    ] {
        let once = norm(line);
        assert_eq!(norm(&once), once, "line {:?}", line);
    }
}

#[test]
fn idempotence_fails_when_last_segment_ends_in_whitespace() {
    // The trailing slash hides the space from trimming the first time.
    let once = norm("GET /a /");
    assert_eq!(once, "GET /a ");
    assert_eq!(norm(&once), "GET /a");
}

#[test]
fn idempotence_fails_when_output_holds_a_quoted_path() {
    let once = norm("app.get('/a\"/b\"')");
    assert_eq!(once, "GET /a\"/b\"");
    assert_eq!(norm(&once), "GET /b");
}

#[test]
fn formatting_formatted_text_changes_nothing() {
    let input = "# routes\nget /Users/{id}\r\n\napp.post('/Items', create)\nfoo/bar\n";
    let once = format_text(input, "");
    assert_eq!(once.text, "GET /users/:id\nPOST /items\nGET /foo/bar\n");
    let twice = format_text(&once.text, "");
    assert_eq!(twice.text, once.text);
}

#[test]
fn collision_key_exact_examples() {
    assert_eq!(collision_key("GET /users/:id"), "GET /users/:");
    assert_eq!(collision_key("GET /a/:x/b/:y"), collision_key("GET /a/:p/b/:q"));
    assert_ne!(collision_key("GET /a/:x/b"), collision_key("GET /a/b/:x"));
    assert_eq!(collision_key("GET"), "GET ");
    assert_eq!(collision_key("GET /"), "GET /");
}

#[test]
fn extra_slashes_do_not_matter() {
    assert_eq!(normalize_path("a//b").unwrap(), normalize_path("/a/b/").unwrap());
    assert_eq!(normalize_path("//a///b//").unwrap(), "/a/b");
}

#[test]
fn parameter_spellings_agree() {
    let a = normalize_segment(":user_id").unwrap();
    let b = normalize_segment("{user_id}").unwrap();
    let c = normalize_segment("<user_id>").unwrap();
    assert_eq!(a, ":user_id");
    assert_eq!(a, b);
    assert_eq!(b, c);
}

#[test]
fn parameter_names_keep_their_case() {
    assert_eq!(normalize_segment("{UserId}").unwrap(), ":UserId");
}

#[test]
fn static_segments_lowercase_beyond_ascii() {
    assert_eq!(normalize_segment("ÜBER").unwrap(), "über");
}

#[test]
fn param_name_spellings() {
    assert_eq!(param_name(":id"), Some("id"));
    assert_eq!(param_name("{id}"), Some("id"));
    assert_eq!(param_name("<id>"), Some("id"));
    assert_eq!(param_name("{id"), None);
    assert_eq!(param_name("users"), None);
    assert_eq!(param_name(":"), Some(""));
}

#[test]
fn error_variants_and_messages() {
    match normalize_segment("<>") {
        Err(e) => {
            assert!(matches!(e, NormalizeError::EmptyParamName(ref s) if s == "<>"));
            assert_eq!(e.message(), "empty parameter name in segment '<>'");
        }
        Ok(_) => panic!("expected an error"),
    }
    match normalize_segment("<a b>") {
        Err(e) => {
            assert!(matches!(e, NormalizeError::InvalidParamName(ref s) if s == "<a b>"));
            assert_eq!(
                e.message(),
                "parameter name in segment '<a b>' must be alphanumeric or underscore"
            );
        }
        Ok(_) => panic!("expected an error"),
    }
}

#[test]
fn route_reports_first_failing_segment() {
    match normalize_route("GET /{}/:a-b") {
        Err(NormalizeError::EmptyParamName(s)) => assert_eq!(s, "{}"),
        _ => panic!("expected the first segment's error"),
    }
}

#[test]
fn split_method_examples() {
    let (m, rest) = split_method("get \t /x y");
    assert_eq!(m, "GET");
    assert_eq!(rest, "/x y");
    let (m, rest) = split_method("foo /x");
    assert_eq!(m, "GET");
    assert_eq!(rest, "foo /x");
    let (m, rest) = split_method("options");
    assert_eq!(m, "GET");
    assert_eq!(rest, "options");
}

#[test]
fn unicode_whitespace_is_trimmed() {
    assert_eq!(norm("\u{A0}put /A\u{2003}"), "PUT /a");
}

#[test]
fn location_texts() {
    assert_eq!(format_location("", 3, "msg"), "routefmt: line 3: msg");
    assert_eq!(format_location("r.txt", 10, "m"), "routefmt: r.txt: line 10: m");
    assert_eq!(format_location("", 0, "m"), "routefmt: line 0: m");
    assert_eq!(format_location("", 12345, "m"), "routefmt: line 12345: m");
}

#[test]
fn format_text_reports_errors_with_label() {
    let formatted = format_text("GET /users/{}\nGET /ok\n", "routes.txt");
    assert!(formatted.had_error);
    assert_eq!(formatted.text, "GET /ok\n");
    assert_eq!(
        formatted.diagnostics,
        vec!["routefmt: routes.txt: line 1: empty parameter name in segment '{}'".to_string()]
    );
}

#[test]
fn format_text_reports_collisions_and_keeps_both_lines() {
    let formatted = format_text("GET /users/:id\n\nget /users/{name}\n", "");
    assert!(formatted.had_error);
    assert_eq!(formatted.text, "GET /users/:id\nGET /users/:name\n");
    assert_eq!(
        formatted.diagnostics,
        vec!["routefmt: line 3: route collides with line 1 after normalization".to_string()]
    );
}

#[test]
fn run_check_reports_what_it_finds() {
    let checked = run_check("get /Users/{id}\n  GET /users/:id  \n");
    assert!(checked.had_error);
    assert_eq!(
        checked.diagnostics,
        vec![
            "routefmt: line 1: not normalized, expected 'GET /users/:id'".to_string(),
            "routefmt: line 2: route collides with line 1 after normalization".to_string(),
        ]
    );
    let clean = run_check("# comment\n\nGET /a\nPOST /a\n");
    assert!(!clean.had_error);
    assert!(clean.diagnostics.is_empty());
}

#[test]
fn empty_input_formats_to_nothing() {
    let formatted = format_text("", "");
    assert_eq!(formatted.text, "");
    assert!(!formatted.had_error);
}

#[test]
fn record_collision_adds_one_diagnostic() {
    let mut seen = CollisionTable::new();
    let mut diagnostics = Vec::new();
    assert!(!record_collision(&mut seen, "GET /a/:x", 2, "f", &mut diagnostics));
    assert!(diagnostics.is_empty());
    assert_eq!(seen.get("GET /a/:"), Some(2));
    assert!(record_collision(&mut seen, "GET /a/:y", 7, "f", &mut diagnostics));
    assert_eq!(
        diagnostics,
        vec!["routefmt: f: line 7: route collides with line 2 after normalization".to_string()]
    );
    assert_eq!(seen.get("GET /b"), None);
}

#[test]
fn parse_args_keeps_paths_in_order() {
    let raw = vec![
        "a".to_string(),
        "--in-place".to_string(),
        "b".to_string(),
        "--check".to_string(),
        "c".to_string(),
    ];
    let args = parse_args(&raw);
    assert!(args.check);
    assert!(args.in_place);
    assert_eq!(args.paths, vec!["a".to_string(), "b".to_string(), "c".to_string()]);
}

#[test]
fn checking_formatted_text_reports_nothing() {
    let input = "get /Users/{id}\n  app.delete('/Users/<id>')  \n# done\n";
    let formatted = format_text(input, "");
    assert!(!formatted.had_error);
    let checked = run_check(&formatted.text);
    assert!(!checked.had_error);
    assert!(checked.diagnostics.is_empty());
}

#[test]
fn split_method_uses_unicode_uppercase_of_first_token() {
    let (m, rest) = split_method("poſt /x");
    assert_eq!(m, "POST");
    assert_eq!(rest, "/x");
}

#[test]
fn split_method_with_given_candidate() {
    let (m, rest) = split_method_with("poſt  /x", "POST".to_string());
    assert_eq!(m, "POST");
    assert_eq!(rest, "/x");
    let (m, rest) = split_method_with("poſt /x", "FETCH".to_string());
    assert_eq!(m, "GET");
    assert_eq!(rest, "poſt /x");
    let (m, rest) = split_method_with("post", "POST".to_string());
    assert_eq!(m, "GET");
    assert_eq!(rest, "post");
}

#[test]
fn collision_key_is_its_own_key() {
    for r in ["GET /users/:id", "POST /a/:x/b", "GET", "PUT /"] {
        let k = collision_key(r);
        assert_eq!(collision_key(&k), k);
    }
}

#[test]
fn normalized_path_shape() {
    for p in ["//A///b//", "x", "", "/{id}/*/", "a b//c"] {
        let q = normalize_path(p).unwrap();
        assert!(q.starts_with('/'));
        assert!(!q.contains("//"));
        assert!(q == "/" || !q.ends_with('/'));
        assert_eq!(normalize_path(&q).unwrap(), q);
    }
}

#[test]
fn path_reports_first_failing_segment() {
    match normalize_path("/a/:bad-name/{}") {
        Err(NormalizeError::InvalidParamName(s)) => assert_eq!(s, ":bad-name"),
        _ => panic!("expected the first failing segment's error"),
    }
}

#[test]
fn plan_in_place_rewrites_only_changed_files() {
    let plan = plan_in_place("get /Users/{id}\n", "routes.txt");
    assert!(plan.rewrite);
    assert_eq!(plan.formatted.text, "GET /users/:id\n");
    assert!(!plan.formatted.had_error);
    let plan = plan_in_place("GET /users/:id\n", "routes.txt");
    assert!(!plan.rewrite);
    let plan = plan_in_place("GET /users/{}\nget /Posts\n", "routes.txt");
    assert!(plan.rewrite);
    assert!(plan.formatted.had_error);
    assert_eq!(plan.formatted.text, "GET /posts\n");
}

#[test]
fn append_file_ends_each_file_with_a_newline() {
    let mut combined = String::new();
    append_file(&mut combined, "GET /a");
    assert_eq!(combined, "GET /a\n");
    append_file(&mut combined, "GET /b\n");
    assert_eq!(combined, "GET /a\nGET /b\n");
    append_file(&mut combined, "");
    assert_eq!(combined, "GET /a\nGET /b\n");
}

#[test]
fn append_file_joins_files_as_cat_does() {
    let mut combined = String::new();
    append_file(&mut combined, "");
    assert_eq!(combined, "");
    append_file(&mut combined, "GET /a\n");
    assert_eq!(combined, "GET /a\n");
}

#[test]
fn non_ascii_paths_keep_their_shape() {
    assert_eq!(normalize_path("/É//X/").unwrap(), "/é/x");
    assert_eq!(norm("GET //Straße///"), "GET /straße");
}
