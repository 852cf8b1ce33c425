use lib::route::{
    extract_embedded_route, method_before, normalize_path, normalize_segment,
};
use lib::{collision_key, normalize_route, NormalizeError};

#[test]
fn segment_passes_through_wildcard() {
    assert_eq!(normalize_segment("*").unwrap(), "*");
}

#[test]
fn segment_lowercases_static_text() {
    assert_eq!(normalize_segment("Users").unwrap(), "users");
    assert_eq!(normalize_segment("POSTS").unwrap(), "posts");
}

#[test]
fn segment_normalizes_colon_param() {
    assert_eq!(normalize_segment(":id").unwrap(), ":id");
}

#[test]
fn segment_normalizes_brace_param() {
    assert_eq!(normalize_segment("{id}").unwrap(), ":id");
}

#[test]
fn segment_normalizes_angle_param() {
    assert_eq!(normalize_segment("<id>").unwrap(), ":id");
}

#[test]
fn segment_rejects_empty_param_name() {
    assert!(matches!(
        normalize_segment(":"),
        Err(NormalizeError::EmptyParamName(_))
    ));
    assert!(matches!(
        normalize_segment("{}"),
        Err(NormalizeError::EmptyParamName(_))
    ));
}

#[test]
fn segment_rejects_punctuation_in_param_name() {
    assert!(matches!(
        normalize_segment(":user-id"),
        Err(NormalizeError::InvalidParamName(_))
    ));
    assert!(matches!(
        normalize_segment("{user.id}"),
        Err(NormalizeError::InvalidParamName(_))
    ));
}

#[test]
fn segment_allows_underscore_in_param_name() {
    assert_eq!(normalize_segment(":user_id").unwrap(), ":user_id");
}

#[test]
fn path_collapses_repeated_slashes() {
    assert_eq!(normalize_path("/users//1//posts").unwrap(), "/users/1/posts");
}

#[test]
fn path_strips_leading_and_trailing_slashes() {
    assert_eq!(normalize_path("users/1/").unwrap(), "/users/1");
    assert_eq!(normalize_path("/users/1/").unwrap(), "/users/1");
}

#[test]
fn path_of_just_slashes_is_root() {
    assert_eq!(normalize_path("/").unwrap(), "/");
    assert_eq!(normalize_path("").unwrap(), "/");
    assert_eq!(normalize_path("///").unwrap(), "/");
}

#[test]
fn path_propagates_segment_errors() {
    assert!(normalize_path("/users/{}/posts").is_err());
}

#[test]
fn route_defaults_missing_method_to_get() {
    assert_eq!(
        normalize_route("/health").unwrap(),
        Some("GET /health".to_string())
    );
}

#[test]
fn route_skips_blank_and_comment_lines() {
    assert_eq!(normalize_route("").unwrap(), None);
    assert_eq!(normalize_route("   ").unwrap(), None);
    assert_eq!(normalize_route("# a comment").unwrap(), None);
}

#[test]
fn route_uppercases_known_method() {
    assert_eq!(
        normalize_route("get /Users/{id}/Posts//").unwrap(),
        Some("GET /users/:id/posts".to_string())
    );
}

#[test]
fn route_treats_unknown_leading_token_as_path() {
    // "foo" isn't a known method, so with no whitespace to split on
    // the whole thing is the path, not a method that got dropped.
    assert_eq!(
        normalize_route("foo/bar").unwrap(),
        Some("GET /foo/bar".to_string())
    );
}

#[test]
fn collision_key_folds_different_param_names_together() {
    assert_eq!(
        collision_key("GET /users/:id"),
        collision_key("GET /users/:name")
    );
}

#[test]
fn collision_key_distinguishes_static_segments() {
    assert_ne!(
        collision_key("GET /users/:id"),
        collision_key("GET /users/active")
    );
}

#[test]
fn collision_key_distinguishes_methods() {
    assert_ne!(
        collision_key("GET /users/:id"),
        collision_key("POST /users/:id")
    );
}

#[test]
fn collision_key_distinguishes_path_length() {
    assert_ne!(
        collision_key("GET /users/:id"),
        collision_key("GET /users/:id/posts")
    );
}

#[test]
fn method_before_reads_word_before_call_paren() {
    assert_eq!(method_before("app.get("), "GET");
    assert_eq!(method_before("router.post("), "POST");
}

#[test]
fn method_before_reads_bare_word_with_no_call() {
    assert_eq!(method_before("delete "), "DELETE");
}

#[test]
fn method_before_defaults_to_get_when_word_is_unknown() {
    assert_eq!(method_before("handler("), "GET");
    assert_eq!(method_before(""), "GET");
}

#[test]
fn extract_embedded_route_reads_express_style_call() {
    assert_eq!(
        extract_embedded_route("app.get('/users/:id', handler)"),
        Some(("GET".to_string(), "/users/:id"))
    );
}

#[test]
fn extract_embedded_route_reads_double_quoted_call() {
    assert_eq!(
        extract_embedded_route("router.post(\"/users\", create)"),
        Some(("POST".to_string(), "/users"))
    );
}

#[test]
fn extract_embedded_route_reads_rails_style_call() {
    assert_eq!(
        extract_embedded_route("delete '/users/<id>'"),
        Some(("DELETE".to_string(), "/users/<id>"))
    );
}

#[test]
fn extract_embedded_route_defaults_to_get_for_bare_quoted_path() {
    assert_eq!(
        extract_embedded_route("\"/users/:id\","),
        Some(("GET".to_string(), "/users/:id"))
    );
}

#[test]
fn extract_embedded_route_skips_quotes_not_followed_by_slash() {
    assert_eq!(extract_embedded_route("\"path\": \"/users/:id\""), Some(("GET".to_string(), "/users/:id")));
    assert_eq!(extract_embedded_route("name: \"users_index\""), None);
}

#[test]
fn route_normalizes_express_style_call() {
    assert_eq!(
        normalize_route("app.get('/Users/{id}', handler)").unwrap(),
        Some("GET /users/:id".to_string())
    );
}

#[test]
fn route_normalizes_rails_style_call() {
    assert_eq!(
        normalize_route("delete '/users/<id>'").unwrap(),
        Some("DELETE /users/:id".to_string())
    );
}

#[test]
fn route_still_normalizes_plain_lines_with_no_quotes() {
    assert_eq!(
        normalize_route("get /Users/{id}/Posts//").unwrap(),
        Some("GET /users/:id/posts".to_string())
    );
}
