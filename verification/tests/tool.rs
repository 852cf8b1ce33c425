use lib::tool::{
    format_text, is_normalized, parse_args, record_collision, run_check, CollisionTable,
};

#[test]
fn parse_args_separates_check_flag_from_paths() {
    let raw = vec!["--check".to_string(), "routes.txt".to_string()];
    let args = parse_args(&raw);
    assert!(args.check);
    assert_eq!(args.paths, vec!["routes.txt".to_string()]);
}

#[test]
fn parse_args_check_flag_can_come_after_paths() {
    let raw = vec!["routes.txt".to_string(), "--check".to_string()];
    let args = parse_args(&raw);
    assert!(args.check);
    assert_eq!(args.paths, vec!["routes.txt".to_string()]);
}

#[test]
fn parse_args_recognizes_in_place_flag() {
    let raw = vec!["--in-place".to_string(), "routes.txt".to_string()];
    let args = parse_args(&raw);
    assert!(args.in_place);
    assert_eq!(args.paths, vec!["routes.txt".to_string()]);
}

#[test]
fn parse_args_defaults_to_no_check_and_no_paths() {
    let args = parse_args(&[]);
    assert!(!args.check);
    assert!(!args.in_place);
    assert!(args.paths.is_empty());
}

#[test]
fn is_normalized_accepts_matching_line_modulo_whitespace() {
    assert!(is_normalized("  GET /users/:id  ", "GET /users/:id"));
}

#[test]
fn is_normalized_rejects_lowercase_method() {
    assert!(!is_normalized("get /users/:id", "GET /users/:id"));
}

#[test]
fn is_normalized_rejects_unnormalized_path() {
    assert!(!is_normalized("GET /users//1/", "GET /users/1"));
}

#[test]
fn record_collision_flags_repeated_shape_and_keeps_first_line() {
    let mut seen = CollisionTable::new();
    let mut diagnostics = Vec::new();
    assert!(!record_collision(&mut seen, "GET /users/:id", 1, "", &mut diagnostics));
    assert!(record_collision(&mut seen, "GET /users/:name", 4, "", &mut diagnostics));
    assert_eq!(seen.get("GET /users/:"), Some(1));
}

#[test]
fn run_check_passes_already_normalized_input() {
    assert!(!run_check("GET /users/:id\n").had_error);
}

#[test]
fn run_check_fails_on_unnormalized_input() {
    assert!(run_check("get /Users/{id}\n").had_error);
}

#[test]
fn run_check_fails_on_collision() {
    assert!(run_check("GET /users/:id\nGET /users/:name\n").had_error);
}

#[test]
fn format_text_prefixes_errors_with_label() {
    let formatted = format_text("GET /users/{}\n", "routes.txt");
    assert!(formatted.had_error);
}
