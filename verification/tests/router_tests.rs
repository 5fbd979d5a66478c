use waysign::router::Router;

#[test]
fn insert_then_find_single_param() {
    let mut r = Router::new();
    let h = r.insert("/users/:user", "u").unwrap();
    assert_eq!(h, 0);
    let m = r.find("/users/bo").unwrap();
    assert_eq!(m.id, "u");
    assert_eq!(m.params, vec![("user".to_string(), "bo".to_string())]);
}

#[test]
fn insert_then_find_binding_names_in_order() {
    let mut r = Router::new();
    r.insert("/a/:first/b/:second/*", "x").unwrap();
    let m = r.find("/a/1/b/2/rest/more").unwrap();
    assert_eq!(m.id, "x");
    assert_eq!(
        m.params,
        vec![
            ("first".to_string(), "1".to_string()),
            ("second".to_string(), "2".to_string()),
            ("0".to_string(), "rest/more".to_string()),
        ]
    );
}

#[test]
fn precedence_static_beats_param() {
    let mut r = Router::new();
    r.insert("/a/:x", "param").unwrap();
    r.insert("/a/b", "static").unwrap();
    let m = r.find("/a/b").unwrap();
    assert_eq!(m.id, "static");
    assert!(m.params.is_empty());
}

#[test]
fn precedence_static_beats_param_any_insertion_order() {
    let mut r = Router::new();
    r.insert("/a/b", "static").unwrap();
    r.insert("/a/:x", "param").unwrap();
    let m = r.find("/a/b").unwrap();
    assert_eq!(m.id, "static");
}

#[test]
fn precedence_decided_at_first_divergence() {
    let mut r = Router::new();
    r.insert("/a/:x/c", "early_param").unwrap();
    r.insert("/a/b/:y", "late_param").unwrap();
    // both match; the second stays literal longer, so it wins
    let m = r.find("/a/b/c").unwrap();
    assert_eq!(m.id, "late_param");
    assert_eq!(m.params, vec![("y".to_string(), "c".to_string())]);
}

#[test]
fn precedence_param_beats_wildcard() {
    let mut r = Router::new();
    r.insert("/f/*", "wild").unwrap();
    r.insert("/f/:x", "param").unwrap();
    let m = r.find("/f/v").unwrap();
    assert_eq!(m.id, "param");
    assert_eq!(m.params, vec![("x".to_string(), "v".to_string())]);
    // only the wildcard can swallow several segments
    let m2 = r.find("/f/a/b").unwrap();
    assert_eq!(m2.id, "wild");
    assert_eq!(m2.params, vec![("0".to_string(), "a/b".to_string())]);
}

#[test]
fn no_match_is_none_not_error() {
    let mut r = Router::new();
    assert!(r.find("/nothing").is_none());
    r.insert("/a/:x", "a").unwrap();
    assert!(r.find("/b/c").is_none());
    assert!(r.find("/a").is_none());
    assert!(r.find("/a/").is_none()); // a parameter needs a non-empty segment
    assert!(r.find("/a/x/y").is_none());
}

#[test]
fn count_reflects_overwrites() {
    let mut r = Router::new();
    assert_eq!(r.count(), 0);
    r.insert("/a", "1").unwrap();
    r.insert("/b", "2").unwrap();
    r.insert("/c/:x", "3").unwrap();
    assert_eq!(r.count(), 3);
    // the identical pattern overwrites: net count unchanged
    r.insert("/b", "2bis").unwrap();
    assert_eq!(r.count(), 3);
    assert_eq!(r.find("/b").unwrap().id, "2bis");
}

#[test]
fn wildcard_captures_full_remainder() {
    let mut r = Router::new();
    r.insert("/files/*", "f").unwrap();
    let m = r.find("/files/a/b/c").unwrap();
    assert_eq!(m.id, "f");
    assert_eq!(m.params, vec![("0".to_string(), "a/b/c".to_string())]);
}

#[test]
fn wildcard_may_capture_empty_remainder() {
    let mut r = Router::new();
    r.insert("/files/*", "f").unwrap();
    let m = r.find("/files/").unwrap();
    assert_eq!(m.params, vec![("0".to_string(), "".to_string())]);
    // but the literal before it must be there in full
    assert!(r.find("/files").is_none());
}

#[test]
fn terminal_beats_empty_wildcard() {
    let mut r = Router::new();
    r.insert("/files/*", "wild").unwrap();
    r.insert("/files/", "exact").unwrap();
    assert_eq!(r.find("/files/").unwrap().id, "exact");
}

#[test]
fn empty_pattern_matches_empty_path() {
    let mut r = Router::new();
    r.insert("", "root").unwrap();
    let m = r.find("").unwrap();
    assert_eq!(m.id, "root");
    assert!(m.params.is_empty());
    assert!(r.find("/").is_none());
}

#[test]
fn conflicting_param_names_reuse_the_first() {
    let mut r = Router::new();
    let h1 = r.insert("/x/:a", "one").unwrap();
    let h2 = r.insert("/x/:b", "two").unwrap();
    // same structure: the later insertion wins the slot, under the
    // established name
    let m = r.find("/x/v").unwrap();
    assert_eq!(m.id, "two");
    assert_eq!(m.params, vec![("a".to_string(), "v".to_string())]);
    assert_eq!(r.count(), 1);
    // both handles stay resolvable; the second stores the effective name
    assert_eq!(r.route_pattern(h1).unwrap(), ("/x/:a".to_string(), "one".to_string()));
    assert_eq!(r.route_pattern(h2).unwrap(), ("/x/:a".to_string(), "two".to_string()));
}

#[test]
fn conflict_policy_applies_per_shared_prefix() {
    let mut r = Router::new();
    r.insert("/x/:a/one", "1").unwrap();
    r.insert("/x/:b/two", "2").unwrap();
    // the two patterns share the parameter slot after /x/
    let m = r.find("/x/v/two").unwrap();
    assert_eq!(m.id, "2");
    assert_eq!(m.params, vec![("a".to_string(), "v".to_string())]);
    assert_eq!(r.count(), 2);
}

#[test]
fn mid_pattern_star_is_single_segment() {
    let mut r = Router::new();
    r.insert("/m/*/end", "m").unwrap();
    let m = r.find("/m/seg/end").unwrap();
    assert_eq!(m.params, vec![("0".to_string(), "seg".to_string())]);
    assert!(r.find("/m/a/b/end").is_none());
}

#[test]
fn malformed_pattern_reports_first_offset() {
    let mut r = Router::new();
    let e = r.insert("/a/:/b", "x").unwrap_err();
    assert_eq!(e.offset, 3);
    let e2 = r.insert(":", "x").unwrap_err();
    assert_eq!(e2.offset, 0);
    let e3 = r.insert("/u/:name/:/x", "x").unwrap_err();
    assert_eq!(e3.offset, 9);
    // a failed insertion leaves the table untouched
    assert_eq!(r.count(), 0);
}

#[test]
fn literal_star_and_colon_inside_tokens() {
    let mut r = Router::new();
    // a star with company, and a colon mid-token, are plain text
    r.insert("/a*b/c:d", "lit").unwrap();
    let m = r.find("/a*b/c:d").unwrap();
    assert_eq!(m.id, "lit");
    assert!(m.params.is_empty());
    assert!(r.find("/axb/c:d").is_none());
}

#[test]
fn handles_grow_monotonically() {
    let mut r = Router::new();
    assert_eq!(r.insert("/a", "1").unwrap(), 0);
    assert_eq!(r.insert("/b", "2").unwrap(), 1);
    assert_eq!(r.insert("/a", "3").unwrap(), 2);
    assert_eq!(r.route_pattern(0).unwrap(), ("/a".to_string(), "1".to_string()));
    assert_eq!(r.route_pattern(2).unwrap(), ("/a".to_string(), "3".to_string()));
    assert!(r.route_pattern(3).is_none());
}

#[test]
fn render_mentions_routes_and_overwrites() {
    let mut r = Router::new();
    r.insert("/a/:x", "one").unwrap();
    r.insert("/a/:y", "two").unwrap();
    // the overwritten row is marked; the second row shows the effective
    // parameter name of the slot, not the ignored one
    assert_eq!(r.render(), "/a/:x => one (overwritten)\n/a/:x => two\n");
    let empty = Router::new();
    assert_eq!(empty.render(), "");
}

#[test]
fn routes_lists_live_entries_in_order() {
    let mut r = Router::new();
    r.insert("/a/:x", "1").unwrap();
    r.insert("/b", "2").unwrap();
    r.insert("/a/:y", "3").unwrap(); // overwrites the first
    assert_eq!(
        r.routes(),
        vec![
            ("/b".to_string(), "2".to_string()),
            ("/a/:x".to_string(), "3".to_string()),
        ]
    );
    assert_eq!(r.routes().len(), r.count());
}

#[test]
fn precedence_three_way() {
    let mut r = Router::new();
    r.insert("/s/*", "wild").unwrap();
    r.insert("/s/:p", "param").unwrap();
    r.insert("/s/x", "static").unwrap();
    assert_eq!(r.find("/s/x").unwrap().id, "static");
    assert_eq!(r.find("/s/y").unwrap().id, "param");
    assert_eq!(r.find("/s/y/z").unwrap().id, "wild");
}

#[test]
fn wildcard_ordinals_reach_two_digits() {
    let mut r = Router::new();
    let pattern = "/*/*/*/*/*/*/*/*/*/*/*";
    r.insert(pattern, "deep").unwrap();
    let m = r.find("/a/b/c/d/e/f/g/h/i/j/k").unwrap();
    assert_eq!(m.params.len(), 11);
    assert_eq!(m.params[9], ("9".to_string(), "j".to_string()));
    assert_eq!(m.params[10], ("10".to_string(), "k".to_string()));
}

#[test]
fn matching_is_byte_exact() {
    let mut r = Router::new();
    r.insert("/Case", "c").unwrap();
    assert!(r.find("/case").is_none());
    assert!(r.find("/Case/").is_none());
    assert_eq!(r.find("/Case").unwrap().id, "c");
}
