use waysign::router::Router;
use waysign::template::decompose;

#[test]
fn decompose_named_and_wildcard() {
    let (keys, glue) = decompose("/users/:user/assets/*").unwrap();
    assert_eq!(keys, vec!["user".to_string(), "0".to_string()]);
    assert_eq!(glue, "/users/{`user`}/assets/{`0`}");
}

#[test]
fn decompose_literal_only() {
    let (keys, glue) = decompose("/plain/path").unwrap();
    assert!(keys.is_empty());
    assert_eq!(glue, "/plain/path");
}

#[test]
fn decompose_empty_pattern() {
    let (keys, glue) = decompose("").unwrap();
    assert!(keys.is_empty());
    assert_eq!(glue, "");
}

#[test]
fn decompose_numbers_wildcards_in_order() {
    let (keys, glue) = decompose("/*/x/:name/*").unwrap();
    assert_eq!(
        keys,
        vec!["0".to_string(), "name".to_string(), "1".to_string()]
    );
    assert_eq!(glue, "/{`0`}/x/{`name`}/{`1`}");
}

#[test]
fn decompose_rejects_empty_name() {
    let e = decompose("/a/:/b").unwrap_err();
    assert_eq!(e.offset, 3);
}

#[test]
fn pattern_of_one_bare_parameter() {
    let (keys, glue) = decompose(":ab").unwrap();
    assert_eq!(keys, vec!["ab".to_string()]);
    assert_eq!(glue, "{`ab`}");
    let mut r = Router::new();
    r.insert(":ab", "n").unwrap();
    let m = r.find("xyz").unwrap();
    assert_eq!(m.params, vec![("ab".to_string(), "xyz".to_string())]);
    assert!(r.find("x/y").is_none());
    assert!(r.find("").is_none());
}

#[test]
fn pattern_of_one_bare_wildcard() {
    let (keys, glue) = decompose("*").unwrap();
    assert_eq!(keys, vec!["0".to_string()]);
    assert_eq!(glue, "{`0`}");
    let mut r = Router::new();
    r.insert("*", "w").unwrap();
    assert_eq!(
        r.find("a/b").unwrap().params,
        vec![("0".to_string(), "a/b".to_string())]
    );
    assert_eq!(
        r.find("").unwrap().params,
        vec![("0".to_string(), "".to_string())]
    );
}

#[test]
fn round_trip_through_template() {
    let pattern = "/users/:user/assets/*";
    let mut r = Router::new();
    let _h = r.insert(pattern, "route").unwrap();
    let path = "/users/bo/assets/img/cat.png";
    let m = r.find(path).unwrap();
    assert_eq!(m.id, "route");

    // interpolate the captured values into the template
    let (keys, glue) = decompose(pattern).unwrap();
    let mut rebuilt = glue.clone();
    for (key, value) in m.params.iter() {
        assert!(keys.contains(key));
        let placeholder = format!("{{`{}`}}", key);
        rebuilt = rebuilt.replacen(&placeholder, value, 1);
    }
    assert_eq!(rebuilt, path);

    // the rebuilt path matches the same route again, with the same bindings
    let again = r.find(&rebuilt).unwrap();
    assert_eq!(again.id, "route");
    assert_eq!(again.params, m.params);
}
