use serde_json::Value;
use swagger_processor::merger::merge_definitions;
use swagger_processor::processor::render_skeleton;
use swagger_processor::splitter::{create_path_yaml, create_verb_yaml, merge_path_data, split_definition};
use swagger_processor::types::{APIDef, APIPath, APIVerb, RawDocument, RouteBody};

fn s(x: &str) -> Value {
    Value::String(x.to_string())
}

fn obj(entries: Vec<(&str, Value)>) -> Value {
    let mut m = serde_json::Map::new();
    for (k, v) in entries {
        m.insert(k.to_string(), v);
    }
    Value::Object(m)
}

fn summary(text: &str) -> Value {
    obj(vec![("summary", s(text))])
}

fn methods(entries: Vec<(&str, Value)>) -> RouteBody {
    RouteBody::Methods(entries.into_iter().map(|(k, v)| (k.to_string(), v)).collect())
}

#[test]
fn test_split_groups_share_resource_root() {
    // three raw routes, two canonical groups, one shared resource root
    let doc = RawDocument {
        skeleton: vec![("openapi".to_string(), s("3.0.0"))],
        routes: Some(vec![
            (
                "/api/v1/users".to_string(),
                methods(vec![
                    ("get", summary("from api v1")),
                    ("post", summary("create")),
                ]),
            ),
            (
                "/v2/users".to_string(),
                methods(vec![
                    ("get", summary("from v2")),
                    ("delete", summary("remove")),
                ]),
            ),
            (
                "/users/{id}".to_string(),
                methods(vec![("get", summary("one user"))]),
            ),
        ]),
    };

    let defs = split_definition(&doc).unwrap();

    let path_keys: Vec<&str> = defs
        .iter()
        .filter_map(|d| match d {
            APIDef::Path(p) => Some(p.path.as_str()),
            _ => None,
        })
        .collect();
    assert_eq!(path_keys, vec!["/users", "/users/{id}"]);

    let verbs: Vec<&APIVerb> = defs
        .iter()
        .filter_map(|d| match d {
            APIDef::Verb(v) => Some(v),
            _ => None,
        })
        .collect();
    assert_eq!(verbs.len(), 4);
    for v in &verbs {
        assert_eq!(v.root_path, "/users");
    }

    // the merged "/users" group keeps the first-seen "get" and unions the rest
    let users_yaml = defs
        .iter()
        .find_map(|d| match d {
            APIDef::Path(p) if p.path == "/users" => Some(&p.yaml),
            _ => None,
        })
        .unwrap();
    let parsed: Value = serde_yaml::from_str(users_yaml).unwrap();
    let users = &parsed["paths"]["/users"];
    assert_eq!(users["get"]["summary"], "from api v1");
    assert_eq!(users["post"]["summary"], "create");
    assert_eq!(users["delete"]["summary"], "remove");
}

#[test]
fn test_empty_paths_object_yields_skeleton_only() {
    let doc = RawDocument {
        skeleton: vec![
            ("openapi".to_string(), s("3.0.0")),
            ("info".to_string(), obj(vec![("title", s("Test"))])),
        ],
        routes: Some(vec![]),
    };

    let defs = split_definition(&doc).unwrap();
    assert!(defs.is_empty());

    let skeleton_yaml = render_skeleton(&doc).unwrap();
    let parsed: Value = serde_yaml::from_str(&skeleton_yaml).unwrap();
    let expected = obj(vec![
        ("openapi", s("3.0.0")),
        ("info", obj(vec![("title", s("Test"))])),
    ]);
    assert_eq!(parsed, expected);
}

#[test]
fn test_path_yaml_round_trip() {
    let doc = RawDocument {
        skeleton: vec![
            ("openapi".to_string(), s("3.0.0")),
            ("info".to_string(), obj(vec![("title", s("Test"))])),
        ],
        routes: None,
    };
    let body_entries = vec![
        ("get", summary("Get users")),
        ("post", summary("Create user")),
    ];
    let body = methods(body_entries.clone());

    let yaml = create_path_yaml(&doc, &"/test".to_string(), &body).unwrap();
    let parsed: Value = serde_yaml::from_str(&yaml).unwrap();

    let expected_paths = obj(vec![("/test", obj(body_entries))]);
    assert_eq!(parsed["paths"], expected_paths);
    assert_eq!(parsed["openapi"], "3.0.0");
}

#[test]
fn test_verb_yaml_round_trip() {
    let doc = RawDocument {
        skeleton: vec![("openapi".to_string(), s("3.0.0"))],
        routes: None,
    };
    let verb_data = summary("Get users");

    let yaml =
        create_verb_yaml(&doc, &"/test".to_string(), &"get".to_string(), &verb_data).unwrap();
    let parsed: Value = serde_yaml::from_str(&yaml).unwrap();

    let expected_paths = obj(vec![("/test", obj(vec![("get", verb_data.clone())]))]);
    assert_eq!(parsed["paths"], expected_paths);
}

#[test]
fn test_split_no_duplicate_operations() {
    // two raw routes collapse onto one canonical path with overlapping methods
    let doc = RawDocument {
        skeleton: vec![("openapi".to_string(), s("3.0.0"))],
        routes: Some(vec![
            (
                "/api/v1/users".to_string(),
                methods(vec![("get", summary("first")), ("post", summary("p"))]),
            ),
            (
                "/v1/users".to_string(),
                methods(vec![("get", summary("second")), ("put", summary("u"))]),
            ),
        ]),
    };

    let defs = split_definition(&doc).unwrap();
    let verb_keys: Vec<(String, String)> = defs
        .iter()
        .filter_map(|d| match d {
            APIDef::Verb(v) => Some((v.path.clone(), v.verb.clone())),
            _ => None,
        })
        .collect();

    // one fragment per distinct (canonical path, method) pair
    assert_eq!(verb_keys.len(), 3);
    for i in 0..verb_keys.len() {
        for j in (i + 1)..verb_keys.len() {
            assert_ne!(verb_keys[i], verb_keys[j]);
        }
    }
}

#[test]
fn test_merge_dedup_verbs_last_wins() {
    let first = APIDef::Verb(APIVerb {
        verb: "GET".to_string(),
        path: "/users".to_string(),
        root_path: "/users".to_string(),
        yaml: "a: 1".to_string(),
    });
    let second = APIDef::Verb(APIVerb {
        verb: "GET".to_string(),
        path: "/users".to_string(),
        root_path: "/users".to_string(),
        yaml: "b: 2".to_string(),
    });

    let merged = merge_definitions(vec![first, second]).unwrap();
    let verbs: Vec<&APIVerb> = merged
        .iter()
        .filter_map(|d| match d {
            APIDef::Verb(v) => Some(v),
            _ => None,
        })
        .collect();
    assert_eq!(verbs.len(), 1);
    assert_eq!(verbs[0].yaml, "b: 2");
}

#[test]
fn test_merge_path_data_partition_consistent() {
    // unioning two batches and then combining the results equals one
    // sequential union over the concatenation
    let a = vec![
        methods(vec![("get", summary("A"))]),
        methods(vec![("post", summary("B"))]),
    ];
    let b = vec![
        methods(vec![("get", summary("C"))]),
        methods(vec![("put", summary("D"))]),
    ];

    let mut whole = a.clone();
    whole.extend(b.clone());
    let sequential = merge_path_data(&whole);

    let ua = merge_path_data(&a);
    let ub = merge_path_data(&b);
    let combined = merge_path_data(&vec![ua, ub]);

    match (sequential, combined) {
        (RouteBody::Methods(m1), RouteBody::Methods(m2)) => {
            assert_eq!(m1, m2);
            let keys: Vec<&str> = m1.iter().map(|e| e.0.as_str()).collect();
            assert_eq!(keys, vec!["get", "post", "put"]);
            assert_eq!(m1[0].1, summary("A"));
        }
        _ => panic!("expected method maps"),
    }
}

#[test]
fn test_route_with_non_object_value() {
    let doc = RawDocument {
        skeleton: vec![("openapi".to_string(), s("3.0.0"))],
        routes: Some(vec![(
            "/raw".to_string(),
            RouteBody::Opaque(s("not an object")),
        )]),
    };

    let defs = split_definition(&doc).unwrap();
    assert_eq!(defs.len(), 1);
    match &defs[0] {
        APIDef::Path(p) => {
            assert_eq!(p.path, "/raw");
            let parsed: Value = serde_yaml::from_str(&p.yaml).unwrap();
            assert_eq!(parsed["paths"]["/raw"], s("not an object"));
        }
        APIDef::Verb(_) => panic!("a route without methods yields no operation fragments"),
    }
}

#[test]
fn test_merge_combines_roots_across_paths() {
    // two path fragments under one resource root merge into one document
    let doc = RawDocument {
        skeleton: vec![("openapi".to_string(), s("3.0.0"))],
        routes: Some(vec![
            (
                "/users".to_string(),
                methods(vec![("get", summary("list"))]),
            ),
            (
                "/users/{id}".to_string(),
                methods(vec![("get", summary("one"))]),
            ),
        ]),
    };

    let split = split_definition(&doc).unwrap();
    let merged = merge_definitions(split).unwrap();

    let paths: Vec<&APIPath> = merged
        .iter()
        .filter_map(|d| match d {
            APIDef::Path(p) => Some(p),
            _ => None,
        })
        .collect();
    assert_eq!(paths.len(), 1);
    assert_eq!(paths[0].path, "/users");

    let parsed: Value = serde_yaml::from_str(&paths[0].yaml).unwrap();
    assert_eq!(parsed["paths"]["/users"]["get"]["summary"], "list");
    assert_eq!(parsed["paths"]["/users/{id}"]["get"]["summary"], "one");
    assert_eq!(parsed["openapi"], "3.0.0");
}
