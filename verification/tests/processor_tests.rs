use serde_json::Value;
use swagger_processor::merger::{merge_definitions, merge_path_group};
use swagger_processor::processor::{process_document, render_skeleton};
use swagger_processor::splitter::{
    create_path_yaml, create_verb_yaml, merge_path_data, process_path_group, split_definition,
};
use swagger_processor::types::{APIDef, RawDocument, RouteBody};

fn s(x: &str) -> Value {
    Value::String(x.to_string())
}

fn obj(entries: Vec<(&str, Value)>) -> Value {
    let mut m = serde_json::Map::new();
    for (k, v) in entries {
        m.insert(k.to_string(), v);
    }
    Value::Object(m)
}

fn summary(text: &str) -> Value {
    obj(vec![("summary", s(text))])
}

fn methods(entries: Vec<(&str, Value)>) -> RouteBody {
    RouteBody::Methods(entries.into_iter().map(|(k, v)| (k.to_string(), v)).collect())
}

fn sample_doc() -> RawDocument {
    RawDocument {
        skeleton: vec![
            ("openapi".to_string(), s("3.0.0")),
            (
                "info".to_string(),
                obj(vec![("title", s("Test API")), ("version", s("1.0.0"))]),
            ),
        ],
        routes: Some(vec![
            (
                "/api/v1/users".to_string(),
                methods(vec![
                    ("get", summary("Get users")),
                    ("post", summary("Create user")),
                ]),
            ),
            (
                "/api/v1/posts".to_string(),
                methods(vec![("get", summary("Get posts"))]),
            ),
        ]),
    }
}

#[test]
fn test_split_definition_no_paths() {
    let doc = RawDocument {
        skeleton: vec![
            ("openapi".to_string(), s("3.0.0")),
            ("info".to_string(), obj(vec![("title", s("Test"))])),
        ],
        routes: None,
    };
    let result = split_definition(&doc);
    assert!(result.is_ok());
    assert!(result.unwrap().is_empty());
}

#[test]
fn test_split_definition_with_paths() {
    let doc = sample_doc();
    let result = split_definition(&doc);
    assert!(result.is_ok());
    let definitions = result.unwrap();
    assert!(!definitions.is_empty());
    let paths: Vec<_> = definitions.iter().filter(|d| matches!(d, APIDef::Path(_))).collect();
    let verbs: Vec<_> = definitions.iter().filter(|d| matches!(d, APIDef::Verb(_))).collect();
    assert!(!paths.is_empty());
    assert!(!verbs.is_empty());
}

#[test]
fn test_process_path_group_single_path() {
    let doc = sample_doc();
    let group = vec![methods(vec![
        ("get", summary("Get users")),
        ("post", summary("Create user")),
    ])];
    let result = process_path_group(&doc, &"/users".to_string(), &group);
    assert!(result.is_ok());

    let definitions = result.unwrap();
    assert_eq!(definitions.len(), 3); // 1 path + 2 verbs
}

#[test]
fn test_create_path_yaml() {
    let doc = sample_doc();
    let path_data = methods(vec![("get", summary("Test"))]);
    let result = create_path_yaml(&doc, &"/test".to_string(), &path_data);

    assert!(result.is_ok());
    let yaml_str = result.unwrap();
    assert!(yaml_str.contains("openapi"));
    assert!(yaml_str.contains("/test"));
}

#[test]
fn test_create_verb_yaml() {
    let doc = sample_doc();
    let verb_data = summary("Test verb");
    let result = create_verb_yaml(&doc, &"/test".to_string(), &"get".to_string(), &verb_data);

    assert!(result.is_ok());
    let yaml_str = result.unwrap();
    assert!(yaml_str.contains("openapi"));
    assert!(yaml_str.contains("/test"));
    assert!(yaml_str.contains("get"));
}

#[test]
fn test_merge_path_data_single_entry() {
    let entries = vec![("get".to_string(), summary("Test"))];
    let group = vec![RouteBody::Methods(entries.clone())];

    let result = merge_path_data(&group);
    match result {
        RouteBody::Methods(m) => assert_eq!(m, entries),
        RouteBody::Opaque(_) => panic!("expected a method map"),
    }
}

#[test]
fn test_merge_path_data_multiple_entries() {
    let group = vec![
        methods(vec![("get", summary("Get"))]),
        methods(vec![("post", summary("Post"))]),
    ];

    let result = merge_path_data(&group);
    match result {
        RouteBody::Methods(m) => {
            assert!(m.iter().any(|e| e.0 == "get"));
            assert!(m.iter().any(|e| e.0 == "post"));
        }
        RouteBody::Opaque(_) => panic!("expected a method map"),
    }
}

#[test]
fn test_merge_definitions_parallel_empty() {
    let result = merge_definitions(Vec::new());
    assert!(result.is_ok());
    assert!(result.unwrap().is_empty());
}

#[test]
fn test_merge_definitions_parallel_with_data() {
    let path_def = APIDef::Path(swagger_processor::types::APIPath {
        path: "/users".to_string(),
        yaml: "test: yaml".to_string(),
    });
    let verb_def = APIDef::Verb(swagger_processor::types::APIVerb {
        verb: "GET".to_string(),
        path: "/users".to_string(),
        root_path: "/users".to_string(),
        yaml: "test: yaml".to_string(),
    });

    let definitions = vec![path_def, verb_def];
    let result = merge_definitions(definitions);

    assert!(result.is_ok());
    let merged = result.unwrap();
    assert_eq!(merged.len(), 2);
}

#[test]
fn test_merge_path_group_single_path() {
    let yaml = serde_yaml::to_string(&obj(vec![
        ("openapi", s("3.0.0")),
        (
            "paths",
            obj(vec![("/test", obj(vec![("get", summary("Test"))]))]),
        ),
    ]))
    .unwrap();
    let path_def = APIDef::Path(swagger_processor::types::APIPath {
        path: "/test".to_string(),
        yaml,
    });

    let result = merge_path_group("/test".to_string(), vec![path_def]);
    assert!(result.is_ok());

    if let APIDef::Path(merged_path) = result.unwrap() {
        assert_eq!(merged_path.path, "/test");
        assert!(merged_path.yaml.contains("openapi"));
    } else {
        panic!("Expected Path variant");
    }
}

#[test]
fn test_error_handling_invalid_yaml_in_merge() {
    let invalid_path = APIDef::Path(swagger_processor::types::APIPath {
        path: "/test".to_string(),
        yaml: "invalid: yaml: content: [".to_string(),
    });

    let result = merge_path_group("/test".to_string(), vec![invalid_path]);
    assert!(result.is_err());
}

#[test]
fn test_error_parse_variant() {
    let invalid_path = APIDef::Path(swagger_processor::types::APIPath {
        path: "/test".to_string(),
        yaml: "invalid: yaml: content: [".to_string(),
    });

    let result = merge_path_group("/test".to_string(), vec![invalid_path]);
    match result {
        Err(swagger_processor::types::ProcessError::Parse { message }) => {
            assert!(message.contains("Error parsing YAML"));
        }
        _ => panic!("expected a parse error"),
    }
}

#[test]
fn test_empty_api_definition() {
    let doc = RawDocument {
        skeleton: vec![
            ("openapi".to_string(), s("3.0.0")),
            ("info".to_string(), obj(vec![("title", s("Empty API"))])),
        ],
        routes: Some(vec![]),
    };
    let result = split_definition(&doc);
    assert!(result.is_ok());
    assert!(result.unwrap().is_empty());
}

#[test]
fn test_path_normalization_in_processing() {
    let doc = RawDocument {
        skeleton: vec![
            ("openapi".to_string(), s("3.0.0")),
            ("info".to_string(), obj(vec![("title", s("Test API"))])),
        ],
        routes: Some(vec![
            (
                "/api/v1/users".to_string(),
                methods(vec![("get", summary("V1 Get users"))]),
            ),
            (
                "/api/v2/users".to_string(),
                methods(vec![("post", summary("V2 Create user"))]),
            ),
            (
                "/v3/users".to_string(),
                methods(vec![("delete", summary("V3 Delete user"))]),
            ),
        ]),
    };

    let result = split_definition(&doc);
    assert!(result.is_ok());

    let definitions = result.unwrap();
    let paths: Vec<&str> = definitions
        .iter()
        .map(|d| match d {
            APIDef::Path(path) => path.path.as_str(),
            APIDef::Verb(verb) => verb.path.as_str(),
        })
        .collect();

    for path in paths {
        assert_eq!(path, "/users");
    }
}

#[test]
fn test_parallel_processing_consistency() {
    let mut routes = Vec::new();
    for i in 0..100 {
        routes.push((
            format!("/api/v1/resource{}", i),
            methods(vec![
                ("get", summary(&format!("Get resource {}", i))),
                ("post", summary(&format!("Create resource {}", i))),
            ]),
        ));
    }

    let doc = RawDocument {
        skeleton: vec![
            ("openapi".to_string(), s("3.0.0")),
            (
                "info".to_string(),
                obj(vec![("title", s("Large API")), ("version", s("1.0.0"))]),
            ),
        ],
        routes: Some(routes),
    };

    let result = split_definition(&doc);
    assert!(result.is_ok());

    let definitions = result.unwrap();
    assert_eq!(definitions.len(), 300); // 100 paths + 200 verbs
}

#[test]
fn test_memory_efficiency_large_dataset() {
    let mut routes = Vec::new();
    for i in 0..1000 {
        let mut verbs = Vec::new();
        for verb in &["get", "post", "put", "delete", "patch"] {
            verbs.push((
                verb.to_string(),
                obj(vec![
                    ("summary", s(&format!("{} resource {} operation", verb, i))),
                    (
                        "parameters",
                        Value::Array(vec![obj(vec![
                            ("name", s("id")),
                            ("in", s("path")),
                            ("required", Value::Bool(true)),
                            ("schema", obj(vec![("type", s("integer"))])),
                        ])]),
                    ),
                    (
                        "responses",
                        obj(vec![("200", obj(vec![("description", s("Success"))]))]),
                    ),
                ]),
            ));
        }
        routes.push((format!("/api/v1/resource{}", i), RouteBody::Methods(verbs)));
    }

    let doc = RawDocument {
        skeleton: vec![
            ("openapi".to_string(), s("3.0.0")),
            (
                "info".to_string(),
                obj(vec![("title", s("Very Large API")), ("version", s("1.0.0"))]),
            ),
        ],
        routes: Some(routes),
    };

    let start_time = std::time::Instant::now();
    let result = split_definition(&doc);
    let duration = start_time.elapsed();

    assert!(result.is_ok());
    let definitions = result.unwrap();
    assert_eq!(definitions.len(), 6000); // 1000 paths + 5000 verbs

    assert!(duration.as_secs() < 5);
}

#[test]
fn test_yaml_creation_preserves_structure() {
    let doc = RawDocument {
        skeleton: vec![
            ("openapi".to_string(), s("3.0.0")),
            (
                "info".to_string(),
                obj(vec![
                    ("title", s("Test API")),
                    ("version", s("1.0.0")),
                    ("description", s("A test API")),
                ]),
            ),
            (
                "servers".to_string(),
                Value::Array(vec![obj(vec![("url", s("https://api.example.com"))])]),
            ),
            (
                "components".to_string(),
                obj(vec![(
                    "schemas",
                    obj(vec![(
                        "User",
                        obj(vec![
                            ("type", s("object")),
                            (
                                "properties",
                                obj(vec![
                                    ("id", obj(vec![("type", s("integer"))])),
                                    ("name", obj(vec![("type", s("string"))])),
                                ]),
                            ),
                        ]),
                    )]),
                )]),
            ),
        ],
        routes: None,
    };

    let path_data = methods(vec![("get", summary("Get users"))]);
    let result = create_path_yaml(&doc, &"/users".to_string(), &path_data);

    assert!(result.is_ok());
    let yaml_str = result.unwrap();

    let parsed: Value = serde_yaml::from_str(&yaml_str).unwrap();
    assert_eq!(parsed["openapi"], "3.0.0");
    assert_eq!(parsed["info"]["title"], "Test API");
    assert!(parsed["servers"].is_array());
    assert!(parsed["components"]["schemas"]["User"].is_object());
    assert!(parsed["paths"]["/users"]["get"].is_object());
}

#[test]
fn test_verb_yaml_structure() {
    let doc = RawDocument {
        skeleton: vec![
            ("openapi".to_string(), s("3.0.0")),
            ("info".to_string(), obj(vec![("title", s("Test API"))])),
        ],
        routes: None,
    };

    let verb_data = obj(vec![
        ("summary", s("Create user")),
        (
            "requestBody",
            obj(vec![(
                "content",
                obj(vec![(
                    "application/json",
                    obj(vec![(
                        "schema",
                        obj(vec![("$ref", s("#/components/schemas/User"))]),
                    )]),
                )]),
            )]),
        ),
        (
            "responses",
            obj(vec![("201", obj(vec![("description", s("User created"))]))]),
        ),
    ]);

    let result = create_verb_yaml(&doc, &"/users".to_string(), &"post".to_string(), &verb_data);
    assert!(result.is_ok());

    let yaml_str = result.unwrap();
    let parsed: Value = serde_yaml::from_str(&yaml_str).unwrap();

    assert_eq!(parsed["paths"]["/users"]["post"]["summary"], "Create user");
    assert!(parsed["paths"]["/users"]["post"]["requestBody"].is_object());
    assert!(parsed["paths"]["/users"]["post"]["responses"]["201"].is_object());
}

#[test]
fn test_split_definition_with_parameters() {
    let doc = RawDocument {
        skeleton: vec![
            ("openapi".to_string(), s("3.0.0")),
            ("info".to_string(), obj(vec![("title", s("Test API"))])),
        ],
        routes: Some(vec![(
            "/users/{id}".to_string(),
            methods(vec![(
                "get",
                obj(vec![
                    (
                        "parameters",
                        Value::Array(vec![obj(vec![
                            ("name", s("id")),
                            ("in", s("path")),
                            ("required", Value::Bool(true)),
                            ("schema", obj(vec![("type", s("integer"))])),
                        ])]),
                    ),
                    (
                        "responses",
                        obj(vec![("200", obj(vec![("description", s("Success"))]))]),
                    ),
                ]),
            )]),
        )]),
    };

    let result = split_definition(&doc);
    assert!(result.is_ok());

    let definitions = result.unwrap();
    assert!(!definitions.is_empty());

    let verb_defs: Vec<_> = definitions
        .iter()
        .filter_map(|d| match d {
            APIDef::Verb(verb) => Some(verb),
            _ => None,
        })
        .collect();

    assert!(!verb_defs.is_empty());
    let yaml_str = &verb_defs[0].yaml;
    assert!(yaml_str.contains("parameters"));
    assert!(yaml_str.contains("id"));
}

#[test]
fn test_split_definition_with_security() {
    let doc = RawDocument {
        skeleton: vec![
            ("openapi".to_string(), s("3.0.0")),
            ("info".to_string(), obj(vec![("title", s("Test API"))])),
            (
                "components".to_string(),
                obj(vec![(
                    "securitySchemes",
                    obj(vec![(
                        "bearerAuth",
                        obj(vec![("type", s("http")), ("scheme", s("bearer"))]),
                    )]),
                )]),
            ),
        ],
        routes: Some(vec![(
            "/secure".to_string(),
            methods(vec![(
                "get",
                obj(vec![
                    (
                        "security",
                        Value::Array(vec![obj(vec![("bearerAuth", Value::Array(vec![]))])]),
                    ),
                    (
                        "responses",
                        obj(vec![("200", obj(vec![("description", s("Success"))]))]),
                    ),
                ]),
            )]),
        )]),
    };

    let result = split_definition(&doc);
    assert!(result.is_ok());

    let definitions = result.unwrap();
    assert!(!definitions.is_empty());

    let path_defs: Vec<_> = definitions
        .iter()
        .filter_map(|d| match d {
            APIDef::Path(path) => Some(path),
            _ => None,
        })
        .collect();

    assert!(!path_defs.is_empty());
    let yaml_str = &path_defs[0].yaml;
    assert!(yaml_str.contains("securitySchemes"));
    assert!(yaml_str.contains("bearerAuth"));
}

#[test]
fn test_split_definition_with_references() {
    let doc = RawDocument {
        skeleton: vec![
            ("openapi".to_string(), s("3.0.0")),
            ("info".to_string(), obj(vec![("title", s("Test API"))])),
            (
                "components".to_string(),
                obj(vec![(
                    "schemas",
                    obj(vec![(
                        "User",
                        obj(vec![
                            ("type", s("object")),
                            (
                                "properties",
                                obj(vec![
                                    ("id", obj(vec![("type", s("integer"))])),
                                    ("name", obj(vec![("type", s("string"))])),
                                ]),
                            ),
                        ]),
                    )]),
                )]),
            ),
        ],
        routes: Some(vec![(
            "/users".to_string(),
            methods(vec![(
                "get",
                obj(vec![(
                    "responses",
                    obj(vec![(
                        "200",
                        obj(vec![
                            ("description", s("Success")),
                            (
                                "content",
                                obj(vec![(
                                    "application/json",
                                    obj(vec![(
                                        "schema",
                                        obj(vec![
                                            ("type", s("array")),
                                            (
                                                "items",
                                                obj(vec![(
                                                    "$ref",
                                                    s("#/components/schemas/User"),
                                                )]),
                                            ),
                                        ]),
                                    )]),
                                )]),
                            ),
                        ]),
                    )]),
                )]),
            )]),
        )]),
    };

    let result = split_definition(&doc);
    assert!(result.is_ok());

    let definitions = result.unwrap();
    assert!(!definitions.is_empty());

    let verb_defs: Vec<_> = definitions
        .iter()
        .filter_map(|d| match d {
            APIDef::Verb(verb) => Some(verb),
            _ => None,
        })
        .collect();

    assert!(!verb_defs.is_empty());
    let yaml_str = &verb_defs[0].yaml;
    assert!(yaml_str.contains("$ref"));
    assert!(yaml_str.contains("#/components/schemas/User"));
}

#[test]
fn test_memory_usage_with_large_responses() {
    let mut large_schema = Vec::new();
    let mut names = Vec::new();
    for i in 0..100 {
        names.push(format!("field{}", i));
    }
    for name in &names {
        large_schema.push((
            name.as_str(),
            obj(vec![
                ("type", s("object")),
                (
                    "properties",
                    obj(vec![
                        ("id", obj(vec![("type", s("integer"))])),
                        ("name", obj(vec![("type", s("string"))])),
                        ("description", obj(vec![("type", s("string"))])),
                    ]),
                ),
            ]),
        ));
    }

    let doc = RawDocument {
        skeleton: vec![
            ("openapi".to_string(), s("3.0.0")),
            ("info".to_string(), obj(vec![("title", s("Test API"))])),
        ],
        routes: Some(vec![(
            "/large".to_string(),
            methods(vec![(
                "get",
                obj(vec![(
                    "responses",
                    obj(vec![(
                        "200",
                        obj(vec![
                            ("description", s("Success")),
                            (
                                "content",
                                obj(vec![(
                                    "application/json",
                                    obj(vec![(
                                        "schema",
                                        obj(vec![
                                            ("type", s("object")),
                                            ("properties", obj(large_schema)),
                                        ]),
                                    )]),
                                )]),
                            ),
                        ]),
                    )]),
                )]),
            )]),
        )]),
    };

    let start_time = std::time::Instant::now();
    let result = split_definition(&doc);
    let duration = start_time.elapsed();

    assert!(result.is_ok());
    let definitions = result.unwrap();
    assert!(!definitions.is_empty());

    assert!(duration.as_secs() < 2);
}

#[test]
fn test_api_version_compatibility() {
    let swagger_doc = RawDocument {
        skeleton: vec![
            ("swagger".to_string(), s("2.0")),
            ("info".to_string(), obj(vec![("title", s("Test API"))])),
        ],
        routes: Some(vec![(
            "/users".to_string(),
            methods(vec![(
                "get",
                obj(vec![(
                    "responses",
                    obj(vec![("200", obj(vec![("description", s("Success"))]))]),
                )]),
            )]),
        )]),
    };

    let result = split_definition(&swagger_doc);
    assert!(result.is_ok());

    let openapi_31_doc = RawDocument {
        skeleton: vec![
            ("openapi".to_string(), s("3.1.0")),
            ("info".to_string(), obj(vec![("title", s("Test API"))])),
        ],
        routes: Some(vec![(
            "/users".to_string(),
            methods(vec![(
                "get",
                obj(vec![(
                    "responses",
                    obj(vec![("200", obj(vec![("description", s("Success"))]))]),
                )]),
            )]),
        )]),
    };

    let result = split_definition(&openapi_31_doc);
    assert!(result.is_ok());
}

#[test]
fn test_error_handling_missing_required_fields() {
    let doc = RawDocument {
        skeleton: vec![("info".to_string(), obj(vec![("title", s("Test API"))]))],
        routes: Some(vec![(
            "/test".to_string(),
            methods(vec![(
                "get",
                obj(vec![(
                    "responses",
                    obj(vec![("200", obj(vec![("description", s("Success"))]))]),
                )]),
            )]),
        )]),
    };

    let result = split_definition(&doc);
    assert!(result.is_ok());
}

#[test]
fn test_process_api_definition_integration() {
    let doc = sample_doc();
    let result = process_document(&doc);
    assert!(result.is_ok());
    assert!(!result.unwrap().is_empty());
}
