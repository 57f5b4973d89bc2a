use workflow_codec::decode;
use workflow_codec::encode;
use workflow_codec::normalize;
use workflow_codec::Build;
use workflow_codec::Jobs;
use workflow_codec::Steps;
use workflow_codec::Workflow;

fn sample_workflow() -> Workflow {
    Workflow {
        name: "Rust".to_string(),
        on: "push".to_string(),
        jobs: Jobs {
            build: Build {
                runs_on: String::from("ubuntu-latest"),
                steps: vec![
                    Steps::uses { uses: String::from("actions/checkout@v1") },
                    Steps::name {
                        name: String::from("Build"),
                        run: String::from("cargo build --verbose"),
                    },
                    Steps::name {
                        name: String::from("Run tests"),
                        run: String::from("cargo test --verbose"),
                    },
                ],
            },
        },
    }
}

const CANONICAL: &str = "name: Rust\non: push\njobs:\n  build:\n    runs_on: ubuntu-latest\n    steps:\n    - uses: actions/checkout@v1\n    - name: Build\n      run: cargo build --verbose\n    - name: Run tests\n      run: cargo test --verbose";

#[test]
fn test_struct() {
    let original_workflow = sample_workflow();
    let workflow_string = encode(&original_workflow).unwrap();
    let workflow_string = normalize(&workflow_string);
    let deserialized_workflow: Workflow = decode(&workflow_string).unwrap();
    assert_eq!(original_workflow, deserialized_workflow);
}

#[test]
fn canonical_document() {
    let w = sample_workflow();
    let text = normalize(&encode(&w).unwrap());
    assert_eq!(text, CANONICAL);
    let decoded = decode(CANONICAL).unwrap();
    assert_eq!(w, decoded);
}

#[test]
fn quoted_on_key_is_accepted() {
    let w = sample_workflow();
    let raw = encode(&w).unwrap();
    assert!(raw.contains("\"on\": push"));
    let decoded = decode(&raw).unwrap();
    assert_eq!(w, decoded);
}

#[test]
fn normalize_rewrites_only_the_on_key_line() {
    assert_eq!(normalize("\"on\": push"), "on: push");
    assert_eq!(normalize("name: \"on\""), "name: \"on\"");
    assert_eq!(normalize("a \"on\": b\nc"), "a \"on\": b\nc");
    assert_eq!(normalize("hello"), "hello");
    assert_eq!(normalize(""), "");
}

#[test]
fn normalize_is_idempotent() {
    let samples = [
        "\"on\": push\n\"on\": pull",
        CANONICAL,
        "name: \"on\"\n\"on\": x\njunk",
        "",
        "\n\n\"on\": a\n",
    ];
    for t in samples {
        let once = normalize(t);
        let twice = normalize(&once);
        assert_eq!(twice, once);
    }
}

#[test]
fn order_of_steps_is_preserved() {
    let w = Workflow {
        name: "n".to_string(),
        on: "push".to_string(),
        jobs: Jobs {
            build: Build {
                runs_on: "r".to_string(),
                steps: vec![
                    Steps::name { name: "b".to_string(), run: "cargo b".to_string() },
                    Steps::uses { uses: "one".to_string() },
                    Steps::uses { uses: "two".to_string() },
                    Steps::name { name: "t".to_string(), run: "cargo t".to_string() },
                ],
            },
        },
    };
    let decoded = decode(&encode(&w).unwrap()).unwrap();
    assert_eq!(decoded.jobs.build.steps.len(), 4);
    assert_eq!(w.jobs.build.steps, decoded.jobs.build.steps);
    match &decoded.jobs.build.steps[1] {
        Steps::uses { uses } => assert_eq!(uses, "one"),
        _ => panic!("second step should reference an action"),
    }
    match &decoded.jobs.build.steps[2] {
        Steps::uses { uses } => assert_eq!(uses, "two"),
        _ => panic!("third step should reference an action"),
    }
}

fn doc_with_steps(steps: &str) -> String {
    format!(
        "name: n\non: push\njobs:\n  build:\n    runs_on: r\n    steps:{}",
        steps
    )
}

#[test]
fn step_with_uses_key_only_decodes_to_uses() {
    let doc = doc_with_steps("\n    - uses: x");
    let w = decode(&doc).unwrap();
    assert_eq!(w.jobs.build.steps.len(), 1);
    match &w.jobs.build.steps[0] {
        Steps::uses { uses } => assert_eq!(uses, "x"),
        _ => panic!("expected a uses step"),
    }
}

#[test]
fn step_with_name_and_run_decodes_to_run_step() {
    let doc = doc_with_steps("\n    - name: a\n      run: b");
    let w = decode(&doc).unwrap();
    assert_eq!(w.jobs.build.steps.len(), 1);
    match &w.jobs.build.steps[0] {
        Steps::name { name, run } => {
            assert_eq!(name, "a");
            assert_eq!(run, "b");
        },
        _ => panic!("expected a named run step"),
    }
}

#[test]
fn step_keys_in_either_order_decode_alike() {
    let doc = doc_with_steps("\n    - run: b\n      name: a");
    let w = decode(&doc).unwrap();
    match &w.jobs.build.steps[0] {
        Steps::name { name, run } => {
            assert_eq!(name, "a");
            assert_eq!(run, "b");
        },
        _ => panic!("expected a named run step"),
    }
}

#[test]
fn step_with_other_key_sets_fails() {
    assert!(decode(&doc_with_steps("\n    - name: a")).is_err());
    assert!(decode(&doc_with_steps("\n    - run: b")).is_err());
    assert!(decode(&doc_with_steps("\n    - uses: x\n      name: a")).is_err());
    assert!(decode(&doc_with_steps("\n    - ")).is_err());
    assert!(decode(&doc_with_steps("\n    - with: y")).is_err());
}

#[test]
fn empty_steps_round_trip() {
    let w = Workflow {
        name: "n".to_string(),
        on: "pull".to_string(),
        jobs: Jobs {
            build: Build { runs_on: "r".to_string(), steps: vec![] },
        },
    };
    let decoded = decode(&normalize(&encode(&w).unwrap())).unwrap();
    assert_eq!(w, decoded);
}

#[test]
fn name_value_on_is_left_untouched() {
    let w = Workflow {
        name: "on".to_string(),
        on: "push".to_string(),
        jobs: Jobs {
            build: Build { runs_on: "r".to_string(), steps: vec![] },
        },
    };
    let text = normalize(&encode(&w).unwrap());
    assert!(text.starts_with("name: on\non: push\n"));
    let decoded = decode(&text).unwrap();
    assert_eq!(decoded.name, "on");
    assert_eq!(w, decoded);
}

#[test]
fn malformed_documents_fail() {
    assert!(decode("").is_err());
    assert!(decode("name: n").is_err());
    assert!(decode("name: n\non: push\njobs:\n  build:\n    runs_on: r").is_err());
    assert!(decode("name: n\non: push\njobs: x\n  build:\n    runs_on: r\n    steps:").is_err());
    assert!(decode("title: n\non: push\njobs:\n  build:\n    runs_on: r\n    steps:").is_err());
    assert!(decode("name: n\ntrigger: push\njobs:\n  build:\n    runs_on: r\n    steps:").is_err());
    assert!(decode("name: n\non: push\njobs:\n  deploy:\n    runs_on: r\n    steps:").is_err());
    assert!(decode("name: n\non: push\njobs:\n  build:\n    image: r\n    steps:").is_err());
    assert!(decode("name: n\non: push\njobs:\n  build:\n    runs_on: r\n    steps: []").is_err());
}

#[test]
fn strings_with_line_feeds_cannot_be_encoded() {
    let w = Workflow {
        name: "a\nb".to_string(),
        on: "push".to_string(),
        jobs: Jobs {
            build: Build { runs_on: "r".to_string(), steps: vec![] },
        },
    };
    assert!(encode(&w).is_err());
    let w2 = Workflow {
        name: "a".to_string(),
        on: "push".to_string(),
        jobs: Jobs {
            build: Build {
                runs_on: "r".to_string(),
                steps: vec![Steps::name { name: "x".to_string(), run: "c\nd".to_string() }],
            },
        },
    };
    assert!(encode(&w2).is_err());
}
