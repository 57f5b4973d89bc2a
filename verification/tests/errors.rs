use workflow_codec::decode;
use workflow_codec::encode;
use workflow_codec::errors::DecodingError;
use workflow_codec::errors::EncodingError;
use workflow_codec::errors::FileError;
use workflow_codec::Build;
use workflow_codec::Jobs;
use workflow_codec::Workflow;

#[test]
fn file_error_carries_its_description() {
    let e = FileError::new("could not open the workflow file");
    assert_eq!(e.description(), "could not open the workflow file");
}

#[test]
fn decoding_error_carries_its_description() {
    let e = DecodingError::new("bad document");
    assert_eq!(e.description(), "bad document");
    let failure = decode("not a workflow document").unwrap_err();
    assert!(!failure.description().is_empty());
}

#[test]
fn encoding_error_carries_its_description() {
    let e = EncodingError::new("bad value");
    assert_eq!(e.description(), "bad value");
    let w = Workflow {
        name: "a\nb".to_string(),
        on: "push".to_string(),
        jobs: Jobs {
            build: Build { runs_on: "r".to_string(), steps: vec![] },
        },
    };
    let failure = encode(&w).unwrap_err();
    assert!(!failure.description().is_empty());
}

#[test]
fn codec_errors_convert_into_file_errors() {
    let d = FileError::from(DecodingError::new("decode failed"));
    assert_eq!(d.description(), "decode failed");
    let e = FileError::from(EncodingError::new("encode failed"));
    assert_eq!(e.description(), "encode failed");
}
