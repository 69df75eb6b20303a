use file_search::pipeline::{
    dimensions_acceptable, join_spaces, prepare_semantic_vec, should_skip_image,
    sort_labels_desc, take_names, AnnotationDoc, AzureRequest, AzureResponse, Label,
};
use file_search::request::{caption_request_body, label_request_body};

#[test]
fn skip_decision_covers_every_gate() {
    // not a file, or not an image: not the pipeline's to process
    assert!(!should_skip_image(false, "/a/p.png", Some((300, 300)), false));
    assert!(!should_skip_image(true, "/a/notes.txt", Some((300, 300)), false));
    // unreadable dimensions: skipped
    assert!(should_skip_image(true, "/a/p.png", None, false));
    // dimensions out of 50..=16000 on either axis: skipped
    assert!(should_skip_image(true, "/a/p.png", Some((10, 300)), false));
    assert!(should_skip_image(true, "/a/p.png", Some((300, 49)), false));
    assert!(should_skip_image(true, "/a/p.png", Some((16001, 300)), false));
    // acceptable and new: processed
    assert!(!should_skip_image(true, "/a/p.png", Some((300, 300)), false));
    // dedup: already stored means skipped
    assert!(should_skip_image(true, "/a/p.png", Some((300, 300)), true));
}

#[test]
fn dimension_bounds_are_inclusive() {
    assert!(dimensions_acceptable(50, 50));
    assert!(dimensions_acceptable(16000, 16000));
    assert!(!dimensions_acceptable(49, 50));
    assert!(!dimensions_acceptable(50, 16001));
}

#[test]
fn response_requires_both_fields() {
    let ok = AzureResponse::try_from_doc(AnnotationDoc {
        caption: Some("red car".to_string()),
        labels: Some(vec![Label::new("car".to_string(), 900)]),
    });
    let ok = ok.expect("both fields present");
    assert_eq!(ok.caption, "red car");
    assert_eq!(ok.labels.len(), 1);
    assert!(AzureResponse::try_from_doc(AnnotationDoc {
        caption: None,
        labels: Some(vec![]),
    })
    .is_err());
    assert!(AzureResponse::try_from_doc(AnnotationDoc {
        caption: Some("x".to_string()),
        labels: None,
    })
    .is_err());
}

#[test]
fn labels_sort_by_descending_confidence() {
    let labels = vec![
        Label::new("sky".to_string(), 400),
        Label::new("car".to_string(), 950),
        Label::new("red".to_string(), 800),
    ];
    let sorted = sort_labels_desc(labels);
    let names: Vec<&str> = sorted.iter().map(|l| l.name.as_str()).collect();
    assert_eq!(names, vec!["car", "red", "sky"]);
    let top2: Vec<String> = take_names(&sorted, 2).iter().cloned().collect();
    assert_eq!(top2, vec!["car".to_string(), "red".to_string()]);
    let top9: Vec<String> = take_names(&sorted, 9).iter().cloned().collect();
    assert_eq!(top9.len(), 3);
}

#[test]
fn join_spaces_renders_fields() {
    assert_eq!(join_spaces(&vec![]), "");
    assert_eq!(join_spaces(&vec!["car".to_string()]), "car");
    assert_eq!(
        join_spaces(&vec!["red".to_string(), "car".to_string(), "sky".to_string()]),
        "red car sky"
    );
}

#[test]
fn semantic_vector_is_the_elementwise_mean() {
    assert_eq!(prepare_semantic_vec(&vec![1000, 0, -500], &vec![0, 1000, -500]), vec![
        500,
        500,
        -500
    ]);
    // truncation toward zero, as the scalars are integers
    assert_eq!(prepare_semantic_vec(&vec![1], &vec![0]), vec![0]);
    assert_eq!(prepare_semantic_vec(&vec![-1], &vec![0]), vec![0]);
}

#[test]
fn request_carries_key_and_features() {
    let r = AzureRequest::new("SECRET-REDACTED", vec!["tags", "caption"]);
    assert_eq!(r.headers.len(), 2);
    assert_eq!(r.headers[0].0, "Ocp-Apim-Subscription-Key");
    assert_eq!(r.headers[0].1, "SECRET-REDACTED");
    assert_eq!(r.headers[1].1, "application/octet-stream");
    assert!(r.request_adress.ends_with("features=tags,caption"));
    assert!(r.img.is_empty());
}

#[test]
fn request_bodies_hold_the_encoded_image() {
    // base64 of "abc" is "YWJj": the wrapper must really encode
    let body = label_request_body(&vec![b'a', b'b', b'c']);
    assert!(body.contains("\"content\":\"YWJj\""));
    assert!(body.contains("LABEL_DETECTION"));
    let body2 = caption_request_body(&vec![b'a', b'b', b'c']);
    assert!(body2.contains("\"bytesBase64Encoded\":\"YWJj\""));
    assert!(body2.contains("\"sampleCount\":1"));
}
