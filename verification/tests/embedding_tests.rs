use file_search::embedding::Embedding;
use file_search::fixedpoint::{isqrt, parse_fixed};

fn engine(table: &str) -> Embedding {
    let mut e = Embedding::new();
    e.get_embeddings(table).expect("table must parse");
    e
}

#[test]
fn parse_fixed_reads_thousandths() {
    assert_eq!(parse_fixed("1"), Some(1000));
    assert_eq!(parse_fixed("0.5"), Some(500));
    assert_eq!(parse_fixed("-1.25"), Some(-1250));
    assert_eq!(parse_fixed("1.2345"), Some(1234));
    assert_eq!(parse_fixed("0.001"), Some(1));
    assert_eq!(parse_fixed("0.0"), Some(0));
    assert_eq!(parse_fixed("12.3"), Some(12300));
}

#[test]
fn parse_fixed_rejects_malformed_literals() {
    assert_eq!(parse_fixed(""), None);
    assert_eq!(parse_fixed("-"), None);
    assert_eq!(parse_fixed("."), None);
    assert_eq!(parse_fixed("1."), None);
    assert_eq!(parse_fixed(".5"), None);
    assert_eq!(parse_fixed("1.2.3"), None);
    assert_eq!(parse_fixed("abc"), None);
    assert_eq!(parse_fixed("1e3"), None);
    assert_eq!(parse_fixed("99999999999"), None);
}

#[test]
fn isqrt_is_the_floor_square_root() {
    assert_eq!(isqrt(0), 0);
    assert_eq!(isqrt(1), 1);
    assert_eq!(isqrt(3), 1);
    assert_eq!(isqrt(4), 2);
    assert_eq!(isqrt(1000000), 1000);
    assert_eq!(isqrt(999999), 999);
}

#[test]
fn table_loads_and_reports_dimensions() {
    let e = engine("red 1 0\ncar 0 1\n");
    assert_eq!(e.dims(), 2);
}

#[test]
fn malformed_tables_fail_initialization() {
    assert!(Embedding::new().get_embeddings("").is_err());
    assert!(Embedding::new().get_embeddings("token").is_err());
    assert!(Embedding::new().get_embeddings("a 1 2\nb 3\n").is_err());
    assert!(Embedding::new().get_embeddings("a 1 x\n").is_err());
}

#[test]
fn empty_text_averages_to_the_zero_vector() {
    // embedding determinism: the empty input gives the zero vector
    let e = engine("red 1 0\ncar 0 1\n");
    assert_eq!(e.average_vector(""), vec![0, 0]);
}

#[test]
fn unknown_words_average_to_the_zero_vector() {
    // embedding determinism: an all-unknown input gives the zero vector too
    let e = engine("red 1 0\ncar 0 1\n");
    assert_eq!(e.average_vector("no such words"), vec![0, 0]);
}

#[test]
fn average_vector_averages_matched_tokens() {
    let e = engine("red 1 0\ncar 0 1\n");
    assert_eq!(e.average_vector("red car"), vec![500, 500]);
    assert_eq!(e.average_vector("red"), vec![1000, 0]);
    // unknown tokens are skipped, not counted
    assert_eq!(e.average_vector("red zzz"), vec![1000, 0]);
    // tokenization strips non-alphabetic characters and lowercases
    assert_eq!(e.average_vector("ReD, 123 cAr!"), vec![500, 500]);
}

#[test]
fn cosine_similarity_in_thousandths() {
    assert_eq!(
        Embedding::cosine_similarity(&vec![1000, 0], &vec![1000, 0]),
        Some(1000)
    );
    assert_eq!(Embedding::cosine_similarity(&vec![1000, 0], &vec![0, 1000]), Some(0));
    assert_eq!(
        Embedding::cosine_similarity(&vec![1000, 0], &vec![1000, 1000]),
        Some(707)
    );
}

#[test]
fn cosine_of_a_zero_vector_is_undefined() {
    assert_eq!(Embedding::cosine_similarity(&vec![0, 0], &vec![1000, 0]), None);
    assert_eq!(Embedding::cosine_similarity(&vec![1000, 0], &vec![0, 0]), None);
}

#[test]
fn semantic_vector_means_phrase_averages() {
    let e = engine("red 1 0\ncar 0 1\n");
    let phrases = vec!["red".to_string(), "car".to_string()];
    assert_eq!(e.semantic_vector(&phrases), vec![500, 500]);
    assert_eq!(e.semantic_vector(&Vec::new()), vec![0, 0]);
}

#[test]
fn similarity_of_texts_uses_their_averages() {
    let e = engine("red 1 0\ncar 0 1\n");
    assert_eq!(e.similarity_string("red", "red"), Some(1000));
    assert_eq!(e.similarity_string("red", "car"), Some(0));
    // a text that embeds to zero has no defined similarity
    assert_eq!(e.similarity_string("red", "unknown words"), None);
}

#[test]
fn resize_targets_the_long_axis() {
    assert_eq!(file_search::pipeline::resize_dimensions(800, 400), (600, 300));
    assert_eq!(file_search::pipeline::resize_dimensions(400, 800), (300, 600));
    assert_eq!(file_search::pipeline::resize_dimensions(500, 500), (600, 600));
}

#[test]
fn cosine_stays_within_one_for_tiny_vectors() {
    // raw unit values: the scaled root keeps the quotient within 1.0
    assert_eq!(Embedding::cosine_similarity(&vec![1, 1, 0], &vec![1, 1, 1]), Some(816));
    assert_eq!(Embedding::cosine_similarity(&vec![1, 0], &vec![1, 1]), Some(707));
    assert_eq!(Embedding::cosine_similarity(&vec![1, 0], &vec![1, 0]), Some(1000));
    for (a, b) in [
        (vec![1i64, 1, 0], vec![1i64, 1, 1]),
        (vec![3, -2], vec![-5, 7]),
        (vec![1, 2, 3], vec![3, 2, 1]),
    ] {
        let r = Embedding::cosine_similarity(&a, &b).unwrap();
        assert!((-1000..=1000).contains(&r));
    }
}
