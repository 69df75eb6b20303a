use file_search::codec::save;
use file_search::embedding::Embedding;
use file_search::facade::{
    enable_image_search, enable_prefix_search, initialize_map, on_click_file_search,
    search_images, App,
};
use file_search::pipeline::{
    prepare_semantic_vec, should_skip_image, sort_labels_desc, take_names, join_spaces,
    AnnotationDoc, AzureResponse, Label,
};
use file_search::store::{Database, Image, SemanticVec};

fn store_vector(db: &mut Database, path: &str, title: &str, v: Vec<i64>) -> u32 {
    let mut img = Image::new(path.to_string(), title.to_string());
    img.set_semantic_vector(SemanticVec::from_vec(v));
    img.save_into(db).expect("fresh path")
}

#[test]
fn ranking_orders_by_cosine_similarity() {
    // three stored vectors with known similarity to the query [1,0]:
    // [1,0] (1.0) ranks before [1,1] (0.707) before [0,1] (0.0)
    let mut db = Database::new().unwrap();
    store_vector(&mut db, "/i/straight.png", "straight", vec![1000, 0]);
    store_vector(&mut db, "/i/orthogonal.png", "orthogonal", vec![0, 1000]);
    store_vector(&mut db, "/i/diagonal.png", "diagonal", vec![1000, 1000]);
    let mut e = Embedding::new();
    e.get_embeddings("query 1 0\n").unwrap();
    let r = search_images(&db, &e, "query");
    let order: Vec<&str> = r.iter().map(|t| t.0.as_str()).collect();
    assert_eq!(order, vec!["/i/straight.png", "/i/diagonal.png", "/i/orthogonal.png"]);
    assert_eq!(r[0].2, Some(1000));
    assert_eq!(r[1].2, Some(707));
    assert_eq!(r[2].2, Some(0));
    db.close();
}

#[test]
fn undefined_similarity_ranks_last() {
    let mut db = Database::new().unwrap();
    store_vector(&mut db, "/i/zero.png", "zero", vec![0, 0]);
    store_vector(&mut db, "/i/match.png", "match", vec![1000, 0]);
    let mut e = Embedding::new();
    e.get_embeddings("query 1 0\n").unwrap();
    let r = search_images(&db, &e, "query");
    assert_eq!(r.len(), 2);
    assert_eq!(r[0].0, "/i/match.png");
    assert_eq!(r[1].0, "/i/zero.png");
    assert_eq!(r[1].2, None);
    db.close();
}

#[test]
fn search_keeps_the_best_ten() {
    let mut db = Database::new().unwrap();
    for i in 0..12 {
        store_vector(&mut db, &format!("/i/p{}.png", i), "p", vec![1000, i as i64]);
    }
    let mut e = Embedding::new();
    e.get_embeddings("query 1 0\n").unwrap();
    let r = search_images(&db, &e, "query");
    assert_eq!(r.len(), 10);
    db.close();
}

#[test]
fn prefix_gate_is_idempotent_and_serves_queries() {
    let mut app = App::new(None);
    app.index_file("/a/photo1.png");
    app.index_file("/b/photo1.png");
    app.index_file("/a/notes.txt");
    // with prefix search still off: exact lookup only
    let exact = on_click_file_search(&app, "photo1.png");
    assert_eq!(exact.len(), 2);
    assert!(on_click_file_search(&app, "photo").is_empty());
    // after: predictive lookup over prefixes
    enable_prefix_search(&mut app);
    assert!(app.is_prefix_search_enabled);
    let mut hits = on_click_file_search(&app, "photo");
    hits.sort();
    assert_eq!(hits, vec![
        "photo1.png: /a/photo1.png".to_string(),
        "photo1.png: /b/photo1.png".to_string()
    ]);
    // enabling again changes nothing
    enable_prefix_search(&mut app);
    let mut again = on_click_file_search(&app, "photo");
    again.sort();
    assert_eq!(again, hits);
    // files indexed later are found too
    app.index_file("/c/photograph.png");
    let late = on_click_file_search(&app, "photog");
    assert_eq!(late, vec!["photograph.png: /c/photograph.png".to_string()]);
}

#[test]
fn persisted_map_survives_a_restart() {
    let mut app = App::new(None);
    app.index_file("/a/photo1.png");
    let bytes = save(&app.map);
    let reloaded = initialize_map(Some(&bytes));
    assert_eq!(reloaded.exact_search("photo1.png").len(), 1);
}

#[test]
fn annotation_pipeline_indexes_once_and_ranks() {
    // end to end: photo1.png (300x300, "red car") is stored; photo2.png
    // (10x10) is rejected by size; a second pass skips photo1 via the
    // dedup check; the query "car" ranks photo1 highest
    let mut e = Embedding::new();
    e.get_embeddings("red 1 0\ncar 0 1\nsky 1 1\n").unwrap();
    let mut db = Database::new().unwrap();
    let discovered = vec![
        ("/pics/photo1.png", Some((300u64, 300u64)), Some(("red car", vec![("car", 900i64)]))),
        ("/pics/photo2.png", Some((10, 10)), None),
    ];
    for pass in 0..2 {
        for (path, dims, response) in discovered.iter() {
            let already = db.exists_image_by_path(path).unwrap();
            if should_skip_image(true, path, *dims, already) {
                continue;
            }
            if pass == 1 {
                panic!("second pass must skip everything it stored");
            }
            let doc = AnnotationDoc {
                caption: response.as_ref().map(|(c, _)| c.to_string()),
                labels: response
                    .as_ref()
                    .map(|(_, ls)| ls.iter().map(|(n, s)| Label::new(n.to_string(), *s)).collect()),
            };
            let response = match AzureResponse::try_from_doc(doc) {
                Ok(r) => r,
                Err(_) => continue,
            };
            let ranked = sort_labels_desc(response.labels);
            let top = take_names(&ranked, 10);
            let caption_vec = e.average_vector(&response.caption);
            let labels_vec = e.average_vector(&join_spaces(&top));
            let semantic = prepare_semantic_vec(&caption_vec, &labels_vec);
            let basename = file_search::paths::basename(path);
            let mut img = Image::new(path.to_string(), basename);
            img.set_semantic_vector(SemanticVec::from_vec(semantic));
            img.save_into(&mut db).expect("new path");
        }
    }
    assert_eq!(db.exists_image_by_path("/pics/photo1.png"), Ok(true));
    assert_eq!(db.exists_image_by_path("/pics/photo2.png"), Ok(false));
    assert_eq!(db.select_all_images().len(), 1);
    let r = search_images(&db, &e, "car");
    assert_eq!(r[0].0, "/pics/photo1.png");
    assert!(r[0].2.unwrap() > 0);
    db.close();
}

#[test]
fn ranking_is_correct_for_raw_unit_vectors() {
    // the same three vectors at the smallest scale the grammar admits
    let mut db = Database::new().unwrap();
    store_vector(&mut db, "/i/straight.png", "straight", vec![1, 0]);
    store_vector(&mut db, "/i/orthogonal.png", "orthogonal", vec![0, 1]);
    store_vector(&mut db, "/i/diagonal.png", "diagonal", vec![1, 1]);
    let mut e = Embedding::new();
    e.get_embeddings("query 0.001 0\n").unwrap();
    let r = search_images(&db, &e, "query");
    let order: Vec<&str> = r.iter().map(|t| t.0.as_str()).collect();
    assert_eq!(order, vec!["/i/straight.png", "/i/diagonal.png", "/i/orthogonal.png"]);
    assert_eq!(r[0].2, Some(1000));
    assert_eq!(r[1].2, Some(707));
    assert_eq!(r[2].2, Some(0));
    db.close();
}

#[test]
fn image_search_gate_is_one_shot() {
    let mut app = App::new(None);
    assert!(enable_image_search(&mut app, "red 1 0\n").is_ok());
    assert!(app.is_image_search_enabled);
    assert_eq!(app.embeddings.dims(), 2);
    // a second call changes nothing, whatever text it brings
    assert!(enable_image_search(&mut app, "garbage").is_ok());
    assert_eq!(app.embeddings.dims(), 2);
    // a malformed table fails the step and the feature stays off
    let mut fresh = App::new(None);
    assert!(enable_image_search(&mut fresh, "nonsense").is_err());
    assert!(!fresh.is_image_search_enabled);
    assert!(fresh.db.is_none());
}
