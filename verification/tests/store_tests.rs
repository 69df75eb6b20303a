use file_search::store::{Database, Image, SemanticVec, SemanticVectorElement};

#[test]
fn fresh_store_is_empty() {
    let db = Database::new().unwrap();
    assert!(db.select_all_images().is_empty());
    assert_eq!(db.exists_image_by_path("/a/photo1.png"), Ok(false));
    db.close();
}

#[test]
fn saved_image_is_found_with_its_vector() {
    let mut db = Database::new().unwrap();
    let mut img = Image::new("/a/photo1.png".to_string(), "photo1.png".to_string());
    img.set_semantic_vector(SemanticVec::from_vec(vec![500, -250, 0]));
    let id = img.save_into(&mut db).expect("fresh path must store");
    assert_eq!(img.id, id);
    assert_eq!(db.exists_image_by_path("/a/photo1.png"), Ok(true));
    assert_eq!(db.select_all_images(), vec![id]);
    let back = db.select_image_by_path("/a/photo1.png").expect("stored");
    assert_eq!(back.id, id);
    assert_eq!(back.title, "photo1.png");
    let values: Vec<i64> = back.semantic_vector.0.iter().map(|e| e.value).collect();
    assert_eq!(values, vec![500, -250, 0]);
    assert!(back.semantic_vector.0.iter().all(|e| e.image_id == id));
    db.close();
}

#[test]
fn duplicate_path_is_refused_and_nothing_changes() {
    let mut db = Database::new().unwrap();
    let mut first = Image::new("/a/photo1.png".to_string(), "one".to_string());
    first.set_semantic_vector(SemanticVec::from_vec(vec![1, 2]));
    first.save_into(&mut db).unwrap();
    let mut dup = Image::new("/a/photo1.png".to_string(), "two".to_string());
    dup.set_semantic_vector(SemanticVec::from_vec(vec![9, 9]));
    assert!(dup.save_into(&mut db).is_err());
    assert_eq!(db.select_all_images().len(), 1);
    let back = db.select_image_by_path("/a/photo1.png").unwrap();
    assert_eq!(back.title, "one");
    db.close();
}

#[test]
fn failed_vector_insert_leaves_no_rows() {
    // transactional save: a failure on the second of three rows leaves zero
    // rows stored and no image visible under the path
    let mut db = Database::new().unwrap();
    let mut img = Image::new("/a/photo1.png".to_string(), "photo1.png".to_string());
    img.set_semantic_vector(SemanticVec::from_vec(vec![1, 2]));
    let id = img.save_into(&mut db).unwrap();
    let dangling = id + 1;
    let rows = vec![
        SemanticVectorElement::new(id, 10),
        SemanticVectorElement::new(dangling, 20),
        SemanticVectorElement::new(id, 30),
    ];
    let before = db.vector_values_for(id);
    assert!(db.insert_vector_rows(&rows).is_err());
    // nothing of the batch landed: the stored vector is exactly as before
    assert_eq!(db.vector_values_for(id), before);
    assert_eq!(db.vector_values_for(dangling), Vec::<i64>::new());
    assert_eq!(db.exists_image_by_path("/nowhere.png"), Ok(false));
    db.close();
}

#[test]
fn vector_rows_keep_insertion_order() {
    let mut db = Database::new().unwrap();
    let mut img = Image::new("/a/p.png".to_string(), "p.png".to_string());
    img.set_semantic_vector(SemanticVec::from_vec(vec![3, 1, 2]));
    let id = img.save_into(&mut db).unwrap();
    assert_eq!(db.vector_values_for(id), vec![3, 1, 2]);
    db.close();
}

#[test]
fn select_misses_are_none() {
    let db = Database::new().unwrap();
    assert!(db.select_image_by_path("/a/none.png").is_none());
    db.close();
}

#[test]
fn trait_save_stores_items_and_chains() {
    let mut db = Database::new().unwrap();
    let mut img = Image::new("/a/p.png".to_string(), "p".to_string());
    img.set_semantic_vector(SemanticVec::from_vec(vec![5]));
    db.save(&mut img);
    assert_eq!(db.exists_image_by_path("/a/p.png"), Ok(true));
    assert!(img.id > 0);
    let mut sv = SemanticVec::new();
    sv.push(SemanticVectorElement::new(img.id, 7));
    sv.push(SemanticVectorElement::new(img.id, 8));
    let mut items = vec![sv];
    db.save_all(&mut items);
    assert_eq!(db.vector_values_for(img.id), vec![5, 7, 8]);
    // a duplicate path through the trait changes nothing
    let mut dup = Image::new("/a/p.png".to_string(), "again".to_string());
    db.save(&mut dup);
    assert_eq!(db.select_all_images().len(), 1);
    db.close();
}
