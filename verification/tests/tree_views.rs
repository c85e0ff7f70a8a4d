use chapter_tree::store::ChapterStore;

fn root(store: &mut ChapterStore, book: i32, title: &str, now: i64) -> i32 {
    store
        .create_chapter(book, None, title.to_string(), None, None, now)
        .unwrap()
}

fn child(store: &mut ChapterStore, book: i32, parent: i32, title: &str, now: i64) -> i32 {
    store
        .create_chapter(book, Some(parent), title.to_string(), None, None, now)
        .unwrap()
}

#[test]
fn paths_render_ids_in_decimal() {
    let mut store = ChapterStore::new();
    store.next_id = 12345;
    let a = root(&mut store, 1, "a", 0);
    assert_eq!(a, 12345);
    let ca = store.chapters.iter().find(|c| c.id == a).unwrap();
    assert_eq!(ca.path, "12345");
    let b = child(&mut store, 1, a, "b", 1);
    let cb = store.chapters.iter().find(|c| c.id == b).unwrap();
    assert_eq!(cb.path, "12345/12346");
}

#[test]
fn find_by_book_orders_by_key_then_creation() {
    let mut store = ChapterStore::new();
    let a = root(&mut store, 1, "a", 10);
    let b = root(&mut store, 1, "b", 5);
    let c = root(&mut store, 1, "c", 7);
    let _other = root(&mut store, 2, "other", 1);
    // keys: a=1, b=2, c=3; reorder so that b and c share a key story:
    store.reorder_all(1, None, &vec![c, b, a], 100).unwrap();
    let listed = store.find_by_book(1);
    let ids: Vec<i32> = listed.iter().map(|ch| ch.id).collect();
    assert_eq!(ids, vec![c, b, a]);
}

#[test]
fn find_by_book_breaks_key_ties_by_creation() {
    let mut store = ChapterStore::new();
    let a = store
        .create_chapter(1, None, "a".to_string(), None, Some(5), 30)
        .unwrap();
    let b = store
        .create_chapter(1, None, "b".to_string(), None, Some(5), 20)
        .unwrap();
    let c = store
        .create_chapter(1, None, "c".to_string(), None, Some(4), 40)
        .unwrap();
    let listed = store.find_by_book(1);
    let ids: Vec<i32> = listed.iter().map(|ch| ch.id).collect();
    assert_eq!(ids, vec![c, b, a]);
}

#[test]
fn find_root_chapters_and_children_are_scoped() {
    let mut store = ChapterStore::new();
    let a = root(&mut store, 1, "a", 1);
    let b = root(&mut store, 1, "b", 2);
    let k1 = child(&mut store, 1, a, "k1", 3);
    let k2 = child(&mut store, 1, a, "k2", 4);
    let _other = root(&mut store, 2, "other", 5);

    let roots: Vec<i32> = store.find_root_chapters(1).iter().map(|c| c.id).collect();
    assert_eq!(roots, vec![a, b]);
    let kids: Vec<i32> = store.find_children(a).iter().map(|c| c.id).collect();
    assert_eq!(kids, vec![k1, k2]);
    assert!(store.find_children(b).is_empty());
    assert!(store.find_children(999).is_empty());
}

#[test]
fn get_tree_nests_children_in_order() {
    let mut store = ChapterStore::new();
    let a = root(&mut store, 1, "a", 1);
    let k1 = child(&mut store, 1, a, "k1", 2);
    let k2 = child(&mut store, 1, a, "k2", 3);
    let g1 = child(&mut store, 1, k2, "g1", 4);

    let t = store.get_tree(a).unwrap();
    assert_eq!(t.id, a);
    assert_eq!(t.title, "a");
    assert_eq!(t.level, 0);
    assert_eq!(t.children.len(), 2);
    assert_eq!(t.children[0].id, k1);
    assert_eq!(t.children[1].id, k2);
    assert_eq!(t.children[0].children.len(), 0);
    assert_eq!(t.children[1].children.len(), 1);
    assert_eq!(t.children[1].children[0].id, g1);
    assert_eq!(t.children[1].children[0].level, 2);

    assert!(store.get_tree(999).is_err());
}

#[test]
fn get_book_tree_lists_roots_with_subtrees() {
    let mut store = ChapterStore::new();
    let a = root(&mut store, 1, "a", 1);
    let b = root(&mut store, 1, "b", 2);
    let k = child(&mut store, 1, b, "k", 3);
    let _elsewhere = root(&mut store, 2, "other", 4);

    let forest = store.get_book_tree(1);
    assert_eq!(forest.len(), 2);
    assert_eq!(forest[0].id, a);
    assert_eq!(forest[1].id, b);
    assert_eq!(forest[1].children.len(), 1);
    assert_eq!(forest[1].children[0].id, k);
}

#[test]
fn flat_list_is_a_preorder_traversal_with_levels() {
    let mut store = ChapterStore::new();
    let a = root(&mut store, 1, "a", 1);
    let k1 = child(&mut store, 1, a, "k1", 2);
    let g = child(&mut store, 1, k1, "g", 3);
    let k2 = child(&mut store, 1, a, "k2", 4);
    let b = root(&mut store, 1, "b", 5);

    let flat = store.get_flat_list_with_level(1);
    let ids: Vec<i32> = flat.iter().map(|c| c.id).collect();
    assert_eq!(ids, vec![a, k1, g, k2, b]);
    let levels: Vec<i64> = flat.iter().map(|c| c.level).collect();
    assert_eq!(levels, vec![0, 1, 2, 1, 0]);
}

#[test]
fn media_params_carry_plain_values() {
    let create = chapter_tree::media_params::CreateMediaParams {
        title: "clip".to_string(),
        description: None,
        book_id: 3,
        chapter_id: Some(7),
    };
    assert_eq!(create.book_id, 3);
    assert_eq!(create.chapter_id, Some(7));
    let update = chapter_tree::media_params::UpdateMediaParams {
        title: Some("renamed".to_string()),
        description: Some("text".to_string()),
        is_public: Some(true),
        chapter_id: None,
    };
    assert_eq!(update.is_public, Some(true));
    assert_eq!(update.title.as_deref(), Some("renamed"));
}

#[test]
fn search_scans_title_and_description() {
    let mut store = ChapterStore::new();
    let a = store
        .create_chapter(
            1,
            None,
            "Introduction".to_string(),
            Some("first steps".to_string()),
            None,
            1,
        )
        .unwrap();
    let b = store
        .create_chapter(1, None, "Advanced topics".to_string(), None, None, 2)
        .unwrap();
    let _other_book = store
        .create_chapter(2, None, "Introduction".to_string(), None, None, 3)
        .unwrap();

    let hits: Vec<i32> = store.search(1, "Intro").iter().map(|c| c.id).collect();
    assert_eq!(hits, vec![a]);
    let hits: Vec<i32> = store.search(1, "steps").iter().map(|c| c.id).collect();
    assert_eq!(hits, vec![a]);
    let hits: Vec<i32> = store.search(1, "topics").iter().map(|c| c.id).collect();
    assert_eq!(hits, vec![b]);
    assert!(store.search(1, "absent").is_empty());
    // the empty query answers with every chapter of the book
    let hits: Vec<i32> = store.search(1, "").iter().map(|c| c.id).collect();
    assert_eq!(hits, vec![a, b]);
    // matching is exact on characters, not case-blind
    assert!(store.search(1, "intro").is_empty());
}
