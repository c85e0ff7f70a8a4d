use chapter_tree::errors::ChapterError;
use chapter_tree::store::ChapterStore;

fn create_root(store: &mut ChapterStore, book: i32, title: &str, now: i64) -> i32 {
    store
        .create_chapter(book, None, title.to_string(), None, None, now)
        .expect("root creation must succeed")
}

fn create_child_of(store: &mut ChapterStore, book: i32, parent: i32, title: &str, now: i64) -> i32 {
    store
        .create_chapter(book, Some(parent), title.to_string(), None, None, now)
        .expect("child creation must succeed")
}

fn chapter_by_id(store: &ChapterStore, id: i32) -> &chapter_tree::chapter::Chapter {
    store
        .chapters
        .iter()
        .find(|c| c.id == id)
        .expect("chapter must exist")
}

#[test]
fn scenario_root_and_child_sort_orders() {
    // Scenario A: root "A" gets sort_order 1; child "B" under "A" has
    // level 1 and path "<a>/<b>"; a second root "C" gets sort_order 2,
    // unaffected by "B".
    let mut store = ChapterStore::new();
    let a = create_root(&mut store, 7, "A", 100);
    let b = create_child_of(&mut store, 7, a, "B", 101);
    let c = create_root(&mut store, 7, "C", 102);

    let ca = chapter_by_id(&store, a);
    assert_eq!(ca.sort_order, 1);
    assert_eq!(ca.level, 0);
    assert_eq!(ca.path, a.to_string());

    let cb = chapter_by_id(&store, b);
    assert_eq!(cb.level, 1);
    assert_eq!(cb.path, format!("{}/{}", a, b));
    assert_eq!(cb.sort_order, 1);
    assert_eq!(cb.parent_id, Some(a));

    let cc = chapter_by_id(&store, c);
    assert_eq!(cc.sort_order, 2);
    assert_eq!(cc.level, 0);
}

#[test]
fn scenario_move_down_swaps_and_stops_at_boundary() {
    // Scenario B: three roots with sort_order 1,2,3; move_down on the
    // first swaps the first two keys; move_down on the last is a no-op
    // boundary that reports false.
    let mut store = ChapterStore::new();
    let c1 = create_root(&mut store, 1, "one", 10);
    let c2 = create_root(&mut store, 1, "two", 11);
    let c3 = create_root(&mut store, 1, "three", 12);
    assert_eq!(chapter_by_id(&store, c1).sort_order, 1);
    assert_eq!(chapter_by_id(&store, c2).sort_order, 2);
    assert_eq!(chapter_by_id(&store, c3).sort_order, 3);

    let moved = store.move_down(c1, 20).unwrap();
    assert!(moved);
    assert_eq!(chapter_by_id(&store, c1).sort_order, 2);
    assert_eq!(chapter_by_id(&store, c2).sort_order, 1);
    assert_eq!(chapter_by_id(&store, c3).sort_order, 3);

    let moved = store.move_down(c3, 21).unwrap();
    assert!(!moved);
    assert_eq!(chapter_by_id(&store, c3).sort_order, 3);
}

#[test]
fn scenario_move_up_boundary_and_swap() {
    let mut store = ChapterStore::new();
    let c1 = create_root(&mut store, 1, "one", 10);
    let c2 = create_root(&mut store, 1, "two", 11);

    assert!(!store.move_up(c1, 20).unwrap());
    assert!(store.move_up(c2, 21).unwrap());
    assert_eq!(chapter_by_id(&store, c1).sort_order, 2);
    assert_eq!(chapter_by_id(&store, c2).sort_order, 1);
}

#[test]
fn move_up_unknown_chapter_is_not_found() {
    let mut store = ChapterStore::new();
    assert_eq!(store.move_up(42, 0), Err(ChapterError::NotFound));
    assert_eq!(store.move_down(42, 0), Err(ChapterError::NotFound));
}

#[test]
fn scenario_cycle_is_rejected() {
    // Scenario C: A -> B -> C; moving A under C would close a loop and is
    // rejected with CycleDetected; the tree stays as it was.
    let mut store = ChapterStore::new();
    let a = create_root(&mut store, 3, "A", 1);
    let b = create_child_of(&mut store, 3, a, "B", 2);
    let c = create_child_of(&mut store, 3, b, "C", 3);

    let r = store.move_chapter(a, Some(c), None, 50);
    assert_eq!(r, Err(ChapterError::CycleDetected));

    assert_eq!(chapter_by_id(&store, a).parent_id, None);
    assert_eq!(chapter_by_id(&store, a).level, 0);
    assert_eq!(chapter_by_id(&store, b).parent_id, Some(a));
    assert_eq!(chapter_by_id(&store, b).level, 1);
    assert_eq!(chapter_by_id(&store, c).parent_id, Some(b));
    assert_eq!(chapter_by_id(&store, c).level, 2);
    assert_eq!(chapter_by_id(&store, c).path, format!("{}/{}/{}", a, b, c));
}

#[test]
fn moving_under_itself_is_a_cycle() {
    let mut store = ChapterStore::new();
    let a = create_root(&mut store, 3, "A", 1);
    assert_eq!(
        store.move_chapter(a, Some(a), None, 2),
        Err(ChapterError::CycleDetected)
    );
}

#[test]
fn scenario_reorder_all_assigns_listed_order() {
    // Scenario D: reorder_all over three roots in the order [3, 1, 2]
    // assigns sort_order 1, 2, 3 along the supplied list.
    let mut store = ChapterStore::new();
    let id1 = create_root(&mut store, 9, "one", 1);
    let id2 = create_root(&mut store, 9, "two", 2);
    let id3 = create_root(&mut store, 9, "three", 3);

    store
        .reorder_all(9, None, &vec![id3, id1, id2], 10)
        .unwrap();
    assert_eq!(chapter_by_id(&store, id3).sort_order, 1);
    assert_eq!(chapter_by_id(&store, id1).sort_order, 2);
    assert_eq!(chapter_by_id(&store, id2).sort_order, 3);
}

#[test]
fn reorder_all_twice_gives_the_same_assignment() {
    let mut store = ChapterStore::new();
    let id1 = create_root(&mut store, 9, "one", 1);
    let id2 = create_root(&mut store, 9, "two", 2);
    let id3 = create_root(&mut store, 9, "three", 3);

    let order = vec![id2, id3, id1];
    store.reorder_all(9, None, &order, 10).unwrap();
    let first: Vec<i32> = vec![
        chapter_by_id(&store, id1).sort_order,
        chapter_by_id(&store, id2).sort_order,
        chapter_by_id(&store, id3).sort_order,
    ];
    store.reorder_all(9, None, &order, 20).unwrap();
    let second: Vec<i32> = vec![
        chapter_by_id(&store, id1).sort_order,
        chapter_by_id(&store, id2).sort_order,
        chapter_by_id(&store, id3).sort_order,
    ];
    assert_eq!(first, second);
    assert_eq!(second, vec![3, 1, 2]);
}

#[test]
fn reorder_all_rejects_unknown_and_out_of_scope_ids() {
    let mut store = ChapterStore::new();
    let id1 = create_root(&mut store, 9, "one", 1);
    let other = create_root(&mut store, 8, "other book", 2);
    let kid = create_child_of(&mut store, 9, id1, "kid", 3);

    assert_eq!(
        store.reorder_all(9, None, &vec![id1, 999], 10),
        Err(ChapterError::NotFound)
    );
    assert_eq!(
        store.reorder_all(9, None, &vec![id1, other], 10),
        Err(ChapterError::ScopeMismatch)
    );
    assert_eq!(
        store.reorder_all(9, None, &vec![id1, kid], 10),
        Err(ChapterError::ScopeMismatch)
    );
    // the failed calls left every key as it was
    assert_eq!(chapter_by_id(&store, id1).sort_order, 1);
    assert_eq!(chapter_by_id(&store, kid).sort_order, 1);
}

#[test]
fn scenario_move_with_descendants_rewrites_levels_and_paths() {
    // Scenario E: a chapter with two stacked descendants moved under a
    // level-2 parent ends at level 2 with its descendants at 3 and 4, and
    // every path starts from the new ancestor chain.
    let mut store = ChapterStore::new();
    let r = create_root(&mut store, 4, "root", 1);
    let m1 = create_child_of(&mut store, 4, r, "mid", 2);
    let m2 = create_child_of(&mut store, 4, m1, "deep parent", 3);
    let x = create_root(&mut store, 4, "moved", 4);
    let x1 = create_child_of(&mut store, 4, x, "kid", 5);
    let x2 = create_child_of(&mut store, 4, x1, "grandkid", 6);

    store.move_chapter(x, Some(m2), None, 100).unwrap();

    let cx = chapter_by_id(&store, x);
    assert_eq!(cx.level, 2 + 1);
    assert_eq!(cx.parent_id, Some(m2));
    assert_eq!(cx.path, format!("{}/{}/{}/{}", r, m1, m2, x));
    let cx1 = chapter_by_id(&store, x1);
    assert_eq!(cx1.level, 4);
    assert_eq!(cx1.path, format!("{}/{}/{}/{}/{}", r, m1, m2, x, x1));
    let cx2 = chapter_by_id(&store, x2);
    assert_eq!(cx2.level, 5);
    assert_eq!(cx2.path, format!("{}/{}/{}/{}/{}/{}", r, m1, m2, x, x1, x2));
}

#[test]
fn move_round_trip_restores_subtree() {
    let mut store = ChapterStore::new();
    let a = create_root(&mut store, 4, "a", 1);
    let b = create_root(&mut store, 4, "b", 2);
    let x = create_child_of(&mut store, 4, a, "x", 3);
    let x1 = create_child_of(&mut store, 4, x, "x1", 4);

    let before: Vec<(i32, Option<i32>, i32, i64, String)> = store
        .chapters
        .iter()
        .map(|c| {
            (
                c.id,
                c.parent_id,
                c.sort_order,
                c.level,
                c.path.clone(),
            )
        })
        .collect();

    store.move_chapter(x, Some(b), Some(5), 100).unwrap();
    assert_eq!(chapter_by_id(&store, x).parent_id, Some(b));
    assert_eq!(chapter_by_id(&store, x1).path, format!("{}/{}/{}", b, x, x1));

    store.move_chapter(x, Some(a), Some(1), 200).unwrap();
    let after: Vec<(i32, Option<i32>, i32, i64, String)> = store
        .chapters
        .iter()
        .map(|c| {
            (
                c.id,
                c.parent_id,
                c.sort_order,
                c.level,
                c.path.clone(),
            )
        })
        .collect();
    assert_eq!(before, after);

    // the moved rows carry the newest stamp; untouched rows keep theirs
    assert_eq!(chapter_by_id(&store, x).updated_at, 200);
    assert_eq!(chapter_by_id(&store, x1).updated_at, 200);
    assert_eq!(chapter_by_id(&store, b).updated_at, 2);
}

#[test]
fn move_chapter_validates_target() {
    let mut store = ChapterStore::new();
    let a = create_root(&mut store, 4, "a", 1);
    let other = create_root(&mut store, 5, "other", 2);

    assert_eq!(
        store.move_chapter(999, None, None, 3),
        Err(ChapterError::NotFound)
    );
    assert_eq!(
        store.move_chapter(a, Some(999), None, 3),
        Err(ChapterError::NotFound)
    );
    assert_eq!(
        store.move_chapter(a, Some(other), None, 3),
        Err(ChapterError::ScopeMismatch)
    );
    // moving to the root with no parent always succeeds for a known chapter
    store.move_chapter(a, None, Some(7), 4).unwrap();
    assert_eq!(chapter_by_id(&store, a).sort_order, 7);
    assert_eq!(chapter_by_id(&store, a).level, 0);
}

#[test]
fn create_chapter_validates_parent() {
    let mut store = ChapterStore::new();
    let a = create_root(&mut store, 4, "a", 1);
    assert_eq!(
        store.create_chapter(4, Some(999), "kid".to_string(), None, None, 2),
        Err(ChapterError::NotFound)
    );
    assert_eq!(
        store.create_chapter(5, Some(a), "kid".to_string(), None, None, 2),
        Err(ChapterError::ScopeMismatch)
    );
}

#[test]
fn create_child_helper_appends_after_siblings() {
    let mut store = ChapterStore::new();
    let a = create_root(&mut store, 4, "a", 1);
    let k1 = store
        .create_child(4, a, "k1".to_string(), None, 2)
        .unwrap();
    let k2 = store
        .create_child(4, a, "k2".to_string(), None, 3)
        .unwrap();
    assert_eq!(chapter_by_id(&store, k1).sort_order, 1);
    assert_eq!(chapter_by_id(&store, k2).sort_order, 2);
    assert_eq!(
        store.create_child(4, 999, "k3".to_string(), None, 4),
        Err(ChapterError::NotFound)
    );
}

#[test]
fn create_with_order_and_explicit_sort() {
    let mut store = ChapterStore::new();
    let a = store
        .create_with_order(4, "a".to_string(), Some("first".to_string()), 1)
        .unwrap();
    assert_eq!(chapter_by_id(&store, a).sort_order, 1);
    let b = store
        .create_chapter(4, None, "b".to_string(), None, Some(10), 2)
        .unwrap();
    assert_eq!(chapter_by_id(&store, b).sort_order, 10);
    // the next automatic key continues after the explicit one
    let c = create_root(&mut store, 4, "c", 3);
    assert_eq!(chapter_by_id(&store, c).sort_order, 11);
}

#[test]
fn get_next_sort_order_is_scoped_per_group() {
    let mut store = ChapterStore::new();
    assert_eq!(store.get_next_sort_order(1, None), 1);
    let a = create_root(&mut store, 1, "a", 1);
    assert_eq!(store.get_next_sort_order(1, None), 2);
    assert_eq!(store.get_next_sort_order(1, Some(a)), 1);
    assert_eq!(store.get_next_sort_order(2, None), 1);
    create_child_of(&mut store, 1, a, "kid", 2);
    assert_eq!(store.get_next_sort_order(1, Some(a)), 2);
    assert_eq!(store.get_next_sort_order(1, None), 2);
}

#[test]
fn update_chapter_touches_only_metadata() {
    let mut store = ChapterStore::new();
    let a = create_root(&mut store, 1, "a", 1);
    let b = create_child_of(&mut store, 1, a, "b", 2);

    store
        .update_chapter(
            b,
            Some("renamed".to_string()),
            Some("described".to_string()),
            Some(10),
            5,
        )
        .unwrap();
    let cb = chapter_by_id(&store, b);
    assert_eq!(cb.title, "renamed");
    assert_eq!(cb.description, Some("described".to_string()));
    assert_eq!(cb.sort_order, 10);
    assert_eq!(cb.updated_at, 5);
    assert_eq!(cb.level, 1);
    assert_eq!(cb.path, format!("{}/{}", a, b));

    assert_eq!(
        store.update_chapter(999, None, None, None, 6),
        Err(ChapterError::NotFound)
    );
}

#[test]
fn cycle_walk_is_capped_at_one_hundred_hops() {
    // Build a chain deeper than the cap. The capped public walk no longer
    // sees the far ancestor — the documented conservative policy — while
    // the move operation itself still rejects the cycle exactly.
    let mut store = ChapterStore::new();
    let top = create_root(&mut store, 1, "top", 0);
    let mut cur = top;
    let mut ids = vec![top];
    for k in 0..120 {
        cur = create_child_of(&mut store, 1, cur, &format!("n{}", k), k as i64);
        ids.push(cur);
    }
    // the deepest chapter: its parent chain reaches `top` after 120 hops
    assert!(store.would_create_cycle(ids[118], cur));
    assert!(!store.would_create_cycle(top, cur));
    assert_eq!(
        store.move_chapter(top, Some(cur), None, 500),
        Err(ChapterError::CycleDetected)
    );
    // unrelated chapters never trip the guard
    let lone = create_root(&mut store, 1, "lone", 1);
    assert!(!store.would_create_cycle(lone, cur));
}

#[test]
fn count_reports_stored_chapters() {
    let mut store = ChapterStore::new();
    assert_eq!(store.count(), 0);
    create_root(&mut store, 1, "a", 1);
    create_root(&mut store, 1, "b", 2);
    assert_eq!(store.count(), 2);
}

#[test]
fn swaps_stay_within_the_sibling_group() {
    // the adjacent sibling is sought only among chapters sharing the same
    // (book, parent) group, never across levels or books
    let mut store = ChapterStore::new();
    let a = create_root(&mut store, 1, "a", 1);
    let _b = create_root(&mut store, 1, "b", 2);
    let kid = create_child_of(&mut store, 1, a, "kid", 3);

    // the child is alone in its group: no neighbour in either direction
    assert!(!store.move_up(kid, 10).unwrap());
    assert!(!store.move_down(kid, 11).unwrap());

    // a chapter in another book never counts as a neighbour
    let other = create_root(&mut store, 2, "other", 4);
    assert!(!store.move_up(other, 12).unwrap());
}

#[test]
fn next_sort_order_follows_negative_keys() {
    let mut store = ChapterStore::new();
    store
        .create_chapter(1, None, "a".to_string(), None, Some(-5), 1)
        .unwrap();
    assert_eq!(store.get_next_sort_order(1, None), -4);
    let b = create_root(&mut store, 1, "b", 2);
    assert_eq!(chapter_by_id(&store, b).sort_order, -4);
}

#[test]
fn exact_ancestry_walk() {
    let mut store = ChapterStore::new();
    let a = create_root(&mut store, 1, "a", 1);
    let b = create_child_of(&mut store, 1, a, "b", 2);
    let c = create_child_of(&mut store, 1, b, "c", 3);
    let lone = create_root(&mut store, 1, "lone", 4);

    assert!(store.is_ancestor_or_self(c, c));
    assert!(store.is_ancestor_or_self(c, b));
    assert!(store.is_ancestor_or_self(c, a));
    assert!(!store.is_ancestor_or_self(a, c));
    assert!(!store.is_ancestor_or_self(c, lone));
}
