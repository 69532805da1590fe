use spiderdb::db::SpiderDB;
use spiderdb::search::top_k;

const T: u64 = 1_700_000_000;

fn three_nodes() -> SpiderDB {
    let mut db = SpiderDB::new();
    db.add_node(String::from("alpha"), vec![1000, 0], 10, T);
    db.add_node(String::from("beta"), vec![0, 1000], 10, T);
    db.add_node(String::from("gamma"), vec![900, 100], 200, T);
    db
}

#[test]
fn add_node_gives_ids_in_sequence() {
    let mut db = SpiderDB::new();
    assert_eq!(db.add_node(String::from("one"), vec![1, 2], 5, T), 0);
    assert_eq!(db.add_node(String::from(""), vec![3, 4], 6, T + 1), 1);
    assert_eq!(db.add_node(String::from("three"), vec![5, 6], 7, T + 2), 2);
    let h = db.headers();
    assert_eq!(h.len(), 3);
    assert_eq!((h[0].id, h[0].data_offset, h[0].data_len), (0, 0, 3));
    assert_eq!((h[1].id, h[1].data_offset, h[1].data_len), (1, 3, 0));
    assert_eq!((h[2].id, h[2].data_offset, h[2].data_len), (2, 3, 5));
    assert_eq!((h[2].last_access_ts, h[2].access_count, h[2].significance), (T + 2, 0, 7));
    assert_eq!(db.embeddings().len(), 3);
    assert_eq!(db.embeddings()[1], vec![3, 4]);
    assert_eq!(db.edge_list().len(), 3);
}

#[test]
fn get_node_returns_the_content() {
    let mut db = three_nodes();
    assert_eq!(db.get_node(0, T), Some(String::from("alpha")));
    assert_eq!(db.get_node(2, T), Some(String::from("gamma")));
    assert_eq!(db.get_node(1, T), Some(String::from("beta")));
}

#[test]
fn get_node_returns_text_beyond_ascii() {
    let mut db = SpiderDB::new();
    let text = String::from("gr\u{fc}\u{df}e \u{4e16}\u{754c} \u{1f577}");
    db.add_node(String::from("x"), vec![1], 1, T);
    let id = db.add_node(text.clone(), vec![1], 1, T);
    assert_eq!(db.get_node(id, T), Some(text));
}

#[test]
fn get_node_of_an_unknown_id_is_none() {
    let mut db = three_nodes();
    assert_eq!(db.get_node(3, T), None);
    assert_eq!(db.get_node(u64::MAX, T), None);
    assert_eq!(db.headers()[0].access_count, 0);
}

#[test]
fn get_node_counts_as_an_access() {
    let mut db = three_nodes();
    db.get_node(1, T + 10);
    db.get_node(1, T + 20);
    let h = db.headers();
    assert_eq!(h[1].access_count, 2);
    assert_eq!(h[1].last_access_ts, T + 20);
    assert_eq!(h[0].access_count, 0);
    assert_eq!(h[0].last_access_ts, T);
}

#[test]
fn add_edge_appends_to_the_source() {
    let mut db = three_nodes();
    db.add_edge(0, 2);
    db.add_edge(0, 1);
    db.add_edge(2, 0);
    db.add_edge(0, 2);
    assert_eq!(db.edge_list()[0], vec![2, 1, 2]);
    assert!(db.edge_list()[1].is_empty());
    assert_eq!(db.edge_list()[2], vec![0]);
}

#[test]
fn add_edge_with_an_unknown_id_does_nothing() {
    let mut db = three_nodes();
    db.add_edge(0, 3);
    db.add_edge(3, 0);
    db.add_edge(9, 9);
    for list in db.edge_list() {
        assert!(list.is_empty());
    }
}

#[test]
fn life_score_by_id() {
    let mut db = three_nodes();
    assert_eq!(db.calculate_life_score(0, T), 28_717_458);
    assert_eq!(db.calculate_life_score(2, T), 574_349_177);
    assert_eq!(db.calculate_life_score(0, T + 36_000), 1_141_494);
    assert_eq!(db.calculate_life_score(3, T), 0);
    db.get_node(0, T);
    assert_eq!(db.calculate_life_score(0, T), 29_291_808);
}

#[test]
fn vacuum_names_the_nodes_below_the_threshold() {
    let db = three_nodes();
    assert_eq!(db.vacuum(30_000_000, T), vec![0, 1]);
    assert_eq!(db.vacuum(28_717_458, T), Vec::<u64>::new());
    assert_eq!(db.vacuum(28_717_459, T), vec![0, 1]);
    assert_eq!(db.vacuum(i64::MAX, T), vec![0, 1, 2]);
    assert_eq!(db.vacuum(0, T), Vec::<u64>::new());
    assert_eq!(db.vacuum(-5, T + 1_000_000), Vec::<u64>::new());
}

#[test]
fn vacuum_finds_more_as_time_goes_by() {
    let db = three_nodes();
    assert_eq!(db.vacuum(2_000_000, T), Vec::<u64>::new());
    assert_eq!(db.vacuum(2_000_000, T + 36_000), vec![0, 1]);
    assert_eq!(db.vacuum(2_000_000, T + 3600 * 24 * 30), vec![0, 1, 2]);
    assert_eq!(db.headers().len(), 3);
}

#[test]
fn vacuum_agrees_with_the_life_score() {
    let mut db = three_nodes();
    for _ in 0..7 {
        db.get_node(1, T + 5);
    }
    let now = T + 50_000;
    let threshold = 1_500_000;
    let dead = db.vacuum(threshold, now);
    for id in 0..3u64 {
        assert_eq!(dead.contains(&id), db.calculate_life_score(id, now) < threshold);
    }
}

#[test]
fn three_nodes_ranked_by_meaning_and_by_use() {
    let mut db = three_nodes();
    for _ in 0..50 {
        db.get_node(2, T);
    }
    assert_eq!(db.headers()[2].access_count, 50);
    let semantic: Vec<u64> = top_k(&[1000, 0], db.embeddings(), 3).iter().map(|p| p.0).collect();
    assert_eq!(semantic, vec![0, 2, 1]);
    assert_eq!(db.hybrid_search(vec![1000, 0], 3, T), vec![2, 0, 1]);
}

#[test]
fn hybrid_search_returns_at_most_k() {
    let mut db = three_nodes();
    for _ in 0..50 {
        db.get_node(2, T);
    }
    assert_eq!(db.hybrid_search(vec![1000, 0], 2, T), vec![2, 0]);
    assert_eq!(db.hybrid_search(vec![1000, 0], 1, T), vec![2]);
    assert_eq!(db.hybrid_search(vec![1000, 0], 9, T), vec![2, 0, 1]);
    assert_eq!(db.hybrid_search(vec![1000, 0], usize::MAX, T), vec![2, 0, 1]);
    assert!(db.hybrid_search(vec![1000, 0], 0, T).is_empty());
    assert!(SpiderDB::new().hybrid_search(vec![1000, 0], 3, T).is_empty());
}

#[test]
fn hybrid_search_looks_at_twice_k_by_similarity() {
    // node 1 has by far the highest life score but is not among the two
    // most similar, so a search for one result never sees it
    let mut db = SpiderDB::new();
    db.add_node(String::from("a"), vec![1000, 0], 1, T);
    db.add_node(String::from("b"), vec![500, 866], 255, T);
    db.add_node(String::from("c"), vec![900, 100], 1, T);
    assert_eq!(db.hybrid_search(vec![1000, 0], 1, T), vec![0]);
    assert_eq!(db.hybrid_search(vec![1000, 0], 2, T), vec![1, 0]);
}

#[test]
fn hybrid_search_has_no_duplicates_and_is_ordered() {
    let mut db = SpiderDB::new();
    let vectors: [[i16; 2]; 6] = [[10, 1], [9, 2], [8, 3], [7, 4], [-5, 5], [1, 10]];
    for (i, v) in vectors.iter().enumerate() {
        db.add_node(String::from("n"), v.to_vec(), (i * 40) as u8, T);
    }
    for _ in 0..9 {
        db.get_node(3, T);
    }
    let q: Vec<i16> = vec![10, 2];
    let got = db.hybrid_search(q.clone(), 4, T + 100);
    assert!(got.len() <= 4);
    let mut seen = got.clone();
    seen.sort();
    seen.dedup();
    assert_eq!(seen.len(), got.len());
    let sims = top_k(&q, db.embeddings(), 6);
    let score = |id: u64| -> i128 {
        let sim = sims.iter().find(|p| p.0 == id).map(|p| p.1).unwrap();
        (sim as i128) * (db.calculate_life_score(id, T + 100) as i128)
    };
    for w in got.windows(2) {
        assert!(score(w[0]) >= score(w[1]));
    }
}
