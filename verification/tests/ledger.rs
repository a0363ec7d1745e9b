use radar_bot::digest::digest_messages;
use radar_bot::ieee::Real;
use radar_bot::item::FeedItem;
use radar_bot::ledger::{ItemState, Ledger};
use radar_bot::pipeline::ProcessOutcome;

fn feed_item(guid: &str, source: &str, title: &str, score: i32) -> FeedItem {
    FeedItem {
        guid: guid.to_owned(),
        title: title.to_owned(),
        link: None,
        link_note: None,
        description: None,
        article_text: None,
        source_name: source.to_owned(),
        score,
        max_score: 5,
        distance_meters: None,
        location_label: None,
        published_at: None,
    }
}

fn queued(guid: &str, score: i32) -> ProcessOutcome {
    ProcessOutcome::Queued(feed_item(guid, "S", "T", score))
}

fn states(ledger: &Ledger) -> Vec<&str> {
    ledger.rows.iter().map(|r| r.state.label()).collect()
}

#[test]
fn candidate_clustering_promotes_multi_source_weak_items() {
    let mut db = Ledger::new();
    let a = FeedItem {
        guid: "candidate-a".to_owned(),
        title: "Brand in der Rigaer Straße".to_owned(),
        link: Some("https://a.test/1".to_owned()),
        link_note: None,
        description: None,
        article_text: None,
        source_name: "Source A".to_owned(),
        score: 2,
        max_score: 5,
        distance_meters: Some(Real { bits: 1500.0_f64.to_bits() }),
        location_label: Some("Rigaer Straße".to_owned()),
        published_at: None,
    };
    let mut b = a.clone();
    b.guid = "candidate-b".to_owned();
    b.source_name = "Source B".to_owned();
    b.title = "Feuerwehreinsatz Rigaer Straße nach Brand".to_owned();
    b.link = Some("https://b.test/2".to_owned());

    let now = 1_705_314_600;
    for item in [a, b] {
        db.record(
            ProcessOutcome::Candidate {
                item,
                reason: "score 2 below digest threshold 3".to_owned(),
            },
            now,
        );
    }

    let promoted = db.promote_candidate_clusters(3, 2, 24, now);
    let items = db.take_for_digest(3);

    assert_eq!(promoted, 2);
    assert_eq!(items.len(), 2);
    assert!(items.iter().all(|item| item.score >= 3));
}

#[test]
fn single_sources_are_not_promoted() {
    let mut db = Ledger::new();
    db.record(
        ProcessOutcome::Candidate {
            item: feed_item("a", "S", "Brand in der Rigaer Straße", 2),
            reason: String::new(),
        },
        100_000,
    );
    assert_eq!(db.promote_candidate_clusters(3, 1, 24, 100_000), 0);
    assert_eq!(states(&db), vec!["candidate"]);
    assert_eq!(db.promote_candidate_clusters(3, 1, 0, 103_600), 0);
    assert_eq!(states(&db), vec!["candidate"]);
    assert_eq!(db.promote_candidate_clusters(3, 1, 0, 103_601), 0);
    assert_eq!(states(&db), vec!["dropped"]);
}

#[test]
fn items_are_recorded_once() {
    let mut db = Ledger::new();
    assert!(db.is_new("a"));
    db.record(queued("a", 3), 10);
    db.record(queued("a", 5), 20);
    db.record(
        ProcessOutcome::Dropped {
            item: feed_item("b", "S", "T", 4),
            reason: "r".to_owned(),
        },
        30,
    );
    db.record(
        ProcessOutcome::Retry {
            item: feed_item("c", "S", "T", 4),
            reason: "r".to_owned(),
        },
        40,
    );
    assert!(!db.is_new("a") && !db.is_new("b") && db.is_new("c"));
    assert_eq!(db.rows.len(), 2);
    assert_eq!(db.rows[0].item.score, 3);
    assert_eq!(db.rows[0].discovered_at, 10);
    assert_eq!(db.rows[1].item.score, 0);
    assert_eq!(db.rows[1].item.max_score, 0);
}

#[test]
fn digests_take_what_scores_enough() {
    let mut db = Ledger::new();
    for (guid, score) in [("a", 1), ("b", 3), ("c", 5), ("d", 3)] {
        db.record(queued(guid, score), 0);
    }
    let taken = db.take_for_digest(2);
    let guids: Vec<&str> = taken.iter().map(|i| i.guid.as_str()).collect();
    assert_eq!(guids, vec!["c", "b", "d"]);
    assert_eq!(states(&db), vec!["dropped", "processing", "processing", "processing"]);
    db.mark_posted(&["b".to_owned(), "a".to_owned()]);
    db.requeue_failed(&["c".to_owned()]);
    assert_eq!(states(&db), vec!["dropped", "posted", "queued", "processing"]);
    assert_eq!(db.recover_processing(), 1);
    assert_eq!(states(&db), vec!["dropped", "posted", "queued", "queued"]);
    let again = db.take_for_digest(2);
    assert_eq!(again.len(), 2);
    db.mark_posted(&["c".to_owned(), "d".to_owned()]);
    assert!(db.take_for_digest(0).is_empty());
}

#[test]
fn digests_leave_out_what_is_on_its_way() {
    let mut db = Ledger::new();
    db.record(queued("a", 3), 0);
    assert_eq!(db.take_for_digest(0).len(), 1);
    assert_eq!(states(&db), vec!["processing"]);
    db.record(queued("b", 4), 0);
    let taken = db.take_for_digest(0);
    assert_eq!(taken.len(), 1);
    assert_eq!(taken[0].guid, "b");
    assert_eq!(states(&db), vec!["processing", "processing"]);
    assert!(db.take_for_digest(0).is_empty());
}

#[test]
fn messages_are_settled() {
    let mut db = Ledger::new();
    for i in 0..40 {
        let title = format!("Bericht{i} über{i} Vorgang{i} {}", "x".repeat(400));
        db.record(ProcessOutcome::Queued(feed_item(&format!("g{i}"), "S", &title, 3)), 0);
    }
    let messages = digest_messages(db.take_for_digest(3), "Digest");
    assert!(messages.len() > 1);
    let failed = messages.last().expect("a message").guids.clone();
    for (i, message) in messages.iter().enumerate() {
        db.settle(message, i + 1 < messages.len());
    }
    for row in &db.rows {
        let expected = if failed.contains(&row.item.guid) { "queued" } else { "posted" };
        assert_eq!(row.state.label(), expected);
    }
    let again: Vec<String> = db.take_for_digest(3).into_iter().map(|i| i.guid).collect();
    assert_eq!(again.len(), failed.len());
    assert!(again.iter().all(|guid| failed.contains(guid)));
}

#[test]
fn old_items_are_forgotten() {
    let mut db = Ledger::new();
    db.record(queued("a", 3), 0);
    db.record(queued("b", 3), 100_000);
    db.take_for_digest(0);
    db.mark_posted(&["a".to_owned(), "b".to_owned()]);
    db.record(queued("c", 3), 0);
    assert_eq!(db.prune_old(1, 186_400), 1);
    assert!(db.is_new("a"));
    assert_eq!(states(&db), vec!["posted", "queued"]);
}

#[test]
fn states_have_names() {
    for name in ["queued", "candidate", "processing", "posted", "dropped"] {
        let state = ItemState::named(name).expect("a state");
        assert_eq!(state.label(), name);
    }
    assert!(ItemState::named("lost").is_none());
}

#[test]
fn promotions_raise_the_score() {
    let mut db = Ledger::new();
    db.record(
        ProcessOutcome::Candidate {
            item: feed_item("a", "S", "T", 1),
            reason: String::new(),
        },
        0,
    );
    db.record(queued("b", 1), 0);
    assert_eq!(db.promote_candidates(&["a".to_owned(), "b".to_owned(), "a".to_owned()], 3), 1);
    assert_eq!(db.rows[0].item.score, 3);
    assert_eq!(db.rows[1].item.score, 1);
    assert_eq!(db.pending(0).len(), 2);
    assert_eq!(db.pending(1).len(), 0);
}
