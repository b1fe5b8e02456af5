//! Tests of the resolver, the scheduler's batching, the retry protocol,
//! the persister, and the end-to-end search and detail scenarios.

use bgg_cache::batching::batch_ids;
use bgg_cache::domain::BggThing;
use bgg_cache::errors::Error;
use bgg_cache::parse::{parse_search_payload, parse_things_payload};
use bgg_cache::pipeline::{join_ids, merge_batch_outcomes, plan_fetch};
use bgg_cache::retry::{decision_error, jitter_factor_milli, retry_step, RetryDecision};
use bgg_cache::store::{resolve, Store};
use bgg_cache::{resources, DETAIL_BATCH_SIZE, INITIAL_BACKOFF_MS};

fn bytes(s: &str) -> Vec<u8> {
    s.as_bytes().to_vec()
}

fn empty_store() -> Store {
    Store { things: Vec::new(), links: Vec::new(), assocs: Vec::new() }
}

fn parse_all(payload: &str) -> Vec<BggThing> {
    parse_things_payload(&bytes(payload)).expect("payload should parse")
}

fn detail_payload(id: &str, category: Option<(&str, &str)>) -> String {
    let link = match category {
        Some((cid, cname)) => {
            format!("<link type=\"boardgamecategory\" id=\"{}\" value=\"{}\"/>", cid, cname)
        },
        None => String::new(),
    };
    format!(
        "<items><item id=\"{}\" type=\"boardgame\">\
        <name type=\"primary\" value=\"Game {}\"/>{}\
        </item></items>",
        id, id, link
    )
}

#[test]
fn batching_partitions_into_chunks_of_twenty() {
    let ids: Vec<Vec<u8>> = (0..45).map(|i| bytes(&format!("{}", i))).collect();
    let batches = batch_ids(&ids, DETAIL_BATCH_SIZE);
    assert_eq!(batches.len(), 3);
    assert_eq!(batches[0].len(), 20);
    assert_eq!(batches[1].len(), 20);
    assert_eq!(batches[2].len(), 5);
    let flat: Vec<Vec<u8>> = batches.into_iter().flatten().collect();
    assert_eq!(flat, ids);
}

#[test]
fn batching_of_nothing_is_no_batches() {
    let ids: Vec<Vec<u8>> = Vec::new();
    assert_eq!(batch_ids(&ids, DETAIL_BATCH_SIZE).len(), 0);
}

#[test]
fn join_ids_comma_joins() {
    let ids = vec![bytes("1"), bytes("22"), bytes("333")];
    assert_eq!(join_ids(&ids), bytes("1,22,333"));
    assert_eq!(join_ids(&vec![bytes("9")]), bytes("9"));
    assert_eq!(join_ids(&Vec::new()), bytes(""));
}

#[test]
fn backoff_grows_and_gives_up_within_the_cap() {
    // A deterministic substitute for the jitter: always the factor 2.0.
    let factor: u64 = 2000;
    let mut backoff: u64 = INITIAL_BACKOFF_MS;
    let mut waits: Vec<u64> = Vec::new();
    let gave_up = loop {
        match retry_step(backoff, 500, factor) {
            RetryDecision::RetryAfter { sleep_ms, next_backoff_ms } => {
                assert_eq!(sleep_ms, backoff);
                assert!(next_backoff_ms >= backoff);
                waits.push(sleep_ms);
                backoff = next_backoff_ms;
            },
            RetryDecision::GiveUp(s) => break s,
            other => panic!("unexpected decision: {:?}", other),
        }
        assert!(waits.len() < 100, "the retry loop must terminate");
    };
    assert_eq!(waits, vec![500, 1000, 2000, 4000, 8000]);
    assert_eq!(backoff, 16000);
    assert_eq!(gave_up, 500);
    assert_eq!(
        decision_error(&RetryDecision::GiveUp(gave_up)),
        Some(Error::GivingUp(500))
    );
}

#[test]
fn status_classes_decide_the_step() {
    assert_eq!(retry_step(500, 200, 1500), RetryDecision::Proceed);
    assert_eq!(retry_step(500, 299, 2499), RetryDecision::Proceed);
    assert!(matches!(retry_step(500, 429, 1500), RetryDecision::RetryAfter { .. }));
    assert!(matches!(retry_step(500, 503, 1500), RetryDecision::RetryAfter { .. }));
    assert_eq!(retry_step(500, 404, 1500), RetryDecision::Reject(404));
    assert_eq!(
        decision_error(&RetryDecision::Reject(404)),
        Some(Error::Upstream(404))
    );
    assert_eq!(decision_error(&RetryDecision::Proceed), None);
}

#[test]
fn jitter_factor_stays_in_range() {
    for _ in 0..100 {
        let f = jitter_factor_milli();
        assert!((1500..2500).contains(&f));
    }
}

#[test]
fn persisting_twice_stores_one_row_and_no_duplicate_associations() {
    let mut store = empty_store();
    let things = parse_all(&detail_payload("13", Some(("1021", "Economic"))));
    let first = things[0].add_new(&mut store);
    assert_eq!(first, Some(0));
    assert_eq!(store.things.len(), 1);
    assert_eq!(store.links.len(), 1);
    assert_eq!(store.assocs.len(), 1);
    let second = things[0].add_new(&mut store);
    assert_eq!(second, None);
    assert_eq!(store.things.len(), 1);
    assert_eq!(store.links.len(), 1);
    assert_eq!(store.assocs.len(), 1);
}

#[test]
fn a_second_thing_is_associated_with_an_existing_link() {
    // The shared category gets one Link row and two Association rows: the
    // association is made against the pre-existing row, not dropped.
    let mut store = empty_store();
    let a = parse_all(&detail_payload("1", Some(("77", "Dice"))));
    let b = parse_all(&detail_payload("2", Some(("77", "Dice"))));
    assert_eq!(a[0].add_new(&mut store), Some(0));
    assert_eq!(b[0].add_new(&mut store), Some(1));
    assert_eq!(store.things.len(), 2);
    assert_eq!(store.links.len(), 1);
    assert_eq!(store.assocs.len(), 2);
    assert_eq!(store.assocs[0].link_id, store.assocs[1].link_id);
    assert_ne!(store.assocs[0].thing_id, store.assocs[1].thing_id);
}

#[test]
fn duplicate_altnames_are_stored_once() {
    let mut store = empty_store();
    let things = parse_all(
        "<items><item id=\"8\" type=\"boardgame\">\
        <name type=\"alternate\" value=\"X\"/>\
        <name type=\"alternate\" value=\"X\"/>\
        <name type=\"alternate\" value=\"Y\"/>\
        </item></items>",
    );
    assert_eq!(things[0].data.altnames.len(), 3);
    things[0].add_new(&mut store);
    assert_eq!(store.things[0].data.altnames, vec![bytes("X"), bytes("Y")]);
}

#[test]
fn fully_cached_ids_need_no_upstream_call() {
    let mut store = empty_store();
    for t in parse_all(&detail_payload("101", None)) {
        t.add_new(&mut store);
    }
    for t in parse_all(&detail_payload("102", None)) {
        t.add_new(&mut store);
    }
    let ids = vec![bytes("101"), bytes("102")];
    let (known, batches) = plan_fetch(&store, &ids);
    assert_eq!(known.len(), 2);
    assert_eq!(batches.len(), 0);
}

#[test]
fn duplicate_unknown_ids_stay_duplicates() {
    let store = empty_store();
    let ids = vec![bytes("5"), bytes("5")];
    let (known, needed) = resolve(&store, &ids);
    assert_eq!(known.len(), 0);
    assert_eq!(needed, vec![bytes("5"), bytes("5")]);
}

#[test]
fn search_scenario_fetches_only_the_missing_id() {
    // Searching yields candidates 101 and 102; 101 is already stored, so
    // exactly one detail request goes out, for 102 alone; the merged answer
    // carries both.
    let mut store = empty_store();
    for t in parse_all(&detail_payload("101", None)) {
        assert!(t.add_new(&mut store).is_some());
    }
    let search_payload = "<items total=\"2\">\
        <item id=\"101\" type=\"boardgame\"><name value=\"a\"/></item>\
        <item id=\"102\" type=\"boardgame\"><name value=\"b\"/></item>\
        </items>";
    let candidates = parse_search_payload(&bytes(search_payload));
    assert_eq!(candidates.len(), 2);
    let ids: Vec<Vec<u8>> = candidates.iter().map(|c| c.id.clone()).collect();

    let (known, batches) = plan_fetch(&store, &ids);
    assert_eq!(known.len(), 1);
    assert_eq!(known[0].bgg_id, bytes("101"));
    assert_eq!(batches.len(), 1);
    assert_eq!(batches[0], vec![bytes("102")]);
    assert_eq!(join_ids(&batches[0]), bytes("102"));

    // The one upstream detail request answers with 102; it is persisted and
    // merged with the cached Thing.
    let fetched = parse_all(&detail_payload("102", None));
    for t in &fetched {
        assert!(t.add_new(&mut store).is_some());
    }
    let outcomes = vec![Some(fetched)];
    let merged = merge_batch_outcomes(known, &outcomes);
    assert_eq!(merged.len(), 2);
    assert_eq!(merged[0].bgg_id, bytes("101"));
    assert_eq!(merged[1].bgg_id, bytes("102"));
    assert_eq!(store.things.len(), 2);
}

#[test]
fn failing_single_id_detail_ends_in_not_found_not_a_loop() {
    // A detail request for one unknown id where upstream answers 500 every
    // time: the backoff grows until the next wait would pass the cap, the
    // fetch gives up, the batch is dropped, and the caller sees no Thing.
    let store = empty_store();
    let ids = vec![bytes("999")];
    let (known, batches) = plan_fetch(&store, &ids);
    assert_eq!(known.len(), 0);
    assert_eq!(batches.len(), 1);

    let factor: u64 = 2400;
    let mut backoff: u64 = INITIAL_BACKOFF_MS;
    let mut steps: usize = 0;
    let failure = loop {
        match retry_step(backoff, 500, factor) {
            RetryDecision::RetryAfter { next_backoff_ms, .. } => {
                backoff = next_backoff_ms;
            },
            RetryDecision::GiveUp(s) => break Error::GivingUp(s),
            other => panic!("unexpected decision: {:?}", other),
        }
        steps += 1;
        assert!(steps < 100, "the retry loop must terminate");
    };
    assert_eq!(failure, Error::GivingUp(500));

    // The chunk failed, so its outcome is dropped; nothing was resolved.
    let outcomes = vec![None];
    let merged = merge_batch_outcomes(known, &outcomes);
    assert!(merged.is_empty());
}

#[test]
fn failed_batches_are_dropped_from_the_merge() {
    let cached = Vec::new();
    let ok = parse_all(&detail_payload("3", None));
    let outcomes = vec![None, Some(ok), None];
    let merged = merge_batch_outcomes(cached, &outcomes);
    assert_eq!(merged.len(), 1);
    assert_eq!(merged[0].bgg_id, bytes("3"));
}

#[test]
fn store_lookup_chunks_by_one_thousand() {
    let mut store = empty_store();
    for t in parse_all(&detail_payload("42", None)) {
        t.add_new(&mut store);
    }
    // 1001 ids force two store-side chunks; the one stored id is found.
    let mut ids: Vec<Vec<u8>> = (0..1000).map(|i| bytes(&format!("n{}", i))).collect();
    ids.push(bytes("42"));
    let (known, needed) = resolve(&store, &ids);
    assert_eq!(known.len(), 1);
    assert_eq!(known[0].bgg_id, bytes("42"));
    assert_eq!(needed.len(), 1000);
}

#[test]
fn point_lookup_returns_stored_rows() {
    let mut store = empty_store();
    for t in parse_all(&detail_payload("7", None)) {
        t.add_new(&mut store);
    }
    for t in parse_all(&detail_payload("8", None)) {
        t.add_new(&mut store);
    }
    let rows = BggThing::get_for_bgg_ids(&store, &vec![bytes("8"), bytes("nope")]);
    assert_eq!(rows.len(), 1);
    assert_eq!(rows[0].thing_id, 1);
    assert_eq!(rows[0].data.bgg_id, bytes("8"));
    assert_eq!(rows[0].data.name, Some(bytes("Game 8")));
}

#[test]
fn routes_are_stable() {
    assert_eq!(resources::api_doc::route(), "/");
    assert_eq!(resources::search::route(), "/search");
    assert_eq!(resources::thing::route(), "/thing");
    assert_eq!(resources::branding::route(), "/logos");
    assert_eq!(resources::branding::list_route(), "/logos/index");
}
