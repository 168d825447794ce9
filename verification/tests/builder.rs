use std::collections::HashSet;

use inoxset::builder::{IndexPlan, InoxSetBuilder, OpenStep};
use inoxset::part_store::FoundFile;
use inoxset::types::{Granularity, IndexFreshness, Rollup};

#[test]
fn builder_requires_path() {
    let result = InoxSetBuilder::new().prepare(false);
    assert!(result.is_err());
    assert_eq!(
        result.err().unwrap().message(),
        "configuration error: path is required"
    );
}

#[test]
fn builder_default_config() {
    let store = InoxSetBuilder::default().path("data".to_string()).prepare(false).unwrap();
    assert_eq!(store.flush_threshold, 16 * 1024 * 1024);
    assert!(!store.read_only);
    assert_eq!(store.default_granularity, Granularity::Day);
    assert_eq!(store.default_rollup, Rollup::Off);
    assert_eq!(store.max_events, 0);
    assert_eq!(store.map_size, 256 * 1024 * 1024);
    assert_eq!(store.parts_root, "data/parts");
    assert_eq!(store.catalog_path, "data/catalog.mdb");
    assert_eq!(store.index_plan().unwrap(), IndexPlan::Without);
}

#[test]
fn builder_keeps_settings() {
    let store = InoxSetBuilder::new()
        .path("data/".to_string())
        .default_granularity(Granularity::Hour)
        .default_rollup(Rollup::Auto)
        .mempart_flush_threshold(77)
        .max_events(5)
        .read_only(true)
        .map_size(4096)
        .index_freshness(IndexFreshness::OnCompact)
        .prepare(true)
        .unwrap();
    assert_eq!(store.path, "data/");
    assert_eq!(store.parts_root, "data/parts");
    assert_eq!(store.default_granularity, Granularity::Hour);
    assert_eq!(store.default_rollup, Rollup::Auto);
    assert_eq!(store.flush_threshold, 77);
    assert_eq!(store.max_events, 5);
    assert!(store.read_only);
    assert_eq!(store.map_size, 4096);
    assert_eq!(store.index_plan().unwrap(), IndexPlan::Frozen);
    let macos = InoxSetBuilder::new().path("x".to_string()).prepare(true).unwrap();
    assert_eq!(macos.map_size, 64 * 1024 * 1024);
}

#[test]
fn immediate_index_is_refused() {
    let plan = InoxSetBuilder::new()
        .path("x".to_string())
        .index_freshness(IndexFreshness::Immediate)
        .prepare(false)
        .unwrap();
    assert_eq!(
        plan.index_plan().err().unwrap().message(),
        "configuration error: IndexFreshness::Immediate is not implemented yet; \
         use OnFlush, OnCompact, or Disabled"
    );
}

#[test]
fn read_only_store_deletes_no_orphans() {
    let files = || {
        vec![
            FoundFile { path: "p/2026.000000000001.roar".to_string(), name: "2026.000000000001.roar".to_string() },
            FoundFile { path: "p/.gitkeep".to_string(), name: ".gitkeep".to_string() },
        ]
    };
    let known: HashSet<u64> = HashSet::new();
    let rw = InoxSetBuilder::new().path("x".to_string()).prepare(false).unwrap();
    assert_eq!(rw.orphans_to_delete(&files(), &known), vec!["p/2026.000000000001.roar".to_string()]);
    let ro = InoxSetBuilder::new().path("x".to_string()).read_only(true).prepare(false).unwrap();
    assert!(ro.orphans_to_delete(&files(), &known).is_empty());
}

fn steps(read_only: bool, freshness: IndexFreshness) -> (Vec<OpenStep>, bool) {
    let plan = InoxSetBuilder::new()
        .path("x".to_string())
        .read_only(read_only)
        .index_freshness(freshness)
        .prepare(false)
        .unwrap();
    let mut taken = vec![OpenStep::Start];
    while *taken.last().unwrap() != OpenStep::Finished {
        match plan.next_step(*taken.last().unwrap()) {
            Ok(step) => taken.push(step),
            Err(_) => return (taken, false),
        }
    }
    (taken, true)
}

#[test]
fn opening_takes_its_steps_in_order() {
    assert_eq!(
        steps(false, IndexFreshness::OnFlush),
        (
            vec![
                OpenStep::Start,
                OpenStep::CreateParts,
                OpenStep::OpenCatalog,
                OpenStep::RemoveOrphans,
                OpenStep::LoadReadIndex,
                OpenStep::BuildInverted,
                OpenStep::Finished,
            ],
            true
        )
    );
    assert_eq!(
        steps(true, IndexFreshness::Disabled),
        (
            vec![
                OpenStep::Start,
                OpenStep::CreateParts,
                OpenStep::OpenCatalog,
                OpenStep::LoadReadIndex,
                OpenStep::Finished,
            ],
            true
        )
    );
    let (taken, ok) = steps(false, IndexFreshness::Immediate);
    assert!(!ok);
    assert_eq!(taken.last(), Some(&OpenStep::LoadReadIndex));
}
