use dice::materializer::{
    iterate, path_data_of, test_iter_report, write_declared, write_materialized,
    ArtifactMaterializationStage, PathData, RefreshTtls, TreeEntry, MAX_TTL_SECONDS,
};

fn declared(path: &str, method: &str) -> TreeEntry {
    TreeEntry {
        path: path.to_string(),
        stage: ArtifactMaterializationStage::Declared { method: method.to_string() },
    }
}

fn materialized(path: &str, secs: i64, nanos: u32) -> TreeEntry {
    TreeEntry {
        path: path.to_string(),
        stage: ArtifactMaterializationStage::Materialized {
            last_access_secs: secs,
            last_access_nanos: nanos,
        },
    }
}

#[test]
fn a_listing_shows_every_artifact_in_the_order_of_the_tree() {
    let tree = vec![
        declared("a/b", "cas download"),
        materialized("a/c", 1_431_648_000, 999_999_999),
        declared("d", "local copy"),
    ];
    assert_eq!(
        iterate(&tree),
        vec![
            ("a/b".to_string(), PathData::Declared("cas download".to_string())),
            ("a/c".to_string(), PathData::Materialized(1_431_648_000)),
            ("d".to_string(), PathData::Declared("local copy".to_string())),
        ]
    );
    assert_eq!(iterate(&vec![]), vec![]);
}

#[test]
fn the_nanoseconds_of_the_last_access_are_dropped() {
    let a = materialized("p", 5, 1).stage;
    let b = materialized("p", 5, 2).stage;
    assert_eq!(path_data_of(&a), PathData::Materialized(5));
    assert_eq!(path_data_of(&a), path_data_of(&b));
}

#[test]
fn a_materialized_artifact_is_written_with_its_time() {
    assert_eq!(
        PathData::Materialized(1_431_648_000).describe(),
        Some("materialized (ts=2015-05-15T00:00:00Z)".to_string())
    );
    assert_eq!(
        PathData::Materialized(0).describe(),
        Some("materialized (ts=1970-01-01T00:00:00Z)".to_string())
    );
    assert_eq!(
        PathData::Materialized(-1).describe(),
        Some("materialized (ts=1969-12-31T23:59:59Z)".to_string())
    );
    assert_eq!(write_materialized("now"), "materialized (ts=now)");
}

#[test]
fn a_time_that_chrono_does_not_have_is_not_written() {
    assert_eq!(PathData::Materialized(i64::MAX).describe(), None);
    assert_eq!(PathData::Materialized(i64::MIN).describe(), None);
    assert_eq!(PathData::Materialized(7).with_stamp(None), None);
}

#[test]
fn a_declared_artifact_is_written_with_its_method() {
    let d = PathData::Declared("cas download".to_string());
    assert_eq!(d.describe(), Some("declared: cas download".to_string()));
    assert_eq!(
        d.with_stamp(Some("ignored".to_string())),
        Some("declared: cas download".to_string())
    );
    assert_eq!(write_declared(""), "declared: ");
}

#[test]
fn a_time_to_live_must_be_a_span_that_can_be_counted() {
    assert_eq!(RefreshTtls::new(0), Some(RefreshTtls { min_ttl: 0 }));
    assert_eq!(RefreshTtls::new(3600), Some(RefreshTtls { min_ttl: 3600 }));
    assert_eq!(RefreshTtls::new(-5), Some(RefreshTtls { min_ttl: -5 }));
    assert_eq!(MAX_TTL_SECONDS, i64::MAX / 1000);
    assert_eq!(RefreshTtls::new(MAX_TTL_SECONDS), Some(RefreshTtls { min_ttl: MAX_TTL_SECONDS }));
    assert_eq!(RefreshTtls::new(MAX_TTL_SECONDS + 1), None);
    assert_eq!(RefreshTtls::new(-MAX_TTL_SECONDS), Some(RefreshTtls { min_ttl: -MAX_TTL_SECONDS }));
    assert_eq!(RefreshTtls::new(-MAX_TTL_SECONDS - 1), None);
    assert_eq!(RefreshTtls::new(i64::MIN), None);
}

#[test]
fn the_report_of_an_iterator_test_has_two_lines() {
    assert_eq!(
        test_iter_report(10, "1.5ms", "2.25ms"),
        "Elapsed for iter() (10 times): 1.5ms\nElapsed for iter().with_paths() (10 times): 2.25ms\n"
    );
    assert_eq!(
        test_iter_report(0, "0ns", "0ns"),
        "Elapsed for iter() (0 times): 0ns\nElapsed for iter().with_paths() (0 times): 0ns\n"
    );
}
