use dice::re_config::{
    find_setting, flag_setting, number_setting, parse_bool, text_setting, ConfigParseError,
    ParsedSettings, RemoteExecutionStaticMetadata,
};

fn section(pairs: &[(&str, &str)]) -> Vec<(String, String)> {
    pairs.iter().map(|(k, v)| (k.to_string(), v.to_string())).collect()
}

fn nothing() -> ParsedSettings {
    ParsedSettings {
        cas_address: None,
        cas_connection_count: None,
        action_cache_address: None,
        action_cache_connection_count: None,
        engine_address: None,
        engine_connection_count: None,
        verbose_logging: None,
        cas_thread_count: None,
        use_manifold_rich_client: None,
        use_zippy_rich_client: None,
        use_p2p: None,
        rich_client_channels_per_blob: None,
        rich_client_attempt_timeout_ms: None,
        rich_client_retries_count: None,
        force_enable_deduplicate_find_missing: None,
        features_config_path: None,
    }
}

#[test]
fn an_empty_section_gives_the_defaults() {
    let m = RemoteExecutionStaticMetadata::from_legacy_config(&vec![]).unwrap();
    assert_eq!(
        m,
        RemoteExecutionStaticMetadata {
            cas_address: None,
            cas_connection_count: 16,
            action_cache_address: None,
            action_cache_connection_count: 4,
            engine_address: None,
            engine_connection_count: 4,
            verbose_logging: false,
            use_manifold_rich_client: true,
            use_zippy_rich_client: false,
            use_p2p: false,
            cas_thread_count: 4,
            rich_client_channels_per_blob: None,
            rich_client_attempt_timeout_ms: None,
            rich_client_retries_count: None,
            force_enable_deduplicate_find_missing: None,
            features_config_path: None,
        }
    );
    assert_eq!(RemoteExecutionStaticMetadata::from_parsed(nothing()), m);
}

#[test]
fn the_default_of_the_type_is_all_zero() {
    let m = RemoteExecutionStaticMetadata::default();
    assert_eq!(m.cas_connection_count, 0);
    assert_eq!(m.cas_thread_count, 0);
    assert!(!m.use_manifold_rich_client);
    assert_eq!(m.cas_address, None);
}

#[test]
fn settings_override_the_defaults() {
    let m = RemoteExecutionStaticMetadata::from_legacy_config(&section(&[
        ("cas_address", "cas.example:443"),
        ("cas_connection_count", "32"),
        ("action_cache_address", "ac.example:443"),
        ("action_cache_connection_count", "-1"),
        ("engine_address", "engine.example:443"),
        ("engine_connection_count", "+8"),
        ("verbose_logging", "true"),
        ("cas_thread_count", "2"),
        ("use_manifold_rich_client_new", "false"),
        ("use_zippy_rich_client", "true"),
        ("use_p2p", "true"),
        ("rich_client_channels_per_blob", "3"),
        ("rich_client_attempt_timeout_ms", "1500"),
        ("rich_client_retries_count", "0"),
        ("force_enable_deduplicate_find_missing", "false"),
        ("features_config_path", "/etc/features"),
        ("something_else", "ignored"),
    ]))
    .unwrap();
    assert_eq!(
        m,
        RemoteExecutionStaticMetadata {
            cas_address: Some("cas.example:443".to_string()),
            cas_connection_count: 32,
            action_cache_address: Some("ac.example:443".to_string()),
            action_cache_connection_count: -1,
            engine_address: Some("engine.example:443".to_string()),
            engine_connection_count: 8,
            verbose_logging: true,
            use_manifold_rich_client: false,
            use_zippy_rich_client: true,
            use_p2p: true,
            cas_thread_count: 2,
            rich_client_channels_per_blob: Some(3),
            rich_client_attempt_timeout_ms: Some(1500),
            rich_client_retries_count: Some(0),
            force_enable_deduplicate_find_missing: Some(false),
            features_config_path: Some("/etc/features".to_string()),
        }
    );
}

#[test]
fn the_old_name_of_the_manifold_flag_is_not_read() {
    let m = RemoteExecutionStaticMetadata::from_legacy_config(&section(&[(
        "use_manifold_rich_client",
        "false",
    )]))
    .unwrap();
    assert!(m.use_manifold_rich_client);
}

#[test]
fn a_number_that_is_none_fails_the_whole() {
    let r = RemoteExecutionStaticMetadata::from_legacy_config(&section(&[
        ("cas_address", "cas"),
        ("cas_thread_count", "four"),
    ]));
    assert_eq!(
        r,
        Err(ConfigParseError { name: "cas_thread_count".to_string(), value: "four".to_string() })
    );
}

#[test]
fn the_first_unreadable_setting_is_the_one_reported() {
    let r = RemoteExecutionStaticMetadata::from_legacy_config(&section(&[
        ("use_p2p", "yes"),
        ("rich_client_retries_count", "many"),
        ("verbose_logging", "TRUE"),
    ]));
    assert_eq!(
        r,
        Err(ConfigParseError { name: "verbose_logging".to_string(), value: "TRUE".to_string() })
    );
}

#[test]
fn numbers_are_read_as_std_reads_them() {
    let s = section(&[
        ("a", "2147483647"),
        ("b", "2147483648"),
        ("c", "-2147483648"),
        ("d", ""),
        ("e", " 1"),
        ("f", "007"),
    ]);
    assert_eq!(number_setting(&s, "a"), Ok(Some(i32::MAX)));
    assert_eq!(
        number_setting(&s, "b"),
        Err(ConfigParseError { name: "b".to_string(), value: "2147483648".to_string() })
    );
    assert_eq!(number_setting(&s, "c"), Ok(Some(i32::MIN)));
    assert!(number_setting(&s, "d").is_err());
    assert!(number_setting(&s, "e").is_err());
    assert_eq!(number_setting(&s, "f"), Ok(Some(7)));
    assert_eq!(number_setting(&s, "g"), Ok(None));
}

#[test]
fn flags_are_true_or_false_and_nothing_else() {
    assert_eq!(parse_bool(&"true".to_string()), Some(true));
    assert_eq!(parse_bool(&"false".to_string()), Some(false));
    assert_eq!(parse_bool(&"True".to_string()), None);
    assert_eq!(parse_bool(&"1".to_string()), None);
    assert_eq!(parse_bool(&"".to_string()), None);
    let s = section(&[("on", "true"), ("off", "false"), ("odd", "maybe")]);
    assert_eq!(flag_setting(&s, "on"), Ok(Some(true)));
    assert_eq!(flag_setting(&s, "off"), Ok(Some(false)));
    assert_eq!(flag_setting(&s, "none"), Ok(None));
    assert_eq!(
        flag_setting(&s, "odd"),
        Err(ConfigParseError { name: "odd".to_string(), value: "maybe".to_string() })
    );
}

#[test]
fn the_first_setting_of_a_name_counts() {
    let s = section(&[("a", "1"), ("b", "2"), ("a", "3")]);
    assert_eq!(find_setting(&s, "a"), Some(0));
    assert_eq!(find_setting(&s, "b"), Some(1));
    assert_eq!(find_setting(&s, "c"), None);
    assert_eq!(text_setting(&s, "a"), Some("1".to_string()));
    assert_eq!(text_setting(&s, "c"), None);
}

#[test]
fn parsed_settings_take_their_defaults_one_by_one() {
    let mut p = nothing();
    p.cas_connection_count = Some(1);
    p.use_manifold_rich_client = Some(false);
    p.features_config_path = Some("p".to_string());
    let m = RemoteExecutionStaticMetadata::from_parsed(p);
    assert_eq!(m.cas_connection_count, 1);
    assert_eq!(m.action_cache_connection_count, 4);
    assert_eq!(m.engine_connection_count, 4);
    assert_eq!(m.cas_thread_count, 4);
    assert!(!m.use_manifold_rich_client);
    assert_eq!(m.features_config_path, Some("p".to_string()));
    let parsed = RemoteExecutionStaticMetadata::parse_section(&section(&[("use_p2p", "true")]));
    let mut expected = nothing();
    expected.use_p2p = Some(true);
    assert_eq!(parsed, Ok(expected));
}
