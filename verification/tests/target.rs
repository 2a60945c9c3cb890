use dice::chars::{push_decimal_text, push_hex_text};
use dice::target::{AnonTarget, CommandExecutionTarget, ExecConfiguration, TargetLabel};

fn label(cell: &str, package: &str, name: &str) -> TargetLabel {
    TargetLabel {
        cell_name: cell.to_string(),
        cell_relative_path: package.to_string(),
        name: name.to_string(),
    }
}

fn cfg() -> ExecConfiguration {
    ExecConfiguration { full_name: "cfg:linux#0123".to_string(), output_hash: "0123".to_string() }
}

fn anon(package: &str, digest: u64) -> AnonTarget {
    AnonTarget::new(
        "my_rule".to_string(),
        label("root", package, "thing"),
        vec![("a".to_string(), "1".to_string())],
        cfg(),
        digest,
    )
}

#[test]
fn the_hash_is_the_digest_in_lower_case_hexadecimal() {
    assert_eq!(AnonTarget::mk_hash(0), "0");
    assert_eq!(AnonTarget::mk_hash(10), "a");
    assert_eq!(AnonTarget::mk_hash(255), "ff");
    assert_eq!(AnonTarget::mk_hash(0xdead_beef), "deadbeef");
    assert_eq!(AnonTarget::mk_hash(u64::MAX), "ffffffffffffffff");
    assert_eq!(AnonTarget::mk_hash(0x1000), format!("{:x}", 0x1000));
}

#[test]
fn digits_are_appended_in_the_base_asked_for() {
    let mut s = "x".to_string();
    push_decimal_text(&mut s, 1905);
    push_hex_text(&mut s, 1905);
    assert_eq!(s, "x1905771");
}

#[test]
fn an_anonymous_target_keeps_what_it_was_made_of() {
    let t = anon("pkg/dir", 0xabc);
    assert_eq!(t.rule_type(), "my_rule");
    assert_eq!(t.name(), &label("root", "pkg/dir", "thing"));
    assert_eq!(t.attrs(), &vec![("a".to_string(), "1".to_string())]);
    assert_eq!(t.rule_type_attrs_hash(), "abc");
    assert_eq!(t.exec_cfg(), &cfg());
    assert_eq!(t.to_text(), "root//pkg/dir:thing (anon: abc) (cfg:linux#0123)");
    assert_eq!(t, anon("pkg/dir", 0xabc));
    assert_ne!(t, anon("pkg/dir", 0xabd));
}

#[test]
fn the_hashed_path_names_cell_configuration_package_hash_and_target() {
    let t = anon("pkg/dir", 0xabc);
    assert_eq!(
        t.make_hashed_path("buck-out/v2", "gen", None, "out/file.txt"),
        "buck-out/v2/gen-anon/root/0123pkg/dir/abc/__thing__/out/file.txt"
    );
    assert_eq!(
        t.make_hashed_path("buck-out/v2", "tmp", Some("compile"), "o"),
        "buck-out/v2/tmp-anon/root/0123pkg/dir/abc/__thing__compile__/o"
    );
}

#[test]
fn a_target_in_the_root_package_has_no_package_separator() {
    let t = anon("", 1);
    assert_eq!(
        t.make_hashed_path("b", "gen", Some(""), ""),
        "b/gen-anon/root/01231/__thing____/"
    );
    assert_eq!(t.make_hashed_path("", "", None, ""), "/-anon/root/01231/__thing__/");
}

#[test]
fn an_execution_target_is_shown_with_its_identifier_if_it_has_one() {
    let with = CommandExecutionTarget {
        owner: "root//pkg:lib (cfg)".to_string(),
        category: "cxx_compile".to_string(),
        identifier: Some("main.cpp".to_string()),
    };
    let without = CommandExecutionTarget { identifier: None, ..with.clone() };
    assert_eq!(with.re_action_key(), "root//pkg:lib (cfg) cxx_compile main.cpp");
    assert_eq!(without.re_action_key(), "root//pkg:lib (cfg) cxx_compile");
    assert_eq!(with.to_text(), with.re_action_key());
    assert_eq!(with.re_affinity_key(), "root//pkg:lib (cfg)");
    assert_eq!(without.re_affinity_key(), "root//pkg:lib (cfg)");
}
