use eia::version::{
    after_reply, binary_warning, check_binary_version, check_format_version, extract_semver,
    parse_major_version, validate_plan_format_version, validate_state_format_version, warning_lines,
    BinaryInfo, ProbeStep, VersionWarning,
};

fn tool(name: &str, version: &str) -> BinaryInfo {
    BinaryInfo { name: name.to_string(), version: version.to_string() }
}

#[test]
fn format_within_known_is_silent() {
    assert!(check_format_version("1.0").is_none());
    assert!(check_format_version("1.1").is_none());
    assert!(check_format_version("1.2").is_none());
}

#[test]
fn format_minor_ahead_warns() {
    let w = check_format_version("1.9");
    assert!(matches!(w, Some(VersionWarning::FormatMinorAhead { .. })));
}

#[test]
fn format_different_major_is_ignored_here() {
    assert!(check_format_version("2.0").is_none());
}

#[test]
fn tofu_within_known_is_silent() {
    assert!(check_binary_version(&tool("tofu", "1.8.0")).is_none());
    assert!(check_binary_version(&tool("tofu", "1.9.3")).is_none());
}

#[test]
fn tofu_ahead_warns() {
    assert!(matches!(
        check_binary_version(&tool("tofu", "1.99.0")),
        Some(VersionWarning::BinaryAhead { .. })
    ));
}

#[test]
fn terraform_within_known_is_silent() {
    assert!(check_binary_version(&tool("terraform", "1.9.0")).is_none());
    assert!(check_binary_version(&tool("terraform", "1.10.5")).is_none());
}

#[test]
fn terraform_ahead_warns() {
    assert!(matches!(
        check_binary_version(&tool("terraform", "1.11.0")),
        Some(VersionWarning::BinaryAhead { .. })
    ));
}

#[test]
fn pre_release_version_is_parsed_by_semver() {
    assert!(check_binary_version(&tool("tofu", "1.8.0-rc.1")).is_none());
}

#[test]
fn extracts_tofu_version() {
    let out = "OpenTofu v1.8.2\non linux/amd64\n";
    assert_eq!(extract_semver(out), Some("1.8.2".into()));
}

#[test]
fn extracts_terraform_version() {
    let out = "Terraform v1.10.0\non darwin/arm64\n";
    assert_eq!(extract_semver(out), Some("1.10.0".into()));
}

#[test]
fn extract_returns_none_for_garbage() {
    assert_eq!(extract_semver("command not found"), None);
    assert_eq!(extract_semver(""), None);
}

// ── Formats ──────────────────────────────────────────────────────────────────

#[test]
fn format_warning_in_words() {
    let w = check_format_version("1.3").unwrap();
    assert_eq!(
        w.message(),
        "warning: plan format_version 1.3 is newer than tested 1.2 — \
         unknown fields will be ignored; consider updating eia"
    );
}

#[test]
fn formats_without_a_readable_minor_are_silent() {
    for version in ["", "1", "1.", "1.x", "1.-3", "1.99999999999999999999", "9"] {
        assert!(check_format_version(version).is_none());
    }
    assert!(check_format_version("1.+3").is_some());
    assert!(check_format_version("1.3.0").is_some());
    assert!(check_format_version("2.3").is_some());
}

#[test]
fn major_versions() {
    assert_eq!(parse_major_version("1.2").unwrap(), 1);
    assert_eq!(parse_major_version("12").unwrap(), 12);
    assert_eq!(parse_major_version("+7.x").unwrap(), 7);
    assert_eq!(parse_major_version("18446744073709551615.0").unwrap(), u64::MAX);
    let e = parse_major_version("18446744073709551616.0").unwrap_err();
    assert_eq!(e.message(), "malformed major version in \"18446744073709551616.0\"");
    assert_eq!(e.cause(), Some("number too large to fit in target type"));
    assert_eq!(
        parse_major_version("-1").unwrap_err().cause(),
        Some("invalid digit found in string")
    );
    assert_eq!(
        parse_major_version(".1").unwrap_err().cause(),
        Some("cannot parse integer from empty string")
    );
}

#[test]
fn accepted_major_versions() {
    assert!(validate_plan_format_version("1.99").is_ok());
    assert!(validate_state_format_version("1.99").is_ok());
    assert!(validate_state_format_version("0.1").is_ok());
    let e = validate_plan_format_version("0.1").unwrap_err();
    assert_eq!(
        e.message(),
        "unsupported plan format_version \"0.1\": expected major version 1, got 0"
    );
    assert_eq!(e.cause(), None);
    let e = validate_state_format_version("10.1").unwrap_err();
    assert_eq!(
        e.message(),
        "unsupported state format_version \"10.1\": expected major version 0 or 1, got 10"
    );
}

// ── Tools ────────────────────────────────────────────────────────────────────

#[test]
fn tool_warning_in_words() {
    let w = check_binary_version(&tool("terraform", "1.11.2-beta1")).unwrap();
    assert_eq!(
        w.message(),
        "warning: terraform 1.11.2-beta1 is newer than tested 1.10.x — \
         plan output may contain fields eia does not yet handle"
    );
    let w = check_binary_version(&tool("opentofu", "1.10.0")).unwrap();
    assert_eq!(
        w.message(),
        "warning: opentofu 1.10.0 is newer than tested 1.9.x — \
         plan output may contain fields eia does not yet handle"
    );
}

#[test]
fn a_higher_major_is_ahead() {
    match check_binary_version(&tool("tofu", "2.0.0")) {
        Some(VersionWarning::BinaryAhead { name, found, tested_max }) => {
            assert_eq!(name, "tofu");
            assert_eq!(found, "2.0.0");
            assert_eq!(tested_max, "1.9");
        }
        _ => panic!("expected a warning"),
    }
    assert!(check_binary_version(&tool("terraform", "2.0.0-alpha")).is_some());
}

#[test]
fn warning_lines_for_a_plan_and_a_tool() {
    let ahead = Some(tool("tofu", "1.10.0"));
    assert_eq!(
        warning_lines("1.3", &ahead),
        [
            "warning: plan format_version 1.3 is newer than tested 1.2 — \
             unknown fields will be ignored; consider updating eia",
            "warning: tofu 1.10.0 is newer than tested 1.9.x — \
             plan output may contain fields eia does not yet handle",
        ]
    );
    assert_eq!(warning_lines("1.2", &ahead).len(), 1);
    assert!(warning_lines("1.2", &Some(tool("tofu", "1.9.0"))).is_empty());
    assert!(warning_lines("1.2", &None).is_empty());
}

#[test]
fn lower_majors_and_unreadable_versions_are_silent() {
    assert!(check_binary_version(&tool("tofu", "0.99.0")).is_none());
    assert!(check_binary_version(&tool("tofu", "1.99")).is_none());
    assert!(check_binary_version(&tool("tofu", "nonsense")).is_none());
}

#[test]
fn a_warning_follows_from_the_numbers() {
    let tofu = tool("tofu", "whatever");
    assert!(binary_warning(&tofu, None).is_none());
    assert!(binary_warning(&tofu, Some((1, 9, 99))).is_none());
    assert!(binary_warning(&tofu, Some((0, 10, 0))).is_none());
    assert!(binary_warning(&tofu, Some((2, 0, 0))).is_some());
    match binary_warning(&tofu, Some((1, 10, 0))) {
        Some(VersionWarning::BinaryAhead { name, found, tested_max }) => {
            assert_eq!(name, "tofu");
            assert_eq!(found, "whatever");
            assert_eq!(tested_max, "1.9");
        }
        _ => panic!("expected a warning"),
    }
}

#[test]
fn the_version_is_the_first_such_word_of_the_first_line() {
    assert_eq!(extract_semver("tool  v1\tv2.0.1 v3.0.0\n"), Some("2.0.1".into()));
    assert_eq!(extract_semver("tool\nv2.0.1\n"), None);
    assert_eq!(extract_semver("Tool vendor.build v1.2.3\n"), Some("1.2.3".into()));
    for word in ["vv1.2.3", "v1.2", "v1.2.3.4", "v1.2.x", "v.2.3", "v1..3", "v1.2.", "1.2.3"] {
        assert_eq!(extract_semver(word), None);
    }
    assert_eq!(extract_semver("v10.20.30+meta.1"), Some("10.20.30+meta.1".into()));
    assert_eq!(extract_semver("x v1.0.0-rc1\r\nmore"), Some("1.0.0-rc1".into()));
}

#[test]
fn the_first_probe_that_finds_a_tool_counts() {
    match after_reply(2, Some(tool("tofu", "1.8.2"))) {
        ProbeStep::Found(info) => assert_eq!(info.version, "1.8.2"),
        _ => panic!("expected the tool"),
    }
    assert!(matches!(after_reply(2, None), ProbeStep::Wait { pending: 1 }));
    assert!(matches!(after_reply(1, None), ProbeStep::GiveUp));
}
