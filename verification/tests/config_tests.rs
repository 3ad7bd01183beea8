use image_janitor::config::{any_rule_matches, arch_filter, read_config};
use image_janitor::error::JanitorError;

fn strings(v: &[&str]) -> Vec<String> {
    v.iter().map(|s| s.to_string()).collect()
}

#[test]
fn test_arch_filter() {
    let lines = vec![
        "<x86_64>".to_string(),
        "intel_driver".to_string(),
        "</x86_64>".to_string(),
        "<aarch64>".to_string(),
        "arm_driver".to_string(),
        "</aarch64>".to_string(),
        "<ppc64le>".to_string(),
        "power_driver".to_string(),
        "</ppc64le>".to_string(),
        "<s390x>".to_string(),
        "ibm_driver".to_string(),
        "</s390x>".to_string(),
        "common_driver".to_string(),
    ];

    let x86_64_lines = arch_filter(lines.clone(), "x86_64");
    assert_eq!(x86_64_lines, vec!["intel_driver", "common_driver"]);

    let aarch64_lines = arch_filter(lines.clone(), "aarch64");
    assert_eq!(aarch64_lines, vec!["arm_driver", "common_driver"]);

    let ppc64le_lines = arch_filter(lines.clone(), "ppc64le");
    assert_eq!(ppc64le_lines, vec!["power_driver", "common_driver"]);

    let s390x_lines = arch_filter(lines.clone(), "s390x");
    assert_eq!(s390x_lines, vec!["ibm_driver", "common_driver"]);
}

#[test]
fn test_read_config_with_arch() {
    let sources = strings(&["<x86_64>\n-delete_me\n</x86_64>\n<aarch64>\n-not_me\n</aarch64>\nkeep_me"]);

    let rules = read_config(&sources, "x86_64").unwrap();

    assert_eq!(rules.to_keep.len(), 1);
    assert_eq!(rules.to_delete.len(), 1);
    assert!(any_rule_matches(&rules.to_keep, "keep_me"));
    assert!(any_rule_matches(&rules.to_delete, "delete_me"));
}

#[test]
fn test_read_config_drops_comments_and_blanks() {
    let sources = strings(&["# a comment\n\nsnd.*\n-drm.*\n"]);
    let rules = read_config(&sources, "x86_64").unwrap();
    assert_eq!(rules.to_keep, vec!["snd.*"]);
    assert_eq!(rules.to_delete, vec!["drm.*"]);
}

#[test]
fn test_read_config_concatenates_sources_in_order() {
    let sources = strings(&["first\n-second", "third"]);
    let rules = read_config(&sources, "aarch64").unwrap();
    assert_eq!(rules.to_keep, vec!["first", "third"]);
    assert_eq!(rules.to_delete, vec!["second"]);
}

#[test]
fn test_read_config_rejects_malformed_pattern() {
    let sources = strings(&["[unclosed"]);
    let result = read_config(&sources, "x86_64");
    assert!(matches!(result, Err(JanitorError::Regex(_))));
}

#[test]
fn test_read_config_reset_on_nested_open_tag() {
    // A second open tag resets tracking instead of nesting; an end tag always
    // clears the skip state.
    let sources = strings(&["<aarch64>\n<x86_64>\nintel_line\n</x86_64>\nafter_end"]);
    let rules = read_config(&sources, "x86_64").unwrap();
    assert_eq!(rules.to_keep, vec!["intel_line", "after_end"]);
}

#[test]
fn test_rule_matching_is_real_regex_matching() {
    let sources = strings(&["^snd_[a-z]+\\.ko$"]);
    let rules = read_config(&sources, "x86_64").unwrap();
    assert!(any_rule_matches(&rules.to_keep, "snd_hda.ko"));
    assert!(!any_rule_matches(&rules.to_keep, "snd_HDA.ko"));
    assert!(!any_rule_matches(&rules.to_keep, "xsnd_hda.ko"));
}

#[test]
fn test_arch_filter_tag_whitespace() {
    let lines = strings(&["  <x86_64 >  ", "tagged", "  </x86_64 > ", "plain"]);
    assert_eq!(arch_filter(lines.clone(), "x86_64"), vec!["tagged", "plain"]);
    assert_eq!(arch_filter(lines, "s390x"), vec!["plain"]);
}
