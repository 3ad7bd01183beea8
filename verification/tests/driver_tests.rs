use image_janitor::driver::{cleanup_drivers, closure, driver_deletions, seed_keep, Driver};
use image_janitor::config::read_config;
use image_janitor::error::JanitorError;

fn strings(v: &[&str]) -> Vec<String> {
    v.iter().map(|s| s.to_string()).collect()
}

const KDIR: &str = "/lib/modules/6.1.0-test";

fn driver(name_file: &str, deps: &str) -> Driver {
    let path = format!("{}/{}", KDIR, name_file);
    Driver::new(&path, deps)
}

#[test]
fn test_driver_new_parses_name_and_deps() {
    let d = Driver::new("/lib/modules/6.1.0/kernel/snd_hda.ko.xz", " b,c,,d ");
    assert_eq!(d.name, "snd_hda");
    assert_eq!(d.path, "/lib/modules/6.1.0/kernel/snd_hda.ko.xz");
    assert_eq!(d.deps, vec!["b", "c", "d"]);
}

#[test]
fn test_driver_new_empty_deps() {
    let d = Driver::new("/k/a.ko", "");
    assert_eq!(d.name, "a");
    assert!(d.deps.is_empty());
}

#[test]
fn test_cleanup_drivers() {
    // a.ko depends on b, b on c; only a.ko is kept by the rules; d.ko is the
    // lone deletion candidate.
    let drivers = vec![
        driver("a.ko", "b"),
        driver("b.ko", "c"),
        driver("c.ko", ""),
        driver("d.ko", ""),
    ];
    let sources = strings(&["a.ko"]);

    let plan = cleanup_drivers(&sources, "x86_64", &drivers, KDIR).unwrap();

    let mut keep = plan.keep.clone();
    keep.sort();
    assert_eq!(keep, vec!["a", "b", "c"]);
    assert_eq!(plan.to_delete, vec![format!("{}/d.ko", KDIR)]);
}

#[test]
fn test_delete_rule_wins_over_keep_rule() {
    // The same path matches a keep-rule and a delete-rule: it is not seeded.
    let drivers = vec![driver("a.ko", ""), driver("b.ko", "")];
    let sources = strings(&["a.ko\nb.ko\n-a.ko"]);

    let plan = cleanup_drivers(&sources, "x86_64", &drivers, KDIR).unwrap();

    assert_eq!(plan.keep, vec!["b"]);
    assert_eq!(plan.to_delete, vec![format!("{}/a.ko", KDIR)]);
}

#[test]
fn test_unmatched_drivers_are_deleted() {
    // No rule matches c.ko: unmatched items default to deletion.
    let drivers = vec![driver("a.ko", ""), driver("c.ko", "")];
    let sources = strings(&["a\\.ko"]);

    let plan = cleanup_drivers(&sources, "x86_64", &drivers, KDIR).unwrap();

    assert_eq!(plan.keep, vec!["a"]);
    assert_eq!(plan.to_delete, vec![format!("{}/c.ko", KDIR)]);
}

#[test]
fn test_closure_cycle_terminates_and_keeps_both_once() {
    // a and b depend on each other; seeding a keeps both, each exactly once.
    let drivers = vec![driver("a.ko", "b"), driver("b.ko", "a"), driver("c.ko", "")];
    let keep = closure(&drivers, &strings(&["a"]));

    let mut sorted = keep.clone();
    sorted.sort();
    assert_eq!(sorted, vec!["a", "b"]);
    assert_eq!(keep.len(), 2);
}

#[test]
fn test_closure_self_dependency_is_no_op() {
    let drivers = vec![driver("a.ko", "a")];
    let keep = closure(&drivers, &strings(&["a"]));
    assert_eq!(keep, vec!["a"]);
}

#[test]
fn test_closure_ignores_dependencies_outside_inventory() {
    // A dependency name with no inventory entry is silently ignored: the
    // module may depend on something built into the kernel.
    let drivers = vec![driver("a.ko", "builtin_thing")];
    let keep = closure(&drivers, &strings(&["a"]));
    assert_eq!(keep, vec!["a"]);
}

#[test]
fn test_closure_idempotent_on_concrete_graph() {
    let drivers = vec![
        driver("a.ko", "b"),
        driver("b.ko", ""),
        driver("c.ko", "d"),
        driver("d.ko", ""),
    ];
    let first = closure(&drivers, &strings(&["a"]));
    let mut second = closure(&drivers, &first);
    let mut first_sorted = first.clone();
    first_sorted.sort();
    second.sort();
    assert_eq!(first_sorted, second);
}

#[test]
fn test_seed_then_deletions_directly() {
    let drivers = vec![driver("x.ko", ""), driver("y.ko", "")];
    let sources = strings(&["x.ko"]);
    let rules = read_config(&sources, "x86_64").unwrap();
    let seed = seed_keep(&drivers, KDIR, &rules);
    assert_eq!(seed, vec!["x"]);
    let dels = driver_deletions(&drivers, &seed);
    assert_eq!(dels, vec![format!("{}/y.ko", KDIR)]);
}

#[test]
fn test_cleanup_drivers_propagates_regex_error() {
    let drivers = vec![driver("a.ko", "")];
    let sources = strings(&["(unclosed"]);
    let result = cleanup_drivers(&sources, "x86_64", &drivers, KDIR);
    assert!(matches!(result, Err(JanitorError::Regex(_))));
}

#[test]
fn test_architecture_scenario_end_to_end() {
    // An x86_64 block, an aarch64 block and one untagged line, queried as
    // x86_64: the x86_64 rule and the untagged rule apply, the aarch64 one
    // does not.
    let drivers = vec![driver("intel.ko", ""), driver("arm.ko", ""), driver("any.ko", "")];
    let sources = strings(&["<x86_64>\nintel.ko\n</x86_64>\n<aarch64>\narm.ko\n</aarch64>\nany.ko"]);

    let plan = cleanup_drivers(&sources, "x86_64", &drivers, KDIR).unwrap();

    let mut keep = plan.keep.clone();
    keep.sort();
    assert_eq!(keep, vec!["any", "intel"]);
    assert_eq!(plan.to_delete, vec![format!("{}/arm.ko", KDIR)]);
}
