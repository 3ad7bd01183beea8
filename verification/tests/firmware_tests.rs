use image_janitor::error::JanitorError;
use image_janitor::firmware::{
    cleanup_firmware, find_firmware_files_from_name, find_kernel_modules, get_required_firmware,
    parse_firmware_list, remove_dangling_symlinks, remove_empty_directories, remove_unused_files,
    resolve_symlinks, FsEntry, FsItem, FsSnapshot, ModuleFirmware,
};

const FW: &str = "/lib/firmware";

fn file(path: &str, size: u64) -> FsItem {
    FsItem { path: path.to_string(), entry: FsEntry::File { size } }
}

fn dir(path: &str) -> FsItem {
    FsItem { path: path.to_string(), entry: FsEntry::Dir }
}

fn link(path: &str, target: &str, resolves: bool, target_is_file: bool, target_size: u64) -> FsItem {
    FsItem {
        path: path.to_string(),
        entry: FsEntry::Symlink {
            target: target.to_string(),
            resolves,
            target_is_file,
            target_size,
        },
    }
}

fn module(path: &str, firmware: &[&str]) -> ModuleFirmware {
    ModuleFirmware {
        path: path.to_string(),
        firmware: firmware.iter().map(|s| s.to_string()).collect(),
    }
}

fn fw(rel: &str) -> String {
    format!("{}/{}", FW, rel)
}

#[test]
fn test_get_required_firmware() {
    let snap = FsSnapshot::new(vec![file(&fw("fw1.bin"), 0), file(&fw("other.bin"), 0)]);
    let modules = vec![module("/lib/modules/6.1.0-test/mod1.ko", &["fw1.bin"])];

    let required = get_required_firmware(&snap, FW, &modules).unwrap();

    assert_eq!(required.len(), 1);
    assert!(required.contains(&fw("fw1.bin")));
}

#[test]
fn test_get_required_firmware_with_wildcard() {
    let snap = FsSnapshot::new(vec![
        dir(&fw("brcm")),
        file(&fw("brcm/brcmfmac43430-sdio.bin"), 0),
        file(&fw("brcm/brcmfmac43430-sdio.txt"), 0),
    ]);
    let modules = vec![module("/lib/modules/6.1.0-test/mod1.ko", &["brcm/brcmfmac*-sdio.bin"])];

    let required = get_required_firmware(&snap, FW, &modules).unwrap();

    assert_eq!(required.len(), 1);
    assert!(required.contains(&fw("brcm/brcmfmac43430-sdio.bin")));
    assert!(!required.contains(&fw("brcm/brcmfmac43430-sdio.txt")));
}

#[test]
fn test_get_required_firmware_with_wildcard_and_compression() {
    let snap = FsSnapshot::new(vec![
        dir(&fw("brcm")),
        file(&fw("brcm/brcmfmac43430-sdio.bin.xz"), 0),
        file(&fw("brcm/brcmfmac43430-sdio.txt"), 0),
    ]);
    let modules = vec![module("/lib/modules/6.1.0-test/mod1.ko", &["brcm/brcmfmac*-sdio.bin"])];

    let required = get_required_firmware(&snap, FW, &modules).unwrap();

    assert_eq!(required.len(), 1);
    assert!(required.contains(&fw("brcm/brcmfmac43430-sdio.bin.xz")));
    assert!(!required.contains(&fw("brcm/brcmfmac43430-sdio.txt")));
}

#[test]
fn test_resolve_symlinks_single_file() {
    let file_path = fw("file.bin");
    let snap = FsSnapshot::new(vec![file(&file_path, 4)]);

    let resolved = resolve_symlinks(&snap, &file_path, FW);

    assert_eq!(resolved, vec![file_path]);
}

#[test]
fn test_resolve_symlinks_linear_chain() {
    let file_path = fw("file.bin");
    let link1 = fw("link1");
    let link2 = fw("link2");
    let link3 = fw("link3");
    let snap = FsSnapshot::new(vec![
        file(&file_path, 4),
        link(&link1, &file_path, true, true, 4),
        link(&link2, &link1, true, true, 4),
        link(&link3, &link2, true, true, 4),
    ]);

    let resolved = resolve_symlinks(&snap, &link3, FW);

    assert_eq!(resolved.len(), 4);
    assert!(resolved.contains(&file_path));
    assert!(resolved.contains(&link1));
    assert!(resolved.contains(&link2));
    assert!(resolved.contains(&link3));
}

#[test]
fn test_resolve_symlinks_broken_link() {
    let link_path = fw("link");
    let snap = FsSnapshot::new(vec![link(&link_path, "non_existent_file", false, false, 0)]);

    let resolved = resolve_symlinks(&snap, &link_path, FW);

    assert_eq!(resolved, vec![link_path]);
}

#[test]
fn test_resolve_symlinks_cycle() {
    // Two links pointing at each other never resolve, so only the starting
    // point is retained.
    let link1 = fw("link1");
    let link2 = fw("link2");
    let snap = FsSnapshot::new(vec![
        link(&link1, &link2, false, false, 0),
        link(&link2, &link1, false, false, 0),
    ]);

    let resolved = resolve_symlinks(&snap, &link1, FW);

    assert_eq!(resolved.len(), 1);
    assert!(resolved.contains(&link1));
}

#[test]
fn test_resolve_symlinks_relative() {
    // A relative target is resolved against the directory holding the link.
    let file_path = fw("file.bin");
    let link_path = fw("dir1/dir2/link");
    let snap = FsSnapshot::new(vec![
        file(&file_path, 4),
        dir(&fw("dir1")),
        dir(&fw("dir1/dir2")),
        link(&link_path, "../../file.bin", true, true, 4),
    ]);

    let resolved = resolve_symlinks(&snap, &link_path, FW);

    assert_eq!(resolved.len(), 2);
    assert!(resolved.contains(&file_path));
    assert!(resolved.contains(&link_path));
}

#[test]
fn test_resolve_symlinks_target_outside_root_excluded() {
    // The chain halts before a target that escapes the firmware root, but
    // the starting link itself is retained.
    let link_path = fw("link");
    let snap = FsSnapshot::new(vec![link(&link_path, "/etc/secret", true, true, 9)]);

    let resolved = resolve_symlinks(&snap, &link_path, FW);

    assert_eq!(resolved, vec![link_path]);
}

#[test]
fn test_remove_unused_files() {
    let required_file = fw("required.bin");
    let unused_file = fw("unused.bin");
    let snap = FsSnapshot::new(vec![file(&required_file, 13), file(&unused_file, 11)]);
    let required = vec![required_file.clone()];

    let (unused, size) = remove_unused_files(&snap, &required);

    assert_eq!(size, 11);
    assert_eq!(unused, vec![unused_file]);
}

#[test]
fn test_remove_dangling_symlinks() {
    let target_file = fw("target.bin");
    let valid_link = fw("valid_link");
    let dangling_link = fw("dangling_link");
    let snap = FsSnapshot::new(vec![
        file(&target_file, 4),
        link(&valid_link, &target_file, true, true, 4),
        link(&dangling_link, "non_existent_file", false, false, 0),
    ]);

    let dangling = remove_dangling_symlinks(&snap);

    assert_eq!(dangling, vec![dangling_link]);
}

#[test]
fn test_remove_empty_directories() {
    // b and d are empty; a holds c, and c holds a file, so both stay, as
    // does the root.
    let snap = FsSnapshot::new(vec![
        dir(&fw("a")),
        dir(&fw("a/b")),
        dir(&fw("a/c")),
        dir(&fw("d")),
        file(&fw("a/c/file.txt"), 4),
    ]);

    let removed = remove_empty_directories(&snap, FW);

    assert_eq!(removed.len(), 2);
    assert!(removed.contains(&fw("a/b")));
    assert!(removed.contains(&fw("d")));
    // Deepest first: a/b comes before d.
    assert_eq!(removed[0], fw("a/b"));

    // After those removals and c's subtree gone, a itself is empty.
    let snap2 = FsSnapshot::new(vec![dir(&fw("a"))]);
    let removed2 = remove_empty_directories(&snap2, FW);
    assert_eq!(removed2, vec![fw("a")]);
}

#[test]
fn test_find_kernel_modules() {
    let k = "/lib/modules/6.1.0-test";
    let files: Vec<String> = vec![
        format!("{}/module1.ko", k),
        format!("{}/module2.ko.xz", k),
        format!("{}/module3.ko.zst", k),
        format!("{}/not_a_module.txt", k),
        format!("{}/nested/nested.ko", k),
    ];

    let mut found = find_kernel_modules(&files);
    found.sort();

    let mut expected = vec![
        format!("{}/module1.ko", k),
        format!("{}/module2.ko.xz", k),
        format!("{}/module3.ko.zst", k),
        format!("{}/nested/nested.ko", k),
    ];
    expected.sort();

    assert_eq!(found, expected);
}

#[test]
fn test_find_firmware_files_from_name() {
    let snap = FsSnapshot::new(vec![
        file(&fw("iwlwifi-1.bin"), 0),
        file(&fw("iwlwifi-2.bin.xz"), 0),
        file(&fw("iwlwifi-3.bin.zst"), 0),
        file(&fw("other.txt"), 0),
    ]);

    let mut found1 = find_firmware_files_from_name(&snap, "iwlwifi-1.bin", FW).unwrap();
    found1.sort();
    assert_eq!(found1, vec![fw("iwlwifi-1.bin")]);

    let mut found2 = find_firmware_files_from_name(&snap, "iwlwifi-2.bin", FW).unwrap();
    found2.sort();
    assert_eq!(found2, vec![fw("iwlwifi-2.bin.xz")]);

    let mut found_glob = find_firmware_files_from_name(&snap, "iwlwifi-*", FW).unwrap();
    found_glob.sort();
    let mut expected_glob = vec![
        fw("iwlwifi-1.bin"),
        fw("iwlwifi-2.bin.xz"),
        fw("iwlwifi-3.bin.zst"),
    ];
    expected_glob.sort();
    assert_eq!(found_glob, expected_glob);
}

#[test]
fn test_wildcard_does_not_cross_directories() {
    let snap = FsSnapshot::new(vec![
        dir(&fw("brcm")),
        file(&fw("brcm/one.bin"), 0),
        file(&fw("top.bin"), 0),
    ]);

    let found = find_firmware_files_from_name(&snap, "*", FW).unwrap();

    // The directory itself matches, its contents do not: a wildcard never
    // crosses a path separator.
    assert_eq!(found, vec![fw("brcm"), fw("top.bin")]);
}

#[test]
fn test_invalid_wildcard_pattern_is_an_error() {
    let snap = FsSnapshot::new(vec![file(&fw("a.bin"), 0)]);
    let modules = vec![module("/lib/modules/6.1.0-test/mod1.ko", &["bad[*"])];

    let result = get_required_firmware(&snap, FW, &modules);

    assert!(matches!(result, Err(JanitorError::Pattern(_))));
}

#[test]
fn test_cleanup_firmware_end_to_end() {
    // required.bin is declared by a module, unused.bin is not: the plan
    // reports unused.bin with its byte size and leaves the decision to the
    // caller.
    let snap = FsSnapshot::new(vec![file(&fw("required.bin"), 13), file(&fw("unused.bin"), 11)]);
    let modules = vec![module("/lib/modules/6.1.0-test/mod1.ko", &["required.bin"])];

    let plan = cleanup_firmware(&snap, FW, &modules).unwrap();

    assert_eq!(plan.required, vec![fw("required.bin")]);
    assert_eq!(plan.unused, vec![fw("unused.bin")]);
    assert_eq!(plan.total_bytes, 11);
}

#[test]
fn test_symlink_chain_counts_into_required_set() {
    // A module declares a name that resolves to a link: the link and its
    // target are both required, so neither is listed as unused.
    let target = fw("real.bin");
    let link_path = fw("alias.bin");
    let snap = FsSnapshot::new(vec![
        file(&target, 7),
        link(&link_path, &target, true, true, 7),
        file(&fw("stray.bin"), 3),
    ]);
    let modules = vec![module("/lib/modules/6.1.0-test/mod1.ko", &["alias.bin"])];

    let plan = cleanup_firmware(&snap, FW, &modules).unwrap();

    assert!(plan.required.contains(&link_path));
    assert!(plan.required.contains(&target));
    assert_eq!(plan.unused, vec![fw("stray.bin")]);
    assert_eq!(plan.total_bytes, 3);
}

#[test]
fn test_parse_firmware_list_splits_lines() {
    let names = parse_firmware_list("a.bin\nbrcm/b.bin\n");
    assert_eq!(names, vec!["a.bin", "brcm/b.bin"]);
}

#[test]
fn test_metadata_failure_means_no_firmware() {
    // A module with no declared firmware contributes nothing: everything
    // else is unused.
    let snap = FsSnapshot::new(vec![file(&fw("a.bin"), 5)]);
    let modules = vec![module("/lib/modules/6.1.0-test/mod1.ko", &[])];

    let plan = cleanup_firmware(&snap, FW, &modules).unwrap();

    assert!(plan.required.is_empty());
    assert_eq!(plan.unused, vec![fw("a.bin")]);
    assert_eq!(plan.total_bytes, 5);
}
