use image_janitor::error::JanitorError;
use image_janitor::util::find_kernel_dir;

#[test]
fn test_find_kernel_dir_success() {
    let subdirs = vec!["/lib/modules/6.1.0-test".to_string()];
    let found = find_kernel_dir("/lib/modules", &subdirs).unwrap();
    assert_eq!(found, "/lib/modules/6.1.0-test");
}

#[test]
fn test_find_kernel_dir_no_subdirectories() {
    let result = find_kernel_dir("/lib/modules", &Vec::new());
    assert!(matches!(result, Err(JanitorError::NoKernelDir(_))));
}

#[test]
fn test_find_kernel_dir_prefers_last_entry() {
    let subdirs = vec![
        "/lib/modules/6.0.0-test".to_string(),
        "/lib/modules/6.1.0-test".to_string(),
    ];
    assert!(find_kernel_dir("/lib/modules", &subdirs).unwrap().ends_with("6.1.0-test"));
}

#[test]
fn test_find_kernel_dir_order_does_not_matter() {
    let subdirs = vec![
        "/lib/modules/6.1.0-test".to_string(),
        "/lib/modules/6.0.0-test".to_string(),
    ];
    assert!(find_kernel_dir("/lib/modules", &subdirs).unwrap().ends_with("6.1.0-test"));
}

#[test]
fn test_error_messages_name_their_cause() {
    assert_eq!(
        JanitorError::NoKernelDir("/lib/modules".to_string()).message(),
        "No kernel modules directory found in /lib/modules"
    );
    assert_eq!(JanitorError::Io("gone".to_string()).message(), "I/O error: gone");
    assert_eq!(JanitorError::Regex("bad".to_string()).message(), "Regex error: bad");
    assert_eq!(JanitorError::Walkdir("loop".to_string()).message(), "Walkdir error: loop");
    assert_eq!(JanitorError::Command("arch".to_string()).message(), "Command failed: arch");
    assert_eq!(
        JanitorError::InvalidPath("/x".to_string()).message(),
        "Path does not have a string representation: /x"
    );
    assert_eq!(
        JanitorError::ConfigRead("a.conf".to_string(), "denied".to_string()).message(),
        "Could not read config file a.conf: denied"
    );
    assert_eq!(
        JanitorError::Pattern("fw[*".to_string()).message(),
        "Invalid glob pattern: fw[*"
    );
}
