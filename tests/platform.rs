use hostsguard::platform::{default_hosts_file_path, windows_hosts_file_path};

#[test]
fn test_default_hosts_file_path() {
    let path = default_hosts_file_path();
    assert!(!path.is_empty());
}

#[test]
fn hosts_paths_are_the_platforms() {
    assert_eq!(default_hosts_file_path(), "/etc/hosts");
    assert_eq!(windows_hosts_file_path(), "C:\\Windows\\System32\\drivers\\etc\\hosts");
}
