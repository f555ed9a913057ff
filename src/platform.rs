use vstd::prelude::*;

verus! {

/// The hosts file of Linux, macOS and other Unix-like systems.
pub fn default_hosts_file_path() -> (r: String)
    ensures
        r@ == "/etc/hosts"@,
{
    String::from_str("/etc/hosts")
}

/// The hosts file of Windows.
pub fn windows_hosts_file_path() -> (r: String)
    ensures
        r@ == "C:\\Windows\\System32\\drivers\\etc\\hosts"@,
{
    String::from_str("C:\\Windows\\System32\\drivers\\etc\\hosts")
}

} // verus!
