use roxy::host_filtering::Blacklist;

#[test]
fn default_blocklist_blocks_example_com() {
    let bl = Blacklist::new();
    assert!(bl.has("example.com"));
    // The check is a substring test, not equality.
    assert!(bl.has("www.example.com:80"));
    assert!(!bl.has("example.org:80"));
}

#[test]
fn add_host_blocks_it() {
    let mut bl = Blacklist::new();
    bl.add_host("ads.test");
    assert!(bl.has("ads.test:80"));
    assert!(bl.has("sub.ads.test:443"));
}

#[test]
fn add_host_twice_lists_it_once() {
    let mut bl = Blacklist::new();
    bl.add_host("ads.test");
    bl.add_host("ads.test");
    assert_eq!(bl.list_hosts().len(), 2);
}

#[test]
fn remove_host_unblocks_it() {
    let mut bl = Blacklist::new();
    assert!(bl.remove_host("example.com"));
    assert!(!bl.has("www.example.com:80"));
    assert!(!bl.remove_host("example.com"));
}

#[test]
fn list_hosts_shows_entries() {
    let mut bl = Blacklist::new();
    bl.add_host("a.test");
    let hosts = bl.list_hosts();
    assert_eq!(hosts, vec![String::from("example.com"), String::from("a.test")]);
}
