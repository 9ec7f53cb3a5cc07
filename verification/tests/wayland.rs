use psi_ask::wayland::{
    holds_one, holds_socket, socket_inodes, socket_path, CompositorSearch,
};

fn owned(texts: &[&str]) -> Vec<String> {
    texts.iter().map(|t| t.to_string()).collect()
}

const UNIX: &str = "Num       RefCount Protocol Flags    Type St Inode Path
0000000000000000: 00000002 00000000 00010000 0001 01 31337 /run/user/1000/wayland-1
0000000000000000: 00000003 00000000 00000000 0001 03 40000 /run/user/1000/wayland-1
0000000000000000: 00000003 00000000 00000000 0001 03 40000 /run/user/1000/wayland-1
0000000000000000: 00000003 00000000 00000000 0001 03 50000 /run/user/1000/wayland-10
0000000000000000: 00000003 00000000 00000000 0001 03 60000
";

#[test]
fn socket_is_in_the_runtime_directory() {
    assert_eq!(socket_path("/run/user/1000", Some("wayland-1")), "/run/user/1000/wayland-1");
    assert_eq!(socket_path("/run/user/1000", None), "/run/user/1000/wayland-0");
    assert_eq!(socket_path("/run/user/1000", Some("/tmp/way")), "/tmp/way");
    assert_eq!(socket_path("/run", Some("")), "/run/");
}

#[test]
fn compositor_holds_the_socket() {
    let inodes = socket_inodes(UNIX, "/run/user/1000/wayland-1");
    assert_eq!(inodes, vec!["31337", "40000"]);
    assert!(socket_inodes(UNIX, "/run/user/1000/wayland-2").is_empty());
    assert!(holds_socket("socket:[31337]", &inodes));
    assert!(holds_socket("socket:[40000]", &inodes));
    assert!(!holds_socket("socket:[50000]", &inodes));
    assert!(!holds_socket("socket:[31337", &inodes));
    assert!(!holds_socket("pipe:[31337]", &inodes));
    assert!(!holds_socket("socket:[", &inodes));
    assert!(!holds_socket("/dev/null", &inodes));
}

#[test]
fn one_link_is_enough() {
    let inodes = owned(&["31337", "40000"]);
    assert!(holds_one(&owned(&["/dev/null", "socket:[1]", "socket:[40000]"]), &inodes));
    assert!(!holds_one(&owned(&["/dev/null", "socket:[1]"]), &inodes));
    assert!(!holds_one(&vec![], &inodes));
    assert!(!holds_one(&owned(&["socket:[31337]"]), &vec![]));
}

#[test]
fn compositor_is_the_first_holder() {
    let mut search = CompositorSearch::new(UNIX, "/run/user/1000/wayland-1");
    assert!(search.goes_on());
    search.look(10, &owned(&["/dev/null", "socket:[50000]"]));
    assert!(search.goes_on());
    assert_eq!(search.result(), None);
    search.look(20, &owned(&["/dev/null", "socket:[31337]"]));
    assert!(!search.goes_on());
    search.look(30, &owned(&["socket:[31337]"]));
    assert_eq!(search.result(), Some(20));
}

#[test]
fn without_a_socket_there_is_no_compositor() {
    let mut search = CompositorSearch::new(UNIX, "/run/user/1000/wayland-2");
    assert!(!search.goes_on());
    search.look(20, &owned(&["socket:[31337]", "socket:[]"]));
    assert_eq!(search.result(), None);
}
