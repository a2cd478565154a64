use unified_trash::paths::{file_name, is_absolute, join, lexical_absolute, split_name,
    strip_prefix};
use unified_trash::trash::is_sys_path;

fn b(s: &str) -> Vec<u8> {
    s.as_bytes().to_vec()
}

#[test]
fn test_is_sys_path1() {
    let p = b("/dev/usb");
    assert!(is_sys_path(&p));
}

#[test]
fn test_is_sys_path2() {
    let p = b("/proc/mounts");
    assert!(is_sys_path(&p));
}

#[test]
fn test_is_sys_path3() {
    let p = b("/home");

    assert!(!is_sys_path(&p));
}

#[test]
fn test_is_sys_path4() {
    let p = b("/");

    assert!(is_sys_path(&p));
}

#[test]
fn sys_path_resolves_dot_components() {
    assert!(is_sys_path(&b("/usr/../proc/self")));
    assert!(!is_sys_path(&b("/tmp/../home/user")));
    assert!(!is_sys_path(&b("relative/path")));
    assert!(is_sys_path(&b("/lost+found")));
}

#[test]
fn absolute_and_join() {
    assert!(is_absolute(&b("/a")));
    assert!(!is_absolute(&b("a/b")));
    assert_eq!(join(&b("/a"), &b("b")), b("/a/b"));
    assert_eq!(join(&b("/a/"), &b("b")), b("/a/b"));
    assert_eq!(join(&b("/a"), &b("/b")), b("/b"));
    assert_eq!(join(&b(""), &b("foo/bar")), b("foo/bar"));
}

#[test]
fn file_name_components() {
    assert_eq!(file_name(&b("/home/u/doc.txt")), Some(b("doc.txt")));
    assert_eq!(file_name(&b("/home/u/dir/")), Some(b("dir")));
    assert_eq!(file_name(&b("/")), None);
    assert_eq!(file_name(&b("/a/..")), None);
}

#[test]
fn stem_and_extension() {
    assert_eq!(split_name(&b("note.txt")), (b("note"), Some(b("txt"))));
    assert_eq!(split_name(&b("archive.tar.gz")), (b("archive.tar"), Some(b("gz"))));
    assert_eq!(split_name(&b(".bashrc")), (b(".bashrc"), None));
    assert_eq!(split_name(&b("plain")), (b("plain"), None));
}

#[test]
fn prefix_stripping() {
    assert_eq!(strip_prefix(&b("/mnt/a/x.txt"), &b("/mnt/a")), Some(b("x.txt")));
    assert_eq!(strip_prefix(&b("/mnt/ab/x"), &b("/mnt/a")), None);
    assert_eq!(strip_prefix(&b("/mnt/a"), &b("/mnt/a")), Some(b("")));
}

#[test]
fn lexical_normalisation() {
    assert_eq!(lexical_absolute(&b("/a/b/../c/./d"), &b("/")), b("/a/c/d"));
    assert_eq!(lexical_absolute(&b("x/y"), &b("/home/u")), b("/home/u/x/y"));
    assert_eq!(lexical_absolute(&b("../y"), &b("/home/u")), b("/home/y"));
    assert_eq!(lexical_absolute(&b("/.."), &b("/")), b("/"));
}
