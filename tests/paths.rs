use rialight::host::{normalize, relative, resolve, Host};
use rialight::posix::{posix_normalize, posix_relative, posix_resolve};
use rialight::segments::PathProfile;
use rialight::windows::{windows_normalize, windows_relative, windows_resolve};

fn posix_host() -> Host {
    Host::new(PathProfile::Posix, "/home/user")
}

#[test]
fn normalize_collapses_dot_segments_posix() {
    assert_eq!(normalize(PathProfile::Posix, "a/./b/../c"), "a/c");
}

#[test]
fn normalize_collapses_dot_segments_windows() {
    assert_eq!(normalize(PathProfile::Windows, "a\\.\\b\\..\\c"), "a\\c");
}

#[test]
fn normalize_edge_forms_posix() {
    assert_eq!(posix_normalize(""), ".");
    assert_eq!(posix_normalize("/"), "/");
    assert_eq!(posix_normalize("//"), "/");
    assert_eq!(posix_normalize("a/.."), ".");
    assert_eq!(posix_normalize("a/../"), "./");
    assert_eq!(posix_normalize("/a/b/"), "/a/b/");
    assert_eq!(posix_normalize("//a//b"), "/a/b");
    assert_eq!(posix_normalize("../a/../.."), "../..");
    assert_eq!(posix_normalize("/../a"), "/a");
    assert_eq!(posix_normalize("a/.../b"), "a/.../b");
    assert_eq!(posix_normalize(".a/b."), ".a/b.");
}

#[test]
fn normalize_is_idempotent_on_samples() {
    for p in ["", ".", "./", "/", "a/..", "a/../", "../../x/", "/a/./b/../../..", "a//b/"] {
        let once = posix_normalize(p);
        assert_eq!(posix_normalize(&once), once);
    }
}

#[test]
fn resolve_cannot_climb_above_root() {
    assert_eq!(resolve(&posix_host(), "/a/b", "../../../x"), "/x");
    assert_eq!(posix_resolve("/cwd", "/a/b", "../../../x"), "/x");
}

#[test]
fn resolve_absolute_equals_normalize() {
    for p in ["/a/b", "/a/./b/../c", "/", "//x//y", "/../.."] {
        assert_eq!(posix_resolve("/elsewhere", p, ""), posix_normalize(p));
    }
}

#[test]
fn resolve_uses_working_directory() {
    assert_eq!(posix_resolve("/home/user", "docs", ""), "/home/user/docs");
    assert_eq!(posix_resolve("/home/user", "docs", "../x"), "/home/user/x");
    assert_eq!(posix_resolve("/home/user", "/etc", "/var/log"), "/var/log");
    assert_eq!(posix_resolve("", "", ""), ".");
    assert_eq!(posix_resolve("", "a", "../.."), "..");
}

#[test]
fn relative_same_path_is_empty() {
    assert_eq!(relative(PathProfile::Posix, "/a/b", "/a/b"), "");
    assert_eq!(posix_relative("/a/b", "/a/./b"), "");
}

#[test]
fn relative_climbs_to_common_ancestor() {
    assert_eq!(relative(PathProfile::Posix, "/a/b/c", "/a/d"), "../../d");
    assert_eq!(posix_relative("/", "/a/b"), "a/b");
    assert_eq!(posix_relative("/a/b", "/"), "../..");
    assert_eq!(posix_relative("/a/b", "/a/b/c/d"), "c/d");
    assert_eq!(posix_relative("/a/bc", "/a/b"), "../b");
}

#[test]
fn relative_round_trip_on_samples() {
    let pairs = [("/a/b/c", "/a/d"), ("/", "/x/y"), ("/x/y", "/"), ("/p/q", "/p/q/r"), ("/m", "/n/o")];
    for (a, b) in pairs {
        let rel = posix_relative(a, b);
        assert_eq!(posix_resolve("/cwd", a, &rel), posix_normalize(b));
    }
}

#[test]
fn windows_normalize_roots() {
    assert_eq!(windows_normalize("C:\\a\\..\\b"), "C:\\b");
    assert_eq!(windows_normalize("C:"), "C:.");
    assert_eq!(windows_normalize("C:/x/y/"), "C:\\x\\y\\");
    assert_eq!(windows_normalize("\\\\server\\share"), "\\\\server\\share\\");
    assert_eq!(windows_normalize("//server/share/a/../b"), "\\\\server\\share\\b");
    assert_eq!(windows_normalize("/"), "\\");
    assert_eq!(windows_normalize(""), ".");
    assert_eq!(windows_normalize("\\\\server"), "\\server");
}

#[test]
fn windows_resolve_devices() {
    let none: Vec<(String, String)> = Vec::new();
    assert_eq!(windows_resolve("C:\\cwd", &none, "C:\\a", "..\\b"), "C:\\b");
    assert_eq!(windows_resolve("C:\\cwd", &none, "x", "y"), "C:\\cwd\\x\\y");
    assert_eq!(windows_resolve("C:\\cwd", &none, "\\top", "y"), "C:\\top\\y");
    assert_eq!(windows_resolve("C:\\cwd", &none, "D:\\a", "c:\\b"), "c:\\b");
    assert_eq!(windows_resolve("C:\\cwd", &none, "D:\\a", "C:b"), "C:\\cwd\\b");
    let drives = vec![("d:".to_string(), "D:\\work".to_string())];
    assert_eq!(windows_resolve("C:\\cwd", &drives, "", "D:x"), "D:\\work\\x");
    let stale = vec![("D:".to_string(), "C:\\other".to_string())];
    assert_eq!(windows_resolve("C:\\cwd", &stale, "", "D:x"), "D:\\x");
    assert_eq!(windows_resolve("C:\\cwd", &none, "\\\\srv\\share\\a", "..\\..\\b"), "\\\\srv\\share\\b");
}

#[test]
fn windows_relative_paths() {
    assert_eq!(windows_relative("C:\\a\\b", "c:\\A\\c"), "..\\c");
    assert_eq!(windows_relative("C:\\a", "D:\\b"), "D:\\b");
    assert_eq!(windows_relative("C:\\", "C:\\a\\b"), "a\\b");
    assert_eq!(windows_relative("C:\\a\\b", "C:\\"), "..\\..");
    assert_eq!(windows_relative("C:\\x", "C:\\x"), "");
    assert_eq!(relative(PathProfile::Windows, "\\\\s\\h\\a", "\\\\s\\h\\b"), "..\\b");
}

#[test]
fn host_dispatches_by_profile() {
    let host = Host::new(PathProfile::Windows, "C:\\w");
    assert_eq!(resolve(&host, "a", ""), "C:\\w\\a");
    assert_eq!(normalize(PathProfile::Windows, "a/b"), "a\\b");
    assert_eq!(host.working_directory, "C:\\w");
}

#[test]
fn windows_normalize_is_idempotent_on_samples() {
    for p in ["", "C:", "C:a\\..\\", "\\\\s\\h", "//s/h/x/", "\\\\s", "C:/a/./b/..", "x\\..\\..\\y", "C:..\\a"] {
        let once = windows_normalize(p);
        assert_eq!(windows_normalize(&once), once);
    }
}

#[test]
fn windows_normal_form_that_reads_as_a_drive() {
    assert_eq!(windows_normalize("a\\..\\C:"), "C:");
    assert_eq!(windows_normalize("C:"), "C:.");
    assert_eq!(windows_normalize("y\\..\\C:.\\x"), "C:.\\x");
    assert_eq!(windows_normalize("C:.\\x"), "C:x");
}

#[test]
fn windows_resolve_rooted_equals_normalize() {
    let none: Vec<(String, String)> = Vec::new();
    for p in ["C:\\a\\.\\b\\..", "D:/x//y", "\\\\srv\\share\\a\\..\\b", "C:\\"] {
        assert_eq!(windows_resolve("C:\\cwd", &none, p, ""), windows_normalize(p));
    }
    assert_eq!(windows_resolve("\\cwd", &none, "\\a\\b", ""), windows_normalize("\\a\\b"));
    assert_eq!(windows_resolve("C:\\cwd", &none, "\\a\\b", ""), "C:\\a\\b");
}
