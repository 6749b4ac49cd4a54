use rialight::file::{BaseDirectories, File, FileScheme};
use rialight::host::Host;
use rialight::locale_options::{LocaleBundleLoadMethod, LocaleBundleOptions, LocaleBundleOptionsForAssets};
use rialight::segments::PathProfile;

fn posix_host() -> Host {
    Host::new(PathProfile::Posix, "/home/user")
}

#[test]
fn scheme_round_trip() {
    let host = posix_host();
    let f = File::new(&host, "app://res/x.json");
    assert_eq!(f.url(), "app://res/x.json");
    assert_eq!(f.extension(), ".json");
    assert_eq!(f.name(), "x.json");
    assert_eq!(f.native_path(), "/res/x.json");
    assert_eq!(f.scheme(), FileScheme::App);
}

#[test]
fn resolve_path_up_leaves_last_segment() {
    let host = posix_host();
    let p = File::new(&host, "file:///a/b").resolve_path(&host, "..").native_path();
    assert!(!p.ends_with("/b"));
    assert_eq!(p, "/a");
}

#[test]
fn scheme_prefixes() {
    assert_eq!(FileScheme::File.prefix(), "file:");
    assert_eq!(FileScheme::App.prefix(), "app:");
    assert_eq!(FileScheme::AppStorage.prefix(), "app-storage:");
}

#[test]
fn new_recognizes_schemes() {
    let host = posix_host();
    let s = File::new(&host, "app-storage:data/../cfg.toml");
    assert_eq!(s.scheme(), FileScheme::AppStorage);
    assert_eq!(s.native_path(), "/cfg.toml");
    assert_eq!(s.url(), "app-storage://cfg.toml");
    let bare = File::new(&host, "notes.txt");
    assert_eq!(bare.scheme(), FileScheme::File);
    assert_eq!(bare.native_path(), "/home/user/notes.txt");
    assert_eq!(bare.url(), "file://home/user/notes.txt");
    let other = File::new(&host, "http://x");
    assert_eq!(other.native_path(), "/home/user/http:/x");
}

#[test]
fn new_on_windows_host() {
    let host = Host::new(PathProfile::Windows, "C:\\w");
    let f = File::new(&host, "file://D:/docs/a.txt");
    assert_eq!(f.native_path(), "D:\\docs\\a.txt");
    assert_eq!(f.url(), "file://D:/docs/a.txt");
    let a = File::new(&host, "app://res/x.json");
    assert_eq!(a.native_path(), "/res/x.json");
}

#[test]
fn extension_starts_at_first_dot_of_name() {
    let host = posix_host();
    let f = File::new(&host, "/dir.d/a.tar.gz");
    assert_eq!(f.name(), "a.tar.gz");
    assert_eq!(f.extension(), ".tar.gz");
    assert_eq!(f.name_without_suffix(".gz"), "a.tar");
    assert_eq!(f.name_without_suffix(".zip"), "a.tar.gz");
    let g = File::new(&host, "/dir.d/plain");
    assert_eq!(g.extension(), "");
}

#[test]
fn directories_of_the_application() {
    assert_eq!(File::application_directory().url(), "app://");
    assert_eq!(File::application_storage_directory().url(), "app-storage://");
    assert_eq!(File::application_directory().native_path(), "");
}

#[test]
fn parent_stops_at_root() {
    let host = posix_host();
    let f = File::new(&host, "/a/b");
    let p = f.parent(&host).unwrap();
    assert_eq!(p.native_path(), "/a");
    assert!(p.parent(&host).is_none());
    assert!(File::new(&host, "/").parent(&host).is_none());
}

#[test]
fn relative_path_between_files() {
    let host = posix_host();
    let a = File::new(&host, "/a/b/c");
    let b = File::new(&host, "/a/d");
    assert_eq!(a.relative_path(PathProfile::Posix, &b), "../../d");
}

#[test]
fn separator_by_profile() {
    assert_eq!(File::separator(PathProfile::Posix), "/");
    assert_eq!(File::separator(PathProfile::Windows), "\\");
}

#[test]
fn native_path_against_base_directories() {
    let host = posix_host();
    let dirs = BaseDirectories {
        application: Some("/opt/app".to_string()),
        application_storage: None,
    };
    let f = File::new(&host, "app://res/x.json");
    assert_eq!(f.application_based_native_path(&host, &dirs), "/opt/app/res/x.json");
    let s = File::new(&host, "app-storage://cache");
    assert_eq!(s.application_based_native_path(&host, &dirs), "/home/user/cache");
    let plain = File::new(&host, "/etc/hosts");
    assert_eq!(plain.application_based_native_path(&host, &dirs), "/etc/hosts");
}

#[test]
fn canonicalize_takes_reported_path() {
    let host = posix_host();
    let f = File::new(&host, "app://x");
    let c = f.canonicalize(Some("/real/x"));
    assert_eq!(c.scheme(), FileScheme::File);
    assert_eq!(c.native_path(), "/real/x");
    assert!(f.canonicalize(None) == f);
    assert!(f.clone() == f);
    assert!(f != c);
}

#[test]
fn locale_options_defaults_and_builders() {
    let assets = LocaleBundleOptionsForAssets::new();
    assert_eq!(assets.src, "res/lang");
    assert!(assets.clean_unused);
    assert_eq!(assets.load_method, LocaleBundleLoadMethod::Http);
    assert!(assets.base_file_names.is_empty());
    let assets = assets
        .src("app://res/lang")
        .base_file_names(vec!["_".to_string()])
        .clean_unused(false)
        .load_method(LocaleBundleLoadMethod::FileSystem);
    assert_eq!(assets.src, "app://res/lang");
    assert_eq!(assets.base_file_names, vec!["_".to_string()]);
    assert!(!assets.clean_unused);
    assert_eq!(assets.load_method, LocaleBundleLoadMethod::FileSystem);

    let o = LocaleBundleOptions::new();
    assert_eq!(o.default_locale, "en");
    assert_eq!(o.supported_locales, vec!["en".to_string()]);
    assert!(o.fallbacks.is_empty());
    let mut fb = std::collections::HashMap::new();
    fb.insert("pt-BR".to_string(), vec!["en-US".to_string()]);
    let o = o
        .supported_locales(vec!["en-US".to_string(), "pt-BR".to_string()])
        .default_locale("en-US")
        .fallbacks(fb)
        .assets(&assets);
    assert_eq!(o.default_locale, "en-US");
    assert_eq!(o.supported_locales.len(), 2);
    assert_eq!(o.fallbacks.get("pt-BR").unwrap(), &vec!["en-US".to_string()]);
    assert_eq!(o.assets.src, "app://res/lang");
    assert!(!o.assets.clean_unused);
}
