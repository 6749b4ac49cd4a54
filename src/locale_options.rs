//! Options of a locale bundle: which locales it supports, which it falls back
//! to, and where and how its message assets are loaded.
use vstd::prelude::*;
use std::collections::HashMap;

verus! {

/// How message assets are fetched.
#[derive(Clone, Copy, PartialEq, Eq, Structural, Debug)]
pub enum LocaleBundleLoadMethod {
    FileSystem,
    Http,
}

/// Where and how the message assets of a bundle are loaded.
pub struct LocaleBundleOptionsForAssets {
    /// The directory or URL that holds one subdirectory per locale.
    pub src: String,
    /// The asset files of each locale, without `.json`.
    pub base_file_names: Vec<String>,
    /// Whether loading a locale drops the assets of the locales it replaces.
    pub clean_unused: bool,
    pub load_method: LocaleBundleLoadMethod,
}

/// What a bundle is built from.
pub struct LocaleBundleOptions {
    pub default_locale: String,
    pub supported_locales: Vec<String>,
    /// For each locale, the locales whose messages stand in for missing ones.
    pub fallbacks: HashMap<String, Vec<String>>,
    pub assets: LocaleBundleOptionsForAssets,
}

fn copy_strings(list: &Vec<String>) -> (r: Vec<String>)
    ensures
        r@.len() == list@.len(),
        forall|i: int| 0 <= i < list@.len() ==> #[trigger] r@[i]@ == list@[i]@,
{
    let mut r: Vec<String> = Vec::new();
    let mut i: usize = 0;
    while i < list.len()
        invariant
            i <= list@.len(),
            r@.len() == i,
            forall|j: int| 0 <= j < i ==> #[trigger] r@[j]@ == list@[j]@,
        decreases list@.len() - i,
    {
        r.push(list[i].clone());
        i = i + 1;
    }
    r
}

impl Clone for LocaleBundleOptionsForAssets {
    fn clone(&self) -> (r: Self)
        ensures
            r.src@ == self.src@,
            r.base_file_names@.len() == self.base_file_names@.len(),
            forall|i: int|
                0 <= i < self.base_file_names@.len() ==> #[trigger] r.base_file_names@[i]@
                    == self.base_file_names@[i]@,
            r.clean_unused == self.clean_unused,
            r.load_method == self.load_method,
    {
        LocaleBundleOptionsForAssets {
            src: self.src.clone(),
            base_file_names: copy_strings(&self.base_file_names),
            clean_unused: self.clean_unused,
            load_method: self.load_method,
        }
    }
}

impl LocaleBundleOptionsForAssets {
    /// Assets under `res/lang`, fetched over HTTP, with no asset files named
    /// yet and unused locales dropped.
    pub fn new() -> (r: Self)
        ensures
            r.src@ == seq!['r', 'e', 's', '/', 'l', 'a', 'n', 'g'],
            r.base_file_names@.len() == 0,
            r.clean_unused,
            r.load_method == LocaleBundleLoadMethod::Http,
    {
        let src: Vec<char> = vec!['r', 'e', 's', '/', 'l', 'a', 'n', 'g'];
        assert(src@ =~= seq!['r', 'e', 's', '/', 'l', 'a', 'n', 'g']);
        LocaleBundleOptionsForAssets {
            src: crate::chars::string_of(src.as_slice()),
            base_file_names: Vec::new(),
            clean_unused: true,
            load_method: LocaleBundleLoadMethod::Http,
        }
    }

    /// Sets the directory or URL of the assets.
    pub fn src(self, src: &str) -> (r: Self)
        ensures
            r.src@ == src@,
            r.base_file_names == self.base_file_names,
            r.clean_unused == self.clean_unused,
            r.load_method == self.load_method,
    {
        LocaleBundleOptionsForAssets { src: src.to_owned(), ..self }
    }

    /// Sets the asset files of each locale.
    pub fn base_file_names(self, list: Vec<String>) -> (r: Self)
        ensures
            r.src == self.src,
            r.base_file_names == list,
            r.clean_unused == self.clean_unused,
            r.load_method == self.load_method,
    {
        LocaleBundleOptionsForAssets { base_file_names: list, ..self }
    }

    /// Sets whether loading a locale drops the assets of the others.
    pub fn clean_unused(self, value: bool) -> (r: Self)
        ensures
            r.src == self.src,
            r.base_file_names == self.base_file_names,
            r.clean_unused == value,
            r.load_method == self.load_method,
    {
        LocaleBundleOptionsForAssets { clean_unused: value, ..self }
    }

    /// Sets how the assets are fetched.
    pub fn load_method(self, value: LocaleBundleLoadMethod) -> (r: Self)
        ensures
            r.src == self.src,
            r.base_file_names == self.base_file_names,
            r.clean_unused == self.clean_unused,
            r.load_method == value,
    {
        LocaleBundleOptionsForAssets { load_method: value, ..self }
    }
}

impl LocaleBundleOptions {
    /// English (`en`) as default and only supported locale, no fallbacks, and
    /// the default assets.
    pub fn new() -> (r: Self)
        ensures
            r.default_locale@ == seq!['e', 'n'],
            r.supported_locales@.len() == 1,
            r.supported_locales@[0]@ == seq!['e', 'n'],
            r.assets.src@ == seq!['r', 'e', 's', '/', 'l', 'a', 'n', 'g'],
            r.assets.base_file_names@.len() == 0,
            r.assets.clean_unused,
            r.assets.load_method == LocaleBundleLoadMethod::Http,
    {
        let en: Vec<char> = vec!['e', 'n'];
        assert(en@ =~= seq!['e', 'n']);
        LocaleBundleOptions {
            default_locale: crate::chars::string_of(en.as_slice()),
            supported_locales: vec![crate::chars::string_of(en.as_slice())],
            fallbacks: HashMap::new(),
            assets: LocaleBundleOptionsForAssets::new(),
        }
    }

    /// Sets the locale loaded when none is asked for.
    pub fn default_locale(self, value: &str) -> (r: Self)
        ensures
            r.default_locale@ == value@,
            r.supported_locales == self.supported_locales,
            r.fallbacks == self.fallbacks,
            r.assets == self.assets,
    {
        LocaleBundleOptions { default_locale: value.to_owned(), ..self }
    }

    /// Sets the supported locales.
    pub fn supported_locales(self, list: Vec<String>) -> (r: Self)
        ensures
            r.default_locale == self.default_locale,
            r.supported_locales == list,
            r.fallbacks == self.fallbacks,
            r.assets == self.assets,
    {
        LocaleBundleOptions { supported_locales: list, ..self }
    }

    /// Sets the fallbacks of each locale.
    pub fn fallbacks(self, map: HashMap<String, Vec<String>>) -> (r: Self)
        ensures
            r.default_locale == self.default_locale,
            r.supported_locales == self.supported_locales,
            r.fallbacks == map,
            r.assets == self.assets,
    {
        LocaleBundleOptions { fallbacks: map, ..self }
    }

    /// Sets the asset options, as a copy of `options`.
    pub fn assets(self, options: &LocaleBundleOptionsForAssets) -> (r: Self)
        ensures
            r.default_locale == self.default_locale,
            r.supported_locales == self.supported_locales,
            r.fallbacks == self.fallbacks,
            r.assets.src@ == options.src@,
            r.assets.base_file_names@.len() == options.base_file_names@.len(),
            forall|i: int|
                0 <= i < options.base_file_names@.len() ==> #[trigger] r.assets.base_file_names@[i]@
                    == options.base_file_names@[i]@,
            r.assets.clean_unused == options.clean_unused,
            r.assets.load_method == options.load_method,
    {
        LocaleBundleOptions { assets: options.clone(), ..self }
    }
}

} // verus!
