//! `File`: a path qualified by the root it is expressed against.
use vstd::prelude::*;
use crate::chars::{string_of, to_chars};
use crate::host::{relative, relative_on, resolve, resolved_on, Host};
use crate::posix::{chars_equal, copy_chars, posix_resolve, posix_resolved};
use crate::segments::{push_all, PathProfile};

verus! {

/// The logical root that a `File` is expressed against.
#[derive(Clone, Copy, PartialEq, Eq, Structural, Debug)]
pub enum FileScheme {
    /// A path of the host file system (`file:`).
    File,
    /// A path in the application installation directory (`app:`).
    App,
    /// A path in the application private storage directory (`app-storage:`).
    AppStorage,
}

pub open spec fn file_prefix() -> Seq<char> {
    seq!['f', 'i', 'l', 'e', ':']
}

pub open spec fn app_prefix() -> Seq<char> {
    seq!['a', 'p', 'p', ':']
}

pub open spec fn storage_prefix() -> Seq<char> {
    seq!['a', 'p', 'p', '-', 's', 't', 'o', 'r', 'a', 'g', 'e', ':']
}

pub open spec fn scheme_prefix(scheme: FileScheme) -> Seq<char> {
    match scheme {
        FileScheme::File => file_prefix(),
        FileScheme::App => app_prefix(),
        FileScheme::AppStorage => storage_prefix(),
    }
}

impl FileScheme {
    /// The URL prefix of the scheme: `file:`, `app:` or `app-storage:`.
    pub fn prefix(&self) -> (r: String)
        ensures
            r@ == scheme_prefix(*self),
    {
        let v: Vec<char> = match self {
            FileScheme::File => vec!['f', 'i', 'l', 'e', ':'],
            FileScheme::App => vec!['a', 'p', 'p', ':'],
            FileScheme::AppStorage => vec!['a', 'p', 'p', '-', 's', 't', 'o', 'r', 'a', 'g', 'e', ':'],
        };
        proof {
            assert(v@ =~= scheme_prefix(*self));
        }
        string_of(&v)
    }
}

pub open spec fn starts_with(s: Seq<char>, p: Seq<char>) -> bool {
    p.len() <= s.len() && s.subrange(0, p.len() as int) == p
}

/// The scheme that `s` names and the text after its prefix; a string with
/// none of the prefixes is a bare `file:` path.
pub open spec fn split_scheme(s: Seq<char>) -> (FileScheme, Seq<char>) {
    if starts_with(s, file_prefix()) {
        (FileScheme::File, s.subrange(5, s.len() as int))
    } else if starts_with(s, app_prefix()) {
        (FileScheme::App, s.subrange(4, s.len() as int))
    } else if starts_with(s, storage_prefix()) {
        (FileScheme::AppStorage, s.subrange(12, s.len() as int))
    } else {
        (FileScheme::File, s)
    }
}

/// Drops the extra separator that a `scheme://path` URL brings: under POSIX
/// rules one of two leading slashes, under Windows rules the leading slashes.
pub open spec fn strip_url_slashes(profile: PathProfile, p: Seq<char>) -> Seq<char> {
    let two = seq!['/', '/'];
    match profile {
        PathProfile::Posix => if starts_with(p, two) {
            p.subrange(1, p.len() as int)
        } else {
            p
        },
        PathProfile::Windows => if starts_with(p, two) {
            p.subrange(2, p.len() as int)
        } else if starts_with(p, seq!['/']) {
            p.subrange(1, p.len() as int)
        } else {
            p
        },
    }
}

/// A virtual path rooted at `/`: `p`, with a leading `/` where it has none.
pub open spec fn rooted(p: Seq<char>) -> Seq<char> {
    if p.len() > 0 && p[0] == '/' {
        p
    } else {
        seq!['/'] + p
    }
}

/// The scheme and normalized path of `File::new(host, s)`.
pub open spec fn file_of(host: &Host, s: Seq<char>) -> (FileScheme, Seq<char>) {
    let (scheme, rest) = split_scheme(s);
    let p = strip_url_slashes(host.profile, rest);
    if scheme == FileScheme::File {
        (scheme, resolved_on(host, p, Seq::empty()))
    } else {
        (scheme, posix_resolved(host.working_directory@, rooted(p), Seq::empty()))
    }
}

pub open spec fn is_any_sep(c: char) -> bool {
    c == '/' || c == '\\'
}

/// The index of the last separator of `s` before `end`, or -1.
pub open spec fn last_sep_before(s: Seq<char>, end: int) -> int
    decreases end,
{
    if end <= 0 {
        -1
    } else if is_any_sep(s[end - 1]) {
        end - 1
    } else {
        last_sep_before(s, end - 1)
    }
}

/// The last portion of `s`: what follows its last separator.
pub open spec fn name_of(s: Seq<char>) -> Seq<char> {
    s.subrange(last_sep_before(s, s.len() as int) + 1, s.len() as int)
}

/// The index of the first `.` of `s` at or after `i`, or `s.len()`.
pub open spec fn first_dot_from(s: Seq<char>, i: int) -> int
    decreases s.len() - i,
{
    if i < 0 || i >= s.len() {
        s.len() as int
    } else if s[i] == '.' {
        i
    } else {
        first_dot_from(s, i + 1)
    }
}

/// The extension of `s`: the last portion from its first dot on.
pub open spec fn extension_of(s: Seq<char>) -> Seq<char> {
    let n = name_of(s);
    n.subrange(first_dot_from(n, 0), n.len() as int)
}

/// `s` with `/` in place of each `\`.
pub open spec fn forward_slashes(s: Seq<char>) -> Seq<char> {
    s.map_values(|c: char| if c == '\\' { '/' } else { c })
}

/// The URL of a scheme and path: the prefix, then as many slashes as make
/// two before the path (none, one or two), then the path with forward
/// slashes.
pub open spec fn url_of(scheme: FileScheme, path: Seq<char>) -> Seq<char> {
    let p = forward_slashes(path);
    let slashes: Seq<char> = if starts_with(p, seq!['/', '/']) {
        Seq::empty()
    } else if starts_with(p, seq!['/']) {
        seq!['/']
    } else {
        seq!['/', '/']
    };
    scheme_prefix(scheme) + slashes + p
}

/// The two base directories that `app:` and `app-storage:` paths stand for,
/// where they are configured.
pub struct BaseDirectories {
    pub application: Option<String>,
    pub application_storage: Option<String>,
}

pub open spec fn base_of(dirs: &BaseDirectories, scheme: FileScheme) -> Seq<char> {
    let d = if scheme == FileScheme::App {
        dirs.application
    } else {
        dirs.application_storage
    };
    match d {
        Some(s) => s@,
        None => Seq::empty(),
    }
}

/// `s` without one leading separator.
pub open spec fn drop_leading_sep(s: Seq<char>) -> Seq<char> {
    if s.len() > 0 && is_any_sep(s[0]) {
        s.subrange(1, s.len() as int)
    } else {
        s
    }
}

/// A path qualified by the root it is expressed against, held normalized.
#[derive(Debug)]
pub struct File {
    m_path: String,
    m_scheme: FileScheme,
}

impl View for File {
    type V = (FileScheme, Seq<char>);

    closed spec fn view(&self) -> (FileScheme, Seq<char>) {
        (self.m_scheme, self.m_path@)
    }
}

impl Clone for File {
    fn clone(&self) -> (r: File)
        ensures
            r@ == self@,
    {
        File { m_path: self.m_path.clone(), m_scheme: self.m_scheme }
    }
}

impl PartialEq for File {
    fn eq(&self, other: &File) -> (r: bool)
        ensures
            r == (self@ == other@),
    {
        self.m_scheme == other.m_scheme && chars_eq(self.m_path.as_str(), other.m_path.as_str())
    }
}

impl vstd::std_specs::cmp::PartialEqSpecImpl for File {
    open spec fn obeys_eq_spec() -> bool {
        true
    }

    open spec fn eq_spec(&self, other: &File) -> bool {
        self@ == other@
    }
}

impl Eq for File {

}

fn chars_eq(a: &str, b: &str) -> (r: bool)
    ensures
        r == (a@ == b@),
{
    let x = to_chars(a);
    let y = to_chars(b);
    chars_equal(x.as_slice(), y.as_slice())
}

fn has_prefix(s: &[char], p: &[char]) -> (r: bool)
    ensures
        r == starts_with(s@, p@),
{
    if p.len() > s.len() {
        return false;
    }
    let mut i: usize = 0;
    while i < p.len()
        invariant
            p@.len() <= s@.len(),
            i <= p@.len(),
            forall|k: int| 0 <= k < i ==> s@[k] == p@[k],
        decreases p@.len() - i,
    {
        if s[i] != p[i] {
            assert(s@.subrange(0, p@.len() as int)[i as int] != p@[i as int]);
            return false;
        }
        i = i + 1;
    }
    assert(s@.subrange(0, p@.len() as int) =~= p@);
    true
}

fn scheme_and_rest(s: &[char]) -> (r: (FileScheme, Vec<char>))
    ensures
        (r.0, r.1@) == split_scheme(s@),
{
    let file_p: Vec<char> = vec!['f', 'i', 'l', 'e', ':'];
    let app_p: Vec<char> = vec!['a', 'p', 'p', ':'];
    let storage_p: Vec<char> = vec!['a', 'p', 'p', '-', 's', 't', 'o', 'r', 'a', 'g', 'e', ':'];
    assert(file_p@ =~= file_prefix());
    assert(app_p@ =~= app_prefix());
    assert(storage_p@ =~= storage_prefix());
    if has_prefix(s, file_p.as_slice()) {
        (FileScheme::File, copy_chars(&s[5..s.len()]))
    } else if has_prefix(s, app_p.as_slice()) {
        (FileScheme::App, copy_chars(&s[4..s.len()]))
    } else if has_prefix(s, storage_p.as_slice()) {
        (FileScheme::AppStorage, copy_chars(&s[12..s.len()]))
    } else {
        (FileScheme::File, copy_chars(s))
    }
}

fn without_url_slashes(profile: PathProfile, p: &[char]) -> (r: Vec<char>)
    ensures
        r@ == strip_url_slashes(profile, p@),
{
    let two: Vec<char> = vec!['/', '/'];
    let one: Vec<char> = vec!['/'];
    assert(two@ =~= seq!['/', '/']);
    assert(one@ =~= seq!['/']);
    match profile {
        PathProfile::Posix => {
            if has_prefix(p, two.as_slice()) {
                copy_chars(&p[1..p.len()])
            } else {
                copy_chars(p)
            }
        },
        PathProfile::Windows => {
            if has_prefix(p, two.as_slice()) {
                copy_chars(&p[2..p.len()])
            } else if has_prefix(p, one.as_slice()) {
                copy_chars(&p[1..p.len()])
            } else {
                copy_chars(p)
            }
        },
    }
}

/// The index one past the last separator of `s`, or 0.
fn name_start(s: &[char]) -> (r: usize)
    ensures
        r as int == last_sep_before(s@, s@.len() as int) + 1,
        r <= s@.len(),
{
    let mut end = s.len();
    while end > 0 && !(s[end - 1] == '/' || s[end - 1] == '\\')
        invariant
            end <= s@.len(),
            last_sep_before(s@, s@.len() as int) == last_sep_before(s@, end as int),
        decreases end,
    {
        end = end - 1;
    }
    end
}

fn first_dot(s: &[char]) -> (r: usize)
    ensures
        r as int == first_dot_from(s@, 0),
        r <= s@.len(),
{
    let mut i: usize = 0;
    while i < s.len() && s[i] != '.'
        invariant
            i <= s@.len(),
            first_dot_from(s@, 0) == first_dot_from(s@, i as int),
        decreases s@.len() - i,
    {
        i = i + 1;
    }
    i
}

impl File {
    /// The scheme the path is expressed against.
    pub fn scheme(&self) -> (r: FileScheme)
        ensures
            r == self@.0,
    {
        self.m_scheme
    }

    /// Builds a `File` from a URL (`file:`, `app:` or `app-storage:`) or a
    /// bare path, which stands for `file:`. A `file:` path is resolved by the
    /// host's rules; an `app:` or `app-storage:` path is rooted at `/` and
    /// normalized by POSIX rules on every host.
    pub fn new(host: &Host, url_or_path: &str) -> (r: File)
        ensures
            r@ == file_of(host, url_or_path@),
    {
        let s = to_chars(url_or_path);
        let (scheme, rest) = scheme_and_rest(s.as_slice());
        let p = without_url_slashes(host.profile, rest.as_slice());
        if scheme == FileScheme::File {
            let none = String::new();
            let path = resolve(host, string_of(&p).as_str(), none.as_str());
            File { m_path: path, m_scheme: scheme }
        } else {
            let mut q: Vec<char> = Vec::new();
            if !(p.len() > 0 && p[0] == '/') {
                q.push('/');
            }
            push_all(&mut q, p.as_slice());
            proof {
                assert(q@ =~= rooted(p@));
            }
            let none = String::new();
            let path = posix_resolve(host.working_directory.as_str(), string_of(&q).as_str(), none.as_str());
            File { m_path: path, m_scheme: scheme }
        }
    }

    /// The last portion of the path: what follows its last separator, or
    /// the whole path where it has none.
    pub fn name(&self) -> (r: String)
        ensures
            r@ == name_of(self@.1),
    {
        let s = to_chars(self.m_path.as_str());
        let start = name_start(s.as_slice());
        string_of(&s.as_slice()[start..s.len()])
    }

    /// The last portion of the path, without `suffix` where it ends with it.
    pub fn name_without_suffix(&self, suffix: &str) -> (r: String)
        ensures
            ({
                let n = name_of(self@.1);
                let k = suffix@.len();
                r@ == if k <= n.len() && n.subrange(n.len() - k, n.len() as int) == suffix@ {
                    n.subrange(0, n.len() - k)
                } else {
                    n
                }
            }),
    {
        let s = to_chars(self.m_path.as_str());
        let start = name_start(s.as_slice());
        let n = copy_chars(&s.as_slice()[start..s.len()]);
        let suf = to_chars(suffix);
        let k = suf.len();
        if k <= n.len() {
            let mut i: usize = 0;
            let base = n.len() - k;
            while i < k
                invariant
                    k == suf@.len(),
                    base + k == n@.len(),
                    n@.len() <= usize::MAX,
                    n@ == name_of(self@.1),
                    suf@ == suffix@,
                    i <= k,
                    forall|j: int| 0 <= j < i ==> n@[base + j] == suf@[j],
                decreases k - i,
            {
                if n[base + i] != suf[i] {
                    proof {
                        assert(n@.subrange(base as int, n@.len() as int)[i as int] != suf@[i as int]);
                    }
                    return string_of(n.as_slice());
                }
                i = i + 1;
            }
            proof {
                assert(n@.subrange(base as int, n@.len() as int) =~= suf@);
            }
            string_of(&n.as_slice()[0..base])
        } else {
            string_of(n.as_slice())
        }
    }

    /// The extension of the path, dot included: its last portion from the
    /// first dot on (`.tar.gz` for `a.tar.gz`), or empty.
    pub fn extension(&self) -> (r: String)
        ensures
            r@ == extension_of(self@.1),
    {
        let s = to_chars(self.m_path.as_str());
        let start = name_start(s.as_slice());
        let n = copy_chars(&s.as_slice()[start..s.len()]);
        let d = first_dot(n.as_slice());
        string_of(&n.as_slice()[d..n.len()])
    }

    /// The application installation directory, `app://`.
    pub fn application_directory() -> (r: File)
        ensures
            r@ == (FileScheme::App, Seq::<char>::empty()),
    {
        File { m_scheme: FileScheme::App, m_path: String::new() }
    }

    /// The application private storage directory, `app-storage://`.
    pub fn application_storage_directory() -> (r: File)
        ensures
            r@ == (FileScheme::AppStorage, Seq::<char>::empty()),
    {
        File { m_scheme: FileScheme::AppStorage, m_path: String::new() }
    }

    /// The URL of this file.
    pub fn url(&self) -> (r: String)
        ensures
            r@ == url_of(self@.0, self@.1),
    {
        let s = to_chars(self.m_path.as_str());
        let mut p: Vec<char> = Vec::new();
        let mut i: usize = 0;
        while i < s.len()
            invariant
                i <= s@.len(),
                p@ == forward_slashes(s@).subrange(0, i as int),
            decreases s@.len() - i,
        {
            p.push(if s[i] == '\\' { '/' } else { s[i] });
            i = i + 1;
            proof {
                assert(p@ =~= forward_slashes(s@).subrange(0, i as int));
            }
        }
        proof {
            assert(p@ =~= forward_slashes(s@));
        }
        let mut out = to_chars(self.m_scheme.prefix().as_str());
        let two: Vec<char> = vec!['/', '/'];
        let one: Vec<char> = vec!['/'];
        assert(two@ =~= seq!['/', '/']);
        assert(one@ =~= seq!['/']);
        let ghost pre = out@;
        if !has_prefix(p.as_slice(), two.as_slice()) {
            if has_prefix(p.as_slice(), one.as_slice()) {
                out.push('/');
            } else {
                out.push('/');
                out.push('/');
            }
        }
        let ghost mid = out@;
        push_all(&mut out, p.as_slice());
        proof {
            let slashes: Seq<char> = if starts_with(p@, seq!['/', '/']) {
                Seq::empty()
            } else if starts_with(p@, seq!['/']) {
                seq!['/']
            } else {
                seq!['/', '/']
            };
            assert(mid =~= pre + slashes);
        }
        string_of(out.as_slice())
    }

    /// The path in the host's own notation.
    pub fn native_path(&self) -> (r: String)
        ensures
            r@ == self@.1,
    {
        self.m_path.clone()
    }

    /// Resolves `arg` against this path: by the host's rules for `file:`, by
    /// POSIX rules otherwise. The scheme is kept; the file system is not read.
    pub fn resolve_path(&self, host: &Host, arg: &str) -> (r: File)
        ensures
            r@.0 == self@.0,
            r@.1 == if self@.0 == FileScheme::File {
                resolved_on(host, self@.1, arg@)
            } else {
                posix_resolved(host.working_directory@, self@.1, arg@)
            },
    {
        let r = if self.m_scheme == FileScheme::File {
            resolve(host, self.m_path.as_str(), arg)
        } else {
            posix_resolve(host.working_directory.as_str(), self.m_path.as_str(), arg)
        };
        File { m_scheme: self.m_scheme, m_path: r }
    }

    /// The relative path from this file to `another`, by the rules of
    /// `profile`. Between two schemes the paths are compared as they stand.
    pub fn relative_path(&self, profile: PathProfile, another: &File) -> (r: String)
        ensures
            r@ == relative_on(profile, self@.1, another@.1),
    {
        relative(profile, self.m_path.as_str(), another.m_path.as_str())
    }

    /// The directory that holds this file: `resolve_path("..")`, or `None`
    /// where that leaves nothing, `.`, or a bare root.
    pub fn parent(&self, host: &Host) -> (r: Option<File>)
        ensures
            ({
                let up = if self@.0 == FileScheme::File {
                    resolved_on(host, self@.1, seq!['.', '.'])
                } else {
                    posix_resolved(host.working_directory@, self@.1, seq!['.', '.'])
                };
                let gone = up.len() == 0 || up == seq!['.'] || up == seq!['/'] || up == seq!['\\'];
                &&& gone ==> r is None
                &&& !gone ==> (r matches Some(f) && f@ == (self@.0, up))
            }),
    {
        let up: Vec<char> = vec!['.', '.'];
        assert(up@ =~= seq!['.', '.']);
        let r = self.resolve_path(host, string_of(up.as_slice()).as_str());
        let p = to_chars(r.m_path.as_str());
        if p.len() == 0 || (p.len() == 1 && (p[0] == '.' || p[0] == '/' || p[0] == '\\')) {
            proof {
                if p.len() == 1 {
                    if p[0] == '.' {
                        assert(p@ =~= seq!['.']);
                    } else if p[0] == '/' {
                        assert(p@ =~= seq!['/']);
                    } else {
                        assert(p@ =~= seq!['\\']);
                    }
                }
            }
            None
        } else {
            proof {
                if p@ == seq!['.'] || p@ == seq!['/'] || p@ == seq!['\\'] {
                    assert(p@.len() == 1);
                    assert(p@[0] == seq!['.'][0] || p@[0] == seq!['/'][0] || p@[0] == seq!['\\'][0]);
                }
            }
            Some(r)
        }
    }

    /// The separator that `profile` writes: `/`, or `\` under Windows rules.
    pub fn separator(profile: PathProfile) -> (r: String)
        ensures
            r@ == seq![crate::segments::sep_char(profile)],
    {
        let c = crate::segments::separator_char(profile);
        let v: Vec<char> = vec![c];
        assert(v@ =~= seq![c]);
        string_of(v.as_slice())
    }

    /// The path that the file system is asked about: for `file:` the path
    /// itself; for `app:` and `app-storage:` the path, without its leading
    /// separator, resolved against the configured base directory (or against
    /// the working directory where none is configured).
    pub fn application_based_native_path(&self, host: &Host, dirs: &BaseDirectories) -> (r: String)
        ensures
            self@.0 == FileScheme::File ==> r@ == self@.1,
            self@.0 != FileScheme::File ==> r@ == resolved_on(
                host,
                file_of(host, base_of(dirs, self@.0)).1,
                drop_leading_sep(self@.1),
            ),
    {
        if self.m_scheme == FileScheme::File {
            return self.m_path.clone();
        }
        let base = if self.m_scheme == FileScheme::App {
            &dirs.application
        } else {
            &dirs.application_storage
        };
        let base_str = match base {
            Some(s) => s.clone(),
            None => String::new(),
        };
        let l = File::new(host, base_str.as_str());
        let s = to_chars(self.m_path.as_str());
        let rest = if s.len() > 0 && (s[0] == '/' || s[0] == '\\') {
            copy_chars(&s.as_slice()[1..s.len()])
        } else {
            copy_chars(s.as_slice())
        };
        resolve(host, l.m_path.as_str(), string_of(rest.as_slice()).as_str())
    }

    /// This file after canonicalization, given what the file system reported
    /// as its canonical path: a `file:` path where it reported one, else the
    /// file unchanged.
    pub fn canonicalize(&self, canonical: Option<&str>) -> (r: File)
        ensures
            canonical matches Some(c) ==> r@ == (FileScheme::File, c@),
            canonical is None ==> r@ == self@,
    {
        match canonical {
            Some(c) => File { m_scheme: FileScheme::File, m_path: c.to_owned() },
            None => self.clone(),
        }
    }
}

} // verus!
