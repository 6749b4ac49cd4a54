//! Path algebra under Windows rules: `\` and `/` separate, and a path may
//! start with a drive (`C:`) or a UNC share (`\\server\share`).
use vstd::prelude::*;
use crate::chars::{string_of, to_chars};
use crate::posix::{chars_equal, copy_chars, fold_case, route, route_between, segments_match};
use crate::segments::{
    is_sep, is_separator, join, join_segments, normalize_string, normalized, push_all, segment_stack,
    segments_of, PathProfile,
};

verus! {

pub open spec fn wsep(c: char) -> bool {
    is_sep(PathProfile::Windows, c)
}

/// The first index from `j` on at which the run of separators (or of
/// non-separators, when `seps` is false) ends.
pub open spec fn run_end(s: Seq<char>, j: int, seps: bool) -> int
    decreases s.len() - j,
{
    if 0 <= j < s.len() && wsep(s[j]) == seps {
        run_end(s, j + 1, seps)
    } else {
        j
    }
}

pub open spec fn is_drive_letter(c: char) -> bool {
    ('A' <= c && c <= 'Z') || ('a' <= c && c <= 'z')
}

/// The root of `s`: its device (a drive, or a UNC share written
/// `\\server\share`), whether it is absolute, and where its tail starts.
pub open spec fn win_root(s: Seq<char>) -> (Seq<char>, bool, int) {
    let len = s.len() as int;
    if len == 0 {
        (Seq::empty(), false, 0)
    } else if len == 1 {
        if wsep(s[0]) {
            (Seq::empty(), true, 1)
        } else {
            (Seq::empty(), false, 0)
        }
    } else if wsep(s[0]) {
        if wsep(s[1]) {
            let j1 = run_end(s, 2, false);
            let j2 = run_end(s, j1, true);
            if j1 < len && j1 != 2 && j2 < len {
                let j3 = run_end(s, j2, false);
                (seq!['\\', '\\'] + s.subrange(2, j1) + seq!['\\'] + s.subrange(j2, j3), true, j3)
            } else {
                (Seq::empty(), true, 0)
            }
        } else {
            (Seq::empty(), true, 1)
        }
    } else if is_drive_letter(s[0]) && s[1] == ':' {
        if len > 2 && wsep(s[2]) {
            (s.subrange(0, 2), true, 3)
        } else {
            (s.subrange(0, 2), false, 2)
        }
    } else {
        (Seq::empty(), false, 0)
    }
}

/// `normalize` under Windows rules: the device and root kept, the tail
/// normalized, a trailing separator kept, `.` for an empty relative tail.
pub open spec fn win_normalized(s: Seq<char>) -> Seq<char> {
    if s.len() == 0 {
        seq!['.']
    } else {
        let (dev, abs, re) = win_root(s);
        let tail0 = if re < s.len() {
            normalized(PathProfile::Windows, !abs, s.subrange(re, s.len() as int))
        } else {
            Seq::empty()
        };
        let tail1 = if tail0.len() == 0 && !abs {
            seq!['.']
        } else {
            tail0
        };
        let tail2 = if tail1.len() > 0 && wsep(s.last()) {
            tail1.push('\\')
        } else {
            tail1
        };
        dev + (if abs {
            seq!['\\']
        } else {
            Seq::empty()
        }) + tail2
    }
}

/// The directory that was last current on the drive `dev`, where `drives`
/// names one (compared up to ASCII case), looked up from index `i`.
pub open spec fn drive_entry(drives: Seq<(Seq<char>, Seq<char>)>, dev: Seq<char>, i: int) -> Option<Seq<char>>
    decreases drives.len() - i,
{
    if i < 0 || i >= drives.len() {
        None
    } else if fold_case(PathProfile::Windows, drives[i].0) == fold_case(PathProfile::Windows, dev) {
        Some(drives[i].1)
    } else {
        drive_entry(drives, dev, i + 1)
    }
}

/// The base for a path on drive `dev` that names no root: the drive's last
/// directory, else the working directory, else the drive's root where the
/// directory found lies on another drive.
pub open spec fn drive_base(cwd: Seq<char>, drives: Seq<(Seq<char>, Seq<char>)>, dev: Seq<char>) -> Seq<char> {
    let p = match drive_entry(drives, dev, 0) {
        Some(d) => d,
        None => cwd,
    };
    if p.len() > 2 && p[2] == '\\' && fold_case(PathProfile::Windows, p.subrange(0, 2)) != fold_case(
        PathProfile::Windows,
        dev,
    ) {
        dev.push('\\')
    } else {
        p
    }
}

/// Resolution state: device found, tail gathered, whether the tail is rooted.
pub type WinAcc = (Seq<char>, Seq<char>, bool);

/// Folds one fragment (taken right to left) into the state; the flag says
/// that both a device and a root are known, so resolution stops.
pub open spec fn win_absorb(acc: WinAcc, path: Seq<char>) -> (WinAcc, bool) {
    if path.len() == 0 {
        (acc, false)
    } else {
        let (d, pabs, re) = win_root(path);
        if d.len() > 0 && acc.0.len() > 0 && fold_case(PathProfile::Windows, d) != fold_case(
            PathProfile::Windows,
            acc.0,
        ) {
            (acc, false)
        } else {
            let dev = if d.len() > 0 && acc.0.len() == 0 {
                d
            } else {
                acc.0
            };
            if acc.2 {
                ((dev, acc.1, true), dev.len() > 0)
            } else {
                (
                    (dev, path.subrange(re, path.len() as int) + seq!['\\'] + acc.1, pabs),
                    pabs && dev.len() > 0,
                )
            }
        }
    }
}

/// The state after `right`, `left` and, when still needed, the implicit base.
pub open spec fn win_gather(
    cwd: Seq<char>,
    drives: Seq<(Seq<char>, Seq<char>)>,
    left: Seq<char>,
    right: Seq<char>,
) -> WinAcc {
    let (a1, s1) = win_absorb((Seq::empty(), Seq::empty(), false), right);
    let (a2, s2) = if s1 {
        (a1, true)
    } else {
        win_absorb(a1, left)
    };
    if s2 {
        a2
    } else {
        let base = if a2.0.len() == 0 {
            cwd
        } else {
            drive_base(cwd, drives, a2.0)
        };
        win_absorb(a2, base).0
    }
}

/// `resolve` under Windows rules.
pub open spec fn win_resolved(
    cwd: Seq<char>,
    drives: Seq<(Seq<char>, Seq<char>)>,
    left: Seq<char>,
    right: Seq<char>,
) -> Seq<char> {
    let (dev, tail, abs) = win_gather(cwd, drives, left, right);
    let t = normalized(PathProfile::Windows, !abs, tail);
    if abs {
        dev + seq!['\\'] + t
    } else if (dev + t).len() > 0 {
        dev + t
    } else {
        seq!['.']
    }
}

/// `relative` under Windows rules: across devices or between a rooted and an
/// unrooted path there is no common ancestor, and the answer is `to`
/// normalized; else the route between the segment stacks, compared up to
/// ASCII case and written in `to`'s case.
pub open spec fn win_relative_spec(from: Seq<char>, to: Seq<char>) -> Seq<char> {
    if from == to {
        Seq::empty()
    } else {
        let (df, af, rf) = win_root(from);
        let (dt, at, rt) = win_root(to);
        if fold_case(PathProfile::Windows, df) != fold_case(PathProfile::Windows, dt) || af != at {
            win_normalized(to)
        } else {
            let a = segment_stack(PathProfile::Windows, !af, from.subrange(rf, from.len() as int));
            let b = segment_stack(PathProfile::Windows, !at, to.subrange(rt, to.len() as int));
            join(route(PathProfile::Windows, a, b), '\\')
        }
    }
}

// ---------------------------------------------------------------- exec

fn skip_run(s: &[char], j: usize, seps: bool) -> (r: usize)
    requires
        j <= s@.len(),
    ensures
        r as int == run_end(s@, j as int, seps),
        j <= r <= s@.len(),
{
    let mut k = j;
    while k < s.len() && is_separator(PathProfile::Windows, s[k]) == seps
        invariant
            j <= k <= s@.len(),
            run_end(s@, j as int, seps) == run_end(s@, k as int, seps),
        decreases s@.len() - k,
    {
        k = k + 1;
    }
    k
}

fn is_drive_char(c: char) -> (r: bool)
    ensures
        r == is_drive_letter(c),
{
    ('A' <= c && c <= 'Z') || ('a' <= c && c <= 'z')
}

/// Finds the root of `s` as `win_root` describes it.
pub fn parse_root(s: &[char]) -> (r: (Vec<char>, bool, usize))
    ensures
        (r.0@, r.1, r.2 as int) == win_root(s@),
        r.2 <= s@.len(),
{
    let len = s.len();
    if len == 0 {
        return (Vec::new(), false, 0);
    }
    if len == 1 {
        if is_separator(PathProfile::Windows, s[0]) {
            return (Vec::new(), true, 1);
        }
        return (Vec::new(), false, 0);
    }
    if is_separator(PathProfile::Windows, s[0]) {
        if is_separator(PathProfile::Windows, s[1]) {
            let j1 = skip_run(s, 2, false);
            let j2 = skip_run(s, j1, true);
            if j1 < len && j1 != 2 && j2 < len {
                let j3 = skip_run(s, j2, false);
                let mut dev: Vec<char> = vec!['\\', '\\'];
                push_all(&mut dev, &s[2..j1]);
                dev.push('\\');
                push_all(&mut dev, &s[j2..j3]);
                proof {
                    assert(dev@ =~= seq!['\\', '\\'] + s@.subrange(2, j1 as int) + seq!['\\'] + s@.subrange(
                        j2 as int,
                        j3 as int,
                    ));
                }
                return (dev, true, j3);
            }
            return (Vec::new(), true, 0);
        }
        return (Vec::new(), true, 1);
    }
    if is_drive_char(s[0]) && s[1] == ':' {
        let dev = copy_chars(&s[0..2]);
        if len > 2 && is_separator(PathProfile::Windows, s[2]) {
            return (dev, true, 3);
        }
        return (dev, false, 2);
    }
    (Vec::new(), false, 0)
}

/// Normalizes `path` under Windows rules.
pub fn windows_normalize(path: &str) -> (r: String)
    ensures
        r@ == win_normalized(path@),
{
    let s = to_chars(path);
    string_of(&normalize_chars(s.as_slice()))
}

fn normalize_chars(s: &[char]) -> (r: Vec<char>)
    ensures
        r@ == win_normalized(s@),
{
    let len = s.len();
    if len == 0 {
        return vec!['.'];
    }
    let (dev, abs, re) = parse_root(s);
    let mut tail = if re < len {
        normalize_string(&s[re..len], !abs, PathProfile::Windows)
    } else {
        Vec::new()
    };
    if tail.len() == 0 && !abs {
        tail = vec!['.'];
    }
    if tail.len() > 0 && is_separator(PathProfile::Windows, s[len - 1]) {
        tail.push('\\');
    }
    let mut out = dev;
    if abs {
        out.push('\\');
    }
    push_all(&mut out, &tail);
    proof {
        let root: Seq<char> = if abs { seq!['\\'] } else { Seq::empty() };
        assert(out@ =~= dev@ + root + tail@);
    }
    out
}

fn devices_match(a: &[char], b: &[char]) -> (r: bool)
    ensures
        r == (fold_case(PathProfile::Windows, a@) == fold_case(PathProfile::Windows, b@)),
{
    segments_match(PathProfile::Windows, a, b)
}

/// Looks `dev` up among the per-drive directories.
fn find_drive(drives: &Vec<(String, String)>, dev: &[char]) -> (r: Option<Vec<char>>)
    ensures
        r matches Some(v) ==> drive_entry(drive_view(drives@), dev@, 0) == Some(v@),
        r is None ==> drive_entry(drive_view(drives@), dev@, 0) is None,
{
    let ghost dv = drive_view(drives@);
    let mut i: usize = 0;
    while i < drives.len()
        invariant
            i <= drives@.len(),
            dv == drive_view(drives@),
            drive_entry(dv, dev@, 0) == drive_entry(dv, dev@, i as int),
        decreases drives@.len() - i,
    {
        let key = to_chars(drives[i].0.as_str());
        if devices_match(key.as_slice(), dev) {
            return Some(to_chars(drives[i].1.as_str()));
        }
        i = i + 1;
    }
    None
}

pub open spec fn drive_view(d: Seq<(String, String)>) -> Seq<(Seq<char>, Seq<char>)> {
    d.map_values(|e: (String, String)| (e.0@, e.1@))
}

fn base_for_drive(cwd: &[char], drives: &Vec<(String, String)>, dev: &Vec<char>) -> (r: Vec<char>)
    ensures
        r@ == drive_base(cwd@, drive_view(drives@), dev@),
{
    let p = match find_drive(drives, dev.as_slice()) {
        Some(d) => d,
        None => copy_chars(cwd),
    };
    if p.len() > 2 && p[2] == '\\' && !devices_match(&p.as_slice()[0..2], dev.as_slice()) {
        let mut r = copy_chars(dev.as_slice());
        r.push('\\');
        r
    } else {
        p
    }
}

/// Folds `path` into the resolution state, as `win_absorb` does.
fn absorb(dev: &mut Vec<char>, tail: &mut Vec<char>, abs: &mut bool, path: &[char]) -> (stop: bool)
    ensures
        ((final(dev)@, final(tail)@, *final(abs)), stop) == win_absorb((old(dev)@, old(tail)@, *old(abs)), path@),
{
    if path.len() == 0 {
        return false;
    }
    let (d, pabs, re) = parse_root(path);
    if d.len() > 0 && dev.len() > 0 && !devices_match(d.as_slice(), dev.as_slice()) {
        return false;
    }
    if d.len() > 0 && dev.len() == 0 {
        *dev = d;
    }
    if *abs {
        return dev.len() > 0;
    }
    let mut t = copy_chars(&path[re..path.len()]);
    t.push('\\');
    push_all(&mut t, tail.as_slice());
    *tail = t;
    *abs = pabs;
    pabs && dev.len() > 0
}

/// Resolves `right` against `left` under Windows rules, with `cwd` as the
/// working directory and `drives` as the last directory of each drive.
pub fn windows_resolve(cwd: &str, drives: &Vec<(String, String)>, left: &str, right: &str) -> (r: String)
    ensures
        r@ == win_resolved(cwd@, drive_view(drives@), left@, right@),
{
    let mut dev: Vec<char> = Vec::new();
    let mut tail: Vec<char> = Vec::new();
    let mut abs = false;
    let right_c = to_chars(right);
    let left_c = to_chars(left);
    let cwd_c = to_chars(cwd);
    let mut stop = absorb(&mut dev, &mut tail, &mut abs, right_c.as_slice());
    if !stop {
        stop = absorb(&mut dev, &mut tail, &mut abs, left_c.as_slice());
    }
    if !stop {
        let base = if dev.len() == 0 {
            cwd_c
        } else {
            base_for_drive(cwd_c.as_slice(), drives, &dev)
        };
        absorb(&mut dev, &mut tail, &mut abs, base.as_slice());
    }
    let t = normalize_string(tail.as_slice(), !abs, PathProfile::Windows);
    let mut out = dev;
    if abs {
        out.push('\\');
        push_all(&mut out, &t);
        string_of(&out)
    } else {
        push_all(&mut out, &t);
        if out.len() > 0 {
            string_of(&out)
        } else {
            string_of(&['.'])
        }
    }
}

/// The relative path from `from` to `to` under Windows rules.
pub fn windows_relative(from: &str, to: &str) -> (r: String)
    ensures
        r@ == win_relative_spec(from@, to@),
{
    let f = to_chars(from);
    let t = to_chars(to);
    if chars_equal(f.as_slice(), t.as_slice()) {
        return string_of(&[]);
    }
    let (df, af, rf) = parse_root(f.as_slice());
    let (dt, at, rt) = parse_root(t.as_slice());
    if !devices_match(df.as_slice(), dt.as_slice()) || af != at {
        return string_of(&normalize_chars(t.as_slice()));
    }
    let a = segments_of(&f.as_slice()[rf..f.len()], !af, PathProfile::Windows);
    let b = segments_of(&t.as_slice()[rt..t.len()], !at, PathProfile::Windows);
    let steps = route_between(PathProfile::Windows, &a, &b);
    string_of(&join_segments(&steps, '\\'))
}

} // verus!
