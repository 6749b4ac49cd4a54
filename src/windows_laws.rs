//! Laws of the Windows path profile.
use vstd::prelude::*;
use crate::segments::{
    dot, dot_dot, feed, initial, is_normal, join, lemma_join_ends, lemma_scan_leading_sep,
    lemma_segment_stack_join, lemma_segment_stack_normal, lemma_segment_stack_trailing_sep, normalized,
    scan, segment_stack, sep_free, PathProfile,
};
use crate::windows::{
    is_drive_letter, run_end, win_absorb, win_gather, win_normalized, win_resolved, win_root, wsep,
};

verus! {

/// Begins with a drive, as `C:`.
pub open spec fn drive_prefixed(s: Seq<char>) -> bool {
    s.len() >= 2 && is_drive_letter(s[0]) && s[1] == ':'
}

/// The normal forms that read differently once normalized again: a bare
/// drive (`C:`), or a drive, a `.` and more segments (`C:.\x`). Only a
/// relative path without device normalizes to them (as `a\..\C:` does).
pub open spec fn rereads_as_drive(out: Seq<char>) -> bool {
    drive_prefixed(out) && (out.len() == 2 || (out.len() > 4 && out[2] == '.' && wsep(out[3])))
}

pub open spec fn root_mark(abs: bool) -> Seq<char> {
    if abs {
        seq!['\\']
    } else {
        Seq::empty()
    }
}

proof fn lemma_run_end(s: Seq<char>, j: int, seps: bool)
    requires
        0 <= j <= s.len(),
    ensures
        j <= run_end(s, j, seps) <= s.len(),
        forall|i: int| j <= i < run_end(s, j, seps) ==> wsep(#[trigger] s[i]) == seps,
        run_end(s, j, seps) < s.len() ==> wsep(s[run_end(s, j, seps)]) != seps,
    decreases s.len() - j,
{
    if j < s.len() && wsep(s[j]) == seps {
        lemma_run_end(s, j + 1, seps);
    }
}

proof fn lemma_run_end_at(s: Seq<char>, j: int, k: int, seps: bool)
    requires
        0 <= j <= k <= s.len(),
        forall|i: int| j <= i < k ==> wsep(#[trigger] s[i]) == seps,
        k == s.len() || wsep(s[k]) != seps,
    ensures
        run_end(s, j, seps) == k,
    decreases k - j,
{
    if j < k {
        lemma_run_end_at(s, j + 1, k, seps);
    }
}

proof fn lemma_root_bound(s: Seq<char>)
    ensures
        0 <= win_root(s).2 <= s.len(),
{
    if s.len() > 1 && wsep(s[0]) && wsep(s[1]) {
        lemma_run_end(s, 2, false);
        let j1 = run_end(s, 2, false);
        lemma_run_end(s, j1, true);
        let j2 = run_end(s, j1, true);
        if j2 < s.len() {
            lemma_run_end(s, j2, false);
        }
    }
}

proof fn lemma_join_front(n: Seq<Seq<char>>)
    requires
        n.len() > 1,
    ensures
        join(n, '\\') == n[0] + seq!['\\'] + join(n.subrange(1, n.len() as int), '\\'),
    decreases n.len(),
{
    let m = n.drop_last();
    let rest = n.subrange(1, n.len() as int);
    if n.len() == 2 {
        assert(rest.len() == 1);
        assert(rest[0] == n[1]);
        assert(m.len() == 1);
        assert(join(m, '\\') == n[0]);
        assert(n[0].push('\\') + n[1] =~= n[0] + seq!['\\'] + n[1]);
    } else {
        lemma_join_front(m);
        assert(rest.drop_last() =~= m.subrange(1, m.len() as int));
        assert(rest.last() == n.last());
        assert(m[0] == n[0]);
        let jr = join(m.subrange(1, m.len() as int), '\\');
        assert((n[0] + seq!['\\'] + jr).push('\\') + n.last() =~= n[0] + seq!['\\'] + (jr.push('\\')
            + n.last()));
    }
}

proof fn lemma_dot_segments()
    ensures
        segment_stack(PathProfile::Windows, true, seq!['.']) == Seq::<Seq<char>>::empty(),
        segment_stack(PathProfile::Windows, false, Seq::empty()) == Seq::<Seq<char>>::empty(),
        segment_stack(PathProfile::Windows, true, Seq::empty()) == Seq::<Seq<char>>::empty(),
{
    let w = PathProfile::Windows;
    let d: Seq<char> = seq!['.'];
    assert(d.drop_last() =~= Seq::<char>::empty());
    assert(d.last() == '.');
    assert(scan(w, true, initial(), d.drop_last()) == initial());
    assert(scan(w, true, initial(), d) == feed(w, true, initial(), '.'));
    assert(d == dot());
    assert(segment_stack(w, true, d) =~= Seq::<Seq<char>>::empty());
}

/// How a normal stack is written as a tail: `.` for an empty relative one.
pub open spec fn written(m: Seq<Seq<char>>, abs: bool) -> Seq<char> {
    if m.len() == 0 && !abs {
        seq!['.']
    } else {
        join(m, '\\')
    }
}

pub open spec fn with_trail(t: Seq<char>, trail: bool) -> Seq<char> {
    if trail {
        t.push('\\')
    } else {
        t
    }
}

/// A path made of a device, a root mark and the written form of a normal
/// stack reads back as itself, once its root is known to parse as given.
proof fn lemma_reads_back(
    out: Seq<char>,
    dev: Seq<char>,
    abs: bool,
    re2: int,
    m: Seq<Seq<char>>,
    trail: bool,
    leading: bool,
)
    requires
        out.len() > 0,
        win_root(out) == (dev, abs, re2),
        0 <= re2 <= out.len(),
        is_normal(PathProfile::Windows, !abs, m),
        trail ==> written(m, abs).len() > 0,
        out == dev + root_mark(abs) + with_trail(written(m, abs), trail),
        out.subrange(re2, out.len() as int) == if leading {
            seq!['\\'] + with_trail(written(m, abs), trail)
        } else {
            with_trail(written(m, abs), trail)
        },
    ensures
        win_normalized(out) == out,
{
    let w = PathProfile::Windows;
    let t1 = written(m, abs);
    let t2 = with_trail(t1, trail);
    lemma_dot_segments();
    if m.len() > 0 {
        lemma_segment_stack_join(w, !abs, m);
        lemma_join_ends(w, !abs, m);
    }
    assert(segment_stack(w, !abs, t1) == m);
    if trail {
        lemma_segment_stack_trailing_sep(w, !abs, t1, '\\');
    }
    assert(segment_stack(w, !abs, t2) == m);
    if leading {
        lemma_scan_leading_sep(w, !abs, t2, '\\');
    }
    let tail = out.subrange(re2, out.len() as int);
    assert(segment_stack(w, !abs, tail) == m);
    if t2.len() > 0 {
        assert(out.last() == t2.last());
        if !trail {
            if m.len() == 0 {
                assert(t1.last() == '.');
            }
        }
    }
}

/// Without its first segment, a normal stack that starts with an ordinary
/// segment is normal with no climbing.
proof fn lemma_normal_tail(n: Seq<Seq<char>>, allow: bool)
    requires
        is_normal(PathProfile::Windows, allow, n),
        n.len() > 0,
        n[0] != dot_dot(),
    ensures
        is_normal(PathProfile::Windows, false, n.subrange(1, n.len() as int)),
        forall|i: int| 1 <= i < n.len() ==> #[trigger] n[i] != dot_dot(),
{
    assert forall|i: int| 1 <= i < n.len() implies #[trigger] n[i] != dot_dot() by {
        if n[i] == dot_dot() {
            assert(n[0] == dot_dot());
        }
    }
    let r = n.subrange(1, n.len() as int);
    assert forall|i: int| 0 <= i < r.len() implies {
        &&& (#[trigger] r[i]).len() > 0
        &&& r[i] != dot()
        &&& sep_free(PathProfile::Windows, r[i])
        &&& (r[i] == dot_dot() ==> false && forall|j: int| 0 <= j < i ==> #[trigger] r[j] == dot_dot())
    } by {
        assert(r[i] == n[i + 1]);
    }
}

/// The pieces of the normal form of a nonempty `p`: its root, its kept
/// segments, and whether a trailing separator is kept.
pub open spec fn parts_of(p: Seq<char>, dev: Seq<char>, abs: bool, n: Seq<Seq<char>>, trail: bool) -> bool {
    let (d, a, re) = win_root(p);
    &&& p.len() > 0
    &&& d == dev
    &&& a == abs
    &&& 0 <= re <= p.len()
    &&& n == segment_stack(PathProfile::Windows, !abs, p.subrange(re, p.len() as int))
    &&& is_normal(PathProfile::Windows, !abs, n)
    &&& trail == (written(n, abs).len() > 0 && wsep(p.last()))
}

proof fn lemma_parts(p: Seq<char>)
    requires
        p.len() > 0,
    ensures
        ({
            let (dev, abs, re) = win_root(p);
            let n = segment_stack(PathProfile::Windows, !abs, p.subrange(re, p.len() as int));
            let trail = written(n, abs).len() > 0 && wsep(p.last());
            &&& parts_of(p, dev, abs, n, trail)
            &&& win_normalized(p) == dev + root_mark(abs) + with_trail(written(n, abs), trail)
        }),
{
    let w = PathProfile::Windows;
    let (dev, abs, re) = win_root(p);
    lemma_root_bound(p);
    let body = p.subrange(re, p.len() as int);
    lemma_segment_stack_normal(w, !abs, body);
    lemma_dot_segments();
    if re == p.len() {
        assert(body =~= Seq::<char>::empty());
    }
}

proof fn lemma_first_not_sep(n: Seq<Seq<char>>, abs: bool, trail: bool)
    requires
        is_normal(PathProfile::Windows, !abs, n),
        trail ==> written(n, abs).len() > 0,
    ensures
        with_trail(written(n, abs), trail).len() > 0 ==> !wsep(with_trail(written(n, abs), trail)[0]),
        written(n, abs).len() > 0 ==> !wsep(written(n, abs).last()),
{
    if n.len() > 0 {
        lemma_join_ends(PathProfile::Windows, !abs, n);
    }
    let t = written(n, abs);
    if trail {
        assert(t.push('\\')[0] == t[0]);
    }
}

proof fn case_drive(p: Seq<char>, dev: Seq<char>, abs: bool, n: Seq<Seq<char>>, trail: bool)
    requires
        parts_of(p, dev, abs, n, trail),
        dev.len() > 0,
        !wsep(p[0]),
    ensures
        ({
            let out = dev + root_mark(abs) + with_trail(written(n, abs), trail);
            win_normalized(out) == out
        }),
{
    let t2 = with_trail(written(n, abs), trail);
    let out = dev + root_mark(abs) + t2;
    lemma_first_not_sep(n, abs, trail);
    assert(dev == p.subrange(0, 2));
    assert(out[0] == p[0] && out[1] == p[1]);
    assert(out.len() > 2);
    assert(wsep(out[2]) == abs);
    assert(out.subrange(0, 2) =~= dev);
    let re2: int = 2 + root_mark(abs).len() as int;
    assert(out.subrange(re2, out.len() as int) =~= t2);
    lemma_reads_back(out, dev, abs, re2, n, trail, false);
}

proof fn case_share(p: Seq<char>, dev: Seq<char>, abs: bool, n: Seq<Seq<char>>, trail: bool)
    requires
        parts_of(p, dev, abs, n, trail),
        dev.len() > 0,
        wsep(p[0]),
    ensures
        ({
            let out = dev + root_mark(abs) + with_trail(written(n, abs), trail);
            win_normalized(out) == out
        }),
{
    let t2 = with_trail(written(n, abs), trail);
    let out = dev + root_mark(abs) + t2;
    lemma_run_end(p, 2, false);
    let j1 = run_end(p, 2, false);
    lemma_run_end(p, j1, true);
    let j2 = run_end(p, j1, true);
    lemma_run_end(p, j2, false);
    let j3 = run_end(p, j2, false);
    let server = p.subrange(2, j1);
    let share = p.subrange(j2, j3);
    assert(dev == seq!['\\', '\\'] + server + seq!['\\'] + share);
    assert(abs);
    let a1: int = 2 + server.len() as int;
    let a2: int = a1 + 1;
    let a3: int = a2 + share.len() as int;
    assert(dev.len() == a3);
    assert forall|i: int| 2 <= i < a1 implies !wsep(#[trigger] out[i]) by {
        assert(out[i] == server[i - 2]);
    }
    assert(out[a1] == '\\');
    lemma_run_end_at(out, 2, a1, false);
    assert(out[a2] == share[0]);
    lemma_run_end_at(out, a1, a2, true);
    assert forall|i: int| a2 <= i < a3 implies !wsep(#[trigger] out[i]) by {
        assert(out[i] == share[i - a2]);
    }
    assert(out[a3] == '\\');
    lemma_run_end_at(out, a2, a3, false);
    assert(out.subrange(2, a1) =~= server);
    assert(out.subrange(a2, a3) =~= share);
    assert(out.subrange(a3, out.len() as int) =~= seq!['\\'] + t2);
    lemma_reads_back(out, dev, abs, a3, n, trail, true);
}

proof fn case_rooted(p: Seq<char>, dev: Seq<char>, abs: bool, n: Seq<Seq<char>>, trail: bool)
    requires
        parts_of(p, dev, abs, n, trail),
        dev.len() == 0,
        abs,
    ensures
        ({
            let out = dev + root_mark(abs) + with_trail(written(n, abs), trail);
            win_normalized(out) == out
        }),
{
    let t2 = with_trail(written(n, abs), trail);
    let out = dev + root_mark(abs) + t2;
    lemma_first_not_sep(n, abs, trail);
    assert(out.subrange(1, out.len() as int) =~= t2);
    if t2.len() > 0 {
        assert(out[1] == t2[0]);
    }
    lemma_reads_back(out, dev, abs, 1, n, trail, false);
}

pub open spec fn is_drive(d: Seq<char>) -> bool {
    d.len() == 2 && is_drive_letter(d[0]) && d[1] == ':'
}

pub open spec fn after_first(rest: Seq<Seq<char>>) -> Seq<char> {
    if rest.len() > 0 {
        seq!['\\'] + join(rest, '\\')
    } else {
        Seq::empty()
    }
}

pub open spec fn trail_mark(trail: bool) -> Seq<char> {
    if trail {
        seq!['\\']
    } else {
        Seq::empty()
    }
}

/// A tail whose first segment is a bare drive reads back as that drive's root.
proof fn case_bare_drive(out: Seq<char>, drive: Seq<char>, rest: Seq<Seq<char>>, trail: bool)
    requires
        is_drive(drive),
        is_normal(PathProfile::Windows, false, rest),
        out == drive + after_first(rest) + trail_mark(trail),
        out.len() > 2,
    ensures
        win_normalized(out) == out,
{
    let w = PathProfile::Windows;
    let tr = trail_mark(trail);
    assert(out[0] == drive[0] && out[1] == drive[1]);
    assert(out.subrange(0, 2) =~= drive);
    if rest.len() > 0 {
        assert(out[2] == '\\');
    } else {
        assert(out[2] == tr[0]);
    }
    assert(win_root(out) == (drive, true, 3int));
    if rest.len() > 0 {
        lemma_join_ends(w, false, rest);
        assert(out.subrange(3, out.len() as int) =~= join(rest, '\\') + tr);
        assert(written(rest, true) == join(rest, '\\'));
        assert(out =~= drive + root_mark(true) + with_trail(written(rest, true), trail));
        assert(join(rest, '\\') + tr =~= with_trail(written(rest, true), trail));
        lemma_reads_back(out, drive, true, 3, rest, trail, false);
    } else {
        assert(trail);
        assert(written(rest, true) =~= Seq::<char>::empty());
        assert(out =~= drive + root_mark(true) + with_trail(written(rest, true), false));
        assert(out.subrange(3, out.len() as int) =~= Seq::<char>::empty());
        lemma_reads_back(out, drive, true, 3, rest, false, false);
    }
}

/// A tail whose first segment is a drive and more reads back as a relative
/// path on that drive.
proof fn case_drive_segment(out: Seq<char>, drive: Seq<char>, r: Seq<char>, rest: Seq<Seq<char>>, trail: bool)
    requires
        is_drive(drive),
        r.len() > 0,
        sep_free(PathProfile::Windows, r),
        is_normal(PathProfile::Windows, false, rest),
        r == dot() ==> rest.len() == 0,
        out == drive + r + after_first(rest) + trail_mark(trail),
    ensures
        win_normalized(out) == out,
{
    let w = PathProfile::Windows;
    let tr = trail_mark(trail);
    assert(out[0] == drive[0] && out[1] == drive[1]);
    assert(out.subrange(0, 2) =~= drive);
    assert(out[2] == r[0]);
    assert(win_root(out) == (drive, false, 2int));
    if r == dot() {
        let e = Seq::<Seq<char>>::empty();
        assert(written(e, false) == seq!['.']);
        assert(with_trail(written(e, false), trail) =~= r + tr);
        assert(out =~= drive + root_mark(false) + with_trail(written(e, false), trail));
        assert(out.subrange(2, out.len() as int) =~= with_trail(written(e, false), trail));
        lemma_reads_back(out, drive, false, 2, e, trail, false);
    } else {
        let m = seq![r] + rest;
        assert(is_normal(w, true, m)) by {
            assert forall|i: int| 0 <= i < m.len() implies {
                &&& (#[trigger] m[i]).len() > 0
                &&& m[i] != dot()
                &&& sep_free(w, m[i])
                &&& (m[i] == dot_dot() ==> true && forall|j: int| 0 <= j < i ==> #[trigger] m[j] == dot_dot())
            } by {
                if i > 0 {
                    assert(m[i] == rest[i - 1]);
                }
            }
        }
        if rest.len() > 0 {
            lemma_join_front(m);
            assert(m.subrange(1, m.len() as int) =~= rest);
        } else {
            assert(join(m, '\\') == r);
        }
        let t1 = join(m, '\\');
        assert(t1 =~= r + after_first(rest));
        assert(written(m, false) == t1);
        assert(with_trail(t1, trail) =~= t1 + tr);
        assert(out =~= drive + root_mark(false) + with_trail(t1, trail));
        assert(out.subrange(2, out.len() as int) =~= with_trail(t1, trail));
        lemma_reads_back(out, drive, false, 2, m, trail, false);
    }
}

/// A relative tail whose first segment starts with a drive.
proof fn case_drive_like(n: Seq<Seq<char>>, trail: bool)
    requires
        is_normal(PathProfile::Windows, true, n),
        trail ==> written(n, false).len() > 0,
        drive_prefixed(with_trail(written(n, false), trail)),
        !rereads_as_drive(with_trail(written(n, false), trail)),
    ensures
        ({
            let out = with_trail(written(n, false), trail);
            win_normalized(out) == out
        }),
{
    let w = PathProfile::Windows;
    let out = with_trail(written(n, false), trail);
    assert(n.len() > 0);
    let x = n[0];
    let rest = n.subrange(1, n.len() as int);
    let tr = trail_mark(trail);
    if n.len() > 1 {
        lemma_join_front(n);
    } else {
        assert(join(n, '\\') == x);
    }
    assert(out =~= x + after_first(rest) + tr);
    assert(sep_free(w, x));
    assert(x.len() >= 2) by {
        if x.len() < 2 {
            assert(x.len() == 1);
            assert(out[1] == (after_first(rest) + tr)[0]);
        }
    }
    assert(x != dot_dot()) by {
        assert(x[1] == ':');
    }
    lemma_normal_tail(n, true);
    let drive = x.subrange(0, 2);
    assert(drive[0] == out[0] && drive[1] == out[1]);
    let r = x.subrange(2, x.len() as int);
    assert(x =~= drive + r);
    if r.len() == 0 {
        assert(out =~= drive + after_first(rest) + tr);
        case_bare_drive(out, drive, rest, trail);
    } else {
        assert(sep_free(w, r)) by {
            assert forall|k: int| 0 <= k < r.len() implies !wsep(#[trigger] r[k]) by {
                assert(r[k] == x[k + 2]);
            }
        }
        if r == dot() && rest.len() > 0 {
            assert(out[2] == '.');
            assert(out[3] == '\\');
        }
        assert(out =~= drive + r + after_first(rest) + tr);
        case_drive_segment(out, drive, r, rest, trail);
    }
}

/// Normalizing twice is normalizing once, under Windows rules, except for
/// the paths whose normal form reads back as a drive.
pub proof fn windows_normalize_idempotent(p: Seq<char>)
    requires
        !rereads_as_drive(win_normalized(p)),
    ensures
        win_normalized(win_normalized(p)) == win_normalized(p),
{
    lemma_dot_segments();
    if p.len() == 0 {
        let d: Seq<char> = seq!['.'];
        let e = Seq::<Seq<char>>::empty();
        assert(win_root(d) == (Seq::<char>::empty(), false, 0int));
        assert(d.subrange(0, 1) =~= d);
        assert(written(e, false) == d);
        assert(d =~= Seq::<char>::empty() + root_mark(false) + with_trail(written(e, false), false));
        lemma_reads_back(d, Seq::empty(), false, 0, e, false, false);
    } else {
        lemma_parts(p);
        let (dev, abs, re) = win_root(p);
        let n = segment_stack(PathProfile::Windows, !abs, p.subrange(re, p.len() as int));
        let trail = written(n, abs).len() > 0 && wsep(p.last());
        let t2 = with_trail(written(n, abs), trail);
        if dev.len() > 0 && !wsep(p[0]) {
            case_drive(p, dev, abs, n, trail);
        } else if dev.len() > 0 {
            case_share(p, dev, abs, n, trail);
        } else if abs {
            case_rooted(p, dev, abs, n, trail);
        } else {
            assert(dev + root_mark(abs) + t2 =~= t2);
            if drive_prefixed(t2) {
                case_drive_like(n, trail);
            } else {
                lemma_first_not_sep(n, abs, trail);
                assert(t2.subrange(0, t2.len() as int) =~= t2);
                assert(win_root(t2) == (dev, false, 0int));
                lemma_reads_back(t2, dev, abs, 0, n, trail, false);
            }
        }
    }
}

/// Under Windows rules a rooted path resolved against nothing is its normal
/// form: `resolve(p, "") == normalize(p)`, whatever the per-drive
/// directories; for the paths that name their device (or that name none, on
/// a host whose working directory names none either), and whose normal form
/// keeps no trailing separator, which resolution drops.
pub proof fn windows_resolve_rooted_is_normalize(
    cwd: Seq<char>,
    drives: Seq<(Seq<char>, Seq<char>)>,
    p: Seq<char>,
)
    requires
        win_root(p).1,
        win_root(p).0.len() > 0 || win_root(cwd).0.len() == 0,
        !(wsep(p.last()) && normalized(
            PathProfile::Windows,
            false,
            p.subrange(win_root(p).2, p.len() as int),
        ).len() > 0),
    ensures
        win_resolved(cwd, drives, p, Seq::empty()) == win_normalized(p),
{
    let w = PathProfile::Windows;
    let (d, abs, re) = win_root(p);
    lemma_root_bound(p);
    lemma_dot_segments();
    assert(p.len() > 0);
    let body = p.subrange(re, p.len() as int);
    let t = body + seq!['\\'] + Seq::<char>::empty();
    let init: (Seq<char>, Seq<char>, bool) = (Seq::empty(), Seq::empty(), false);
    assert(win_absorb(init, Seq::empty()) == (init, false));
    assert(win_absorb(init, p) == ((d, t, true), d.len() > 0));
    if d.len() == 0 {
        if cwd.len() > 0 {
            assert(win_absorb((d, t, true), cwd) == ((d, t, true), false));
        }
    }
    assert(win_gather(cwd, drives, p, Seq::empty()) == (d, t, true));
    assert(t =~= body.push('\\'));
    lemma_segment_stack_trailing_sep(w, false, body, '\\');
    if re == p.len() {
        assert(body =~= Seq::<char>::empty());
    }
    assert(win_normalized(p) == d + seq!['\\'] + normalized(w, false, body));
}

} // verus!
