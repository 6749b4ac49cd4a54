//! Laws of the path algebra, proved over the specifications of its functions.
use vstd::prelude::*;
use crate::posix::{
    common_from, posix_absolute, posix_gather, posix_normalized, posix_relative_spec, posix_resolved,
    route, ups,
};
use crate::segments::{
    dot_dot, feed, initial, is_normal, is_sep, join, lemma_join_ends, lemma_normal_prefix,
    lemma_scan_append, lemma_scan_leading_sep, lemma_scan_sep_free, lemma_segment_stack_join,
    lemma_segment_stack_normal, lemma_segment_stack_trailing_sep, lemma_step_push, normalized, scan,
    segment_stack, sep_free, step, PathProfile,
};

verus! {

/// `step` applied to each segment of `r` in turn, starting from `s`.
pub open spec fn steps(s: Seq<Seq<char>>, r: Seq<Seq<char>>, allow: bool) -> Seq<Seq<char>>
    decreases r.len(),
{
    if r.len() == 0 {
        s
    } else {
        step(steps(s, r.drop_last(), allow), r.last(), allow)
    }
}

proof fn lemma_steps_append(s: Seq<Seq<char>>, x: Seq<Seq<char>>, y: Seq<Seq<char>>, allow: bool)
    ensures
        steps(s, x + y, allow) == steps(steps(s, x, allow), y, allow),
    decreases y.len(),
{
    if y.len() == 0 {
        assert(x + y =~= x);
    } else {
        assert((x + y).drop_last() =~= x + y.drop_last());
        assert((x + y).last() == y.last());
        lemma_steps_append(s, x, y.drop_last(), allow);
    }
}

/// Reading a joined stack of separator-free segments from a state with no
/// open segment steps through all but the last one and leaves the last open.
proof fn lemma_scan_join_steps(profile: PathProfile, allow: bool, s: Seq<Seq<char>>, r: Seq<Seq<char>>)
    requires
        r.len() > 0,
        forall|i: int| 0 <= i < r.len() ==> sep_free(profile, #[trigger] r[i]),
        profile == PathProfile::Posix,
    ensures
        scan(profile, allow, (s, Seq::empty()), join(r, '/')) == (steps(s, r.drop_last(), allow), r.last()),
    decreases r.len(),
{
    assert(sep_free(profile, r[r.len() - 1]));
    if r.len() == 1 {
        lemma_scan_sep_free(profile, allow, (s, Seq::empty()), r[0]);
        assert(Seq::<char>::empty() + r[0] =~= r[0]);
        assert(r.drop_last() =~= Seq::<Seq<char>>::empty());
    } else {
        let m = r.drop_last();
        assert forall|i: int| 0 <= i < m.len() implies sep_free(profile, #[trigger] m[i]) by {
            assert(m[i] == r[i]);
        }
        lemma_scan_join_steps(profile, allow, s, m);
        let jm = join(m, '/');
        lemma_scan_append(profile, allow, (s, Seq::empty()), jm.push('/'), r.last());
        assert(jm.push('/').drop_last() =~= jm);
        assert(jm.push('/').last() == '/');
        assert(scan(profile, allow, (s, Seq::empty()), jm.push('/')) == (steps(s, m, allow), Seq::<char>::empty()));
        lemma_scan_sep_free(profile, allow, (steps(s, m, allow), Seq::empty()), r.last());
        assert(Seq::<char>::empty() + r.last() =~= r.last());
    }
}

/// Climbing `n` times out of a stack without `..` drops its last `n` segments.
proof fn lemma_steps_ups(s: Seq<Seq<char>>, n: nat)
    requires
        n <= s.len(),
        forall|i: int| 0 <= i < s.len() ==> #[trigger] s[i] != dot_dot(),
    ensures
        steps(s, ups(n), false) == s.subrange(0, s.len() - n),
    decreases n,
{
    if n == 0 {
        assert(ups(0) =~= Seq::<Seq<char>>::empty());
        assert(s.subrange(0, s.len() as int) =~= s);
    } else {
        assert(ups(n).drop_last() =~= ups((n - 1) as nat));
        lemma_steps_ups(s, (n - 1) as nat);
        let t = s.subrange(0, s.len() - n + 1);
        assert(t.last() == s[s.len() - n]);
        assert(t.drop_last() =~= s.subrange(0, s.len() - n));
        assert(ups(n).last() == dot_dot());
        assert(dot_dot() != seq!['.']) by {
            assert(dot_dot().len() != 1);
        }
    }
}

/// Pushing the rest of a normal stack onto its prefix rebuilds it.
proof fn lemma_steps_rebuild(profile: PathProfile, b: Seq<Seq<char>>, k: int, j: int)
    requires
        is_normal(profile, false, b),
        0 <= k <= j <= b.len(),
    ensures
        steps(b.subrange(0, k), b.subrange(k, j), false) == b.subrange(0, j),
    decreases j - k,
{
    if j == k {
        assert(b.subrange(k, j) =~= Seq::<Seq<char>>::empty());
    } else {
        lemma_steps_rebuild(profile, b, k, j - 1);
        assert(b.subrange(k, j).drop_last() =~= b.subrange(k, j - 1));
        assert(b.subrange(k, j).last() == b[j - 1]);
        lemma_normal_prefix(profile, false, b, j);
        assert(b.subrange(0, j - 1).push(b[j - 1]) =~= b.subrange(0, j));
        lemma_step_push(profile, false, b.subrange(0, j - 1), b[j - 1]);
    }
}

proof fn lemma_common_prefix(profile: PathProfile, a: Seq<Seq<char>>, b: Seq<Seq<char>>, i: nat)
    requires
        profile == PathProfile::Posix,
        i <= a.len(),
        i <= b.len(),
        a.subrange(0, i as int) == b.subrange(0, i as int),
    ensures
        common_from(profile, a, b, i) <= a.len(),
        common_from(profile, a, b, i) <= b.len(),
        a.subrange(0, common_from(profile, a, b, i) as int) == b.subrange(
            0,
            common_from(profile, a, b, i) as int,
        ),
    decreases a.len() - i,
{
    if i < a.len() && i < b.len() && a[i as int] == b[i as int] {
        assert(a.subrange(0, (i + 1) as int) =~= a.subrange(0, i as int).push(a[i as int]));
        assert(b.subrange(0, (i + 1) as int) =~= b.subrange(0, i as int).push(b[i as int]));
        lemma_common_prefix(profile, a, b, i + 1);
    }
}

/// Normalizing twice is normalizing once: `normalize(normalize(p)) == normalize(p)`.
pub proof fn normalize_idempotent(p: Seq<char>)
    ensures
        posix_normalized(posix_normalized(p)) == posix_normalized(p),
{
    let pr = PathProfile::Posix;
    let dot1: Seq<char> = seq!['.'];
    let root: Seq<char> = seq!['/'];
    let dot_root: Seq<char> = seq!['.', '/'];
    // the three forms of a path that resolves to nothing
    assert(dot1.drop_last() =~= Seq::<char>::empty());
    assert(dot1.last() == '.');
    assert(scan(pr, true, initial(), dot1.drop_last()) == initial());
    assert(scan(pr, true, initial(), dot1) == feed(pr, true, initial(), '.'));
    assert(segment_stack(pr, true, dot1) =~= Seq::<Seq<char>>::empty());
    assert(posix_normalized(dot1) == dot1);
    assert(root.drop_last() =~= Seq::<char>::empty());
    assert(root.last() == '/');
    assert(scan(pr, false, initial(), root.drop_last()) == initial());
    assert(scan(pr, false, initial(), root) == feed(pr, false, initial(), '/'));
    assert(segment_stack(pr, false, root) =~= Seq::<Seq<char>>::empty());
    assert(posix_normalized(root) == root);
    assert(dot_root.drop_last() =~= dot1);
    assert(scan(pr, true, initial(), dot1) == (Seq::<Seq<char>>::empty(), dot1));
    assert(scan(pr, true, initial(), dot_root) == feed(pr, true, (Seq::<Seq<char>>::empty(), dot1), '/'));
    assert(segment_stack(pr, true, dot_root) =~= Seq::<Seq<char>>::empty());
    assert(posix_normalized(dot_root) == dot_root);
    if p.len() > 0 {
        let abs = p[0] == '/';
        let trailing = p.last() == '/';
        let n = segment_stack(pr, !abs, p);
        let t = join(n, '/');
        if t.len() > 0 {
            lemma_segment_stack_normal(pr, !abs, p);
            assert(n.len() > 0);
            lemma_join_ends(pr, !abs, n);
            lemma_segment_stack_join(pr, !abs, n);
            let pre: Seq<char> = if abs { root } else { Seq::empty() };
            let post: Seq<char> = if trailing { root } else { Seq::empty() };
            let out = pre + t + post;
            assert(out == posix_normalized(p));
            assert(out[0] == '/' <==> abs);
            assert(out.last() == '/' <==> trailing);
            let mid = pre + t;
            if abs {
                assert(mid =~= seq!['/'] + t);
                lemma_scan_leading_sep(pr, !abs, t, '/');
            } else {
                assert(mid =~= t);
            }
            assert(segment_stack(pr, !abs, mid) == n);
            if trailing {
                assert(out =~= mid.push('/'));
                lemma_segment_stack_trailing_sep(pr, !abs, mid, '/');
            } else {
                assert(out =~= mid);
            }
            assert(segment_stack(pr, !abs, out) == n);
        }
    }
}

/// An absolute path resolved against nothing is its normal form:
/// `resolve(p, "") == normalize(p)`, whatever the working directory; for the
/// paths whose normal form keeps a trailing separator, which resolution drops.
pub proof fn resolve_absolute_is_normalize(cwd: Seq<char>, p: Seq<char>)
    requires
        posix_absolute(p),
        p.last() == '/' ==> normalized(PathProfile::Posix, false, p).len() == 0,
    ensures
        posix_resolved(cwd, p, Seq::empty()) == posix_normalized(p),
{
    let frags = seq![cwd, p, Seq::<char>::empty()];
    assert(frags.drop_last() =~= seq![cwd, p]);
    assert(frags.last() == Seq::<char>::empty());
    assert(seq![cwd, p].last() == p);
    assert(posix_gather(seq![cwd, p]) == (p.push('/'), true));
    assert(posix_gather(frags) == posix_gather(frags.drop_last()));
    assert(posix_gather(frags) == (p.push('/'), true));
    lemma_segment_stack_trailing_sep(PathProfile::Posix, false, p, '/');
    assert(normalized(PathProfile::Posix, false, p).len() == 0 ==> seq!['/'] + normalized(
        PathProfile::Posix,
        false,
        p,
    ) =~= seq!['/']);
    assert(seq!['/'] + normalized(PathProfile::Posix, false, p) + Seq::<char>::empty() =~= seq!['/']
        + normalized(PathProfile::Posix, false, p));
}

/// A path is well formed for the round trip when it is absolute and ends in
/// no separator, unless it is the root itself.
pub open spec fn round_trip_form(p: Seq<char>) -> bool {
    &&& posix_absolute(p)
    &&& (p.last() == '/' ==> normalized(PathProfile::Posix, false, p).len() == 0)
}

/// The route from `sa` to `sb` climbs to their common prefix and rebuilds `sb`.
proof fn lemma_route_steps(sa: Seq<Seq<char>>, sb: Seq<Seq<char>>)
    requires
        is_normal(PathProfile::Posix, false, sa),
        is_normal(PathProfile::Posix, false, sb),
    ensures
        steps(sa, route(PathProfile::Posix, sa, sb), false) == sb,
{
    let pr = PathProfile::Posix;
    assert(sa.subrange(0, 0) =~= sb.subrange(0, 0));
    lemma_common_prefix(pr, sa, sb, 0);
    let k = common_from(pr, sa, sb, 0);
    let m = (sa.len() - k) as nat;
    assert forall|i: int| 0 <= i < sa.len() implies #[trigger] sa[i] != dot_dot() by {
        assert(sa[i].len() > 0);
    }
    lemma_steps_ups(sa, m);
    assert(sa.subrange(0, sa.len() - m) =~= sa.subrange(0, k as int));
    lemma_steps_append(sa, ups(m), sb.subrange(k as int, sb.len() as int), false);
    lemma_steps_rebuild(pr, sb, k as int, sb.len() as int);
    assert(sb.subrange(0, sb.len() as int) =~= sb);
}

/// The route between two normal stacks is a normal stack that may climb.
proof fn lemma_route_normal(sa: Seq<Seq<char>>, sb: Seq<Seq<char>>)
    requires
        is_normal(PathProfile::Posix, false, sa),
        is_normal(PathProfile::Posix, false, sb),
    ensures
        is_normal(PathProfile::Posix, true, route(PathProfile::Posix, sa, sb)),
{
    let pr = PathProfile::Posix;
    let r = route(pr, sa, sb);
    assert(sa.subrange(0, 0) =~= sb.subrange(0, 0));
    lemma_common_prefix(pr, sa, sb, 0);
    let k = common_from(pr, sa, sb, 0);
    let m = (sa.len() - k) as nat;
    assert(dot_dot() != seq!['.']) by {
        assert(dot_dot().len() != 1);
    }
    assert(sep_free(pr, dot_dot())) by {
        assert forall|q: int| 0 <= q < dot_dot().len() implies !is_sep(pr, #[trigger] dot_dot()[q]) by {}
    }
    assert forall|i: int| 0 <= i < r.len() implies {
        &&& (#[trigger] r[i]).len() > 0
        &&& r[i] != seq!['.']
        &&& sep_free(pr, r[i])
        &&& (r[i] == dot_dot() ==> true && forall|j: int| 0 <= j < i ==> #[trigger] r[j] == dot_dot())
    } by {
        if i < m {
            assert(r[i] == dot_dot());
            assert forall|j: int| 0 <= j < i implies #[trigger] r[j] == dot_dot() by {
                assert(r[j] == ups(m)[j]);
            }
        } else {
            assert(r[i] == sb[k + i - m]);
            assert(sb[k + i - m].len() > 0);
            assert(sb[k + i - m] != dot_dot());
        }
    }
}

/// What resolution reads from an absolute `a` followed by `rel` holds the
/// segments of `a` and then those of `rel`.
proof fn lemma_resolve_reads(cwd: Seq<char>, a: Seq<char>, r: Seq<Seq<char>>)
    requires
        posix_absolute(a),
        is_normal(PathProfile::Posix, true, r),
        r.len() > 0,
    ensures
        posix_resolved(cwd, a, join(r, '/')) == seq!['/'] + join(
            steps(segment_stack(PathProfile::Posix, false, a), r, false),
            '/',
        ),
{
    let pr = PathProfile::Posix;
    let sa = segment_stack(pr, false, a);
    let rel = join(r, '/');
    let ta = a.push('/');
    assert(ta.drop_last() =~= a);
    assert(scan(pr, false, initial(), ta) == (sa, Seq::<char>::empty()));
    lemma_join_ends(pr, true, r);
    let frags = seq![cwd, a, rel];
    assert(frags.last() == rel);
    assert(frags.drop_last() =~= seq![cwd, a]);
    assert(seq![cwd, a].last() == a);
    assert(posix_gather(seq![cwd, a]) == (ta, true));
    assert(posix_gather(frags) == (ta + rel.push('/'), true));
    assert forall|i: int| 0 <= i < r.len() implies sep_free(pr, #[trigger] r[i]) by {}
    lemma_scan_join_steps(pr, false, sa, r);
    lemma_scan_append(pr, false, initial(), ta, rel.push('/'));
    assert(rel.push('/').drop_last() =~= rel);
    assert(rel.push('/').last() == '/');
    assert(r.drop_last().push(r.last()) =~= r);
    assert(scan(pr, false, (sa, Seq::empty()), rel.push('/')) == (steps(sa, r, false), Seq::<char>::empty()));
    assert(segment_stack(pr, false, ta + rel.push('/')) == steps(sa, r, false));
}

/// The normal form of an absolute path in round-trip form is the root and its
/// joined segments.
proof fn lemma_normal_form(b: Seq<char>)
    requires
        round_trip_form(b),
    ensures
        posix_normalized(b) == seq!['/'] + join(segment_stack(PathProfile::Posix, false, b), '/'),
{
    let t = join(segment_stack(PathProfile::Posix, false, b), '/');
    if t.len() == 0 {
        assert(seq!['/'] + t =~= seq!['/']);
    } else {
        assert(seq!['/'] + t + Seq::<char>::empty() =~= seq!['/'] + t);
    }
}

/// Following the relative path from `a` to `b` leads to `b`:
/// `resolve(a, relative(a, b)) == normalize(b)` for absolute `a` and
/// well-formed `b`, whatever the working directory.
pub proof fn relative_round_trip(cwd: Seq<char>, a: Seq<char>, b: Seq<char>)
    requires
        posix_absolute(a),
        round_trip_form(b),
    ensures
        posix_resolved(cwd, a, posix_relative_spec(a, b)) == posix_normalized(b),
        posix_normalized(posix_resolved(cwd, a, posix_relative_spec(a, b))) == posix_normalized(b),
{
    let pr = PathProfile::Posix;
    normalize_idempotent(b);
    if a == b {
        assert(posix_relative_spec(a, b) == Seq::<char>::empty());
        resolve_absolute_is_normalize(cwd, b);
    } else {
        let sa = segment_stack(pr, false, a);
        let sb = segment_stack(pr, false, b);
        lemma_segment_stack_normal(pr, false, a);
        lemma_segment_stack_normal(pr, false, b);
        let r = route(pr, sa, sb);
        assert(posix_relative_spec(a, b) == join(r, '/'));
        lemma_route_steps(sa, sb);
        lemma_normal_form(b);
        if r.len() == 0 {
            assert(steps(sa, r, false) == sa);
            resolve_absolute_is_normalize(cwd, b);
            assert(posix_resolved(cwd, a, Seq::empty()) == posix_resolved(cwd, b, Seq::empty())) by {
                let fa = seq![cwd, a, Seq::<char>::empty()];
                assert(fa.drop_last() =~= seq![cwd, a]);
                assert(fa.last() == Seq::<char>::empty());
                assert(seq![cwd, a].last() == a);
                assert(posix_gather(seq![cwd, a]) == (a.push('/'), true));
                assert(posix_gather(fa) == posix_gather(fa.drop_last()));
                assert(posix_gather(fa) == (a.push('/'), true));
                let fb = seq![cwd, b, Seq::<char>::empty()];
                assert(fb.drop_last() =~= seq![cwd, b]);
                assert(fb.last() == Seq::<char>::empty());
                assert(seq![cwd, b].last() == b);
                assert(posix_gather(seq![cwd, b]) == (b.push('/'), true));
                assert(posix_gather(fb) == posix_gather(fb.drop_last()));
                assert(posix_gather(fb) == (b.push('/'), true));
                lemma_segment_stack_trailing_sep(pr, false, a, '/');
                lemma_segment_stack_trailing_sep(pr, false, b, '/');
            }
        } else {
            lemma_route_normal(sa, sb);
            lemma_resolve_reads(cwd, a, r);
        }
    }
}

} // verus!
