//! Dot-segment normalization: the segment model and its executable form.
use vstd::prelude::*;

verus! {

/// The separator rules of a path family.
#[derive(Clone, Copy, PartialEq, Eq, Debug)]
pub enum PathProfile {
    /// `/` separates; no drives.
    Posix,
    /// `\` and `/` both separate; drive letters and UNC shares.
    Windows,
}

/// Whether `c` separates segments under `profile`.
pub open spec fn is_sep(profile: PathProfile, c: char) -> bool {
    c == '/' || (profile == PathProfile::Windows && c == '\\')
}

/// The separator that `profile` writes.
pub open spec fn sep_char(profile: PathProfile) -> char {
    match profile {
        PathProfile::Posix => '/',
        PathProfile::Windows => '\\',
    }
}

pub open spec fn dot() -> Seq<char> {
    seq!['.']
}

pub open spec fn dot_dot() -> Seq<char> {
    seq!['.', '.']
}

/// Folds one segment into a stack of kept segments: empty and `.` segments
/// vanish, `..` removes a real ancestor, or stays (when above-root climbing is
/// allowed) where there is none.
pub open spec fn step(stack: Seq<Seq<char>>, seg: Seq<char>, allow_above_root: bool) -> Seq<Seq<char>> {
    if seg.len() == 0 || seg == dot() {
        stack
    } else if seg == dot_dot() {
        if stack.len() > 0 && stack.last() != dot_dot() {
            stack.drop_last()
        } else if allow_above_root {
            stack.push(seg)
        } else {
            stack
        }
    } else {
        stack.push(seg)
    }
}

/// One character of the scan: a separator closes the current segment.
pub open spec fn feed(
    profile: PathProfile,
    allow_above_root: bool,
    st: (Seq<Seq<char>>, Seq<char>),
    c: char,
) -> (Seq<Seq<char>>, Seq<char>) {
    if is_sep(profile, c) {
        (step(st.0, st.1, allow_above_root), Seq::empty())
    } else {
        (st.0, st.1.push(c))
    }
}

/// The scan state (kept segments, open segment) after reading `s` from `st`.
pub open spec fn scan(
    profile: PathProfile,
    allow_above_root: bool,
    st: (Seq<Seq<char>>, Seq<char>),
    s: Seq<char>,
) -> (Seq<Seq<char>>, Seq<char>)
    decreases s.len(),
{
    if s.len() == 0 {
        st
    } else {
        feed(profile, allow_above_root, scan(profile, allow_above_root, st, s.drop_last()), s.last())
    }
}

pub open spec fn initial() -> (Seq<Seq<char>>, Seq<char>) {
    (Seq::empty(), Seq::empty())
}

/// The segments that survive normalization of `s`.
pub open spec fn segment_stack(profile: PathProfile, allow_above_root: bool, s: Seq<char>) -> Seq<Seq<char>> {
    let st = scan(profile, allow_above_root, initial(), s);
    step(st.0, st.1, allow_above_root)
}

/// The segments of `stack`, with `sep` between each two.
pub open spec fn join(stack: Seq<Seq<char>>, sep: char) -> Seq<char>
    decreases stack.len(),
{
    if stack.len() == 0 {
        Seq::empty()
    } else if stack.len() == 1 {
        stack[0]
    } else {
        join(stack.drop_last(), sep).push(sep) + stack.last()
    }
}

/// The normalized form of `s`, without root or trailing separator.
pub open spec fn normalized(profile: PathProfile, allow_above_root: bool, s: Seq<char>) -> Seq<char> {
    join(segment_stack(profile, allow_above_root, s), sep_char(profile))
}

/// No separator occurs in `seg`.
pub open spec fn sep_free(profile: PathProfile, seg: Seq<char>) -> bool {
    forall|k: int| 0 <= k < seg.len() ==> !is_sep(profile, #[trigger] seg[k])
}

/// A stack as normalization leaves it: real segments, with `..` only at the
/// bottom, and only where climbing above the root is allowed.
pub open spec fn is_normal(profile: PathProfile, allow_above_root: bool, stack: Seq<Seq<char>>) -> bool {
    forall|i: int|
        0 <= i < stack.len() ==> {
            &&& (#[trigger] stack[i]).len() > 0
            &&& stack[i] != dot()
            &&& sep_free(profile, stack[i])
            &&& (stack[i] == dot_dot() ==> allow_above_root && forall|j: int|
                0 <= j < i ==> #[trigger] stack[j] == dot_dot())
        }
}

pub open spec fn stack_view(v: Seq<Vec<char>>) -> Seq<Seq<char>> {
    v.map_values(|x: Vec<char>| x@)
}

// ---------------------------------------------------------------- lemmas

pub proof fn lemma_scan_append(
    profile: PathProfile,
    allow: bool,
    st: (Seq<Seq<char>>, Seq<char>),
    x: Seq<char>,
    y: Seq<char>,
)
    ensures
        scan(profile, allow, st, x + y) == scan(profile, allow, scan(profile, allow, st, x), y),
    decreases y.len(),
{
    if y.len() == 0 {
        assert(x + y =~= x);
    } else {
        assert((x + y).drop_last() =~= x + y.drop_last());
        assert((x + y).last() == y.last());
        lemma_scan_append(profile, allow, st, x, y.drop_last());
    }
}

/// Reading separator-free text only extends the open segment.
pub proof fn lemma_scan_sep_free(
    profile: PathProfile,
    allow: bool,
    st: (Seq<Seq<char>>, Seq<char>),
    w: Seq<char>,
)
    requires
        sep_free(profile, w),
    ensures
        scan(profile, allow, st, w) == (st.0, st.1 + w),
    decreases w.len(),
{
    if w.len() == 0 {
        assert(st.1 + w =~= st.1);
    } else {
        assert(sep_free(profile, w.drop_last()));
        lemma_scan_sep_free(profile, allow, st, w.drop_last());
        assert(st.1 + w.drop_last() + seq![w.last()] =~= st.1 + w);
        assert(!is_sep(profile, w[w.len() - 1]));
    }
}

/// A normal stack grows by a segment by a plain push.
pub proof fn lemma_step_push(profile: PathProfile, allow: bool, s: Seq<Seq<char>>, w: Seq<char>)
    requires
        is_normal(profile, allow, s.push(w)),
    ensures
        step(s, w, allow) == s.push(w),
{
    let n = s.len() as int;
    assert(s.push(w)[n] == w);
    if w == dot_dot() && s.len() > 0 {
        assert(s.push(w)[n - 1] == s[n - 1]);
    }
}

pub proof fn lemma_normal_prefix(profile: PathProfile, allow: bool, s: Seq<Seq<char>>, k: int)
    requires
        is_normal(profile, allow, s),
        0 <= k <= s.len(),
    ensures
        is_normal(profile, allow, s.subrange(0, k)),
{
    let t = s.subrange(0, k);
    assert forall|i: int| 0 <= i < t.len() implies {
        &&& (#[trigger] t[i]).len() > 0
        &&& t[i] != dot()
        &&& sep_free(profile, t[i])
        &&& (t[i] == dot_dot() ==> allow && forall|j: int| 0 <= j < i ==> #[trigger] t[j] == dot_dot())
    } by {
        assert(t[i] == s[i]);
        if t[i] == dot_dot() {
            assert forall|j: int| 0 <= j < i implies #[trigger] t[j] == dot_dot() by {
                assert(t[j] == s[j]);
            }
        }
    }
}

/// Reading a joined normal stack from an empty state leaves all but its last
/// segment kept and the last one open.
pub proof fn lemma_scan_join(profile: PathProfile, allow: bool, n: Seq<Seq<char>>)
    requires
        is_normal(profile, allow, n),
        n.len() > 0,
    ensures
        scan(profile, allow, initial(), join(n, sep_char(profile))) == (n.drop_last(), n.last()),
    decreases n.len(),
{
    let sep = sep_char(profile);
    assert(sep_free(profile, n[n.len() - 1]));
    if n.len() == 1 {
        lemma_scan_sep_free(profile, allow, initial(), n[0]);
        assert(Seq::<char>::empty() + n[0] =~= n[0]);
        assert(n.drop_last() =~= Seq::<Seq<char>>::empty());
    } else {
        let m = n.drop_last();
        lemma_normal_prefix(profile, allow, n, m.len() as int);
        assert(n.subrange(0, m.len() as int) =~= m);
        lemma_scan_join(profile, allow, m);
        let jm = join(m, sep);
        assert(join(n, sep) == jm.push(sep) + n.last());
        lemma_scan_append(profile, allow, initial(), jm.push(sep), n.last());
        assert(jm.push(sep).drop_last() =~= jm);
        assert(jm.push(sep).last() == sep);
        assert(m.drop_last().push(m.last()) =~= m);
        lemma_step_push(profile, allow, m.drop_last(), m.last());
        assert(scan(profile, allow, initial(), jm.push(sep)) == (m, Seq::<char>::empty()));
        lemma_scan_sep_free(profile, allow, (m, Seq::empty()), n.last());
        assert(Seq::<char>::empty() + n.last() =~= n.last());
    }
}

/// Normalizing a joined normal stack gives the stack back.
pub proof fn lemma_segment_stack_join(profile: PathProfile, allow: bool, n: Seq<Seq<char>>)
    requires
        is_normal(profile, allow, n),
    ensures
        segment_stack(profile, allow, join(n, sep_char(profile))) == n,
{
    if n.len() == 0 {
    } else {
        lemma_scan_join(profile, allow, n);
        assert(n.drop_last().push(n.last()) =~= n);
        lemma_step_push(profile, allow, n.drop_last(), n.last());
    }
}

/// `step` keeps a stack normal.
pub proof fn lemma_step_normal(profile: PathProfile, allow: bool, s: Seq<Seq<char>>, w: Seq<char>)
    requires
        is_normal(profile, allow, s),
        sep_free(profile, w),
    ensures
        is_normal(profile, allow, step(s, w, allow)),
{
    let r = step(s, w, allow);
    if w.len() == 0 || w == dot() {
    } else if w == dot_dot() {
        if s.len() > 0 && s.last() != dot_dot() {
            lemma_normal_prefix(profile, allow, s, s.len() - 1);
            assert(s.subrange(0, s.len() - 1) =~= s.drop_last());
        } else if allow {
            assert forall|i: int| 0 <= i < r.len() implies {
                &&& (#[trigger] r[i]).len() > 0
                &&& r[i] != dot()
                &&& sep_free(profile, r[i])
                &&& (r[i] == dot_dot() ==> allow && forall|j: int| 0 <= j < i ==> #[trigger] r[j] == dot_dot())
            } by {
                if i < s.len() {
                    assert(r[i] == s[i]);
                    if r[i] == dot_dot() {
                        assert forall|j: int| 0 <= j < i implies #[trigger] r[j] == dot_dot() by {
                            assert(r[j] == s[j]);
                        }
                    }
                } else {
                    assert(r[i] == w);
                    assert(w != dot()) by {
                        assert(w.len() != dot().len());
                    }
                    assert forall|j: int| 0 <= j < i implies #[trigger] r[j] == dot_dot() by {
                        assert(r[j] == s[j]);
                        let k = s.len() - 1;
                        assert(s[k] == dot_dot());
                        if j < k {
                            assert(s[j] == dot_dot());
                        }
                    }
                }
            }
        }
    } else {
        assert forall|i: int| 0 <= i < r.len() implies {
            &&& (#[trigger] r[i]).len() > 0
            &&& r[i] != dot()
            &&& sep_free(profile, r[i])
            &&& (r[i] == dot_dot() ==> allow && forall|j: int| 0 <= j < i ==> #[trigger] r[j] == dot_dot())
        } by {
            if i < s.len() {
                assert(r[i] == s[i]);
                if r[i] == dot_dot() {
                    assert forall|j: int| 0 <= j < i implies #[trigger] r[j] == dot_dot() by {
                        assert(r[j] == s[j]);
                    }
                }
            } else {
                assert(r[i] == w);
            }
        }
    }
}

/// The scan keeps its stack normal and its open segment free of separators.
pub proof fn lemma_scan_normal(
    profile: PathProfile,
    allow: bool,
    st: (Seq<Seq<char>>, Seq<char>),
    s: Seq<char>,
)
    requires
        is_normal(profile, allow, st.0),
        sep_free(profile, st.1),
    ensures
        is_normal(profile, allow, scan(profile, allow, st, s).0),
        sep_free(profile, scan(profile, allow, st, s).1),
    decreases s.len(),
{
    if s.len() > 0 {
        lemma_scan_normal(profile, allow, st, s.drop_last());
        let p = scan(profile, allow, st, s.drop_last());
        if is_sep(profile, s.last()) {
            lemma_step_normal(profile, allow, p.0, p.1);
        } else {
            assert forall|k: int| 0 <= k < p.1.push(s.last()).len() implies !is_sep(
                profile,
                #[trigger] p.1.push(s.last())[k],
            ) by {
                if k < p.1.len() {
                    assert(p.1.push(s.last())[k] == p.1[k]);
                }
            }
        }
    }
}

/// Normalization always yields a normal stack.
pub proof fn lemma_segment_stack_normal(profile: PathProfile, allow: bool, s: Seq<char>)
    ensures
        is_normal(profile, allow, segment_stack(profile, allow, s)),
{
    lemma_scan_normal(profile, allow, initial(), s);
    let st = scan(profile, allow, initial(), s);
    lemma_step_normal(profile, allow, st.0, st.1);
}

/// A trailing separator adds nothing to the segments.
pub proof fn lemma_segment_stack_trailing_sep(profile: PathProfile, allow: bool, s: Seq<char>, c: char)
    requires
        is_sep(profile, c),
    ensures
        segment_stack(profile, allow, s.push(c)) == segment_stack(profile, allow, s),
{
    assert(s.push(c).drop_last() =~= s);
}

/// A leading separator adds nothing to the segments.
pub proof fn lemma_scan_leading_sep(profile: PathProfile, allow: bool, s: Seq<char>, c: char)
    requires
        is_sep(profile, c),
    ensures
        scan(profile, allow, initial(), seq![c] + s) == scan(profile, allow, initial(), s),
{
    lemma_scan_append(profile, allow, initial(), seq![c], s);
    assert(seq![c].drop_last() =~= Seq::<char>::empty());
    assert(seq![c].last() == c);
    assert(scan(profile, allow, initial(), seq![c].drop_last()) == initial());
    assert(Seq::<Seq<char>>::empty() =~= step(Seq::<Seq<char>>::empty(), Seq::<char>::empty(), allow));
    assert(scan(profile, allow, initial(), seq![c]) == initial());
}

/// First and last characters of a joined nonempty normal stack.
pub proof fn lemma_join_ends(profile: PathProfile, allow: bool, n: Seq<Seq<char>>)
    requires
        is_normal(profile, allow, n),
        n.len() > 0,
    ensures
        join(n, sep_char(profile)).len() > 0,
        join(n, sep_char(profile))[0] == n[0][0],
        join(n, sep_char(profile)).last() == n.last().last(),
        !is_sep(profile, join(n, sep_char(profile))[0]),
        !is_sep(profile, join(n, sep_char(profile)).last()),
    decreases n.len(),
{
    assert(n[0].len() > 0 && sep_free(profile, n[0]));
    assert(n.last().len() > 0 && sep_free(profile, n[n.len() - 1]));
    if n.len() > 1 {
        let m = n.drop_last();
        lemma_normal_prefix(profile, allow, n, m.len() as int);
        assert(n.subrange(0, m.len() as int) =~= m);
        lemma_join_ends(profile, allow, m);
        let j = join(m, sep_char(profile)).push(sep_char(profile));
        assert((j + n.last())[0] == j[0]);
    }
}

// ---------------------------------------------------------------- exec

pub fn is_separator(profile: PathProfile, c: char) -> (r: bool)
    ensures
        r == is_sep(profile, c),
{
    match profile {
        PathProfile::Posix => c == '/',
        PathProfile::Windows => c == '/' || c == '\\',
    }
}

pub fn separator_char(profile: PathProfile) -> (r: char)
    ensures
        r == sep_char(profile),
{
    match profile {
        PathProfile::Posix => '/',
        PathProfile::Windows => '\\',
    }
}

fn is_dot_dot(seg: &Vec<char>) -> (r: bool)
    ensures
        r == (seg@ == dot_dot()),
{
    if seg.len() == 2 && seg[0] == '.' && seg[1] == '.' {
        assert(seg@ =~= dot_dot());
        true
    } else {
        false
    }
}

fn is_dot(seg: &Vec<char>) -> (r: bool)
    ensures
        r == (seg@ == dot()),
{
    if seg.len() == 1 && seg[0] == '.' {
        assert(seg@ =~= dot());
        true
    } else {
        false
    }
}

/// Appends the characters of `src` to `dst`.
pub fn push_all(dst: &mut Vec<char>, src: &[char])
    ensures
        final(dst)@ == old(dst)@ + src@,
{
    let mut i: usize = 0;
    while i < src.len()
        invariant
            i <= src@.len(),
            dst@ == old(dst)@ + src@.subrange(0, i as int),
        decreases src@.len() - i,
    {
        dst.push(src[i]);
        i = i + 1;
        assert(old(dst)@ + src@.subrange(0, i as int) =~= old(dst)@ + src@.subrange(0, i - 1) + seq![
            src@[i - 1],
        ]);
    }
    assert(src@.subrange(0, src@.len() as int) =~= src@);
}

/// Folds `seg` into `stack` as `step` does.
fn apply_segment(stack: &mut Vec<Vec<char>>, seg: Vec<char>, allow_above_root: bool)
    ensures
        stack_view(final(stack)@) == step(stack_view(old(stack)@), seg@, allow_above_root),
{
    let ghost before = stack_view(stack@);
    if seg.len() == 0 || is_dot(&seg) {
    } else if is_dot_dot(&seg) {
        let n = stack.len();
        let climb = n == 0 || is_dot_dot(&stack[n - 1]);
        if !climb {
            stack.pop();
            assert(stack_view(stack@) =~= before.drop_last());
        } else if allow_above_root {
            stack.push(seg);
            assert(stack_view(stack@) =~= before.push(seg@));
        }
    } else {
        stack.push(seg);
        assert(stack_view(stack@) =~= before.push(seg@));
    }
}

/// Joins `stack` with `sep`.
pub fn join_segments(stack: &Vec<Vec<char>>, sep: char) -> (r: Vec<char>)
    ensures
        r@ == join(stack_view(stack@), sep),
{
    let mut r: Vec<char> = Vec::new();
    let mut i: usize = 0;
    while i < stack.len()
        invariant
            i <= stack@.len(),
            r@ == join(stack_view(stack@).subrange(0, i as int), sep),
        decreases stack@.len() - i,
    {
        let ghost prev = stack_view(stack@).subrange(0, i as int);
        if i > 0 {
            r.push(sep);
        }
        push_all(&mut r, &stack[i]);
        i = i + 1;
        proof {
            let cur = stack_view(stack@).subrange(0, i as int);
            assert(cur.drop_last() =~= prev);
            assert(cur.last() == stack@[i - 1]@);
            if i == 1 {
                assert(r@ =~= cur[0]);
            }
        }
    }
    assert(stack_view(stack@).subrange(0, stack@.len() as int) =~= stack_view(stack@));
    r
}

/// Collapses `.` and `..` segments and runs of separators in `path`, joining
/// what remains with the profile's separator. `..` above the start is kept
/// when `allow_above_root` holds and dropped otherwise.
pub fn normalize_string(path: &[char], allow_above_root: bool, profile: PathProfile) -> (r: Vec<char>)
    ensures
        r@ == normalized(profile, allow_above_root, path@),
{
    let stack = segments_of(path, allow_above_root, profile);
    join_segments(&stack, separator_char(profile))
}

/// The segments of `path` that survive normalization, in order.
pub fn segments_of(path: &[char], allow_above_root: bool, profile: PathProfile) -> (r: Vec<Vec<char>>)
    ensures
        stack_view(r@) == segment_stack(profile, allow_above_root, path@),
{
    let mut stack: Vec<Vec<char>> = Vec::new();
    let mut cur: Vec<char> = Vec::new();
    let mut i: usize = 0;
    while i < path.len()
        invariant
            i <= path@.len(),
            (stack_view(stack@), cur@) == scan(
                profile,
                allow_above_root,
                initial(),
                path@.subrange(0, i as int),
            ),
        decreases path@.len() - i,
    {
        let c = path[i];
        let ghost prev = path@.subrange(0, i as int);
        proof {
            assert(path@.subrange(0, i + 1).drop_last() =~= prev);
        }
        if is_separator(profile, c) {
            let seg = cur;
            cur = Vec::new();
            apply_segment(&mut stack, seg, allow_above_root);
        } else {
            cur.push(c);
        }
        i = i + 1;
    }
    assert(path@.subrange(0, path@.len() as int) =~= path@);
    apply_segment(&mut stack, cur, allow_above_root);
    stack
}

} // verus!
