//! Path algebra under POSIX rules: `/` is the one separator and the one root.
use vstd::prelude::*;
use crate::chars::{string_of, to_chars};
use crate::segments::{
    dot_dot, join, join_segments, normalize_string, normalized, push_all, segment_stack, segments_of,
    stack_view, PathProfile,
};

verus! {

/// Under POSIX rules a path is absolute when it starts with `/`.
pub open spec fn posix_absolute(p: Seq<char>) -> bool {
    p.len() > 0 && p[0] == '/'
}

/// `normalize` under POSIX rules: dot-segments collapsed, the root and a
/// trailing separator kept, `.` for what resolves to nothing.
pub open spec fn posix_normalized(p: Seq<char>) -> Seq<char> {
    if p.len() == 0 {
        seq!['.']
    } else {
        let abs = p[0] == '/';
        let trailing = p.last() == '/';
        let t = normalized(PathProfile::Posix, !abs, p);
        if t.len() == 0 {
            if abs {
                seq!['/']
            } else if trailing {
                seq!['.', '/']
            } else {
                seq!['.']
            }
        } else {
            (if abs {
                seq!['/']
            } else {
                Seq::empty()
            }) + t + (if trailing {
                seq!['/']
            } else {
                Seq::empty()
            })
        }
    }
}

/// The text that resolution gathers from `frags`, rightmost first, up to and
/// including the rightmost absolute one; and whether one was found.
pub open spec fn posix_gather(frags: Seq<Seq<char>>) -> (Seq<char>, bool)
    decreases frags.len(),
{
    if frags.len() == 0 {
        (Seq::empty(), false)
    } else {
        let p = frags.last();
        if p.len() == 0 {
            posix_gather(frags.drop_last())
        } else if p[0] == '/' {
            (p.push('/'), true)
        } else {
            let (t, abs) = posix_gather(frags.drop_last());
            (t + p.push('/'), abs)
        }
    }
}

/// `resolve` under POSIX rules: `right` against `left` against `cwd`.
pub open spec fn posix_resolved(cwd: Seq<char>, left: Seq<char>, right: Seq<char>) -> Seq<char> {
    let (t, abs) = posix_gather(seq![cwd, left, right]);
    let n = normalized(PathProfile::Posix, !abs, t);
    if abs {
        seq!['/'] + n
    } else if n.len() > 0 {
        n
    } else {
        seq!['.']
    }
}

/// `c` in lower case, where it is an ASCII capital.
pub open spec fn ascii_lower(c: char) -> char {
    if 'A' <= c && c <= 'Z' {
        ((c as u32) + 32) as char
    } else {
        c
    }
}

/// What segments are compared by: the text itself, or under Windows rules
/// the text with ASCII capitals lowered (drive letters and names are
/// case-insensitive there).
pub open spec fn fold_case(profile: PathProfile, s: Seq<char>) -> Seq<char> {
    match profile {
        PathProfile::Posix => s,
        PathProfile::Windows => s.map_values(|c: char| ascii_lower(c)),
    }
}

/// How many leading segments `a` and `b` share, counted from `i`.
pub open spec fn common_from(profile: PathProfile, a: Seq<Seq<char>>, b: Seq<Seq<char>>, i: nat) -> nat
    decreases a.len() - i,
{
    if i < a.len() && i < b.len() && fold_case(profile, a[i as int]) == fold_case(profile, b[i as int]) {
        common_from(profile, a, b, i + 1)
    } else {
        i
    }
}

/// `n` segments `..`.
pub open spec fn ups(n: nat) -> Seq<Seq<char>> {
    Seq::new(n, |i: int| dot_dot())
}

/// The segments that lead from the stack `a` to the stack `b`: one `..` for
/// each segment of `a` past their common prefix, then the rest of `b`.
pub open spec fn route(profile: PathProfile, a: Seq<Seq<char>>, b: Seq<Seq<char>>) -> Seq<Seq<char>> {
    let k = common_from(profile, a, b, 0);
    ups((a.len() - k) as nat) + b.subrange(k as int, b.len() as int)
}

/// `relative` under POSIX rules.
pub open spec fn posix_relative_spec(from: Seq<char>, to: Seq<char>) -> Seq<char> {
    if from == to {
        Seq::empty()
    } else if posix_absolute(from) != posix_absolute(to) {
        posix_normalized(to)
    } else {
        let a = segment_stack(PathProfile::Posix, !posix_absolute(from), from);
        let b = segment_stack(PathProfile::Posix, !posix_absolute(to), to);
        join(route(PathProfile::Posix, a, b), '/')
    }
}

// ---------------------------------------------------------------- exec

pub fn lower_char(c: char) -> (r: char)
    ensures
        r == ascii_lower(c),
{
    if 'A' <= c && c <= 'Z' {
        ((c as u8) + 32) as char
    } else {
        c
    }
}

/// Whether `a` and `b` name the same segment under `profile`.
pub fn segments_match(profile: PathProfile, a: &[char], b: &[char]) -> (r: bool)
    ensures
        r == (fold_case(profile, a@) == fold_case(profile, b@)),
{
    if a.len() != b.len() {
        proof {
            assert(fold_case(profile, a@).len() != fold_case(profile, b@).len());
        }
        return false;
    }
    let mut i: usize = 0;
    while i < a.len()
        invariant
            a@.len() == b@.len(),
            i <= a@.len(),
            forall|k: int| 0 <= k < i ==> fold_case(profile, a@)[k] == fold_case(profile, b@)[k],
        decreases a@.len() - i,
    {
        let (x, y) = match profile {
            PathProfile::Posix => (a[i], b[i]),
            PathProfile::Windows => (lower_char(a[i]), lower_char(b[i])),
        };
        if x != y {
            proof {
                assert(fold_case(profile, a@)[i as int] != fold_case(profile, b@)[i as int]);
            }
            return false;
        }
        i = i + 1;
    }
    assert(fold_case(profile, a@) =~= fold_case(profile, b@));
    true
}

/// A fresh copy of `v`.
pub fn copy_chars(v: &[char]) -> (r: Vec<char>)
    ensures
        r@ == v@,
{
    let mut r: Vec<char> = Vec::new();
    push_all(&mut r, v);
    assert(r@ =~= v@);
    r
}

/// The segments leading from the stack `a` to the stack `b`.
pub fn route_between(profile: PathProfile, a: &Vec<Vec<char>>, b: &Vec<Vec<char>>) -> (r: Vec<Vec<char>>)
    ensures
        stack_view(r@) == route(profile, stack_view(a@), stack_view(b@)),
{
    let ghost av = stack_view(a@);
    let ghost bv = stack_view(b@);
    let mut k: usize = 0;
    while k < a.len() && k < b.len() && segments_match(profile, a[k].as_slice(), b[k].as_slice())
        invariant
            k <= a@.len(),
            k <= b@.len(),
            av == stack_view(a@),
            bv == stack_view(b@),
            common_from(profile, av, bv, 0) == common_from(profile, av, bv, k as nat),
        decreases a@.len() - k,
    {
        k = k + 1;
    }
    let ghost kk = common_from(profile, av, bv, 0);
    assert(kk == k);
    let mut r: Vec<Vec<char>> = Vec::new();
    let mut i: usize = k;
    while i < a.len()
        invariant
            k <= i <= a@.len(),
            stack_view(r@) == ups((i - k) as nat),
        decreases a@.len() - i,
    {
        let ghost prev = stack_view(r@);
        let dd: Vec<char> = vec!['.', '.'];
        assert(dd@ =~= dot_dot());
        r.push(dd);
        i = i + 1;
        proof {
            assert(stack_view(r@) =~= prev.push(dot_dot()));
            assert(stack_view(r@) =~= ups((i - k) as nat));
        }
    }
    let mut j: usize = k;
    while j < b.len()
        invariant
            k <= j <= b@.len(),
            bv == stack_view(b@),
            stack_view(r@) == ups((a@.len() - k) as nat) + bv.subrange(k as int, j as int),
        decreases b@.len() - j,
    {
        let ghost prev = stack_view(r@);
        let seg = copy_chars(b[j].as_slice());
        assert(seg@ == bv[j as int]);
        r.push(seg);
        j = j + 1;
        proof {
            assert(stack_view(r@) =~= prev.push(bv[j - 1]));
            assert(stack_view(r@) =~= ups((a@.len() - k) as nat) + bv.subrange(k as int, j as int));
        }
    }
    r
}

pub(crate) fn chars_equal(a: &[char], b: &[char]) -> (r: bool)
    ensures
        r == (a@ == b@),
{
    if a.len() != b.len() {
        return false;
    }
    let mut i: usize = 0;
    while i < a.len()
        invariant
            a@.len() == b@.len(),
            i <= a@.len(),
            forall|k: int| 0 <= k < i ==> a@[k] == b@[k],
        decreases a@.len() - i,
    {
        if a[i] != b[i] {
            return false;
        }
        i = i + 1;
    }
    assert(a@ =~= b@);
    true
}

/// Normalizes `path` under POSIX rules.
pub fn posix_normalize(path: &str) -> (r: String)
    ensures
        r@ == posix_normalized(path@),
{
    let p = to_chars(path);
    let n = p.len();
    if n == 0 {
        return string_of(&['.']);
    }
    let abs = p[0] == '/';
    let trailing = p[n - 1] == '/';
    let t = normalize_string(p.as_slice(), !abs, PathProfile::Posix);
    if t.len() == 0 {
        if abs {
            string_of(&['/'])
        } else if trailing {
            string_of(&['.', '/'])
        } else {
            string_of(&['.'])
        }
    } else {
        let mut out: Vec<char> = Vec::new();
        if abs {
            out.push('/');
        }
        push_all(&mut out, &t);
        if trailing {
            out.push('/');
        }
        proof {
            let pre: Seq<char> = if abs { seq!['/'] } else { Seq::empty() };
            let post: Seq<char> = if trailing { seq!['/'] } else { Seq::empty() };
            assert(out@ =~= pre + t@ + post);
        }
        string_of(&out)
    }
}

/// Puts `p` and a separator in front of `acc`.
fn prepend_fragment(p: &Vec<char>, acc: &Vec<char>) -> (r: Vec<char>)
    ensures
        r@ == p@.push('/') + acc@,
{
    let mut r = p.clone();
    assert(r@ =~= p@);
    r.push('/');
    push_all(&mut r, acc);
    r
}

/// Resolves `right` against `left` against the working directory `cwd`, under
/// POSIX rules, and normalizes the result.
pub fn posix_resolve(cwd: &str, left: &str, right: &str) -> (r: String)
    ensures
        r@ == posix_resolved(cwd@, left@, right@),
{
    let frags: Vec<Vec<char>> = vec![to_chars(cwd), to_chars(left), to_chars(right)];
    let ghost fv = stack_view(frags@);
    assert(fv =~= seq![cwd@, left@, right@]);
    let mut acc: Vec<char> = Vec::new();
    let mut abs = false;
    let mut i: usize = 3;
    assert(fv.subrange(0, 3) =~= fv);
    assert(posix_gather(fv).0 + acc@ =~= posix_gather(fv).0);
    while i > 0 && !abs
        invariant
            i <= 3,
            frags@.len() == 3,
            fv == stack_view(frags@),
            !abs ==> posix_gather(fv) == {
                let g = posix_gather(fv.subrange(0, i as int));
                (g.0 + acc@, g.1)
            },
            abs ==> posix_gather(fv) == (acc@, true),
        decreases i,
    {
        let ghost g_before = fv.subrange(0, i as int);
        let ghost acc_before = acc@;
        i = i - 1;
        proof {
            assert(g_before.drop_last() =~= fv.subrange(0, i as int));
            assert(g_before.last() == frags@[i as int]@);
        }
        let p = &frags[i];
        if p.len() > 0 {
            abs = p[0] == '/';
            acc = prepend_fragment(p, &acc);
            proof {
                let g = posix_gather(fv.subrange(0, i as int));
                if !abs {
                    assert(g.0 + p@.push('/') + acc_before =~= g.0 + acc@);
                }
            }
        }
    }
    proof {
        if !abs {
            assert(fv.subrange(0, 0) =~= Seq::<Seq<char>>::empty());
            assert(Seq::<char>::empty() + acc@ =~= acc@);
        }
    }
    let t = normalize_string(acc.as_slice(), !abs, PathProfile::Posix);
    if abs {
        let mut out: Vec<char> = vec!['/'];
        push_all(&mut out, &t);
        string_of(&out)
    } else if t.len() > 0 {
        string_of(&t)
    } else {
        string_of(&['.'])
    }
}

/// The relative path that leads from `from` to `to` under POSIX rules: `..`
/// for each segment of `from` past the common ancestor, then the rest of `to`.
pub fn posix_relative(from: &str, to: &str) -> (r: String)
    ensures
        r@ == posix_relative_spec(from@, to@),
{
    let f = to_chars(from);
    let t = to_chars(to);
    if chars_equal(f.as_slice(), t.as_slice()) {
        return string_of(&[]);
    }
    let af = f.len() > 0 && f[0] == '/';
    let at = t.len() > 0 && t[0] == '/';
    if af != at {
        return posix_normalize(to);
    }
    let a = segments_of(f.as_slice(), !af, PathProfile::Posix);
    let b = segments_of(t.as_slice(), !at, PathProfile::Posix);
    let steps = route_between(PathProfile::Posix, &a, &b);
    let out = join_segments(&steps, '/');
    string_of(&out)
}

} // verus!
