use vstd::prelude::*;
use vstd::string::StringExecFns;
use vstd::string::StrSliceExecFns;
use crate::text::chars_of;

verus! {

/// `i` is the last separator of `s`, a separator in final position aside.
pub open spec fn is_last_sep(s: Seq<char>, i: int) -> bool {
    &&& 0 <= i < s.len() - 1
    &&& s[i] == '/'
    &&& forall|j: int| i < j < s.len() - 1 ==> s[j] != '/'
}

/// The directory that contains `s`; empty when `s` has a single component.
pub open spec fn parent(s: Seq<char>) -> Seq<char> {
    if exists|i: int| is_last_sep(s, i) {
        s.subrange(0, choose|i: int| is_last_sep(s, i))
    } else {
        Seq::empty()
    }
}

/// The non-empty directory `dir` contains `path`, or is `path`.
pub open spec fn dir_prefix(dir: Seq<char>, path: Seq<char>) -> bool {
    &&& 0 < dir.len() <= path.len()
    &&& path.subrange(0, dir.len() as int) == dir
    &&& (dir.len() == path.len() || dir.last() == '/' || path[dir.len() as int] == '/')
}

/// Walks `common` upwards until it contains `path` or is empty; gives the
/// directory reached and the number of steps taken besides `ups`.
pub open spec fn climb(path: Seq<char>, common: Seq<char>, ups: nat) -> (Seq<char>, nat)
    decreases common.len(),
{
    if common.len() == 0 || dir_prefix(common, path) {
        (common, ups)
    } else {
        climb(path, parent(common), ups + 1)
    }
}

/// `n` parent steps: `..`, `../..`, and so on.
pub open spec fn up_steps(n: nat) -> Seq<char>
    decreases n,
{
    if n == 0 {
        Seq::empty()
    } else if n == 1 {
        ".."@
    } else {
        up_steps((n - 1) as nat) + "/.."@
    }
}

/// `s` without one leading separator.
pub open spec fn strip_sep(s: Seq<char>) -> Seq<char> {
    if s.len() > 0 && s[0] == '/' {
        s.drop_first()
    } else {
        s
    }
}

/// Joins two relative paths with one separator; an empty side adds nothing.
pub open spec fn join(a: Seq<char>, b: Seq<char>) -> Seq<char> {
    if a.len() == 0 {
        b
    } else if b.len() == 0 {
        a
    } else {
        a + "/"@ + b
    }
}

/// `path` written relative to the directory `cwd`, computed lexically.
pub open spec fn relativize(path: Seq<char>, cwd: Seq<char>) -> Seq<char> {
    let (common, ups) = climb(path, cwd, 0);
    join(up_steps(ups), strip_sep(path.subrange(common.len() as int, path.len() as int)))
}

/// Resolves the relative path `rel` against the directory `dir`: each
/// leading `..` step goes up one component, the rest is appended.
pub open spec fn join_path(dir: Seq<char>, rel: Seq<char>) -> Seq<char>
    decreases rel.len(),
{
    if rel == ".."@ {
        parent(dir)
    } else if rel.len() >= 3 && rel.subrange(0, 3) == "../"@ {
        join_path(parent(dir), rel.subrange(3, rel.len() as int))
    } else if dir.len() > 0 && dir.last() == '/' {
        dir + rel
    } else {
        join(dir, rel)
    }
}

/// `path` is `dir` followed by the non-empty relative path `rest`, which
/// does not begin by going up.
pub open spec fn lies_under(path: Seq<char>, dir: Seq<char>, rest: Seq<char>) -> bool {
    &&& dir.len() > 0
    &&& rest.len() > 0
    &&& rest != ".."@
    &&& !(rest.len() >= 3 && rest.subrange(0, 3) == "../"@)
    &&& if dir.last() == '/' {
        rest[0] != '/' && path == dir + rest
    } else {
        path == dir + "/"@ + rest
    }
}

/// A path that lies under the current directory is written as what
/// follows that directory: shorter than the path itself, and resolving it
/// against the directory gives the path back.
pub proof fn lemma_relativize_round_trip(path: Seq<char>, cwd: Seq<char>, rest: Seq<char>)
    requires
        lies_under(path, cwd, rest),
    ensures
        relativize(path, cwd) == rest,
        relativize(path, cwd).len() < path.len(),
        join_path(cwd, relativize(path, cwd)) == path,
{
    reveal_strlit("/");
    reveal_strlit("..");
    reveal_strlit("../");
    let n = cwd.len() as int;
    assert(path.subrange(0, n) =~= cwd);
    assert(dir_prefix(cwd, path));
    assert(up_steps(0) =~= Seq::<char>::empty());
    let suffix = path.subrange(n, path.len() as int);
    if cwd.last() == '/' {
        assert(suffix =~= rest);
    } else {
        assert(suffix =~= "/"@ + rest);
        assert(strip_sep(suffix) =~= rest);
    }
}

/// Length of the parent of `s@[0..k]`, which is always a prefix of it.
fn parent_len(s: &Vec<char>, k: usize) -> (r: usize)
    requires
        k <= s@.len(),
    ensures
        r <= k,
        k > 0 ==> r < k,
        s@.subrange(0, r as int) == parent(s@.subrange(0, k as int)),
{
    let ghost t = s@.subrange(0, k as int);
    if k < 2 {
        assert(!exists|i: int| is_last_sep(t, i));
        assert(s@.subrange(0, 0) =~= Seq::<char>::empty());
        return 0;
    }
    let mut j: usize = k - 1;
    while j > 0
        invariant
            0 <= j <= k - 1,
            k <= s@.len(),
            t == s@.subrange(0, k as int),
            forall|m: int| j <= m < k - 1 ==> t[m] != '/',
        decreases j,
    {
        j = j - 1;
        if s[j] == '/' {
            assert(is_last_sep(t, j as int));
            assert forall|i: int| is_last_sep(t, i) implies i == j by {
                if i < j {
                    assert(t[j as int] == '/');
                } else if i > j {
                    assert(t[i] != '/');
                }
            }
            assert(s@.subrange(0, j as int) =~= t.subrange(0, j as int));
            return j;
        }
    }
    assert(!exists|i: int| is_last_sep(t, i));
    assert(s@.subrange(0, 0) =~= Seq::<char>::empty());
    0
}

/// Whether the first `k` characters of `dir` name a directory that
/// contains `path` or is `path`.
fn dir_prefix_of(dir: &Vec<char>, k: usize, path: &Vec<char>) -> (r: bool)
    requires
        k <= dir@.len(),
    ensures
        r == dir_prefix(dir@.subrange(0, k as int), path@),
{
    let ghost d = dir@.subrange(0, k as int);
    if k == 0 || k > path.len() {
        return false;
    }
    let mut i: usize = 0;
    while i < k
        invariant
            i <= k <= path@.len(),
            k <= dir@.len(),
            d == dir@.subrange(0, k as int),
            forall|m: int| 0 <= m < i ==> dir@[m] == path@[m],
        decreases k - i,
    {
        if dir[i] != path[i] {
            assert(path@.subrange(0, k as int)[i as int] != d[i as int]);
            return false;
        }
        i = i + 1;
    }
    assert(path@.subrange(0, k as int) =~= d);
    k == path.len() || dir[k - 1] == '/' || path[k] == '/'
}

/// The string of `n` parent steps.
fn up_steps_string(n: usize) -> (r: String)
    ensures
        r@ == up_steps(n as nat),
{
    let mut r = String::new();
    let mut i: usize = 0;
    while i < n
        invariant
            i <= n,
            r@ == up_steps(i as nat),
        decreases n - i,
    {
        if i == 0 {
            r.append("..");
        } else {
            r.append("/..");
        }
        i = i + 1;
    }
    r
}

/// Joins two relative paths as `join` does.
fn join_strings(a: String, b: &str) -> (r: String)
    ensures
        r@ == join(a@, b@),
{
    if a.as_str().unicode_len() == 0 {
        String::from_str(b)
    } else if b.unicode_len() == 0 {
        a
    } else {
        let mut r = a;
        r.append("/");
        r.append(b);
        r
    }
}

/// Writes `path` relative to the directory `cwd`: climbs `cwd` one
/// component at a time, one `..` per step, until it contains `path`, then
/// appends what is left of `path`.
pub fn absolute_to_relative(path: &String, cwd: &String) -> (r: String)
    ensures
        r@ == relativize(path@, cwd@),
{
    let pv = chars_of(path.as_str());
    let cv = chars_of(cwd.as_str());
    let mut common: usize = cv.len();
    let mut ups: usize = 0;
    assert(cwd@.subrange(0, common as int) =~= cwd@);
    while common > 0 && !dir_prefix_of(&cv, common, &pv)
        invariant
            pv@ == path@,
            cv@ == cwd@,
            common <= cv@.len(),
            ups + common <= cv@.len(),
            cv@.len() <= usize::MAX,
            climb(path@, cwd@, 0) == climb(path@, cwd@.subrange(0, common as int), ups as nat),
        decreases common,
    {
        let next = parent_len(&cv, common);
        assert(cwd@.subrange(0, common as int).subrange(0, next as int) =~= cwd@.subrange(0, next as int));
        common = next;
        ups = ups + 1;
    }
    let dots = up_steps_string(ups);
    let n = pv.len();
    let start: usize = if common < n && pv[common] == '/' { common + 1 } else { common };
    let rest: &str = if start <= n { path.as_str().substring_char(start, n) } else { path.as_str().substring_char(n, n) };
    proof {
        let suffix = path@.subrange(common as int, path@.len() as int);
        if start <= n {
            assert(rest@ =~= strip_sep(suffix));
        }
    }
    join_strings(dots, rest)
}

} // verus!
