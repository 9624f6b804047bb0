use vstd::prelude::*;
use vstd::string::StringExecFns;
use vstd::string::StrSliceExecFns;
use crate::text::{chars_of, strings_equal};
use crate::paths::{absolute_to_relative, relativize};
use crate::package::{Package, PackageView};

verus! {

/// The two kinds of text file whose references are rewritten.
#[derive(PartialEq, Eq, Structural, Clone, Copy, Debug)]
pub enum FileKind {
    /// Scene and resource descriptions: `[ext_resource path="..."`.
    TextResource,
    /// Script sources: `load("...")` and `preload("...")`.
    Script,
}

/// One reference found in a text.
pub struct Reference {
    /// Where the whole reference starts and ends.
    pub start: usize,
    pub end: usize,
    /// Where the quoted path starts and ends.
    pub body_start: usize,
    pub body_end: usize,
    /// The call is `preload` rather than `load`.
    pub pre: bool,
    /// The quote characters around the path.
    pub open: char,
    pub close: char,
    /// The quoted path without its project-root scheme.
    pub path: String,
}

/// The model of a `Reference`.
pub struct RefView {
    pub start: int,
    pub end: int,
    pub body_start: int,
    pub body_end: int,
    pub pre: bool,
    pub open: char,
    pub close: char,
    pub path: Seq<char>,
}

impl View for Reference {
    type V = RefView;

    open spec fn view(&self) -> RefView {
        RefView {
            start: self.start as int,
            end: self.end as int,
            body_start: self.body_start as int,
            body_end: self.body_end as int,
            pre: self.pre,
            open: self.open,
            close: self.close,
            path: self.path@,
        }
    }
}

pub open spec fn is_quote(c: char) -> bool {
    c == '"' || c == '\''
}

/// `t` holds `lit` at position `s`.
pub open spec fn holds_at(t: Seq<char>, s: int, lit: Seq<char>) -> bool {
    0 <= s && s + lit.len() <= t.len() && t.subrange(s, s + lit.len()) == lit
}

/// The first position at or after `i` that holds `c`, or -1.
pub open spec fn next_index_of(t: Seq<char>, i: int, c: char) -> int
    decreases t.len() - i,
{
    if i < 0 || i >= t.len() {
        -1
    } else if t[i] == c {
        i
    } else {
        next_index_of(t, i + 1, c)
    }
}

/// `path` without a leading project-root scheme.
pub open spec fn strip_scheme(path: Seq<char>) -> Seq<char> {
    if holds_at(path, 0, "res://"@) {
        path.subrange("res://"@.len() as int, path.len() as int)
    } else {
        path
    }
}

/// The reference that starts at `s` in a script: `load(` or `preload(`, a
/// quote, one or more characters up to the next `)`, of which the last is a
/// quote, and that `)`.
pub open spec fn script_match_at(t: Seq<char>, s: int) -> Option<RefView> {
    let pre = holds_at(t, s, "preload("@);
    if pre || holds_at(t, s, "load("@) {
        let q = if pre { s + "preload("@.len() } else { s + "load("@.len() };
        let j = next_index_of(t, q + 1, ')');
        if q < t.len() && is_quote(t[q]) && j >= q + 3 && is_quote(t[j - 1]) {
            Some(RefView {
                start: s,
                end: j + 1,
                body_start: q + 1,
                body_end: j - 1,
                pre,
                open: t[q],
                close: t[j - 1],
                path: strip_scheme(t.subrange(q + 1, j - 1)),
            })
        } else {
            None
        }
    } else {
        None
    }
}

/// The reference that starts at `s` in a resource description:
/// `[ext_resource path="`, one or more characters up to the next `"`, and
/// that `"`.
pub open spec fn resource_match_at(t: Seq<char>, s: int) -> Option<RefView> {
    if holds_at(t, s, "[ext_resource path=\""@) {
        let b = s + "[ext_resource path=\""@.len();
        let j = next_index_of(t, b, '"');
        if j >= b + 1 {
            Some(RefView {
                start: s,
                end: j + 1,
                body_start: b,
                body_end: j,
                pre: false,
                open: '"',
                close: '"',
                path: strip_scheme(t.subrange(b, j)),
            })
        } else {
            None
        }
    } else {
        None
    }
}

pub open spec fn match_at(kind: FileKind, t: Seq<char>, s: int) -> Option<RefView> {
    match kind {
        FileKind::Script => script_match_at(t, s),
        FileKind::TextResource => resource_match_at(t, s),
    }
}

/// The references of `t` from position `pos` on, leftmost first and not
/// overlapping.
pub open spec fn references(kind: FileKind, t: Seq<char>, pos: int) -> Seq<RefView>
    decreases t.len() - pos,
{
    if pos < 0 || pos >= t.len() {
        Seq::empty()
    } else {
        match match_at(kind, t, pos) {
            Some(m) => if pos < m.end <= t.len() {
                seq![m] + references(kind, t, m.end)
            } else {
                Seq::empty()
            },
            None => references(kind, t, pos + 1),
        }
    }
}

/// The quoted path of a reference may be redirected relative to the
/// referencing file only for `preload`, which is resolved once from there.
pub open spec fn relative_allowed(kind: FileKind, m: RefView) -> bool {
    kind == FileKind::Script && m.pre
}

/// `t` from `from` on, with the quoted path of each of `refs` rewritten
/// and everything around it kept; `exists[k]` tells whether the path of
/// `refs[k]` names a file that is already there.
pub open spec fn rewritten(
    kind: FileKind,
    t: Seq<char>,
    refs: Seq<RefView>,
    exists: Seq<bool>,
    table: Seq<(Seq<char>, Seq<char>)>,
    cwd: Seq<char>,
    from: int,
) -> Seq<char>
    decreases refs.len(),
{
    if refs.len() == 0 {
        t.subrange(from, t.len() as int)
    } else {
        let m = refs[0];
        t.subrange(from, m.body_start) + resolve_load(
            table,
            m.path,
            relative_allowed(kind, m),
            cwd,
            exists[0],
        ) + rewritten(kind, t, refs.drop_first(), exists.drop_first(), table, cwd, m.body_end)
    }
}

/// A text rewritten by one rule: `None` when it holds no reference, so
/// that the file is left as it is.
pub open spec fn rewrite_result(
    kind: FileKind,
    t: Seq<char>,
    exists: Seq<bool>,
    table: Seq<(Seq<char>, Seq<char>)>,
    cwd: Seq<char>,
) -> Option<Seq<char>> {
    let refs = references(kind, t, 0);
    if refs.len() == 0 {
        None
    } else {
        Some(rewritten(kind, t, refs, exists, table, cwd, 0))
    }
}

/// `m` lies inside `t` at or after `pos`, its path inside it.
pub open spec fn well_placed(t: Seq<char>, pos: int, m: RefView) -> bool {
    pos <= m.start < m.body_start < m.body_end < m.end <= t.len()
}

/// The references from `pos` on lie in order inside `t`, each after the
/// one before.
proof fn lemma_references_ordered(kind: FileKind, t: Seq<char>, pos: int)
    requires
        0 <= pos,
    ensures
        forall|k: int|
            0 <= k < references(kind, t, pos).len() ==> well_placed(t, pos, #[trigger] references(kind, t, pos)[k]),
        forall|k: int|
            0 <= k < references(kind, t, pos).len() - 1 ==> (#[trigger] references(kind, t, pos)[k]).end
                <= references(kind, t, pos)[k + 1].start,
    decreases t.len() - pos,
{
    if 0 <= pos < t.len() {
        match match_at(kind, t, pos) {
            Some(m) => {
                assert(m.start == pos);
                assert(m.start < m.body_start < m.body_end < m.end) by {
                    match kind {
                        FileKind::Script => {},
                        FileKind::TextResource => {
                            reveal_strlit("[ext_resource path=\"");
                        },
                    }
                }
                if pos < m.end <= t.len() {
                    lemma_references_ordered(kind, t, m.end);
                    let rest = references(kind, t, m.end);
                    let all = references(kind, t, pos);
                    assert(all == seq![m] + rest);
                    assert forall|k: int| 0 <= k < all.len() implies well_placed(t, pos, #[trigger] all[k]) by {
                        if k > 0 {
                            assert(all[k] == rest[k - 1]);
                        }
                    }
                    assert forall|k: int| 0 <= k < all.len() - 1 implies (#[trigger] all[k]).end
                        <= all[k + 1].start by {
                        assert(all[k + 1] == rest[k]);
                        if k > 0 {
                            assert(all[k] == rest[k - 1]);
                        }
                    }
                }
            },
            None => {
                lemma_references_ordered(kind, t, pos + 1);
                assert(references(kind, t, pos) == references(kind, t, pos + 1));
            },
        }
    }
}

fn holds_at_exec(t: &Vec<char>, s: usize, lit: &Vec<char>) -> (r: bool)
    ensures
        r == holds_at(t@, s as int, lit@),
{
    if lit.len() > t.len() || s > t.len() - lit.len() {
        return false;
    }
    let mut i: usize = 0;
    while i < lit.len()
        invariant
            i <= lit@.len(),
            s + lit@.len() <= t@.len(),
            t@.len() <= usize::MAX,
            forall|k: int| 0 <= k < i ==> t@[s + k] == lit@[k],
        decreases lit@.len() - i,
    {
        if t[s + i] != lit[i] {
            assert(t@.subrange(s as int, s + lit@.len())[i as int] != lit@[i as int]);
            return false;
        }
        i = i + 1;
    }
    assert(t@.subrange(s as int, s + lit@.len()) =~= lit@);
    true
}

fn next_index_exec(t: &Vec<char>, i: usize, c: char) -> (r: Option<usize>)
    ensures
        match r {
            Some(j) => i <= j < t@.len() && next_index_of(t@, i as int, c) == j as int,
            None => next_index_of(t@, i as int, c) == -1,
        },
{
    let mut j: usize = i;
    while j < t.len()
        invariant
            i <= j,
            next_index_of(t@, i as int, c) == next_index_of(t@, j as int, c),
        decreases t@.len() - j,
    {
        if t[j] == c {
            return Some(j);
        }
        j = j + 1;
    }
    None
}

/// The path between `b` and `e` in `text`, without its scheme.
fn stripped_path(tv: &Vec<char>, text: &str, b: usize, e: usize) -> (r: String)
    requires
        tv@ == text@,
        b <= e <= tv@.len(),
    ensures
        r@ == strip_scheme(text@.subrange(b as int, e as int)),
{
    let scheme = chars_of("res://");
    let ghost sub = text@.subrange(b as int, e as int);
    if scheme.len() <= e - b && holds_at_exec(tv, b, &scheme) {
        assert(sub.subrange(0, scheme@.len() as int) =~= tv@.subrange(b as int, b + scheme@.len()));
        assert(holds_at(sub, 0, scheme@));
        let r = String::from_str(text.substring_char(b + scheme.len(), e));
        assert(r@ =~= sub.subrange(scheme@.len() as int, sub.len() as int));
        r
    } else {
        proof {
            if holds_at(sub, 0, scheme@) {
                assert(sub.subrange(0, scheme@.len() as int) =~= tv@.subrange(b as int, b + scheme@.len()));
            }
        }
        String::from_str(text.substring_char(b, e))
    }
}

fn script_match_exec(tv: &Vec<char>, text: &str, s: usize) -> (r: Option<Reference>)
    requires
        tv@ == text@,
        s <= tv@.len(),
    ensures
        match r {
            Some(m) => script_match_at(text@, s as int) == Some(m@),
            None => script_match_at(text@, s as int) is None,
        },
{
    let n = tv.len();
    let preload = chars_of("preload(");
    let load = chars_of("load(");
    let pre = holds_at_exec(tv, s, &preload);
    if !pre && !holds_at_exec(tv, s, &load) {
        return None;
    }
    let q: usize = if pre { s + preload.len() } else { s + load.len() };
    if q >= n || !(tv[q] == '"' || tv[q] == '\'') {
        return None;
    }
    match next_index_exec(tv, q + 1, ')') {
        None => None,
        Some(j) => {
            if j >= 3 && j - 3 >= q && (tv[j - 1] == '"' || tv[j - 1] == '\'') {
                let path = stripped_path(tv, text, q + 1, j - 1);
                Some(Reference {
                    start: s,
                    end: j + 1,
                    body_start: q + 1,
                    body_end: j - 1,
                    pre,
                    open: tv[q],
                    close: tv[j - 1],
                    path,
                })
            } else {
                None
            }
        },
    }
}

fn resource_match_exec(tv: &Vec<char>, text: &str, s: usize) -> (r: Option<Reference>)
    requires
        tv@ == text@,
        s <= tv@.len(),
    ensures
        match r {
            Some(m) => resource_match_at(text@, s as int) == Some(m@),
            None => resource_match_at(text@, s as int) is None,
        },
{
    let n = tv.len();
    let tag = chars_of("[ext_resource path=\"");
    if !holds_at_exec(tv, s, &tag) {
        return None;
    }
    let b: usize = s + tag.len();
    if b >= n {
        return None;
    }
    match next_index_exec(tv, b, '"') {
        None => None,
        Some(j) => {
            if j > b {
                let path = stripped_path(tv, text, b, j);
                Some(Reference {
                    start: s,
                    end: j + 1,
                    body_start: b,
                    body_end: j,
                    pre: false,
                    open: '"',
                    close: '"',
                    path,
                })
            } else {
                None
            }
        },
    }
}

/// Every reference of the given kind in `text`, in order.
pub fn find_references(kind: FileKind, text: &String) -> (r: Vec<Reference>)
    ensures
        r@.len() == references(kind, text@, 0).len(),
        forall|k: int| 0 <= k < r@.len() ==> (#[trigger] r@[k])@ == references(kind, text@, 0)[k],
{
    let tv = chars_of(text.as_str());
    let mut found: Vec<Reference> = Vec::new();
    let mut pos: usize = 0;
    while pos < tv.len()
        invariant
            tv@ == text@,
            pos <= tv@.len(),
            found@.map_values(|m: Reference| m@) + references(kind, text@, pos as int)
                == references(kind, text@, 0),
        decreases tv@.len() - pos,
    {
        let m = match kind {
            FileKind::Script => script_match_exec(&tv, text.as_str(), pos),
            FileKind::TextResource => resource_match_exec(&tv, text.as_str(), pos),
        };
        match m {
            Some(m) => {
                if pos < m.end && m.end <= tv.len() {
                    let ghost v = m@;
                    let ghost before = found@.map_values(|m: Reference| m@);
                    let e = m.end;
                    found.push(m);
                    assert(found@.map_values(|m: Reference| m@) =~= before.push(v));
                    assert(before + references(kind, text@, pos as int) =~= before.push(v)
                        + references(kind, text@, e as int));
                    pos = e;
                } else {
                    assert(references(kind, text@, pos as int) =~= Seq::<RefView>::empty());
                    assert(found@.map_values(|m: Reference| m@) =~= references(kind, text@, 0));
                    return found;
                }
            },
            None => {
                pos = pos + 1;
            },
        }
    }
    assert(references(kind, text@, pos as int) =~= Seq::<RefView>::empty());
    assert(found@.map_values(|m: Reference| m@) =~= references(kind, text@, 0));
    found
}

/// `i` is the position of the last separator of `s`.
pub open spec fn is_final_sep(s: Seq<char>, i: int) -> bool {
    &&& 0 <= i < s.len()
    &&& s[i] == '/'
    &&& forall|j: int| i < j < s.len() ==> s[j] != '/'
}

/// The part of a scoped name after its last separator (`@scope/tool` gives
/// `tool`); `None` for a name without a separator.
pub open spec fn unscoped(name: Seq<char>) -> Option<Seq<char>> {
    if exists|i: int| is_final_sep(name, i) {
        Some(name.subrange((choose|i: int| is_final_sep(name, i)) + 1, name.len() as int))
    } else {
        None
    }
}

/// The names under which references may reach a package, each with the
/// package's install directory.
pub open spec fn aliases_of(p: PackageView) -> Seq<(Seq<char>, Seq<char>)> {
    match unscoped(p.name) {
        Some(u) => seq![(p.name, p.dir()), (u, p.dir())],
        None => seq![(p.name, p.dir())],
    }
}

pub open spec fn dep_aliases(deps: Seq<PackageView>) -> Seq<(Seq<char>, Seq<char>)>
    decreases deps.len(),
{
    if deps.len() == 0 {
        Seq::empty()
    } else {
        dep_aliases(deps.drop_last()) + aliases_of(deps.last())
    }
}

/// The lookup table of a package: its dependencies' names, then its own;
/// a later entry hides an earlier one with the same name.
pub open spec fn alias_entries(p: PackageView) -> Seq<(Seq<char>, Seq<char>)> {
    dep_aliases(p.dependencies) + aliases_of(p)
}

/// The directory of the last entry named `key`.
pub open spec fn table_get(t: Seq<(Seq<char>, Seq<char>)>, key: Seq<char>) -> Option<Seq<char>>
    decreases t.len(),
{
    if t.len() == 0 {
        None
    } else if t.last().0 == key {
        Some(t.last().1)
    } else {
        table_get(t.drop_last(), key)
    }
}

/// Length of the leading package segment of a path: its first component,
/// or its first two when it starts with `@` (a scoped name).
pub open spec fn segment_len(path: Seq<char>) -> int {
    let a = next_index_of(path, 0, '/');
    if a < 0 {
        path.len() as int
    } else if path[0] == '@' {
        let b = next_index_of(path, a + 1, '/');
        if b < 0 {
            path.len() as int
        } else {
            b
        }
    } else {
        a
    }
}

pub open spec fn segment(path: Seq<char>) -> Seq<char> {
    path.subrange(0, segment_len(path))
}

/// The project-root form of `p`, or its form relative to `cwd` where that
/// is allowed and shorter.
pub open spec fn emit(p: Seq<char>, relative_allowed: bool, cwd: Seq<char>) -> Seq<char> {
    let abs = "res://"@ + p;
    let rel = relativize(p, cwd);
    if relative_allowed && rel.len() < abs.len() {
        rel
    } else {
        abs
    }
}

/// How one referenced path is rewritten: kept when it exists, redirected
/// into a package's install directory when its package segment names one,
/// and otherwise left as it is.
#[verifier::opaque]
pub open spec fn resolve_load(
    table: Seq<(Seq<char>, Seq<char>)>,
    path: Seq<char>,
    relative_allowed: bool,
    cwd: Seq<char>,
    exists: bool,
) -> Seq<char> {
    if exists {
        emit(path, relative_allowed, cwd)
    } else {
        match table_get(table, segment(path)) {
            Some(dir) => emit(
                dir + path.subrange(segment_len(path), path.len() as int),
                relative_allowed,
                cwd,
            ),
            None => "res://"@ + path,
        }
    }
}

/// The install directories that references of one package may be
/// redirected to, by name.
pub struct AliasTable {
    pub entries: Vec<(String, String)>,
}

impl View for AliasTable {
    type V = Seq<(Seq<char>, Seq<char>)>;

    open spec fn view(&self) -> Seq<(Seq<char>, Seq<char>)> {
        self.entries@.map_values(|e: (String, String)| (e.0@, e.1@))
    }
}

impl AliasTable {
    /// The directory of the last entry named `key`.
    pub fn get(&self, key: &str) -> (r: Option<String>)
        ensures
            match r {
                Some(d) => table_get(self@, key@) == Some(d@),
                None => table_get(self@, key@) is None,
            },
    {
        let mut j: usize = self.entries.len();
        assert(self@.subrange(0, j as int) =~= self@);
        while j > 0
            invariant
                j <= self.entries@.len(),
                table_get(self@, key@) == table_get(self@.subrange(0, j as int), key@),
            decreases j,
        {
            assert(self@.subrange(0, j as int).drop_last() =~= self@.subrange(0, j - 1));
            j = j - 1;
            if strings_equal(self.entries[j].0.as_str(), key) {
                return Some(self.entries[j].1.clone());
            }
        }
        None
    }

    /// The install directory that the package segment of `path` names.
    pub fn lookup(&self, path: &str) -> (r: Option<String>)
        ensures
            match r {
                Some(d) => table_get(self@, segment(path@)) == Some(d@),
                None => table_get(self@, segment(path@)) is None,
            },
    {
        let pv = chars_of(path);
        let k = segment_end(&pv);
        self.get(path.substring_char(0, k))
    }

    /// Whether a referenced path reaches a file: it is `present`, or its package
    /// segment names an install directory. A path that does not is kept
    /// as it is and deserves a diagnostic.
    pub fn resolves(&self, path: &str, present: bool) -> (r: bool)
        ensures
            r == (present || table_get(self@, segment(path@)) is Some),
    {
        present || self.lookup(path).is_some()
    }

    /// Rewrites one referenced path as `resolve_load` says; `exists` tells
    /// whether the path names a file that is already there.
    pub fn modify_load(&self, path: &String, relative_allowed: bool, cwd: &String, exists: bool) -> (r: String)
        ensures
            r@ == resolve_load(self@, path@, relative_allowed, cwd@, exists),
    {
        reveal(resolve_load);
        if exists {
            return emit_path(path, relative_allowed, cwd);
        }
        let pv = chars_of(path.as_str());
        let k = segment_end(&pv);
        match self.get(path.as_str().substring_char(0, k)) {
            Some(dir) => {
                let mut target = dir;
                target.append(path.as_str().substring_char(k, pv.len()));
                emit_path(&target, relative_allowed, cwd)
            },
            None => {
                let mut r = String::from_str("res://");
                r.append(path.as_str());
                r
            },
        }
    }
}

fn segment_end(pv: &Vec<char>) -> (r: usize)
    ensures
        r as int == segment_len(pv@),
        r <= pv@.len(),
{
    let n = pv.len();
    match next_index_exec(pv, 0, '/') {
        None => n,
        Some(a) => {
            if pv[0] == '@' {
                match next_index_exec(pv, a + 1, '/') {
                    None => n,
                    Some(b) => b,
                }
            } else {
                a
            }
        },
    }
}

fn emit_path(p: &String, relative_allowed: bool, cwd: &String) -> (r: String)
    ensures
        r@ == emit(p@, relative_allowed, cwd@),
{
    let mut abs = String::from_str("res://");
    abs.append(p.as_str());
    if relative_allowed {
        let rel = absolute_to_relative(p, cwd);
        if rel.as_str().unicode_len() < abs.as_str().unicode_len() {
            return rel;
        }
    }
    abs
}

fn final_sep(s: &Vec<char>) -> (r: Option<usize>)
    ensures
        match r {
            Some(i) => is_final_sep(s@, i as int),
            None => !exists|i: int| is_final_sep(s@, i),
        },
{
    let mut j: usize = s.len();
    while j > 0
        invariant
            j <= s@.len(),
            forall|m: int| j <= m < s@.len() ==> s@[m] != '/',
        decreases j,
    {
        j = j - 1;
        if s[j] == '/' {
            return Some(j);
        }
    }
    None
}

fn push_aliases(entries: &mut Vec<(String, String)>, p: &Package)
    ensures
        final(entries)@.map_values(|e: (String, String)| (e.0@, e.1@))
            == old(entries)@.map_values(|e: (String, String)| (e.0@, e.1@)) + aliases_of(p@),
{
    let ghost before = old(entries)@.map_values(|e: (String, String)| (e.0@, e.1@));
    let dir = p.download_dir();
    entries.push((p.name.clone(), dir.clone()));
    let nv = chars_of(p.name.as_str());
    let len = nv.len();
    match final_sep(&nv) {
        Some(i) => {
            let u = String::from_str(p.name.as_str().substring_char(i + 1, len));
            proof {
                assert forall|k: int| is_final_sep(p.name@, k) implies k == i by {
                    if k < i {
                        assert(p.name@[i as int] == '/');
                    } else if k > i {
                        assert(p.name@[k] == '/');
                    }
                }
            }
            entries.push((u, dir));
        },
        None => {},
    }
    assert(final(entries)@.map_values(|e: (String, String)| (e.0@, e.1@)) =~= before + aliases_of(p@));
}

impl Package {
    /// The lookup table used to redirect this package's references.
    pub fn alias_table(&self) -> (r: AliasTable)
        ensures
            r@ == alias_entries(self@),
    {
        let mut entries: Vec<(String, String)> = Vec::new();
        let n = self.meta.dependencies.len();
        let mut i: usize = 0;
        proof {
            Package::lemma_view_dependencies(self);
        }
        while i < n
            invariant
                n == self.meta.dependencies@.len(),
                i <= n,
                self@.dependencies == crate::package::package_views(self.meta.dependencies@),
                entries@.map_values(|e: (String, String)| (e.0@, e.1@))
                    == dep_aliases(self@.dependencies.subrange(0, i as int)),
            decreases n - i,
        {
            push_aliases(&mut entries, &self.meta.dependencies[i]);
            assert(self@.dependencies.subrange(0, i + 1).drop_last() =~= self@.dependencies.subrange(0, i as int));
            i = i + 1;
        }
        assert(self@.dependencies.subrange(0, n as int) =~= self@.dependencies);
        push_aliases(&mut entries, self);
        AliasTable { entries }
    }
}

/// Rewrites every reference of the given kind in `text`, a file in the
/// directory `cwd`; `None` when the text holds no reference.
#[verifier::rlimit(40)]
pub fn rewrite_text(
    kind: FileKind,
    text: &String,
    cwd: &String,
    exists: &Vec<bool>,
    table: &AliasTable,
) -> (r: Option<String>)
    requires
        exists@.len() == references(kind, text@, 0).len(),
    ensures
        match r {
            Some(out) => rewrite_result(kind, text@, exists@, table@, cwd@) == Some(out@),
            None => rewrite_result(kind, text@, exists@, table@, cwd@) is None,
        },
{
    let refs = find_references(kind, text);
    if refs.len() == 0 {
        return None;
    }
    let ghost rv = references(kind, text@, 0);
    proof {
        lemma_references_ordered(kind, text@, 0);
    }
    let n = text.as_str().unicode_len();
    let mut out = String::new();
    let mut from: usize = 0;
    let mut k: usize = 0;
    proof {
        assert(rv.skip(0) =~= rv);
        assert(exists@.skip(0) =~= exists@);
        assert(out@ + rewritten(kind, text@, rv, exists@, table@, cwd@, 0)
            =~= rewritten(kind, text@, rv, exists@, table@, cwd@, 0));
    }
    while k < refs.len()
        invariant
            refs@.len() == rv.len(),
            exists@.len() == rv.len(),
            forall|i: int| 0 <= i < refs@.len() ==> (#[trigger] refs@[i])@ == rv[i],
            forall|i: int| 0 <= i < rv.len() ==> well_placed(text@, 0, #[trigger] rv[i]),
            forall|i: int| 0 <= i < rv.len() - 1 ==> (#[trigger] rv[i]).end <= rv[i + 1].start,
            n == text@.len(),
            k <= rv.len(),
            from <= n,
            k < rv.len() ==> from <= rv[k as int].start,
            out@ + rewritten(kind, text@, rv.skip(k as int), exists@.skip(k as int), table@, cwd@, from as int)
                == rewritten(kind, text@, rv, exists@, table@, cwd@, 0),
        decreases rv.len() - k,
    {
        let m = &refs[k];
        let ghost before = out@;
        out.append(text.as_str().substring_char(from, m.body_start));
        let relative = match kind {
            FileKind::Script => m.pre,
            FileKind::TextResource => false,
        };
        let new_path = table.modify_load(&m.path, relative, cwd, exists[k]);
        out.append(new_path.as_str());
        proof {
            assert(rv.skip(k as int).drop_first() =~= rv.skip(k + 1));
            assert(exists@.skip(k as int).drop_first() =~= exists@.skip(k + 1));
            assert(rv.skip(k as int)[0] == rv[k as int]);
            assert(exists@.skip(k as int)[0] == exists@[k as int]);
            assert(out@ =~= before + text@.subrange(from as int, m.body_start as int) + new_path@);
            if k + 1 < rv.len() {
                assert(rv[k as int].end <= rv[k + 1].start);
            }
        }
        from = m.body_end;
        k = k + 1;
    }
    out.append(text.as_str().substring_char(from, n));
    proof {
        assert(rv.skip(k as int) =~= Seq::<RefView>::empty());
    }
    Some(out)
}

impl Package {
    /// Rewrites the `load` and `preload` references of a script of this
    /// package, in the directory `cwd`.
    pub fn modify_script_loads(&self, t: &String, cwd: &String, exists: &Vec<bool>) -> (r: Option<String>)
        requires
            exists@.len() == references(FileKind::Script, t@, 0).len(),
        ensures
            match r {
                Some(out) => rewrite_result(FileKind::Script, t@, exists@, alias_entries(self@), cwd@)
                    == Some(out@),
                None => rewrite_result(FileKind::Script, t@, exists@, alias_entries(self@), cwd@) is None,
            },
    {
        let table = self.alias_table();
        rewrite_text(FileKind::Script, t, cwd, exists, &table)
    }

    /// Rewrites the external-resource references of a scene or resource
    /// description of this package, in the directory `cwd`.
    pub fn modify_tres_loads(&self, t: &String, cwd: &String, exists: &Vec<bool>) -> (r: Option<String>)
        requires
            exists@.len() == references(FileKind::TextResource, t@, 0).len(),
        ensures
            match r {
                Some(out) => rewrite_result(FileKind::TextResource, t@, exists@, alias_entries(self@), cwd@)
                    == Some(out@),
                None => rewrite_result(FileKind::TextResource, t@, exists@, alias_entries(self@), cwd@)
                    is None,
            },
    {
        let table = self.alias_table();
        rewrite_text(FileKind::TextResource, t, cwd, exists, &table)
    }
}

/// The rule for an extension: scenes and resources, or scripts; `None`
/// for a file that is left alone.
pub fn file_kind(extension: &str) -> (r: Option<FileKind>)
    ensures
        r == (if extension@ == "tres"@ || extension@ == "tscn"@ {
            Some(FileKind::TextResource)
        } else if extension@ == "gd"@ || extension@ == "gdscript"@ {
            Some(FileKind::Script)
        } else {
            None
        }),
{
    if strings_equal(extension, "tres") || strings_equal(extension, "tscn") {
        Some(FileKind::TextResource)
    } else if strings_equal(extension, "gd") || strings_equal(extension, "gdscript") {
        Some(FileKind::Script)
    } else {
        None
    }
}

/// A path rewritten without the relative form is in project-root form,
/// and rewriting it again, now that it names an existing file, changes
/// nothing.
pub proof fn lemma_resolve_load_idempotent(
    table: Seq<(Seq<char>, Seq<char>)>,
    path: Seq<char>,
    cwd: Seq<char>,
    exists: bool,
)
    ensures
        holds_at(resolve_load(table, path, false, cwd, exists), 0, "res://"@),
        resolve_load(
            table,
            strip_scheme(resolve_load(table, path, false, cwd, exists)),
            false,
            cwd,
            true,
        ) == resolve_load(table, path, false, cwd, exists),
{
    reveal(resolve_load);
    let r = resolve_load(table, path, false, cwd, exists);
    let x = if exists {
        path
    } else {
        match table_get(table, segment(path)) {
            Some(dir) => dir + path.subrange(segment_len(path), path.len() as int),
            None => path,
        }
    };
    assert(r == "res://"@ + x);
    assert(r.subrange(0, "res://"@.len() as int) =~= "res://"@);
    assert(strip_scheme(r) =~= x);
}

proof fn lemma_subrange_split(t: Seq<char>, from: int, a: int, b: int)
    requires
        0 <= from <= a <= b <= t.len(),
    ensures
        t.subrange(from, a) + t.subrange(a, b) + t.subrange(b, t.len() as int) == t.subrange(from, t.len() as int),
{
    assert(t.subrange(from, a) + t.subrange(a, b) + t.subrange(b, t.len() as int) =~= t.subrange(from, t.len() as int));
}

proof fn lemma_rewritten_unchanged(
    kind: FileKind,
    t: Seq<char>,
    refs: Seq<RefView>,
    exists: Seq<bool>,
    table: Seq<(Seq<char>, Seq<char>)>,
    cwd: Seq<char>,
    k: int,
    from: int,
)
    requires
        0 <= k <= refs.len(),
        0 <= from <= t.len(),
        k < refs.len() ==> from <= refs[k].start,
        exists.len() == refs.len(),
        forall|i: int| 0 <= i < refs.len() ==> well_placed(t, 0, #[trigger] refs[i]),
        forall|i: int| 0 <= i < refs.len() - 1 ==> (#[trigger] refs[i]).end <= refs[i + 1].start,
        forall|i: int|
            0 <= i < refs.len() ==> resolve_load(
                table,
                (#[trigger] refs[i]).path,
                relative_allowed(kind, refs[i]),
                cwd,
                exists[i],
            ) == t.subrange(refs[i].body_start, refs[i].body_end),
    ensures
        rewritten(kind, t, refs.skip(k), exists.skip(k), table, cwd, from) == t.subrange(
            from,
            t.len() as int,
        ),
    decreases refs.len() - k,
{
    if k < refs.len() {
        let m = refs[k];
        assert(refs.skip(k).drop_first() =~= refs.skip(k + 1));
        assert(exists.skip(k).drop_first() =~= exists.skip(k + 1));
        assert(refs.skip(k)[0] == m);
        assert(exists.skip(k)[0] == exists[k]);
        assert(well_placed(t, 0, m));
        if k + 1 < refs.len() {
            assert(refs[k].end <= refs[k + 1].start);
        }
        lemma_rewritten_unchanged(kind, t, refs, exists, table, cwd, k + 1, m.body_end);
        lemma_subrange_split(t, from, m.body_start, m.body_end);
    } else {
        assert(refs.skip(k) =~= Seq::<RefView>::empty());
    }
}

/// A scene or resource description whose references all name existing
/// files in project-root form is left as it is by the rewrite: each path
/// takes the branch for existing files and comes out as it went in.
pub proof fn lemma_resource_rewrite_stable(
    t: Seq<char>,
    exists: Seq<bool>,
    table: Seq<(Seq<char>, Seq<char>)>,
    cwd: Seq<char>,
)
    requires
        exists.len() == references(FileKind::TextResource, t, 0).len(),
        forall|i: int| 0 <= i < exists.len() ==> #[trigger] exists[i],
        forall|i: int|
            0 <= i < exists.len() ==> holds_at(
                t.subrange(
                    (#[trigger] references(FileKind::TextResource, t, 0)[i]).body_start,
                    references(FileKind::TextResource, t, 0)[i].body_end,
                ),
                0,
                "res://"@,
            ),
    ensures
        match rewrite_result(FileKind::TextResource, t, exists, table, cwd) {
            Some(out) => out == t,
            None => true,
        },
{
    let refs = references(FileKind::TextResource, t, 0);
    lemma_references_ordered(FileKind::TextResource, t, 0);
    assert forall|i: int| 0 <= i < refs.len() implies resolve_load(
        table,
        (#[trigger] refs[i]).path,
        relative_allowed(FileKind::TextResource, refs[i]),
        cwd,
        exists[i],
    ) == t.subrange(refs[i].body_start, refs[i].body_end) by {
        reveal(resolve_load);
        let m = refs[i];
        let body = t.subrange(m.body_start, m.body_end);
        assert(well_placed(t, 0, m));
        assert(exists[i]);
        assert(match_at(FileKind::TextResource, t, m.start) == Some(m)) by {
            lemma_references_match(FileKind::TextResource, t, 0);
        }
        assert(m.path == strip_scheme(body));
        assert(body.subrange(0, "res://"@.len() as int) =~= "res://"@);
        assert("res://"@ + strip_scheme(body) =~= body);
    }
    if refs.len() > 0 {
        lemma_rewritten_unchanged(FileKind::TextResource, t, refs, exists, table, cwd, 0, 0);
        assert(refs.skip(0) =~= refs);
        assert(exists.skip(0) =~= exists);
        assert(t.subrange(0, t.len() as int) =~= t);
    }
}

/// Each reference found from `pos` on is the match at its own start.
proof fn lemma_references_match(kind: FileKind, t: Seq<char>, pos: int)
    requires
        0 <= pos,
    ensures
        forall|k: int|
            0 <= k < references(kind, t, pos).len() ==> match_at(
                kind,
                t,
                (#[trigger] references(kind, t, pos)[k]).start,
            ) == Some(references(kind, t, pos)[k]),
    decreases t.len() - pos,
{
    if 0 <= pos < t.len() {
        match match_at(kind, t, pos) {
            Some(m) => {
                assert(m.start == pos);
                if pos < m.end <= t.len() {
                    lemma_references_match(kind, t, m.end);
                    let rest = references(kind, t, m.end);
                    let all = references(kind, t, pos);
                    assert(all == seq![m] + rest);
                    assert forall|k: int| 0 <= k < all.len() implies match_at(kind, t, (#[trigger] all[k]).start)
                        == Some(all[k]) by {
                        if k > 0 {
                            assert(all[k] == rest[k - 1]);
                        }
                    }
                }
            },
            None => {
                lemma_references_match(kind, t, pos + 1);
                assert(references(kind, t, pos) == references(kind, t, pos + 1));
            },
        }
    }
}

} // verus!
