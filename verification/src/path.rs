use vstd::prelude::*;
use crate::order::{KeyOrder, path_lt, str_lt, str_order, lemma_path_order, lemma_str_order, compare_chars, lemma_lex_skip, lemma_lex_irrefl};
use crate::sorted_map::OrdKey;
use crate::text::chars_of;

verus! {

/// What `Path::components` yields for a path string, each component as text:
/// `"/"` for the root, `"."` and `".."` for those components, the name otherwise.
pub uninterp spec fn spec_path_components(s: Seq<char>) -> Seq<Seq<char>>;

/// What `Path::with_extension(ext)` gives for a path string, as text.
pub uninterp spec fn spec_with_extension(s: Seq<char>, ext: Seq<char>) -> Seq<char>;

/// The path string with its extension removed (`Path::with_extension("")`).
pub open spec fn spec_without_extension(s: Seq<char>) -> Seq<char> {
    spec_with_extension(s, Seq::empty())
}

/// Trusted: splits a path string with `Path::components`; the result is named, not described.
#[verifier::external_body]
pub(crate) fn path_components(s: &str) -> (r: Vec<String>)
    ensures
        r.deep_view() == spec_path_components(s@),
{
    let mut out = Vec::new();
    for c in std::path::Path::new(s).components() {
        out.push(c.as_os_str().to_string_lossy().into_owned());
    }
    out
}

/// Trusted: replaces the extension of a path string with `Path::with_extension`; the
/// result is named, not described. An extension holding a path separator makes it panic,
/// so it is not admitted.
#[verifier::external_body]
pub(crate) fn path_with_extension(s: &str, ext: &str) -> (r: String)
    requires
        !ext@.contains('/'),
    ensures
        r@ == spec_with_extension(s@, ext@),
{
    std::path::Path::new(s).with_extension(ext).to_string_lossy().into_owned()
}

/// The path string with its extension removed.
pub fn path_without_extension(s: &str) -> (r: String)
    ensures
        r@ == spec_without_extension(s@),
{
    proof {
        reveal_strlit("");
        assert(""@ =~= Seq::<char>::empty());
    }
    let r = path_with_extension(s, "");
    r
}

pub open spec fn root_comp() -> Seq<char> {
    seq!['/']
}

pub open spec fn cur_comp() -> Seq<char> {
    seq!['.']
}

pub open spec fn parent_comp() -> Seq<char> {
    seq!['.', '.']
}

/// A component that names a file or directory (not the root, `.` or `..`).
pub open spec fn is_normal(c: Seq<char>) -> bool {
    c != root_comp() && c != cur_comp() && c != parent_comp()
}

/// `Path::parent`: the path without its last component, unless that is the root or missing.
pub open spec fn spec_parent(p: Seq<Seq<char>>) -> Option<Seq<Seq<char>>> {
    if p.len() > 0 && p.last() != root_comp() {
        Some(p.drop_last())
    } else {
        None
    }
}

/// `Path::file_name`: the last component when it names something.
pub open spec fn spec_file_name(p: Seq<Seq<char>>) -> Option<Seq<char>> {
    if p.len() > 0 && is_normal(p.last()) {
        Some(p.last())
    } else {
        None
    }
}

/// Position of the last `.` in a name, if any.
pub open spec fn last_dot(n: Seq<char>) -> Option<int> {
    if exists|i: int| 0 <= i < n.len() && n[i] == '.' {
        Some(choose|i: int| 0 <= i < n.len() && n[i] == '.' && forall|j: int| i < j < n.len() ==> n[j] != '.')
    } else {
        None
    }
}

/// `file_stem` of a file name: what precedes the last `.`; the whole name when it has
/// no dot, or when its last dot is its first character.
pub open spec fn stem_of_name(n: Seq<char>) -> Seq<char> {
    match last_dot(n) {
        Some(i) => if i == 0 { n } else { n.take(i) },
        None => n,
    }
}

/// `extension` of a file name: what follows the last `.`, when a dot stands after the first character.
pub open spec fn extension_of_name(n: Seq<char>) -> Option<Seq<char>> {
    match last_dot(n) {
        Some(i) => if i == 0 { None } else { Some(n.skip(i + 1)) },
        None => None,
    }
}

/// `Path::join` on path text: a path that starts at the root replaces the base; otherwise
/// it is appended, with a `/` between unless the base is empty or already ends in one.
pub open spec fn spec_join(base: Seq<char>, p: Seq<char>) -> Seq<char> {
    if p.len() > 0 && p[0] == '/' {
        p
    } else if base.len() > 0 && base.last() != '/' {
        base + seq!['/'] + p
    } else {
        base + p
    }
}

/// `Path::join` on path text.
pub fn join_path(base: &str, p: &str) -> (r: String)
    ensures
        r@ == spec_join(base@, p@),
{
    let pv = chars_of(p);
    if pv.len() > 0 && pv[0] == '/' {
        return p.to_owned();
    }
    let bv = chars_of(base);
    let mut r = base.to_owned();
    if bv.len() > 0 && bv[bv.len() - 1] != '/' {
        proof {
            reveal_strlit("/");
        }
        r.append("/");
        assert("/"@ =~= seq!['/']);
    }
    r.append(p);
    r
}

/// Components joined with `/`: the text of a path given as clean components.
pub open spec fn join_comps(c: Seq<Seq<char>>) -> Seq<char>
    decreases c.len(),
{
    if c.len() == 0 {
        Seq::empty()
    } else if c.len() == 1 {
        c[0]
    } else {
        join_comps(c.drop_last()) + seq!['/'] + c.last()
    }
}

/// A path as its list of components.
pub struct PathKey {
    pub comps: Vec<String>,
}

impl View for PathKey {
    type V = Seq<Seq<char>>;

    open spec fn view(&self) -> Seq<Seq<char>> {
        self.comps.deep_view()
    }
}

/// `a` is a prefix of `b`, component by component (`Path::starts_with`).
pub open spec fn is_prefix(a: Seq<Seq<char>>, b: Seq<Seq<char>>) -> bool {
    a.len() <= b.len() && b.take(a.len() as int) == a
}

impl PathKey {
    /// The components of a path string.
    pub fn from_str(s: &str) -> (r: PathKey)
        ensures
            r@ == spec_path_components(s@),
    {
        PathKey { comps: path_components(s) }
    }

    /// The empty path.
    pub fn empty() -> (r: PathKey)
        ensures
            r@ == Seq::<Seq<char>>::empty(),
    {
        let r = PathKey { comps: Vec::new() };
        assert(r@ =~= Seq::<Seq<char>>::empty());
        r
    }

    /// The components joined with `/`.
    pub fn to_text(&self) -> (r: String)
        ensures
            r@ == join_comps(self@),
    {
        let mut r = String::new();
        let mut i: usize = 0;
        while i < self.comps.len()
            invariant
                i <= self@.len(),
                r@ == join_comps(self@.take(i as int)),
            decreases self.comps.len() - i,
        {
            let ghost before = self@.take(i as int);
            if i > 0 {
                proof {
                    reveal_strlit("/");
                }
                r.append("/");
                assert("/"@ =~= seq!['/']);
            }
            r.append(self.comps[i].as_str());
            proof {
                let now = self@.take(i + 1);
                assert(now.drop_last() =~= before);
                if i == 0 {
                    assert(r@ =~= now[0]);
                } else {
                    assert(r@ =~= join_comps(before) + seq!['/'] + now.last());
                }
            }
            i = i + 1;
        }
        assert(self@.take(i as int) =~= self@);
        r
    }

    /// Component-wise equality, which is how paths compare.
    pub fn same_as(&self, other: &PathKey) -> (b: bool)
        ensures
            b == (self@ == other@),
    {
        match self.compare_key(other) {
            KeyOrder::Equal => true,
            _ => false,
        }
    }

    /// `Path::starts_with`: `prefix` is a leading run of this path's components.
    pub fn starts_with(&self, prefix: &PathKey) -> (b: bool)
        ensures
            b == is_prefix(prefix@, self@),
    {
        if prefix.comps.len() > self.comps.len() {
            return false;
        }
        let mut i: usize = 0;
        while i < prefix.comps.len()
            invariant
                i <= prefix@.len(),
                prefix@.len() <= self@.len(),
                self@.take(i as int) == prefix@.take(i as int),
            decreases prefix.comps.len() - i,
        {
            if self.comps[i] != prefix.comps[i] {
                assert(self@[i as int] != prefix@[i as int]);
                assert(self@.take(prefix@.len() as int)[i as int] == self@[i as int]);
                return false;
            }
            assert(self@.take(i + 1) =~= self@.take(i as int).push(self@[i as int]));
            assert(prefix@.take(i + 1) =~= prefix@.take(i as int).push(prefix@[i as int]));
            i = i + 1;
        }
        assert(prefix@.take(i as int) =~= prefix@);
        true
    }

    /// `Path::parent`, as components.
    pub fn parent(&self) -> (r: Option<PathKey>)
        ensures
            match r {
                Some(p) => spec_parent(self@) == Some(p@),
                None => spec_parent(self@) is None,
            },
    {
        let n = self.comps.len();
        if n == 0 || is_root(&self.comps[n - 1]) {
            return None;
        }
        let mut comps: Vec<String> = Vec::new();
        let mut i: usize = 0;
        while i < n - 1
            invariant
                n == self@.len(),
                n > 0,
                i <= n - 1,
                comps.deep_view() == self@.take(i as int),
            decreases n - 1 - i,
        {
            let c = self.comps[i].clone();
            assert(c@ == self@[i as int]);
            let ghost before = comps.deep_view();
            comps.push(c);
            assert(comps.deep_view() =~= before.push(c@));
            assert(comps.deep_view() =~= self@.take(i + 1));
            i = i + 1;
        }
        assert(comps.deep_view() =~= self@.drop_last());
        Some(PathKey { comps })
    }

    /// `Path::file_name`: the last component, when it names something.
    pub fn file_name(&self) -> (r: Option<String>)
        ensures
            match r {
                Some(n) => spec_file_name(self@) == Some(n@),
                None => spec_file_name(self@) is None,
            },
    {
        let n = self.comps.len();
        if n == 0 {
            return None;
        }
        let last = &self.comps[n - 1];
        if is_root(last) || is_cur(last) || is_up(last) {
            None
        } else {
            Some(last.clone())
        }
    }
}

fn is_root(c: &String) -> (b: bool)
    ensures
        b == (c@ == root_comp()),
{
    let v = chars_of(c.as_str());
    let b = v.len() == 1 && v[0] == '/';
    if b {
        assert(v@ =~= root_comp());
    }
    b
}

fn is_cur(c: &String) -> (b: bool)
    ensures
        b == (c@ == cur_comp()),
{
    let v = chars_of(c.as_str());
    let b = v.len() == 1 && v[0] == '.';
    if b {
        assert(v@ =~= cur_comp());
    }
    b
}

fn is_up(c: &String) -> (b: bool)
    ensures
        b == (c@ == parent_comp()),
{
    let v = chars_of(c.as_str());
    let b = v.len() == 2 && v[0] == '.' && v[1] == '.';
    if b {
        assert(v@ =~= parent_comp());
    }
    b
}

impl OrdKey for PathKey {
    open spec fn key_lt(a: Seq<Seq<char>>, b: Seq<Seq<char>>) -> bool {
        path_lt(a, b)
    }

    proof fn lemma_key_order() {
        lemma_path_order();
        let l = |a: Seq<Seq<char>>, b: Seq<Seq<char>>| path_lt(a, b);
        assert forall|a: Seq<Seq<char>>| !#[trigger] path_lt(a, a) by {
            assert(!l(a, a));
        }
        assert forall|a: Seq<Seq<char>>, b: Seq<Seq<char>>, c: Seq<Seq<char>>|
            #[trigger] path_lt(a, b) && #[trigger] path_lt(b, c) implies path_lt(a, c) by {
            assert(l(a, b) && l(b, c));
        }
        assert forall|a: Seq<Seq<char>>, b: Seq<Seq<char>>|
            a == b || #[trigger] path_lt(a, b) || path_lt(b, a) by {
            assert(a == b || l(a, b) || l(b, a));
        }
    }

    fn compare_key(&self, other: &Self) -> (r: KeyOrder) {
        proof {
            lemma_str_order();
        }
        let a = &self.comps;
        let b = &other.comps;
        let mut i: usize = 0;
        while i < a.len() && i < b.len()
            invariant
                a == &self.comps,
                b == &other.comps,
                i <= a@.len(),
                i <= b@.len(),
                self@.len() == a@.len(),
                other@.len() == b@.len(),
                a.deep_view().take(i as int) == b.deep_view().take(i as int),
            decreases a.len() - i,
        {
            let ca = chars_of(a[i].as_str());
            let cb = chars_of(b[i].as_str());
            match compare_chars(&ca, &cb) {
                KeyOrder::Equal => {},
                r => {
                    proof {
                        lemma_lex_skip(self@, other@, i as int, str_order());
                        lemma_lex_skip(other@, self@, i as int, str_order());
                    }
                    return r;
                },
            }
            assert(a.deep_view().take(i + 1) =~= a.deep_view().take(i as int).push(a.deep_view()[i as int]));
            assert(b.deep_view().take(i + 1) =~= b.deep_view().take(i as int).push(b.deep_view()[i as int]));
            i = i + 1;
        }
        proof {
            lemma_lex_skip(self@, other@, i as int, str_order());
            lemma_lex_skip(other@, self@, i as int, str_order());
            if i == a.len() && i == b.len() {
                assert(self@ =~= self@.take(i as int));
                assert(other@ =~= other@.take(i as int));
            }
            if self@ == other@ {
                lemma_lex_irrefl(self@, str_order());
            }
        }
        if a.len() == b.len() {
            KeyOrder::Equal
        } else if a.len() < b.len() {
            KeyOrder::Less
        } else {
            KeyOrder::Greater
        }
    }

    fn clone_key(&self) -> (r: Self) {
        let comps = self.comps.clone();
        assert(comps.deep_view() =~= self.comps.deep_view());
        PathKey { comps }
    }
}

/// Position of the last `.` in a character vector.
fn find_last_dot(v: &Vec<char>) -> (r: Option<usize>)
    ensures
        match r {
            Some(i) => i < v@.len() && last_dot(v@) == Some(i as int),
            None => last_dot(v@) is None,
        },
{
    let mut i: usize = v.len();
    while i > 0
        invariant
            i <= v.len(),
            forall|j: int| i <= j < v.len() ==> v@[j] != '.',
        decreases i,
    {
        i = i - 1;
        if v[i] == '.' {
            let ghost n = v@;
            assert(exists|k: int| 0 <= k < n.len() && n[k] == '.');
            let ghost c = choose|k: int| 0 <= k < n.len() && n[k] == '.' && forall|j: int| k < j < n.len() ==> n[j] != '.';
            assert(n[i as int] == '.');
            assert(c == i) by {
                if c < i {
                } else if c > i {
                }
            }
            return Some(i);
        }
    }
    None
}

/// The file stem of a file name, as `Path::file_stem` gives it.
pub fn name_stem(name: &str) -> (r: String)
    ensures
        r@ == stem_of_name(name@),
{
    let v = chars_of(name);
    match find_last_dot(&v) {
        Some(i) => {
            if i == 0 {
                name.to_owned()
            } else {
                crate::text::string_of_chars(vstd::slice::slice_subrange(v.as_slice(), 0, i))
            }
        },
        None => name.to_owned(),
    }
}

/// The extension of a file name, as `Path::extension` gives it.
pub fn name_extension(name: &str) -> (r: Option<String>)
    ensures
        match r {
            Some(e) => extension_of_name(name@) == Some(e@),
            None => extension_of_name(name@) is None,
        },
{
    let v = chars_of(name);
    match find_last_dot(&v) {
        Some(i) => {
            if i == 0 {
                None
            } else {
                let n = v.len();
                let e = crate::text::string_of_chars(vstd::slice::slice_subrange(v.as_slice(), i + 1, n));
                assert(e@ =~= v@.skip(i + 1));
                Some(e)
            }
        },
        None => None,
    }
}

} // verus!
