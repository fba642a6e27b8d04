use vstd::prelude::*;
use crate::order::{KeyOrder, str_lt, lemma_str_order, compare_chars};
use crate::path::{path_without_extension, spec_without_extension};
use crate::sorted_map::{OrdKey, ViewClone};
use crate::text::{chars_of, debug_str, spec_debug_str, string_of_chars};

verus! {

/// Identifier of a page: its path relative to the content directory, without extension.
#[derive(Debug)]
pub struct PageId(String);

/// A borrowed page identifier.
pub struct PageIdRef<'a>(pub &'a str);

impl View for PageId {
    type V = Seq<char>;

    closed spec fn view(&self) -> Seq<char> {
        self.0@
    }
}

/// The text before the first `/`, or all of it when there is none.
pub open spec fn first_segment(s: Seq<char>) -> Seq<char> {
    if exists|i: int| 0 <= i < s.len() && s[i] == '/' {
        s.take(choose|i: int| 0 <= i < s.len() && s[i] == '/' && forall|j: int| 0 <= j < i ==> s[j] != '/')
    } else {
        s
    }
}

/// How `Debug` shows a page identifier: `PageId("...")`.
pub open spec fn page_id_debug(s: Seq<char>) -> Seq<char> {
    seq!['P', 'a', 'g', 'e', 'I', 'd', '('] + spec_debug_str(s) + seq![')']
}

impl PageId {
    /// The identifier of the page at `rel`, a path relative to the content directory:
    /// the path with its extension removed.
    pub fn new(rel: &str) -> (r: PageId)
        ensures
            r@ == spec_without_extension(rel@),
    {
        PageId(path_without_extension(rel))
    }

    /// The first path segment of an identifier.
    pub fn root_of(id: &Self) -> (r: PageId)
        ensures
            r@ == first_segment(id@),
    {
        let v = chars_of(id.0.as_str());
        let mut i: usize = 0;
        while i < v.len()
            invariant
                i <= v@.len(),
                v@ == id@,
                forall|j: int| 0 <= j < i ==> v@[j] != '/',
            decreases v.len() - i,
        {
            if v[i] == '/' {
                let ghost s = v@;
                let ghost c = choose|k: int| 0 <= k < s.len() && s[k] == '/' && forall|j: int| 0 <= j < k ==> s[j] != '/';
                assert(s[i as int] == '/');
                assert(c == i) by {
                    if c < i {
                    } else if c > i {
                    }
                }
                let r = PageId(string_of_chars(vstd::slice::slice_subrange(v.as_slice(), 0, i)));
                assert(r@ =~= s.take(i as int));
                return r;
            }
            i = i + 1;
        }
        PageId(id.0.clone())
    }

    /// A borrowed view of the identifier.
    pub fn as_ref(&self) -> (r: PageIdRef<'_>)
        ensures
            r.0@ == self@,
    {
        PageIdRef(self.0.as_str())
    }

    pub fn as_str(&self) -> (r: &str)
        ensures
            r@ == self@,
    {
        self.0.as_str()
    }

    /// The identifier as text, as `Display` shows it.
    pub fn to_string(&self) -> (r: String)
        ensures
            r@ == self@,
    {
        self.0.clone()
    }

    /// The identifier as `Debug` shows it.
    pub fn debug_string(&self) -> (r: String)
        ensures
            r@ == page_id_debug(self@),
    {
        let q = debug_str(self.0.as_str());
        let mut r = "PageId(".to_owned();
        proof {
            reveal_strlit("PageId(");
            reveal_strlit(")");
        }
        r.append(q.as_str());
        r.append(")");
        assert(r@ =~= page_id_debug(self@));
        r
    }
}

impl OrdKey for PageId {
    open spec fn key_lt(a: Seq<char>, b: Seq<char>) -> bool {
        str_lt(a, b)
    }

    proof fn lemma_key_order() {
        lemma_str_order();
        let l = |a: Seq<char>, b: Seq<char>| str_lt(a, b);
        assert forall|a: Seq<char>| !#[trigger] str_lt(a, a) by {
            assert(!l(a, a));
        }
        assert forall|a: Seq<char>, b: Seq<char>, c: Seq<char>|
            #[trigger] str_lt(a, b) && #[trigger] str_lt(b, c) implies str_lt(a, c) by {
            assert(l(a, b) && l(b, c));
        }
        assert forall|a: Seq<char>, b: Seq<char>| a == b || #[trigger] str_lt(a, b) || str_lt(b, a) by {
            assert(a == b || l(a, b) || l(b, a));
        }
    }

    fn compare_key(&self, other: &Self) -> (r: KeyOrder) {
        let a = chars_of(self.0.as_str());
        let b = chars_of(other.0.as_str());
        compare_chars(&a, &b)
    }

    fn clone_key(&self) -> (r: Self) {
        PageId(self.0.clone())
    }
}

impl ViewClone for PageId {
    fn clone_view(&self) -> (r: Self) {
        PageId(self.0.clone())
    }
}

} // verus!
