use vstd::prelude::*;

verus! {

/// Outcome of comparing two keys.
#[derive(PartialEq, Eq, Structural, Clone, Copy, Debug)]
pub enum KeyOrder {
    Less,
    Equal,
    Greater,
}

/// `lt` is a strict total order on `T`.
pub open spec fn is_strict_total<T>(lt: spec_fn(T, T) -> bool) -> bool {
    &&& forall|a: T| !(#[trigger] lt(a, a))
    &&& forall|a: T, b: T, c: T| #[trigger] lt(a, b) && #[trigger] lt(b, c) ==> lt(a, c)
    &&& forall|a: T, b: T| a == b || #[trigger] lt(a, b) || lt(b, a)
}

/// Lexicographic order on sequences, built from an order on the items:
/// a proper prefix comes first, otherwise the first differing item decides.
pub open spec fn lex_lt<T>(a: Seq<T>, b: Seq<T>, lt: spec_fn(T, T) -> bool) -> bool
    decreases a.len(),
{
    if a.len() == 0 {
        b.len() > 0
    } else if b.len() == 0 {
        false
    } else if a[0] != b[0] {
        lt(a[0], b[0])
    } else {
        lex_lt(a.drop_first(), b.drop_first(), lt)
    }
}

pub proof fn lemma_lex_irrefl<T>(a: Seq<T>, lt: spec_fn(T, T) -> bool)
    requires
        is_strict_total(lt),
    ensures
        !lex_lt(a, a, lt),
    decreases a.len(),
{
    if a.len() > 0 {
        lemma_lex_irrefl(a.drop_first(), lt);
    }
}

proof fn lemma_lex_trans<T>(a: Seq<T>, b: Seq<T>, c: Seq<T>, lt: spec_fn(T, T) -> bool)
    requires
        is_strict_total(lt),
        lex_lt(a, b, lt),
        lex_lt(b, c, lt),
    ensures
        lex_lt(a, c, lt),
    decreases a.len(),
{
    if a.len() > 0 {
        assert(b.len() > 0 && c.len() > 0);
        if a[0] != b[0] {
            if b[0] != c[0] {
                assert(lt(a[0], b[0]) && lt(b[0], c[0]));
                assert(lt(a[0], c[0]));
                assert(a[0] != c[0]);
            }
        } else if b[0] == c[0] {
            lemma_lex_trans(a.drop_first(), b.drop_first(), c.drop_first(), lt);
        }
    }
}

proof fn lemma_lex_total<T>(a: Seq<T>, b: Seq<T>, lt: spec_fn(T, T) -> bool)
    requires
        is_strict_total(lt),
    ensures
        a == b || lex_lt(a, b, lt) || lex_lt(b, a, lt),
    decreases a.len(),
{
    if a.len() > 0 && b.len() > 0 {
        if a[0] == b[0] {
            lemma_lex_total(a.drop_first(), b.drop_first(), lt);
            if a.drop_first() == b.drop_first() {
                assert(a =~= seq![a[0]] + a.drop_first());
                assert(b =~= seq![b[0]] + b.drop_first());
            }
        } else {
            assert(lt(a[0], b[0]) || lt(b[0], a[0]));
        }
    } else if a.len() == 0 && b.len() == 0 {
        assert(a =~= b);
    }
}

/// Lexicographic order inherits strict totality from the order on items.
pub proof fn lemma_lex_strict_total<T>(lt: spec_fn(T, T) -> bool)
    requires
        is_strict_total(lt),
    ensures
        is_strict_total(|a: Seq<T>, b: Seq<T>| lex_lt(a, b, lt)),
{
    let l = |a: Seq<T>, b: Seq<T>| lex_lt(a, b, lt);
    assert forall|a: Seq<T>| !(#[trigger] l(a, a)) by {
        lemma_lex_irrefl(a, lt);
    }
    assert forall|a: Seq<T>, b: Seq<T>, c: Seq<T>| #[trigger] l(a, b) && #[trigger] l(b, c) implies l(
        a,
        c,
    ) by {
        lemma_lex_trans(a, b, c, lt);
    }
    assert forall|a: Seq<T>, b: Seq<T>| a == b || #[trigger] l(a, b) || l(b, a) by {
        lemma_lex_total(a, b, lt);
    }
}

/// Order of characters by code point. For strings this gives the same order as
/// comparing their UTF-8 bytes, which is how `String` is ordered.
pub open spec fn char_lt(a: char, b: char) -> bool {
    (a as int) < (b as int)
}

/// `char_lt` as a function value.
pub open spec fn char_order() -> spec_fn(char, char) -> bool {
    |x: char, y: char| char_lt(x, y)
}

/// Order of strings, by their characters.
pub open spec fn str_lt(a: Seq<char>, b: Seq<char>) -> bool {
    lex_lt(a, b, char_order())
}

/// `str_lt` as a function value.
pub open spec fn str_order() -> spec_fn(Seq<char>, Seq<char>) -> bool {
    |x: Seq<char>, y: Seq<char>| str_lt(x, y)
}

/// Order of paths, component by component.
pub open spec fn path_lt(a: Seq<Seq<char>>, b: Seq<Seq<char>>) -> bool {
    lex_lt(a, b, str_order())
}

pub proof fn lemma_char_order()
    ensures
        is_strict_total(char_order()),
{
    let cl = char_order();
    assert forall|a: char, b: char| a == b || #[trigger] cl(a, b) || cl(b, a) by {
        if (a as int) == (b as int) {
            assert(a == b);
        }
    }
}

pub proof fn lemma_str_order()
    ensures
        is_strict_total(|a: Seq<char>, b: Seq<char>| str_lt(a, b)),
        is_strict_total(str_order()),
{
    let cl = char_order();
    lemma_char_order();
    lemma_lex_strict_total(cl);
    let l1 = |a: Seq<char>, b: Seq<char>| lex_lt(a, b, cl);
    let l2 = |a: Seq<char>, b: Seq<char>| str_lt(a, b);
    assert(l1 =~= l2);
    assert(l1 =~= str_order());
}

pub proof fn lemma_path_order()
    ensures
        is_strict_total(|a: Seq<Seq<char>>, b: Seq<Seq<char>>| path_lt(a, b)),
{
    lemma_str_order();
    let sl = str_order();
    lemma_lex_strict_total(sl);
    let l1 = |a: Seq<Seq<char>>, b: Seq<Seq<char>>| lex_lt(a, b, sl);
    let l2 = |a: Seq<Seq<char>>, b: Seq<Seq<char>>| path_lt(a, b);
    assert(l1 =~= l2);
}

/// Compares two character sequences in `str_lt` order.
pub fn compare_chars(a: &Vec<char>, b: &Vec<char>) -> (r: KeyOrder)
    ensures
        r == KeyOrder::Less <==> str_lt(a@, b@),
        r == KeyOrder::Equal <==> a@ == b@,
        r == KeyOrder::Greater <==> str_lt(b@, a@),
{
    proof {
        lemma_str_order();
        lemma_char_order();
    }
    let mut i: usize = 0;
    while i < a.len() && i < b.len()
        invariant
            i <= a.len(),
            i <= b.len(),
            a@.take(i as int) == b@.take(i as int),
        decreases a.len() - i,
    {
        if a[i] != b[i] {
            proof {
                lemma_lex_skip(a@, b@, i as int, char_order());
                lemma_lex_skip(b@, a@, i as int, char_order());
            }
            if a[i] < b[i] {
                return KeyOrder::Less;
            } else {
                return KeyOrder::Greater;
            }
        }
        assert(a@.take(i + 1) =~= a@.take(i as int).push(a@[i as int]));
        assert(b@.take(i + 1) =~= b@.take(i as int).push(b@[i as int]));
        i = i + 1;
    }
    proof {
        lemma_lex_skip(a@, b@, i as int, char_order());
        lemma_lex_skip(b@, a@, i as int, char_order());
        if i == a.len() && i == b.len() {
            assert(a@ =~= a@.take(i as int));
            assert(b@ =~= b@.take(i as int));
        }
        if a@ == b@ {
            lemma_lex_irrefl(a@, char_order());
        }
    }
    if a.len() == b.len() {
        KeyOrder::Equal
    } else if a.len() < b.len() {
        KeyOrder::Less
    } else {
        KeyOrder::Greater
    }
}

/// Comparing two sequences with a common prefix of length `i` is comparing what follows it.
pub proof fn lemma_lex_skip<T>(a: Seq<T>, b: Seq<T>, i: int, lt: spec_fn(T, T) -> bool)
    requires
        0 <= i <= a.len(),
        i <= b.len(),
        a.take(i) == b.take(i),
    ensures
        lex_lt(a, b, lt) == lex_lt(a.skip(i), b.skip(i), lt),
    decreases i,
{
    if i > 0 {
        assert(a[0] == a.take(i)[0]);
        assert(b[0] == b.take(i)[0]);
        assert(a.drop_first().take(i - 1) =~= a.take(i).drop_first());
        assert(b.drop_first().take(i - 1) =~= b.take(i).drop_first());
        lemma_lex_skip(a.drop_first(), b.drop_first(), i - 1, lt);
        assert(a.drop_first().skip(i - 1) =~= a.skip(i));
        assert(b.drop_first().skip(i - 1) =~= b.skip(i));
    } else {
        assert(a.skip(0) =~= a);
        assert(b.skip(0) =~= b);
    }
}

} // verus!
