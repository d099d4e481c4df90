//! Character sequences: strict lexicographic order, conversion between
//! strings and character vectors.
use vstd::prelude::*;
use vstd::std_specs::iter::IteratorSpec;

verus! {

/// Strict lexicographic order on character sequences, the order in which
/// `str` compares (code point order agrees with UTF-8 byte order).
pub open spec fn lex_lt(a: Seq<char>, b: Seq<char>) -> bool
    decreases a.len(),
{
    if b.len() == 0 {
        false
    } else if a.len() == 0 {
        true
    } else if a[0] != b[0] {
        a[0] < b[0]
    } else {
        lex_lt(a.drop_first(), b.drop_first())
    }
}

/// The characters of `s`, in order.
pub fn chars_of(s: &str) -> (r: Vec<char>)
    ensures
        r@ == s@,
{
    let mut r: Vec<char> = Vec::new();
    for c in it: s.chars()
        invariant
            r@ == it.seq().take(it.index() as int),
            it.seq() == s@,
    {
        r.push(c);
    }
    r
}


pub proof fn lemma_lex_irreflexive(a: Seq<char>)
    ensures
        !lex_lt(a, a),
    decreases a.len(),
{
    if a.len() > 0 {
        lemma_lex_irreflexive(a.drop_first());
    }
}

pub proof fn lemma_lex_total(a: Seq<char>, b: Seq<char>)
    ensures
        a == b || lex_lt(a, b) || lex_lt(b, a),
    decreases a.len(),
{
    if a.len() > 0 && b.len() > 0 && a[0] == b[0] {
        lemma_lex_total(a.drop_first(), b.drop_first());
        if a.drop_first() == b.drop_first() {
            assert(a =~= seq![a[0]] + a.drop_first());
            assert(b =~= seq![b[0]] + b.drop_first());
        }
    } else if a.len() > 0 && b.len() > 0 {
        assert(a[0] < b[0] || b[0] < a[0]);
    } else if a.len() == 0 && b.len() == 0 {
        assert(a =~= b);
    }
}

pub proof fn lemma_lex_asymmetric(a: Seq<char>, b: Seq<char>)
    requires
        lex_lt(a, b),
    ensures
        !lex_lt(b, a),
    decreases a.len(),
{
    if a.len() > 0 && b.len() > 0 && a[0] == b[0] {
        lemma_lex_asymmetric(a.drop_first(), b.drop_first());
    }
}

pub proof fn lemma_lex_transitive(a: Seq<char>, b: Seq<char>, c: Seq<char>)
    requires
        lex_lt(a, b),
        lex_lt(b, c),
    ensures
        lex_lt(a, c),
    decreases a.len(),
{
    if a.len() > 0 && b.len() > 0 && c.len() > 0 && a[0] == b[0] && b[0] == c[0] {
        lemma_lex_transitive(a.drop_first(), b.drop_first(), c.drop_first());
    }
}

/// Three-way comparison in lexicographic order: negative, zero or positive
/// as `a` is below, equal to or above `b`.
pub fn compare(a: &str, b: &str) -> (r: i8)
    ensures
        r < 0 <==> lex_lt(a@, b@),
        r == 0 <==> a@ == b@,
        r > 0 <==> lex_lt(b@, a@),
{
    let x = chars_of(a);
    let y = chars_of(b);
    proof {
        lemma_lex_total(a@, b@);
        if lex_lt(a@, b@) {
            lemma_lex_asymmetric(a@, b@);
        }
        if a@ == b@ {
            lemma_lex_irreflexive(a@);
        }
    }
    assert(x@.skip(0) =~= x@);
    assert(y@.skip(0) =~= y@);
    let mut i: usize = 0;
    while i < x.len() && i < y.len()
        invariant
            x@ == a@,
            y@ == b@,
            i <= x.len(),
            i <= y.len(),
            x@.take(i as int) == y@.take(i as int),
            lex_lt(a@, b@) == lex_lt(x@.skip(i as int), y@.skip(i as int)),
            lex_lt(b@, a@) == lex_lt(y@.skip(i as int), x@.skip(i as int)),
        decreases x.len() - i,
    {
        assert(x@.skip(i as int).drop_first() =~= x@.skip(i + 1));
        assert(y@.skip(i as int).drop_first() =~= y@.skip(i + 1));
        if x[i] != y[i] {
            if x[i] < y[i] {
                return -1;
            } else {
                return 1;
            }
        }
        assert(x@.take(i + 1) =~= x@.take(i as int).push(x[i as int]));
        assert(y@.take(i + 1) =~= y@.take(i as int).push(y[i as int]));
        i = i + 1;
    }
    if x.len() == y.len() {
        assert(x@ =~= x@.take(i as int));
        assert(y@ =~= y@.take(i as int));
        0
    } else if x.len() < y.len() {
        -1
    } else {
        1
    }
}

/// The views of a sequence of strings.
pub open spec fn views(v: Seq<String>) -> Seq<Seq<char>> {
    v.map_values(|s: String| s@)
}

/// Strictly ascending in lexicographic order, hence free of duplicates.
pub open spec fn strictly_sorted(k: Seq<Seq<char>>) -> bool {
    forall|i: int, j: int| 0 <= i < j < k.len() ==> lex_lt(#[trigger] k[i], #[trigger] k[j])
}

pub proof fn lemma_strictly_sorted_no_duplicates(k: Seq<Seq<char>>)
    requires
        strictly_sorted(k),
    ensures
        k.no_duplicates(),
{
    assert forall|i: int, j: int| 0 <= i < k.len() && 0 <= j < k.len() && i != j implies k[i] != k[j] by {
        if i < j {
            assert(lex_lt(k[i], k[j]));
            lemma_lex_irreflexive(k[i]);
        } else {
            assert(lex_lt(k[j], k[i]));
            lemma_lex_irreflexive(k[j]);
        }
    }
}

/// Where `k` stands or would stand in the sorted `keys`: `(true, i)` where
/// `keys[i]` is `k`, `(false, i)` where inserting `k` at `i` keeps the order.
pub fn locate(keys: &Vec<String>, k: &str) -> (r: (bool, usize))
    requires
        strictly_sorted(views(keys@)),
    ensures
        r.1 <= keys.len(),
        forall|j: int| 0 <= j < r.1 ==> lex_lt(#[trigger] keys@[j]@, k@),
        r.0 ==> r.1 < keys.len() && keys@[r.1 as int]@ == k@,
        !r.0 ==> forall|j: int| r.1 <= j < keys.len() ==> lex_lt(k@, #[trigger] keys@[j]@),
{
    let mut i: usize = 0;
    while i < keys.len()
        invariant
            i <= keys.len(),
            strictly_sorted(views(keys@)),
            forall|j: int| 0 <= j < i ==> lex_lt(#[trigger] keys@[j]@, k@),
        decreases keys.len() - i,
    {
        let c = compare(keys[i].as_str(), k);
        if c == 0 {
            return (true, i);
        }
        if c > 0 {
            assert forall|j: int| i <= j < keys.len() implies lex_lt(k@, #[trigger] keys@[j]@) by {
                if j > i {
                    assert(views(keys@)[i as int] == keys@[i as int]@);
                    assert(views(keys@)[j] == keys@[j]@);
                    lemma_lex_transitive(k@, keys@[i as int]@, keys@[j]@);
                }
            }
            return (false, i);
        }
        i = i + 1;
    }
    (false, i)
}

} // verus!
