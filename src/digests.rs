//! The digest index: prefix → digest → set of credential names.
use vstd::prelude::*;

use crate::keyed::{lemma_map_of_dom, lemma_map_of_index, lemma_map_of_insert, lemma_map_of_update, map_of};
use crate::string_set::{lemma_insert_sorted, lemma_views_insert, StringSet};
use crate::text::{lex_lt, locate, strictly_sorted, views};

verus! {

/// Number of leading digest characters that make the prefix sent to the
/// range endpoint.
pub const PREFIX_LEN: usize = 5;

/// The SHA-1 digest of the UTF-8 encoding of `s`.
pub uninterp spec fn sha1_of(s: Seq<char>) -> Seq<u8>;

/// Relies on sha1_smol::Sha1::from(..).digest().bytes(): the 20-byte SHA-1
/// digest of the password's UTF-8 bytes.
#[verifier::external_body]
pub(crate) fn sha1_digest(password: &str) -> (r: [u8; 20])
    ensures
        r@ == sha1_of(password@),
{
    sha1_smol::Sha1::from(password).digest().bytes()
}

/// Relies on collecting `char`s into a `String` (std's `FromIterator`): the
/// string holds exactly those characters.
#[verifier::external_body]
pub(crate) fn string_from(cs: &Vec<char>) -> (r: String)
    ensures
        r@ == cs@,
{
    cs.iter().collect()
}

/// The lowercase hexadecimal digit for `n < 16`.
pub open spec fn hex_digit(n: int) -> char {
    if n < 10 {
        ((n + 48) as u8) as char
    } else {
        ((n + 87) as u8) as char
    }
}

/// Two lowercase hexadecimal digits per byte, high nibble first.
pub open spec fn hex_of(b: Seq<u8>) -> Seq<char> {
    Seq::new(
        2 * b.len(),
        |i: int|
            if i % 2 == 0 {
                hex_digit(b[i / 2] as int / 16)
            } else {
                hex_digit(b[i / 2] as int % 16)
            },
    )
}

/// The prefix of a digest.
pub open spec fn prefix_of(d: Seq<char>) -> Seq<char> {
    d.take(PREFIX_LEN as int)
}

/// The digest under which a password is indexed: the SHA-1 digest of its
/// bytes in lowercase hexadecimal.
pub open spec fn password_digest(password: Seq<char>) -> Seq<char> {
    hex_of(sha1_of(password))
}

fn hex_char(n: u8) -> (c: char)
    requires
        n < 16,
    ensures
        c == hex_digit(n as int),
{
    if n < 10 {
        (n + 48) as char
    } else {
        (n + 87) as char
    }
}

/// The lowercase hexadecimal rendering of a digest, 40 characters.
pub fn to_hex(b: &[u8; 20]) -> (r: String)
    ensures
        r@ == hex_of(b@),
{
    let mut cs: Vec<char> = Vec::new();
    let mut i: usize = 0;
    while i < 20
        invariant
            i <= 20,
            b@.len() == 20,
            cs@ == hex_of(b@).take(2 * i),
        decreases 20 - i,
    {
        cs.push(hex_char(b[i] / 16));
        cs.push(hex_char(b[i] % 16));
        i = i + 1;
        assert(cs@ =~= hex_of(b@).take(2 * i));
    }
    assert(cs@ =~= hex_of(b@));
    string_from(&cs)
}

/// The digest of a password: SHA-1 of its bytes in lowercase hexadecimal.
pub fn hex_digest(password: &str) -> (r: String)
    ensures
        r@ == password_digest(password@),
        r@.len() == 40,
{
    to_hex(&sha1_digest(password))
}

/// What `m` holds for `k`, or nothing.
pub open spec fn entry_or_empty<V>(m: Map<Seq<char>, Set<V>>, k: Seq<char>) -> Set<V> {
    if m.contains_key(k) {
        m[k]
    } else {
        Set::empty()
    }
}

/// What `m` holds for `k`, or the empty map.
pub open spec fn bucket_or_empty(
    m: Map<Seq<char>, Map<Seq<char>, Set<Seq<char>>>>,
    k: Seq<char>,
) -> Map<Seq<char>, Set<Seq<char>>> {
    if m.contains_key(k) {
        m[k]
    } else {
        Map::empty()
    }
}

/// The digests that share one prefix, each with the names that use it, in
/// ascending digest order.
#[derive(Debug)]
pub struct DigestMap {
    digests: Vec<String>,
    names: Vec<StringSet>,
}

pub open spec fn set_views(v: Seq<StringSet>) -> Seq<Set<Seq<char>>> {
    v.map_values(|s: StringSet| s@)
}

impl View for DigestMap {
    type V = Map<Seq<char>, Set<Seq<char>>>;

    closed spec fn view(&self) -> Map<Seq<char>, Set<Seq<char>>> {
        map_of(views(self.digests@), set_views(self.names@))
    }
}

impl DigestMap {
    /// The digests in ascending order.
    pub closed spec fn ordered(&self) -> Seq<Seq<char>> {
        views(self.digests@)
    }

    pub closed spec fn wf(&self) -> bool {
        &&& self.digests.len() == self.names.len()
        &&& strictly_sorted(views(self.digests@))
        &&& forall|j: int| 0 <= j < self.names.len() ==> (#[trigger] self.names@[j]).wf()
    }

    pub proof fn lemma_ordered(&self)
        requires
            self.wf(),
        ensures
            strictly_sorted(self.ordered()),
            self.ordered().to_set() == self@.dom(),
            self.ordered().len() == self@.dom().len(),
    {
        lemma_map_of_dom(views(self.digests@), set_views(self.names@));
    }

    pub fn new() -> (r: DigestMap)
        ensures
            r.wf(),
            r@ == Map::<Seq<char>, Set<Seq<char>>>::empty(),
    {
        let r = DigestMap { digests: Vec::new(), names: Vec::new() };
        assert(r@ =~= Map::<Seq<char>, Set<Seq<char>>>::empty());
        r
    }

    /// Adds `name` to the names under `digest`.
    pub fn insert(&mut self, digest: String, name: String)
        requires
            old(self).wf(),
        ensures
            final(self).wf(),
            final(self)@ == old(self)@.insert(digest@, entry_or_empty(old(self)@, digest@).insert(name@)),
    {
        let ghost keys = views(self.digests@);
        let ghost vals = set_views(self.names@);
        let (found, i) = locate(&self.digests, digest.as_str());
        if found {
            proof {
                lemma_map_of_index(keys, vals, i as int);
            }
            let mut set = self.names.remove(i);
            set.insert(name);
            let ghost new_set = set@;
            self.names.insert(i, set);
            proof {
                assert(set_views(self.names@) =~= vals.update(i as int, new_set));
                lemma_map_of_update(keys, vals, i as int, new_set);
            }
        } else {
            proof {
                assert forall|j: int| 0 <= j < i implies lex_lt(#[trigger] keys[j], digest@) by {
                    assert(keys[j] == self.digests@[j]@);
                }
                assert forall|j: int| i <= j < keys.len() implies lex_lt(digest@, #[trigger] keys[j]) by {
                    assert(keys[j] == self.digests@[j]@);
                }
                lemma_insert_sorted(keys, i as int, digest@);
                lemma_views_insert(self.digests@, i as int, digest);
                if map_of(keys, vals).contains_key(digest@) {
                    let j = choose|j: int| 0 <= j < keys.len() && keys[j] == digest@;
                    crate::text::lemma_lex_irreflexive(digest@);
                }
            }
            let mut set = StringSet::new();
            set.insert(name);
            let ghost new_set = set@;
            self.digests.insert(i, digest);
            self.names.insert(i, set);
            proof {
                assert(set_views(self.names@) =~= vals.insert(i as int, new_set));
                lemma_map_of_insert(keys, vals, i as int, views(self.digests@)[i as int], new_set);
            }
        }
    }

    /// Number of digests.
    pub fn len(&self) -> (r: usize)
        requires
            self.wf(),
        ensures
            r == self@.dom().len(),
            r == self.ordered().len(),
    {
        proof {
            self.lemma_ordered();
        }
        self.digests.len()
    }

    /// The `j`-th digest in ascending order.
    pub fn digest(&self, j: usize) -> (r: &String)
        requires
            self.wf(),
            j < self.ordered().len(),
        ensures
            r@ == self.ordered()[j as int],
    {
        &self.digests[j]
    }

    /// The names under the `j`-th digest.
    pub fn names(&self, j: usize) -> (r: &StringSet)
        requires
            self.wf(),
            j < self.ordered().len(),
        ensures
            r.wf(),
            self@.contains_key(self.ordered()[j as int]),
            r@ == self@[self.ordered()[j as int]],
    {
        proof {
            lemma_map_of_index(views(self.digests@), set_views(self.names@), j as int);
        }
        &self.names[j]
    }
}

/// The digest index: for each prefix seen, the digests under it and the
/// names of the credentials that use each one. Prefixes come in ascending
/// order and only prefixes that hold a digest are present.
#[derive(Debug)]
pub struct Digests {
    prefixes: Vec<String>,
    buckets: Vec<DigestMap>,
}

pub open spec fn map_views(v: Seq<DigestMap>) -> Seq<Map<Seq<char>, Set<Seq<char>>>> {
    v.map_values(|m: DigestMap| m@)
}

impl View for Digests {
    type V = Map<Seq<char>, Map<Seq<char>, Set<Seq<char>>>>;

    closed spec fn view(&self) -> Map<Seq<char>, Map<Seq<char>, Set<Seq<char>>>> {
        map_of(views(self.prefixes@), map_views(self.buckets@))
    }
}

/// The index after `name` is recorded under `digest`.
pub open spec fn upserted(
    m: Map<Seq<char>, Map<Seq<char>, Set<Seq<char>>>>,
    digest: Seq<char>,
    name: Seq<char>,
) -> Map<Seq<char>, Map<Seq<char>, Set<Seq<char>>>> {
    let p = prefix_of(digest);
    let b = bucket_or_empty(m, p);
    m.insert(p, b.insert(digest, entry_or_empty(b, digest).insert(name)))
}

impl Digests {
    /// The prefixes in ascending order.
    pub closed spec fn ordered(&self) -> Seq<Seq<char>> {
        views(self.prefixes@)
    }

    pub closed spec fn wf(&self) -> bool {
        &&& self.prefixes.len() == self.buckets.len()
        &&& strictly_sorted(views(self.prefixes@))
        &&& forall|i: int| 0 <= i < self.buckets.len() ==> (#[trigger] self.buckets@[i]).wf()
        &&& forall|i: int, d: Seq<char>|
            0 <= i < self.buckets.len() && #[trigger] self.buckets@[i]@.contains_key(d)
                ==> prefix_of(d) == self.prefixes@[i]@
    }

    /// Prefixes come in strictly ascending order, one for each key of the
    /// index, and every digest stands under its own prefix.
    pub proof fn lemma_ordered(&self)
        requires
            self.wf(),
        ensures
            strictly_sorted(self.ordered()),
            self.ordered().to_set() == self@.dom(),
            self.ordered().len() == self@.dom().len(),
            forall|p: Seq<char>, d: Seq<char>|
                self@.contains_key(p) && #[trigger] self@[p].contains_key(d) ==> prefix_of(d) == p,
    {
        let keys = views(self.prefixes@);
        let vals = map_views(self.buckets@);
        lemma_map_of_dom(keys, vals);
        assert forall|p: Seq<char>, d: Seq<char>|
            self@.contains_key(p) && #[trigger] self@[p].contains_key(d) implies prefix_of(d) == p by {
            let i = choose|i: int| 0 <= i < keys.len() && keys[i] == p;
            lemma_map_of_index(keys, vals, i);
            assert(self.buckets@[i]@.contains_key(d));
        }
    }

    pub fn new() -> (r: Digests)
        ensures
            r.wf(),
            r@ == Map::<Seq<char>, Map<Seq<char>, Set<Seq<char>>>>::empty(),
    {
        let r = Digests { prefixes: Vec::new(), buckets: Vec::new() };
        assert(r@ =~= Map::<Seq<char>, Map<Seq<char>, Set<Seq<char>>>>::empty());
        r
    }

    /// Number of distinct prefixes.
    pub fn len(&self) -> (r: usize)
        requires
            self.wf(),
        ensures
            r == self@.dom().len(),
            r == self.ordered().len(),
    {
        proof {
            self.lemma_ordered();
        }
        self.prefixes.len()
    }

    /// Records `name` under the lowercase hexadecimal rendering of `digest`,
    /// itself under its first five characters.
    pub fn upsert(&mut self, digest: [u8; 20], name: String)
        requires
            old(self).wf(),
        ensures
            final(self).wf(),
            final(self)@ == upserted(old(self)@, hex_of(digest@), name@),
    {
        let hex = to_hex(&digest);
        let cs = crate::text::chars_of(hex.as_str());
        let mut pcs: Vec<char> = Vec::new();
        let mut k: usize = 0;
        while k < PREFIX_LEN
            invariant
                k <= PREFIX_LEN,
                cs@ == hex@,
                hex@.len() == 40,
                pcs@ == hex@.take(k as int),
            decreases PREFIX_LEN - k,
        {
            pcs.push(cs[k]);
            k = k + 1;
            assert(pcs@ =~= hex@.take(k as int));
        }
        let prefix = string_from(&pcs);
        let ghost keys = views(self.prefixes@);
        let ghost vals = map_views(self.buckets@);
        let ghost d = hex@;
        let ghost p = prefix@;
        let (found, i) = locate(&self.prefixes, prefix.as_str());
        if found {
            proof {
                lemma_map_of_index(keys, vals, i as int);
            }
            let mut bucket = self.buckets.remove(i);
            bucket.insert(hex, name);
            let ghost nb = bucket@;
            self.buckets.insert(i, bucket);
            proof {
                assert(map_views(self.buckets@) =~= vals.update(i as int, nb));
                lemma_map_of_update(keys, vals, i as int, nb);
                assert forall|j: int, x: Seq<char>|
                    0 <= j < self.buckets.len() && #[trigger] self.buckets@[j]@.contains_key(x)
                        implies prefix_of(x) == self.prefixes@[j]@ by {
                    if j == i {
                        if x != d {
                            assert(old(self).buckets@[j]@.contains_key(x));
                        }
                    } else {
                        assert(self.buckets@[j] == old(self).buckets@[j]);
                    }
                }
            }
        } else {
            proof {
                assert forall|j: int| 0 <= j < i implies lex_lt(#[trigger] keys[j], p) by {
                    assert(keys[j] == self.prefixes@[j]@);
                }
                assert forall|j: int| i <= j < keys.len() implies lex_lt(p, #[trigger] keys[j]) by {
                    assert(keys[j] == self.prefixes@[j]@);
                }
                lemma_insert_sorted(keys, i as int, p);
                lemma_views_insert(self.prefixes@, i as int, prefix);
                if map_of(keys, vals).contains_key(p) {
                    let j = choose|j: int| 0 <= j < keys.len() && keys[j] == p;
                    crate::text::lemma_lex_irreflexive(p);
                }
            }
            let mut bucket = DigestMap::new();
            bucket.insert(hex, name);
            let ghost nb = bucket@;
            self.prefixes.insert(i, prefix);
            self.buckets.insert(i, bucket);
            proof {
                assert(map_views(self.buckets@) =~= vals.insert(i as int, nb));
                lemma_map_of_insert(keys, vals, i as int, p, nb);
                assert forall|j: int, x: Seq<char>|
                    0 <= j < self.buckets.len() && #[trigger] self.buckets@[j]@.contains_key(x)
                        implies prefix_of(x) == self.prefixes@[j]@ by {
                    if j < i {
                        assert(self.buckets@[j] == old(self).buckets@[j]);
                    } else if j > i {
                        assert(self.buckets@[j] == old(self).buckets@[j - 1]);
                    } else {
                        assert(x == d);
                    }
                }
            }
        }
        proof {
            assert(p == prefix_of(d));
        }
    }

    /// The `i`-th prefix in ascending order.
    pub fn prefix(&self, i: usize) -> (r: &String)
        requires
            self.wf(),
            i < self.ordered().len(),
        ensures
            r@ == self.ordered()[i as int],
    {
        &self.prefixes[i]
    }

    /// The digests under the `i`-th prefix.
    pub fn bucket(&self, i: usize) -> (r: &DigestMap)
        requires
            self.wf(),
            i < self.ordered().len(),
        ensures
            r.wf(),
            self@.contains_key(self.ordered()[i as int]),
            r@ == self@[self.ordered()[i as int]],
    {
        proof {
            lemma_map_of_index(views(self.prefixes@), map_views(self.buckets@), i as int);
        }
        &self.buckets[i]
    }
}

impl Default for Digests {
    fn default() -> (r: Digests)
        ensures
            r.wf(),
            r@ == Map::<Seq<char>, Map<Seq<char>, Set<Seq<char>>>>::empty(),
    {
        Digests::new()
    }
}

/// Two passwords whose digests differ but share a prefix are grouped under
/// that one prefix, each under its own digest with its own name.
pub proof fn lemma_shared_prefix_grouped(
    m: Map<Seq<char>, Map<Seq<char>, Set<Seq<char>>>>,
    password1: Seq<char>,
    name1: Seq<char>,
    password2: Seq<char>,
    name2: Seq<char>,
)
    requires
        password_digest(password1) != password_digest(password2),
        prefix_of(password_digest(password1)) == prefix_of(password_digest(password2)),
    ensures
        ({
            let d1 = password_digest(password1);
            let d2 = password_digest(password2);
            let p = prefix_of(d1);
            let r = upserted(upserted(m, d1, name1), d2, name2);
            &&& r.contains_key(p)
            &&& r[p].contains_key(d1) && r[p][d1].contains(name1)
            &&& r[p].contains_key(d2) && r[p][d2].contains(name2)
        }),
{
}

/// Recording the same name under the same digest twice changes nothing the
/// second time.
pub proof fn lemma_upsert_idempotent(
    m: Map<Seq<char>, Map<Seq<char>, Set<Seq<char>>>>,
    digest: Seq<char>,
    name: Seq<char>,
)
    ensures
        upserted(upserted(m, digest, name), digest, name) == upserted(m, digest, name),
{
    let r = upserted(m, digest, name);
    let p = prefix_of(digest);
    assert(r[p][digest].insert(name) =~= r[p][digest]);
    assert(r[p].insert(digest, r[p][digest].insert(name)) =~= r[p]);
    assert(r.insert(p, r[p]) =~= r);
}

/// A name recorded twice under a digest that was new holds one entry.
pub proof fn lemma_repeat_is_one_entry(
    m: Map<Seq<char>, Map<Seq<char>, Set<Seq<char>>>>,
    digest: Seq<char>,
    name: Seq<char>,
)
    requires
        !(m.contains_key(prefix_of(digest)) && m[prefix_of(digest)].contains_key(digest)),
    ensures
        ({
            let r = upserted(upserted(m, digest, name), digest, name);
            &&& r[prefix_of(digest)][digest] == Set::<Seq<char>>::empty().insert(name)
            &&& r[prefix_of(digest)][digest].len() == 1
        }),
{
    lemma_upsert_idempotent(m, digest, name);
    let s = Set::<Seq<char>>::empty().insert(name);
    assert(entry_or_empty(bucket_or_empty(m, prefix_of(digest)), digest) =~= Set::<Seq<char>>::empty());
    assert(s.remove(name) =~= Set::<Seq<char>>::empty());
    assert(s.len() == 1);
}

} // verus!
