//! The pass over all credentials: index their digests, then query each
//! prefix once, in ascending order, and collect the names whose digest the
//! answer lists.
use vstd::prelude::*;

use crate::digests::{password_digest, prefix_of, sha1_digest, upserted, DigestMap, Digests};
use crate::string_set::StringSet;

verus! {

/// The separator between the groups and the title of a credential's label.
pub open spec fn separator() -> Seq<char> {
    seq![' ', '-', '>', ' ']
}

/// The groups of `path` joined by the separator.
pub open spec fn joined(path: Seq<Seq<char>>) -> Seq<char>
    decreases path.len(),
{
    if path.len() == 0 {
        Seq::empty()
    } else if path.len() == 1 {
        path[0]
    } else {
        joined(path.drop_last()) + separator() + path.last()
    }
}

/// The title shown for an entry that has none.
pub open spec fn untitled() -> Seq<char> {
    seq!['(', 'u', 'n', 't', 'i', 't', 'l', 'e', 'd', ')']
}

/// A credential's label: its groups from the root down, then its title.
pub open spec fn label(path: Seq<Seq<char>>, title: Option<Seq<char>>) -> Seq<char> {
    joined(path) + separator() + match title {
        Some(t) => t,
        None => untitled(),
    }
}

fn push_all(out: &mut Vec<char>, s: &str)
    ensures
        final(out)@ == old(out)@ + s@,
{
    let cs = crate::text::chars_of(s);
    let ghost start = out@;
    let mut i: usize = 0;
    while i < cs.len()
        invariant
            i <= cs.len(),
            out@ == start + cs@.take(i as int),
        decreases cs.len() - i,
    {
        out.push(cs[i]);
        i = i + 1;
        assert(out@ =~= start + cs@.take(i as int));
    }
    assert(cs@.take(i as int) =~= cs@);
}

/// The label of an entry with title `title` (if it has one) in the group
/// reached through `path`.
pub fn entry_label(path: &Vec<String>, title: Option<&str>) -> (r: String)
    ensures
        r@ == label(crate::text::views(path@), match title {
            Some(t) => Some(t@),
            None => None,
        }),
{
    let ghost ps = crate::text::views(path@);
    let mut out: Vec<char> = Vec::new();
    let mut i: usize = 0;
    while i < path.len()
        invariant
            i <= path.len(),
            ps == crate::text::views(path@),
            out@ == joined(ps.take(i as int)),
        decreases path.len() - i,
    {
        let ghost before = out@;
        if i > 0 {
            push_all(&mut out, " -> ");
            proof {
                reveal_strlit(" -> ");
            }
        }
        push_all(&mut out, path[i].as_str());
        proof {
            assert(ps.take(i + 1).drop_last() =~= ps.take(i as int));
            if i == 0 {
                assert(out@ =~= joined(ps.take(1)));
            } else {
                assert(" -> "@ =~= separator());
            }
        }
        i = i + 1;
    }
    assert(ps.take(i as int) =~= ps);
    push_all(&mut out, " -> ");
    proof {
        reveal_strlit(" -> ");
        assert(" -> "@ =~= separator());
    }
    match title {
        Some(t) => push_all(&mut out, t),
        None => {
            push_all(&mut out, "(untitled)");
            proof {
                reveal_strlit("(untitled)");
                assert("(untitled)"@ =~= untitled());
            }
        },
    }
    crate::digests::string_from(&out)
}

/// The index of `creds`, pairs of a credential's name and its password,
/// recorded in order.
pub open spec fn indexed(creds: Seq<(String, String)>) -> Map<Seq<char>, Map<Seq<char>, Set<Seq<char>>>>
    decreases creds.len(),
{
    if creds.len() == 0 {
        Map::empty()
    } else {
        let c = creds.last();
        upserted(indexed(creds.drop_last()), password_digest(c.1@), c.0@)
    }
}

/// Indexes every credential under the digest of its password.
pub fn index_credentials(creds: &Vec<(String, String)>) -> (r: Digests)
    ensures
        r.wf(),
        r@ == indexed(creds@),
{
    let mut r = Digests::new();
    let mut i: usize = 0;
    while i < creds.len()
        invariant
            i <= creds.len(),
            r.wf(),
            r@ == indexed(creds@.take(i as int)),
        decreases creds.len() - i,
    {
        assert(creds@.take(i + 1).drop_last() =~= creds@.take(i as int));
        let digest = sha1_digest(creds[i].1.as_str());
        r.upsert(digest, creds[i].0.clone());
        i = i + 1;
    }
    assert(creds@.take(i as int) =~= creds@);
    r
}

/// The names in `bucket` whose digest `candidates` lists.
pub open spec fn matched_names(
    bucket: Map<Seq<char>, Set<Seq<char>>>,
    candidates: Set<Seq<char>>,
) -> Set<Seq<char>> {
    Set::new(
        |n: Seq<char>|
            exists|d: Seq<char>|
                bucket.contains_key(d) && candidates.contains(d) && #[trigger] bucket[d].contains(n),
    )
}

/// Adds to `matches` the names in `bucket` whose digest `candidates` lists.
pub fn reconcile(bucket: &DigestMap, candidates: &StringSet, matches: &mut StringSet)
    requires
        bucket.wf(),
        candidates.wf(),
        old(matches).wf(),
    ensures
        final(matches).wf(),
        final(matches)@ == old(matches)@.union(matched_names(bucket@, candidates@)),
{
    let ghost ds = bucket.ordered();
    let ghost base = matches@;
    proof {
        bucket.lemma_ordered();
    }
    let mut j: usize = 0;
    while j < bucket.len()
        invariant
            bucket.wf(),
            candidates.wf(),
            matches.wf(),
            ds == bucket.ordered(),
            ds.to_set() == bucket@.dom(),
            j <= ds.len(),
            matches@ == base.union(
                Set::new(
                    |n: Seq<char>|
                        exists|k: int|
                            0 <= k < j && candidates@.contains(ds[k]) && #[trigger] bucket@[ds[k]].contains(n),
                ),
            ),
        decreases ds.len() - j,
    {
        let ghost prev = matches@;
        let d = bucket.digest(j);
        let listed = candidates.contains(d.as_str());
        let names = bucket.names(j);
        if listed {
            let list = names.items();
            let mut k: usize = 0;
            proof {
                names.lemma_ordered();
                assert(crate::text::views(list@).len() == list@.len());
            }
            while k < names.len()
                invariant
                    names.wf(),
                    matches.wf(),
                    k <= names.ordered().len(),
                    names.ordered().to_set() == names@,
                    crate::text::views(list@) == names.ordered(),
                    list@.len() == names.ordered().len(),
                    matches@ == prev.union(names.ordered().take(k as int).to_set()),
                decreases names.ordered().len() - k,
            {
                let n = list[k].clone();
                assert(crate::text::views(list@)[k as int] == list@[k as int]@);
                proof {
                    names.ordered().take(k as int).lemma_push_to_set_commute(n@);
                    assert(names.ordered().take(k + 1) =~= names.ordered().take(k as int).push(n@));
                }
                matches.insert(n);
                k = k + 1;
            }
            assert(names.ordered().take(k as int) =~= names.ordered());
        }
        j = j + 1;
        assert(matches@ =~= base.union(
            Set::new(
                |n: Seq<char>|
                    exists|k: int|
                        0 <= k < j && candidates@.contains(ds[k]) && #[trigger] bucket@[ds[k]].contains(n),
            ),
        )) by {
            assert forall|n: Seq<char>| (exists|k: int|
                    0 <= k < j && candidates@.contains(ds[k]) && #[trigger] bucket@[ds[k]].contains(n))
                <==> ((exists|k: int|
                    0 <= k < j - 1 && candidates@.contains(ds[k]) && #[trigger] bucket@[ds[k]].contains(n))
                    || (listed && names@.contains(n))) by {
                if exists|k: int|
                    0 <= k < j && candidates@.contains(ds[k]) && #[trigger] bucket@[ds[k]].contains(n) {
                    let k = choose|k: int|
                        0 <= k < j && candidates@.contains(ds[k]) && #[trigger] bucket@[ds[k]].contains(n);
                    assert(k == j - 1 || (0 <= k < j - 1 && candidates@.contains(ds[k])
                        && bucket@[ds[k]].contains(n)));
                }
                if listed && names@.contains(n) {
                    assert(bucket@[ds[j - 1]].contains(n));
                }
            }
        }
    }
    assert(matches@ =~= base.union(matched_names(bucket@, candidates@))) by {
        assert forall|n: Seq<char>| (exists|k: int|
                0 <= k < j && candidates@.contains(ds[k]) && #[trigger] bucket@[ds[k]].contains(n))
            <==> matched_names(bucket@, candidates@).contains(n) by {
            if matched_names(bucket@, candidates@).contains(n) {
                let d = choose|d: Seq<char>|
                    bucket@.contains_key(d) && candidates@.contains(d) && #[trigger] bucket@[d].contains(n);
                assert(ds.to_set().contains(d));
                let k = choose|k: int| 0 <= k < ds.len() && ds[k] == d;
                assert(bucket@[ds[k]].contains(n));
            }
            if exists|k: int|
                0 <= k < j && candidates@.contains(ds[k]) && #[trigger] bucket@[ds[k]].contains(n) {
                let k = choose|k: int|
                    0 <= k < j && candidates@.contains(ds[k]) && #[trigger] bucket@[ds[k]].contains(n);
                assert(ds.to_set().contains(ds[k]));
            }
        }
    }
}

/// The names whose digest was listed in the answer for its prefix, where
/// `answers[j]` is the answer for `prefixes[j]`.
pub open spec fn found(
    index: Map<Seq<char>, Map<Seq<char>, Set<Seq<char>>>>,
    prefixes: Seq<Seq<char>>,
    answers: Seq<Set<Seq<char>>>,
) -> Set<Seq<char>> {
    Set::new(
        |n: Seq<char>|
            exists|j: int|
                0 <= j < answers.len() && #[trigger] matched_names(index[prefixes[j]], answers[j]).contains(n),
    )
}

/// One pass of queries over an index: each prefix is handed out once, in
/// ascending order, and the answer for it is reconciled before the next.
pub struct Scan {
    digests: Digests,
    next: usize,
    matches: StringSet,
    answers: Ghost<Seq<Set<Seq<char>>>>,
}

impl Scan {
    /// The index being checked.
    pub closed spec fn index(&self) -> Map<Seq<char>, Map<Seq<char>, Set<Seq<char>>>> {
        self.digests@
    }

    /// Its prefixes in ascending order: the order of the queries.
    pub closed spec fn prefixes(&self) -> Seq<Seq<char>> {
        self.digests.ordered()
    }

    /// The answers received so far, one per prefix queried.
    pub closed spec fn answers(&self) -> Seq<Set<Seq<char>>> {
        self.answers@
    }

    /// The prefixes queried so far.
    pub open spec fn queried(&self) -> Seq<Seq<char>> {
        self.prefixes().take(self.answers().len() as int)
    }

    /// Every prefix has been answered.
    pub open spec fn done(&self) -> bool {
        self.answers().len() == self.prefixes().len()
    }

    pub closed spec fn wf(&self) -> bool {
        &&& self.digests.wf()
        &&& self.matches.wf()
        &&& self.next == self.answers@.len()
        &&& self.next <= self.digests.ordered().len()
        &&& self.matches@ == found(self.digests@, self.digests.ordered(), self.answers@)
    }

    pub fn new(digests: Digests) -> (r: Scan)
        requires
            digests.wf(),
        ensures
            r.wf(),
            r.index() == digests@,
            r.prefixes() == digests.ordered(),
            r.answers() == Seq::<Set<Seq<char>>>::empty(),
    {
        let r = Scan { digests, next: 0, matches: StringSet::new(), answers: Ghost(Seq::empty()) };
        assert(found(r.digests@, r.digests.ordered(), r.answers@) =~= Set::<Seq<char>>::empty());
        r
    }

    /// The prefix to query next, or `None` when every prefix is answered.
    pub fn pending(&self) -> (r: Option<&String>)
        requires
            self.wf(),
        ensures
            r is None <==> self.done(),
            r matches Some(p) ==> p@ == self.prefixes()[self.answers().len() as int],
    {
        if self.next < self.digests.len() {
            Some(self.digests.prefix(self.next))
        } else {
            None
        }
    }

    /// Takes the digests that the endpoint lists for the pending prefix.
    pub fn answer(&mut self, candidates: &StringSet)
        requires
            old(self).wf(),
            !old(self).done(),
            candidates.wf(),
        ensures
            final(self).wf(),
            final(self).index() == old(self).index(),
            final(self).prefixes() == old(self).prefixes(),
            final(self).answers() == old(self).answers().push(candidates@),
    {
        let i = self.next;
        let total = self.digests.len();
        assert(i < total);
        let ghost index = self.digests@;
        let ghost ps = self.digests.ordered();
        let ghost old_answers = self.answers@;
        proof {
            self.digests.lemma_ordered();
        }
        reconcile(self.digests.bucket(i), candidates, &mut self.matches);
        self.next = i + 1;
        self.answers = Ghost(old_answers.push(candidates@));
        let ghost na = old_answers.push(candidates@);
        assert(found(index, ps, na) =~= found(index, ps, old_answers).union(
            matched_names(index[ps[i as int]], candidates@),
        )) by {
            assert forall|n: Seq<char>| #[trigger] found(index, ps, na).contains(n) <==> found(index, ps, old_answers).contains(n)
                || matched_names(index[ps[i as int]], candidates@).contains(n) by {
                if found(index, ps, na).contains(n) {
                    let j = choose|j: int|
                        0 <= j < na.len() && #[trigger] matched_names(index[ps[j]], na[j]).contains(n);
                    if j < i {
                        assert(na[j] == old_answers[j]);
                    }
                }
                if found(index, ps, old_answers).contains(n) {
                    let j = choose|j: int|
                        0 <= j < old_answers.len() && #[trigger] matched_names(index[ps[j]], old_answers[j]).contains(n);
                    assert(na[j] == old_answers[j]);
                }
                if matched_names(index[ps[i as int]], candidates@).contains(n) {
                    assert(na[i as int] == candidates@);
                }
            }
        }
    }

    /// The names confirmed so far.
    pub fn matches(&self) -> (r: &StringSet)
        requires
            self.wf(),
        ensures
            r.wf(),
            r@ == found(self.index(), self.prefixes(), self.answers()),
    {
        &self.matches
    }

    /// Once every prefix is answered, each prefix of the index has been
    /// queried exactly once, in ascending order: as many queries as distinct
    /// prefixes.
    pub proof fn lemma_one_query_per_prefix(&self)
        requires
            self.wf(),
            self.done(),
        ensures
            self.queried() == self.prefixes(),
            crate::text::strictly_sorted(self.queried()),
            self.queried().no_duplicates(),
            self.queried().to_set() == self.index().dom(),
            self.answers().len() == self.index().dom().len(),
    {
        self.digests.lemma_ordered();
        assert(self.queried() =~= self.prefixes());
        crate::text::lemma_strictly_sorted_no_duplicates(self.prefixes());
    }
}

/// The prefixes of an index built from credentials are those of their
/// passwords' digests, so there are no more of them than credentials.
pub proof fn lemma_prefixes_of_credentials(creds: Seq<(String, String)>)
    ensures
        indexed(creds).dom() == Set::new(
            |p: Seq<char>|
                exists|i: int|
                    0 <= i < creds.len() && p == crate::digests::prefix_of(
                        password_digest(#[trigger] creds[i].1@),
                    ),
        ),
        indexed(creds).dom().finite(),
        indexed(creds).dom().len() <= creds.len(),
    decreases creds.len(),
{
    if creds.len() > 0 {
        let rest = creds.drop_last();
        lemma_prefixes_of_credentials(rest);
        let c = creds.last();
        let p = crate::digests::prefix_of(password_digest(c.1@));
        assert(indexed(creds).dom() =~= indexed(rest).dom().insert(p));
        assert(indexed(creds).dom() =~= Set::new(
            |q: Seq<char>|
                exists|i: int|
                    0 <= i < creds.len() && q == crate::digests::prefix_of(
                        password_digest(#[trigger] creds[i].1@),
                    ),
        )) by {
            assert forall|q: Seq<char>| indexed(creds).dom().contains(q) <==> exists|i: int|
                    0 <= i < creds.len() && q == crate::digests::prefix_of(
                        password_digest(#[trigger] creds[i].1@),
                    ) by {
                if indexed(rest).dom().contains(q) {
                    let i = choose|i: int|
                        0 <= i < rest.len() && q == crate::digests::prefix_of(
                            password_digest(#[trigger] rest[i].1@),
                        );
                    assert(creds[i] == rest[i]);
                }
                if q == p {
                    assert(creds[creds.len() - 1] == c);
                }
                if exists|i: int|
                    0 <= i < creds.len() && q == crate::digests::prefix_of(
                        password_digest(#[trigger] creds[i].1@),
                    ) {
                    let i = choose|i: int|
                        0 <= i < creds.len() && q == crate::digests::prefix_of(
                            password_digest(#[trigger] creds[i].1@),
                        );
                    if i < creds.len() - 1 {
                        assert(creds[i] == rest[i]);
                    }
                }
            }
        }
    } else {
        assert(indexed(creds).dom() =~= Set::<Seq<char>>::empty());
        assert(Set::new(
            |p: Seq<char>|
                exists|i: int|
                    0 <= i < creds.len() && p == crate::digests::prefix_of(
                        password_digest(#[trigger] creds[i].1@),
                    ),
        ) =~= Set::<Seq<char>>::empty());
    }
}

/// `m` records `name` under `digest`, itself under its prefix.
pub open spec fn records_name(
    m: Map<Seq<char>, Map<Seq<char>, Set<Seq<char>>>>,
    digest: Seq<char>,
    name: Seq<char>,
) -> bool {
    m.contains_key(prefix_of(digest)) && m[prefix_of(digest)].contains_key(digest)
        && m[prefix_of(digest)][digest].contains(name)
}

/// Some credential of `creds` has name `name` and a password whose digest
/// is `digest`.
pub open spec fn has_credential(creds: Seq<(String, String)>, digest: Seq<char>, name: Seq<char>) -> bool {
    exists|i: int|
        0 <= i < creds.len() && creds[i].0@ == name && #[trigger] password_digest(creds[i].1@) == digest
}

proof fn lemma_upserted_records(
    m: Map<Seq<char>, Map<Seq<char>, Set<Seq<char>>>>,
    d0: Seq<char>,
    n0: Seq<char>,
    d: Seq<char>,
    n: Seq<char>,
)
    ensures
        records_name(upserted(m, d0, n0), d, n) <==> records_name(m, d, n) || (d == d0 && n == n0),
{
}

/// The index of `creds` records exactly the name of each credential under
/// the digest of its password.
pub proof fn lemma_indexed_records(creds: Seq<(String, String)>, digest: Seq<char>, name: Seq<char>)
    ensures
        records_name(indexed(creds), digest, name) <==> has_credential(creds, digest, name),
    decreases creds.len(),
{
    if creds.len() > 0 {
        let rest = creds.drop_last();
        let c = creds.last();
        lemma_indexed_records(rest, digest, name);
        lemma_upserted_records(indexed(rest), password_digest(c.1@), c.0@, digest, name);
        if has_credential(rest, digest, name) {
            let i = choose|i: int|
                0 <= i < rest.len() && rest[i].0@ == name && #[trigger] password_digest(rest[i].1@) == digest;
            assert(creds[i] == rest[i]);
        }
        if has_credential(creds, digest, name) {
            let i = choose|i: int|
                0 <= i < creds.len() && creds[i].0@ == name && #[trigger] password_digest(creds[i].1@) == digest;
            if i < creds.len() - 1 {
                assert(creds[i] == rest[i]);
            }
        }
        if password_digest(c.1@) == digest && c.0@ == name {
            assert(creds[creds.len() - 1] == c);
        }
    }
}

impl Scan {
    /// Once every prefix of the index of `creds` is answered, a name is
    /// matched exactly when one of its credentials has a password whose
    /// digest the answer for that digest's prefix lists.
    pub proof fn lemma_matches_are_breached(&self, creds: Seq<(String, String)>, name: Seq<char>)
        requires
            self.wf(),
            self.done(),
            self.index() == indexed(creds),
        ensures
            found(self.index(), self.prefixes(), self.answers()).contains(name) <==> exists|i: int, j: int|
                0 <= i < creds.len() && 0 <= j < self.prefixes().len() && creds[i].0@ == name
                    && self.prefixes()[j] == prefix_of(password_digest(#[trigger] creds[i].1@))
                    && #[trigger] self.answers()[j].contains(password_digest(creds[i].1@)),
    {
        let index = self.index();
        let ps = self.prefixes();
        let ans = self.answers();
        self.digests.lemma_ordered();
        if found(index, ps, ans).contains(name) {
            let j = choose|j: int| 0 <= j < ans.len() && #[trigger] matched_names(index[ps[j]], ans[j]).contains(name);
            let d = choose|d: Seq<char>|
                index[ps[j]].contains_key(d) && ans[j].contains(d) && #[trigger] index[ps[j]][d].contains(name);
            assert(ps.to_set().contains(ps[j]));
            assert(prefix_of(d) == ps[j]);
            assert(records_name(index, d, name));
            lemma_indexed_records(creds, d, name);
            let i = choose|i: int|
                0 <= i < creds.len() && creds[i].0@ == name && #[trigger] password_digest(creds[i].1@) == d;
            assert(self.answers()[j].contains(password_digest(creds[i].1@)));
        }
        if exists|i: int, j: int|
            0 <= i < creds.len() && 0 <= j < self.prefixes().len() && creds[i].0@ == name
                && self.prefixes()[j] == prefix_of(password_digest(#[trigger] creds[i].1@))
                && #[trigger] self.answers()[j].contains(password_digest(creds[i].1@)) {
            let (i, j) = choose|i: int, j: int|
                0 <= i < creds.len() && 0 <= j < self.prefixes().len() && creds[i].0@ == name
                    && self.prefixes()[j] == prefix_of(password_digest(#[trigger] creds[i].1@))
                    && #[trigger] self.answers()[j].contains(password_digest(creds[i].1@));
            let d = password_digest(creds[i].1@);
            assert(has_credential(creds, d, name));
            lemma_indexed_records(creds, d, name);
            assert(index[ps[j]][d].contains(name));
            assert(matched_names(index[ps[j]], ans[j]).contains(name));
        }
    }
}

} // verus!
