//! Realm topology: the realm list fetched at startup, and the grouping of
//! realms that share one auction house.
//!
//! Every realm reports the ordered member list of its connected-realm cluster.
//! Grouping takes each realm's list as a candidate group, sorts the candidates
//! by their first slug — the group's canonical lead — and collapses adjacent
//! groups with equal leads. The result relies on every member of a cluster
//! reporting the identical ordered list, an externally imposed invariant that
//! is deliberately not validated here.

use vstd::prelude::*;

verus! {

/// The content we care about in the realm status response.
pub struct RealmInfo {
    pub name: String,
    pub slug: String,
    pub connected_realms: Vec<String>,
}

/// A well-formed response missing an expected field: a violated external
/// contract, treated as fatal by the caller rather than retried.
#[derive(Clone, Copy, PartialEq, Eq, Structural, Debug)]
pub enum DataIntegrityError {
    MissingRealmList,
}

/// Lexicographic order on slugs, by code point.
pub open spec fn lex_le(a: Seq<char>, b: Seq<char>) -> bool
    decreases a.len(),
{
    if a.len() == 0 {
        true
    } else if b.len() == 0 {
        false
    } else if a[0] == b[0] {
        lex_le(a.skip(1), b.skip(1))
    } else {
        (a[0] as int) < (b[0] as int)
    }
}

pub proof fn lemma_lex_le_total(a: Seq<char>, b: Seq<char>)
    ensures
        lex_le(a, b) || lex_le(b, a),
    decreases a.len(),
{
    if a.len() == 0 {
    } else if b.len() == 0 {
    } else if a[0] == b[0] {
        lemma_lex_le_total(a.skip(1), b.skip(1));
    } else {
        assert((a[0] as int) != (b[0] as int));
        if (a[0] as int) < (b[0] as int) {
            assert(lex_le(a, b));
        } else {
            assert(lex_le(b, a));
        }
    }
}

pub proof fn lemma_lex_le_antisym(a: Seq<char>, b: Seq<char>)
    requires
        lex_le(a, b),
        lex_le(b, a),
    ensures
        a == b,
    decreases a.len(),
{
    if a.len() == 0 {
        assert(a =~= b);
    } else {
        assert(a[0] == b[0]);
        lemma_lex_le_antisym(a.skip(1), b.skip(1));
        assert(a =~= b) by {
            assert(forall|i: int| 1 <= i < a.len() ==> a[i] == a.skip(1)[i - 1]);
            assert(forall|i: int| 1 <= i < b.len() ==> b[i] == b.skip(1)[i - 1]);
        }
    }
}

pub proof fn lemma_lex_le_trans(a: Seq<char>, b: Seq<char>, c: Seq<char>)
    requires
        lex_le(a, b),
        lex_le(b, c),
    ensures
        lex_le(a, c),
    decreases a.len(),
{
    if a.len() > 0 && b.len() > 0 && c.len() > 0 {
        if a[0] == b[0] && b[0] == c[0] {
            lemma_lex_le_trans(a.skip(1), b.skip(1), c.skip(1));
        }
    }
}

/// The canonical lead of a candidate group: its first slug.
pub open spec fn group_lead(g: Seq<Seq<char>>) -> Seq<char> {
    g[0]
}

/// Candidate groups ordered by lead slug.
pub open spec fn sorted_groups(s: Seq<Seq<Seq<char>>>) -> bool {
    forall|i: int, j: int|
        0 <= i < j < s.len() ==> lex_le(group_lead(#[trigger] s[i]), group_lead(#[trigger] s[j]))
}

/// Strictly ordered by lead slug: ordered, with no two leads equal.
pub open spec fn strictly_sorted_groups(s: Seq<Seq<Seq<char>>>) -> bool {
    forall|i: int, j: int|
        0 <= i < j < s.len() ==> lex_le(group_lead(#[trigger] s[i]), group_lead(#[trigger] s[j]))
            && group_lead(s[i]) != group_lead(s[j])
}

/// Stable insertion by lead slug: the new group goes after every group whose
/// lead orders at or before its own.
pub open spec fn insert_group(s: Seq<Seq<Seq<char>>>, g: Seq<Seq<char>>) -> Seq<Seq<Seq<char>>>
    decreases s.len(),
{
    if s.len() == 0 {
        seq![g]
    } else if lex_le(group_lead(s.last()), group_lead(g)) {
        s.push(g)
    } else {
        insert_group(s.drop_last(), g).push(s.last())
    }
}

/// Stable sort of the candidate groups by lead slug.
pub open spec fn sort_groups(s: Seq<Seq<Seq<char>>>) -> Seq<Seq<Seq<char>>>
    decreases s.len(),
{
    if s.len() == 0 {
        Seq::empty()
    } else {
        insert_group(sort_groups(s.drop_last()), s.last())
    }
}

/// Collapses adjacent groups with equal leads, keeping the first of each run.
pub open spec fn dedup_by_lead(s: Seq<Seq<Seq<char>>>) -> Seq<Seq<Seq<char>>>
    decreases s.len(),
{
    if s.len() <= 1 {
        s
    } else {
        let rest = dedup_by_lead(s.drop_last());
        if group_lead(s.last()) == group_lead(rest.last()) {
            rest
        } else {
            rest.push(s.last())
        }
    }
}

/// The whole grouping pass: sort candidate groups by lead, then collapse
/// adjacent equal-leaded groups.
pub open spec fn process_groups(sets: Seq<Seq<Seq<char>>>) -> Seq<Seq<Seq<char>>> {
    dedup_by_lead(sort_groups(sets))
}

proof fn lemma_insert_group_elems(s: Seq<Seq<Seq<char>>>, g: Seq<Seq<char>>, i: int)
    requires
        0 <= i < insert_group(s, g).len(),
    ensures
        insert_group(s, g)[i] == g || exists|j: int|
            0 <= j < s.len() && s[j] == insert_group(s, g)[i],
    decreases s.len(),
{
    if s.len() == 0 {
    } else if lex_le(group_lead(s.last()), group_lead(g)) {
        if i < s.len() {
            assert(s[i] == insert_group(s, g)[i]);
        }
    } else {
        let inner = insert_group(s.drop_last(), g);
        if i < inner.len() {
            lemma_insert_group_elems(s.drop_last(), g, i);
            if inner[i] != g {
                let j = choose|j: int| 0 <= j < s.drop_last().len() && s.drop_last()[j] == inner[i];
                assert(s[j] == insert_group(s, g)[i]);
            }
        } else {
            assert(s[s.len() - 1] == insert_group(s, g)[i]);
        }
    }
}

proof fn lemma_insert_group_sorted(s: Seq<Seq<Seq<char>>>, g: Seq<Seq<char>>)
    requires
        sorted_groups(s),
    ensures
        sorted_groups(insert_group(s, g)),
        insert_group(s, g).len() == s.len() + 1,
    decreases s.len(),
{
    if s.len() == 0 {
    } else if lex_le(group_lead(s.last()), group_lead(g)) {
        assert forall|i: int| 0 <= i < s.len() implies lex_le(
            group_lead(s[i]),
            group_lead(g),
        ) by {
            if i < s.len() - 1 {
                lemma_lex_le_trans(group_lead(s[i]), group_lead(s.last()), group_lead(g));
            }
        }
    } else {
        lemma_lex_le_total(group_lead(s.last()), group_lead(g));
        assert(sorted_groups(s.drop_last()));
        lemma_insert_group_sorted(s.drop_last(), g);
        let inner = insert_group(s.drop_last(), g);
        assert forall|i: int| 0 <= i < inner.len() implies lex_le(
            group_lead(inner[i]),
            group_lead(s.last()),
        ) by {
            lemma_insert_group_elems(s.drop_last(), g, i);
            if inner[i] != g {
                let j = choose|j: int| 0 <= j < s.drop_last().len() && s.drop_last()[j] == inner[i];
                assert(lex_le(group_lead(s[j]), group_lead(s.last())));
            }
        }
    }
}

proof fn lemma_sort_groups_sorted(s: Seq<Seq<Seq<char>>>)
    ensures
        sorted_groups(sort_groups(s)),
        sort_groups(s).len() == s.len(),
    decreases s.len(),
{
    if s.len() > 0 {
        lemma_sort_groups_sorted(s.drop_last());
        lemma_insert_group_sorted(sort_groups(s.drop_last()), s.last());
    }
}

/// Sorting an already ordered candidate list leaves it unchanged.
proof fn lemma_sort_sorted_id(s: Seq<Seq<Seq<char>>>)
    requires
        sorted_groups(s),
    ensures
        sort_groups(s) == s,
    decreases s.len(),
{
    if s.len() > 0 {
        assert(sorted_groups(s.drop_last()));
        lemma_sort_sorted_id(s.drop_last());
        if s.len() == 1 {
            assert(sort_groups(s) =~= s);
        } else {
            assert(lex_le(group_lead(s.drop_last().last()), group_lead(s.last())));
            assert(sort_groups(s) =~= s);
        }
    }
}

proof fn lemma_dedup_last(s: Seq<Seq<Seq<char>>>)
    requires
        s.len() > 0,
    ensures
        dedup_by_lead(s).len() > 0,
        group_lead(dedup_by_lead(s).last()) == group_lead(s.last()),
    decreases s.len(),
{
    if s.len() > 1 {
        lemma_dedup_last(s.drop_last());
    }
}

proof fn lemma_dedup_elems(s: Seq<Seq<Seq<char>>>, i: int)
    requires
        0 <= i < dedup_by_lead(s).len(),
    ensures
        exists|j: int| 0 <= j < s.len() && s[j] == dedup_by_lead(s)[i],
    decreases s.len(),
{
    if s.len() <= 1 {
        assert(s[i] == dedup_by_lead(s)[i]);
    } else {
        let rest = dedup_by_lead(s.drop_last());
        if i < rest.len() {
            lemma_dedup_elems(s.drop_last(), i);
            let j = choose|j: int| 0 <= j < s.drop_last().len() && s.drop_last()[j] == rest[i];
            assert(s[j] == dedup_by_lead(s)[i]);
        } else {
            assert(s[s.len() - 1] == dedup_by_lead(s)[i]);
        }
    }
}

/// Collapsing an ordered candidate list yields strictly increasing leads.
proof fn lemma_dedup_sorted_strict(s: Seq<Seq<Seq<char>>>)
    requires
        sorted_groups(s),
    ensures
        strictly_sorted_groups(dedup_by_lead(s)),
    decreases s.len(),
{
    if s.len() > 1 {
        let prefix = s.drop_last();
        assert(sorted_groups(prefix));
        lemma_dedup_sorted_strict(prefix);
        lemma_dedup_last(prefix);
        let rest = dedup_by_lead(prefix);
        if group_lead(s.last()) == group_lead(rest.last()) {
        } else {
            assert forall|i: int| 0 <= i < rest.len() implies lex_le(
                group_lead(rest[i]),
                group_lead(s.last()),
            ) && group_lead(rest[i]) != group_lead(s.last()) by {
                lemma_dedup_elems(prefix, i);
                let j = choose|j: int| 0 <= j < prefix.len() && prefix[j] == rest[i];
                assert(lex_le(group_lead(s[j]), group_lead(s[s.len() - 1])));
                if group_lead(rest[i]) == group_lead(s.last()) {
                    if i < rest.len() - 1 {
                        assert(lex_le(group_lead(rest[i]), group_lead(rest.last())));
                        assert(lex_le(
                            group_lead(rest.last()),
                            group_lead(prefix.last()),
                        )) by {
                            assert(group_lead(rest.last()) == group_lead(prefix.last()));
                            lemma_lex_le_total(group_lead(rest.last()), group_lead(rest.last()));
                        }
                        lemma_lex_le_trans(
                            group_lead(s.last()),
                            group_lead(rest.last()),
                            group_lead(prefix.last()),
                        );
                        assert(lex_le(group_lead(prefix.last()), group_lead(s.last())));
                        lemma_lex_le_antisym(group_lead(rest.last()), group_lead(s.last()));
                    }
                }
            }
        }
    }
}

/// Collapsing a strictly ordered candidate list leaves it unchanged.
proof fn lemma_dedup_strict_id(s: Seq<Seq<Seq<char>>>)
    requires
        strictly_sorted_groups(s),
    ensures
        dedup_by_lead(s) == s,
    decreases s.len(),
{
    if s.len() > 1 {
        assert(strictly_sorted_groups(s.drop_last()));
        lemma_dedup_strict_id(s.drop_last());
        lemma_dedup_last(s.drop_last());
        assert(group_lead(s[s.len() - 2]) != group_lead(s[s.len() - 1]));
        assert(dedup_by_lead(s) =~= s);
    }
}

/// Grouping is idempotent: feeding the deduplicated group list back through
/// the grouping pass returns it unchanged.
pub proof fn lemma_process_groups_idempotent(sets: Seq<Seq<Seq<char>>>)
    ensures
        process_groups(process_groups(sets)) == process_groups(sets),
{
    lemma_sort_groups_sorted(sets);
    lemma_dedup_sorted_strict(sort_groups(sets));
    let d = process_groups(sets);
    assert(sorted_groups(d));
    lemma_sort_sorted_id(d);
    lemma_dedup_strict_id(d);
}

/// No two output groups share a lead slug.
pub proof fn lemma_process_groups_leads_distinct(sets: Seq<Seq<Seq<char>>>)
    ensures
        forall|i: int, j: int|
            0 <= i < j < process_groups(sets).len() ==> group_lead(process_groups(sets)[i])
                != group_lead(process_groups(sets)[j]),
{
    lemma_sort_groups_sorted(sets);
    lemma_dedup_sorted_strict(sort_groups(sets));
}

/// On an ordered candidate list, insertion lands exactly before the first
/// group whose lead orders strictly after the new group's lead.
proof fn lemma_insert_group_split(s: Seq<Seq<Seq<char>>>, g: Seq<Seq<char>>, j: int)
    requires
        sorted_groups(s),
        0 <= j <= s.len(),
        forall|k: int| 0 <= k < j ==> lex_le(group_lead(#[trigger] s[k]), group_lead(g)),
        j < s.len() ==> !lex_le(group_lead(s[j]), group_lead(g)),
    ensures
        insert_group(s, g) == s.take(j) + seq![g] + s.skip(j),
    decreases s.len(),
{
    if s.len() == 0 {
        assert(insert_group(s, g) =~= s.take(j) + seq![g] + s.skip(j));
    } else if lex_le(group_lead(s.last()), group_lead(g)) {
        assert(j == s.len()) by {
            if j < s.len() {
                if j < s.len() - 1 {
                    lemma_lex_le_trans(
                        group_lead(s[j]),
                        group_lead(s[s.len() - 1]),
                        group_lead(g),
                    );
                }
            }
        }
        assert(insert_group(s, g) =~= s.take(j) + seq![g] + s.skip(j));
    } else {
        assert(j < s.len());
        assert(sorted_groups(s.drop_last()));
        lemma_insert_group_split(s.drop_last(), g, j);
        assert(insert_group(s, g) =~= s.take(j) + seq![g] + s.skip(j)) by {
            assert(s.drop_last().take(j) =~= s.take(j));
            assert(s.drop_last().skip(j).push(s.last()) =~= s.skip(j));
        }
    }
}

/// The realm list mapped to its candidate groups: each realm's reported
/// connected-realm slug list.
pub open spec fn realm_sets_of(realms: Seq<RealmInfo>) -> Seq<Seq<Seq<char>>> {
    realms.map_values(|ri: RealmInfo| ri.connected_realms.deep_view())
}

/// Relies on `str`'s `Ord`: string slices order lexicographically by byte,
/// which for UTF-8 text coincides with lexicographic order by code point.
#[verifier::external_body]
fn slug_le(a: &String, b: &String) -> (r: bool)
    ensures
        r == lex_le(a@, b@),
{
    a <= b
}

fn clone_slugs(v: &Vec<String>) -> (r: Vec<String>)
    ensures
        r@ == v@,
{
    let mut r: Vec<String> = Vec::new();
    let n = v.len();
    for i in 0..n
        invariant
            n == v@.len(),
            r@.len() == i,
            forall|j: int| 0 <= j < i ==> r@[j] == v@[j],
    {
        r.push(v[i].clone());
    }
    proof {
        assert(r@ =~= v@);
    }
    r
}

/// Groups the realm list into deduplicated auction-house groups: one ordered
/// slug list per shared auction house, identified by its lead slug.
pub fn process_realm_sets(realm_infos: &Vec<RealmInfo>) -> (r: Vec<Vec<String>>)
    requires
        forall|i: int|
            0 <= i < realm_infos@.len() ==> (#[trigger] realm_infos@[i]).connected_realms@.len()
                > 0,
    ensures
        r.deep_view() == process_groups(realm_sets_of(realm_infos@)),
        forall|i: int| 0 <= i < r@.len() ==> (#[trigger] r@[i])@.len() > 0,
{
    let ghost sets = realm_sets_of(realm_infos@);
    let mut sorted: Vec<Vec<String>> = Vec::new();
    let n = realm_infos.len();
    for i in 0..n
        invariant
            n == realm_infos@.len(),
            sets == realm_sets_of(realm_infos@),
            forall|k: int|
                0 <= k < realm_infos@.len() ==> (
                #[trigger] realm_infos@[k]).connected_realms@.len() > 0,
            sorted.deep_view() == sort_groups(sets.take(i as int)),
            sorted@.len() == i,
            forall|k: int| 0 <= k < sorted@.len() ==> (#[trigger] sorted@[k])@.len() > 0,
    {
        let g = clone_slugs(&realm_infos[i].connected_realms);
        proof {
            assert(sets.take(i + 1).drop_last() =~= sets.take(i as int));
            assert(sets.take(i + 1).last() == sets[i as int]);
            assert(g.deep_view() == realm_infos@[i as int].connected_realms.deep_view());
            lemma_sort_groups_sorted(sets.take(i as int));
        }
        let mut j: usize = 0;
        while j < sorted.len() && slug_le(&sorted[j][0], &g[0])
            invariant
                0 <= j <= sorted@.len(),
                sorted@.len() == i,
                sorted.deep_view() == sort_groups(sets.take(i as int)),
                g.deep_view() == sets[i as int],
                forall|k: int| 0 <= k < sorted@.len() ==> (#[trigger] sorted@[k])@.len() > 0,
                g@.len() > 0,
                forall|k: int|
                    0 <= k < j ==> lex_le(
                        group_lead(#[trigger] sorted.deep_view()[k]),
                        group_lead(g.deep_view()),
                    ),
            decreases sorted@.len() - j,
        {
            j = j + 1;
        }
        proof {
            lemma_insert_group_split(sorted.deep_view(), g.deep_view(), j as int);
        }
        let ghost old_deep = sorted.deep_view();
        let ghost gdv = g.deep_view();
        sorted.insert(j, g);
        proof {
            assert(sorted.deep_view() =~= old_deep.take(j as int) + seq![gdv] + old_deep.skip(
                j as int,
            ));
        }
    }
    proof {
        assert(sets.take(n as int) =~= sets);
    }
    let ghost sg = sort_groups(sets);
    proof {
        lemma_sort_groups_sorted(sets);
    }
    let mut out: Vec<Vec<String>> = Vec::new();
    let m = sorted.len();
    for i in 0..m
        invariant
            m == sorted@.len(),
            sorted.deep_view() == sg,
            sorted_groups(sg),
            out.deep_view() == dedup_by_lead(sg.take(i as int)),
            out@.len() > 0 <==> i > 0,
            forall|k: int| 0 <= k < sorted@.len() ==> (#[trigger] sorted@[k])@.len() > 0,
            forall|k: int| 0 <= k < out@.len() ==> (#[trigger] out@[k])@.len() > 0,
    {
        proof {
            assert(sg.take(i + 1).drop_last() =~= sg.take(i as int));
            assert(sg.take(i + 1).last() == sg[i as int]);
        }
        let g = clone_slugs(&sorted[i]);
        proof {
            assert(g.deep_view() == sorted.deep_view()[i as int]);
        }
        if out.len() == 0 {
            out.push(g);
            proof {
                assert(out.deep_view() =~= sg.take(1));
                assert(dedup_by_lead(sg.take(1)) == sg.take(1));
            }
        } else {
            let last_pos = out.len() - 1;
            let same = out[last_pos][0] == g[0];
            proof {
                assert(out.deep_view()[last_pos as int] == dedup_by_lead(
                    sg.take(i as int),
                ).last());
            }
            if same {
                proof {
                    assert(group_lead(sg.take(i + 1).last()) == group_lead(
                        dedup_by_lead(sg.take(i as int)).last(),
                    ));
                }
            } else {
                let ghost old_deep = out.deep_view();
                let ghost gdv = g.deep_view();
                out.push(g);
                proof {
                    assert(out.deep_view() =~= old_deep.push(gdv));
                }
            }
        }
    }
    proof {
        assert(sg.take(m as int) =~= sg);
    }
    out
}

/// Pulls the realm list out of the realm-status response. A response without
/// the list is a violated external contract: fatal, never retried.
pub fn extract_realms(realm_field: Option<Vec<RealmInfo>>) -> (r: Result<
    Vec<RealmInfo>,
    DataIntegrityError,
>)
    ensures
        match realm_field {
            Some(v) => r == Ok::<Vec<RealmInfo>, DataIntegrityError>(v),
            None => r == Err::<Vec<RealmInfo>, DataIntegrityError>(
                DataIntegrityError::MissingRealmList,
            ),
        },
{
    match realm_field {
        Some(v) => Ok(v),
        None => Err(DataIntegrityError::MissingRealmList),
    }
}

} // verus!
