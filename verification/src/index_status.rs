//! What the status report says of the indexed files: how many files each
//! language has, most files first, and how many symbols they hold.
use vstd::prelude::*;

use crate::analysis::{insert_index, key_sorted, lemma_rank_facts, rank_by_key};
use crate::reindex::{first_occurrences, law_unique_paths, no_repeats};
use crate::text::{str_eq, string_views};
use crate::types::FileMeta;

verus! {

/// The language of each indexed file.
pub open spec fn languages_of(metas: Seq<FileMeta>) -> Seq<Seq<char>> {
    metas.map_values(|m: FileMeta| m.language@)
}

/// How many times `l` occurs in `s`.
pub open spec fn count_in(s: Seq<Seq<char>>, l: Seq<char>) -> nat
    decreases s.len(),
{
    if s.len() == 0 {
        0
    } else {
        count_in(s.drop_last(), l) + if s.last() == l {
            1nat
        } else {
            0nat
        }
    }
}

/// The number of files of each language, languages in the order they first
/// occur.
pub open spec fn file_counts(langs: Seq<Seq<char>>) -> Seq<u64> {
    first_occurrences(langs).map_values(|l: Seq<char>| count_in(langs, l) as u64)
}

/// The language distribution: each language with its number of files, most
/// files first; languages with as many files keep the order in which they
/// first occur.
pub open spec fn distribution(metas: Seq<FileMeta>) -> Seq<(Seq<char>, int)> {
    let langs = languages_of(metas);
    let names = first_occurrences(langs);
    rank_by_key(names.len(), file_counts(langs)).map_values(|i: int| (names[i], count_in(langs, names[i]) as int))
}

/// The contents of a list of counted languages.
pub open spec fn pairs_view(v: Seq<(String, u64)>) -> Seq<(Seq<char>, int)> {
    v.map_values(|p: (String, u64)| (p.0@, p.1 as int))
}

/// A count never exceeds the length.
proof fn lemma_count_bound(s: Seq<Seq<char>>, l: Seq<char>)
    ensures
        count_in(s, l) <= s.len(),
    decreases s.len(),
{
    if s.len() > 0 {
        lemma_count_bound(s.drop_last(), l);
    }
}

/// What does not occur counts zero; what occurs counts at least one.
proof fn lemma_count_presence(s: Seq<Seq<char>>, l: Seq<char>)
    ensures
        count_in(s, l) > 0 <==> s.contains(l),
    decreases s.len(),
{
    if s.len() > 0 {
        let d = s.drop_last();
        lemma_count_presence(d, l);
        if d.contains(l) {
            let k = choose|k: int| 0 <= k < d.len() && d[k] == l;
            assert(s[k] == l);
        }
        if s.contains(l) && s.last() != l {
            let k = choose|k: int| 0 <= k < s.len() && s[k] == l;
            assert(k < s.len() - 1);
            assert(d[k] == l);
        }
        if s.last() == l {
            assert(s[s.len() - 1] == l);
        }
    }
}

/// The distribution lists every language of the indexed files once, with
/// its number of files, most files first.
pub proof fn law_distribution(metas: Seq<FileMeta>)
    requires
        metas.len() <= u64::MAX,
    ensures
        forall|i: int, j: int|
            0 <= i < j < distribution(metas).len() ==> #[trigger] distribution(metas)[i].1 >= #[trigger] distribution(metas)[j].1,
        forall|i: int, j: int|
            0 <= i < j < distribution(metas).len() ==> #[trigger] distribution(metas)[i].0 != #[trigger] distribution(metas)[j].0,
        forall|i: int|
            0 <= i < distribution(metas).len() ==> #[trigger] distribution(metas)[i].1 == count_in(
                languages_of(metas),
                distribution(metas)[i].0,
            ),
        forall|l: Seq<char>|
            languages_of(metas).contains(l) <==> exists|i: int|
                0 <= i < distribution(metas).len() && #[trigger] distribution(metas)[i].0 == l,
{
    broadcast use vstd::seq_lib::group_to_multiset_ensures;
    let langs = languages_of(metas);
    let names = first_occurrences(langs);
    let keys = file_counts(langs);
    let n = names.len();
    let r = rank_by_key(n, keys);
    let d = distribution(metas);
    law_unique_paths(langs);
    lemma_rank_facts(n, keys);
    assert(d.len() == n);
    assert forall|i: int| 0 <= i < n implies 0 <= #[trigger] r[i] < n by {
        assert(r.to_multiset().count(r[i]) > 0);
    }
    assert forall|i: int| 0 <= i < n implies #[trigger] keys[i] == count_in(langs, names[i]) by {
        assert(names.contains(names[i]));
        assert(langs.contains(names[i]));
        lemma_count_bound(langs, names[i]);
    }
    assert forall|i: int, j: int| 0 <= i < j < d.len() implies #[trigger] d[i].1 >= #[trigger] d[j].1 by {
        assert(keys[r[i]] >= keys[r[j]]);
    }
    assert forall|i: int, j: int| 0 <= i < j < d.len() implies #[trigger] d[i].0 != #[trigger] d[j].0 by {
        if r[i] == r[j] {
            let v = r[i];
            assert(r.to_multiset().count(v) == 1);
            assert(r.to_multiset() =~= r.drop_last().to_multiset().insert(r.last())) by {
                broadcast use vstd::seq_lib::group_to_multiset_ensures;
                assert(r.drop_last().push(r.last()) =~= r);
            }
            lemma_two_places(r, i, j);
        }
        if r[i] < r[j] {
            assert(no_repeats(names));
        } else if r[j] < r[i] {
            assert(no_repeats(names));
        }
    }
    assert forall|l: Seq<char>| langs.contains(l) implies exists|i: int|
        0 <= i < d.len() && #[trigger] d[i].0 == l by {
        assert(names.contains(l));
        let k = choose|k: int| 0 <= k < names.len() && names[k] == l;
        assert(r.to_multiset().count(k) == 1);
        assert(r.contains(k)) by {
            broadcast use vstd::seq_lib::group_to_multiset_ensures;
        }
        let i = choose|i: int| 0 <= i < r.len() && r[i] == k;
        assert(d[i].0 == l);
    }
    assert forall|l: Seq<char>| (exists|i: int| 0 <= i < d.len() && #[trigger] d[i].0 == l) implies langs.contains(l) by {
        let i = choose|i: int| 0 <= i < d.len() && #[trigger] d[i].0 == l;
        assert(names.contains(names[r[i]]));
    }
}

/// A value at two places of a sequence counts at least twice.
proof fn lemma_two_places(s: Seq<int>, i: int, j: int)
    requires
        0 <= i < j < s.len(),
        s[i] == s[j],
    ensures
        s.to_multiset().count(s[i]) >= 2,
    decreases s.len(),
{
    broadcast use vstd::seq_lib::group_to_multiset_ensures;
    let d = s.drop_last();
    assert(d.push(s.last()) =~= s);
    if j == s.len() - 1 {
        assert(d[i] == s[i]);
        assert(d.contains(s[i]));
    } else {
        assert(d[i] == s[i] && d[j] == s[j]);
        lemma_two_places(d, i, j);
    }
}

/// The language distribution of the indexed files (see `distribution`).
pub fn language_distribution(metas: &[FileMeta]) -> (r: Vec<(String, u64)>)
    ensures
        pairs_view(r@) == distribution(metas@),
{
    let ghost langs = languages_of(metas@);
    let mut names: Vec<String> = Vec::new();
    let mut counts: Vec<u64> = Vec::new();
    let mut i: usize = 0;
    proof {
        assert(langs.take(0) =~= Seq::<Seq<char>>::empty());
        assert(string_views(names@) =~= Seq::<Seq<char>>::empty());
    }
    while i < metas.len()
        invariant
            i <= metas.len(),
            langs == languages_of(metas@),
            names.len() == counts.len(),
            string_views(names@) == first_occurrences(langs.take(i as int)),
            forall|j: int| 0 <= j < counts.len() ==> #[trigger] counts@[j] == count_in(langs.take(i as int), names@[j]@),
        decreases metas.len() - i,
    {
        let lang = &metas[i].language;
        let ghost prefix = langs.take(i as int);
        let ghost nv = string_views(names@);
        proof {
            law_unique_paths(prefix);
            assert(langs.take(i + 1) =~= prefix.push(lang@));
            assert(langs.take(i + 1).drop_last() =~= prefix);
        }
        let mut pos: Option<usize> = None;
        let mut j: usize = 0;
        while j < names.len()
            invariant
                j <= names.len(),
                nv == string_views(names@),
                pos is None ==> forall|k: int| 0 <= k < j ==> #[trigger] nv[k] != lang@,
                pos matches Some(p) ==> p < names.len() && nv[p as int] == lang@,
            decreases names.len() - j,
        {
            if pos.is_none() && str_eq(names[j].as_str(), lang.as_str()) {
                pos = Some(j);
            }
            proof {
                assert(nv[j as int] == names@[j as int]@);
            }
            j = j + 1;
        }
        match pos {
            Some(p) => {
                proof {
                    assert(nv.contains(lang@));
                    lemma_count_bound(prefix, lang@);
                    assert forall|k: int| 0 <= k < counts.len() && k != p implies nv[k] != lang@ by {
                        assert(nv[k] == names@[k]@);
                        assert(no_repeats(nv));
                    }
                }
                let c = counts[p];
                counts.set(p, c + 1);
                proof {
                    assert forall|k: int| 0 <= k < counts.len() implies #[trigger] counts@[k] == count_in(
                        langs.take(i + 1),
                        names@[k]@,
                    ) by {
                        assert(nv[k] == names@[k]@);
                    }
                }
            },
            None => {
                proof {
                    assert(!nv.contains(lang@)) by {
                        if nv.contains(lang@) {
                            let k = choose|k: int| 0 <= k < nv.len() && nv[k] == lang@;
                        }
                    }
                    assert(!prefix.contains(lang@));
                    lemma_count_presence(prefix, lang@);
                }
                names.push(lang.clone());
                counts.push(1);
                proof {
                    assert(string_views(names@) =~= nv.push(lang@));
                    assert forall|k: int| 0 <= k < counts.len() implies #[trigger] counts@[k] == count_in(
                        langs.take(i + 1),
                        names@[k]@,
                    ) by {
                        if k < nv.len() {
                            assert(nv[k] == names@[k]@);
                            assert(nv.contains(nv[k]));
                        }
                    }
                }
            },
        }
        i = i + 1;
    }
    proof {
        assert(langs.take(i as int) =~= langs);
        assert forall|k: int| 0 <= k < counts.len() implies #[trigger] counts@[k] == file_counts(langs)[k] by {
            assert(string_views(names@)[k] == names@[k]@);
            lemma_count_bound(langs, names@[k]@);
        }
        assert(counts@ =~= file_counts(langs));
    }
    let mut order: Vec<usize> = Vec::new();
    let mut k: usize = 0;
    proof {
        assert(order@.map_values(|x: usize| x as int) =~= Seq::<int>::empty());
    }
    while k < counts.len()
        invariant
            k <= counts.len(),
            forall|t: int| 0 <= t < order.len() ==> (#[trigger] order@[t]) < counts.len(),
            order@.map_values(|x: usize| x as int) == rank_by_key(k as nat, counts@),
        decreases counts.len() - k,
    {
        insert_index(&mut order, k, counts.as_slice());
        k = k + 1;
    }
    let ghost ranked = rank_by_key(counts.len() as nat, counts@);
    let ghost names_v = string_views(names@);
    let mut r: Vec<(String, u64)> = Vec::new();
    let mut t: usize = 0;
    proof {
        assert(pairs_view(r@) =~= Seq::<(Seq<char>, int)>::empty());
    }
    while t < order.len()
        invariant
            t <= order.len(),
            names.len() == counts.len(),
            names_v == string_views(names@),
            names_v == first_occurrences(langs),
            counts@ == file_counts(langs),
            forall|q: int| 0 <= q < order.len() ==> (#[trigger] order@[q]) < counts.len(),
            order@.map_values(|x: usize| x as int) == ranked,
            ranked == rank_by_key(names_v.len(), file_counts(langs)),
            forall|q: int| 0 <= q < counts.len() ==> #[trigger] counts@[q] == count_in(langs, names@[q]@),
            pairs_view(r@) == ranked.take(t as int).map_values(|x: int| (names_v[x], count_in(langs, names_v[x]) as int)),
        decreases order.len() - t,
    {
        let idx = order[t];
        proof {
            assert(ranked.len() == order.len());
            assert(pairs_view(r@).len() == t);
            assert(r@.len() == t);
            assert(ranked[t as int] == idx as int);
            assert(names_v[idx as int] == names@[idx as int]@);
        }
        let ghost before = pairs_view(r@);
        let ghost f = |x: int| (names_v[x], count_in(langs, names_v[x]) as int);
        let name = names[idx].clone();
        r.push((name, counts[idx]));
        proof {
            assert(name@ == names@[idx as int]@);
            assert(counts@[idx as int] == count_in(langs, names@[idx as int]@));
            assert(pairs_view(r@) =~= before.push(f(idx as int)));
            assert(ranked.take(t + 1) =~= ranked.take(t as int).push(ranked[t as int]));
            assert(ranked.take(t + 1).map_values(f) =~= ranked.take(t as int).map_values(f).push(f(ranked[t as int])));
            assert(pairs_view(r@) =~= ranked.take(t + 1).map_values(
                |x: int| (names_v[x], count_in(langs, names_v[x]) as int),
            ));
        }
        t = t + 1;
    }
    proof {
        assert(ranked.take(t as int) =~= ranked);
    }
    r
}

/// The symbols held by all the indexed files.
pub open spec fn total_symbols(metas: Seq<FileMeta>) -> int
    decreases metas.len(),
{
    if metas.len() == 0 {
        0
    } else {
        total_symbols(metas.drop_last()) + metas.last().symbol_count
    }
}

/// A prefix never holds more symbols than the whole.
proof fn lemma_prefix_symbols(metas: Seq<FileMeta>, i: int)
    requires
        0 <= i <= metas.len(),
    ensures
        total_symbols(metas.take(i)) <= total_symbols(metas),
    decreases metas.len(),
{
    if i < metas.len() {
        assert(metas.drop_last().take(i) =~= metas.take(i));
        lemma_prefix_symbols(metas.drop_last(), i);
    } else {
        assert(metas.take(i) =~= metas);
    }
}

/// The number of symbols of all the indexed files.
pub fn symbol_total(metas: &[FileMeta]) -> (r: u64)
    requires
        total_symbols(metas@) <= u64::MAX,
    ensures
        r == total_symbols(metas@),
{
    let mut total: u64 = 0;
    let mut i: usize = 0;
    while i < metas.len()
        invariant
            i <= metas.len(),
            total_symbols(metas@) <= u64::MAX,
            total == total_symbols(metas@.take(i as int)),
        decreases metas.len() - i,
    {
        proof {
            assert(metas@.take(i + 1).drop_last() =~= metas@.take(i as int));
            lemma_prefix_symbols(metas@, i + 1);
        }
        total = total + metas[i].symbol_count;
        i = i + 1;
    }
    proof {
        assert(metas@.take(i as int) =~= metas@);
    }
    total
}

} // verus!
