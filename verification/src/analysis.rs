//! The decisions of the offline analysis report: which symbols rank
//! highest by complexity, how complexity is flagged and summed, which
//! symbols dead-code detection looks at and starts from, and how its
//! confidence is worded.
use vstd::prelude::*;

use crate::graph::metrics::CodeMetrics;
use crate::text::{chars_eq, chars_of, string_views};
use crate::types::{Symbol, SymbolKind};

verus! {

/// How many symbols the complexity ranking lists.
pub const RANKING_SIZE: usize = 10;

/// The flag shown after a complexity: red above 30, yellow above 15.
pub open spec fn marker_of(c: u64) -> Seq<char> {
    if c > 30 {
        " 🔴"@
    } else if c > 15 {
        " 🟡"@
    } else {
        ""@
    }
}

/// The flag shown after a complexity (see `marker_of`).
pub fn complexity_marker(c: u64) -> (r: &'static str)
    ensures
        r@ == marker_of(c),
{
    if c > 30 {
        " 🔴"
    } else if c > 15 {
        " 🟡"
    } else {
        ""
    }
}

/// Inserts index `x` after every index whose key is at least its own
/// (scanning from the end).
pub open spec fn insert_by_key(sorted: Seq<int>, x: int, keys: Seq<u64>) -> Seq<int>
    decreases sorted.len(),
{
    if sorted.len() == 0 {
        seq![x]
    } else if keys[sorted.last()] >= keys[x] {
        sorted.push(x)
    } else {
        insert_by_key(sorted.drop_last(), x, keys).push(sorted.last())
    }
}

/// The indices `0..n` stably sorted by key, largest first.
pub open spec fn rank_by_key(n: nat, keys: Seq<u64>) -> Seq<int>
    decreases n,
{
    if n == 0 {
        Seq::empty()
    } else {
        insert_by_key(rank_by_key((n - 1) as nat, keys), n - 1, keys)
    }
}

/// The complexities of a list of metrics.
pub open spec fn complexities(metrics: Seq<CodeMetrics>) -> Seq<u64> {
    metrics.map_values(|m: CodeMetrics| m.cyclomatic_complexity)
}

/// The positions of the most complex symbols, most complex first (equal
/// complexities keep their order), at most `RANKING_SIZE` of them.
pub open spec fn ranking(metrics: Seq<CodeMetrics>) -> Seq<int> {
    let r = rank_by_key(metrics.len(), complexities(metrics));
    if r.len() > RANKING_SIZE { r.take(RANKING_SIZE as int) } else { r }
}

/// Inserts `x` into `v` as `insert_by_key` does.
pub(crate) fn insert_index(v: &mut Vec<usize>, x: usize, keys: &[u64])
    requires
        x < keys.len(),
        forall|i: int| 0 <= i < old(v).len() ==> (#[trigger] old(v)@[i]) < keys.len(),
    ensures
        final(v)@.map_values(|i: usize| i as int) == insert_by_key(old(v)@.map_values(|i: usize| i as int), x as int, keys@),
        forall|i: int| 0 <= i < final(v).len() ==> (#[trigger] final(v)@[i]) < keys.len(),
{
    let ghost s = v@.map_values(|i: usize| i as int);
    let mut j = v.len();
    proof {
        assert(s.take(j as int) =~= s);
        assert(s.skip(j as int) =~= Seq::<int>::empty());
    }
    while j > 0 && !(keys[v[j - 1]] >= keys[x])
        invariant
            j <= v.len(),
            x < keys.len(),
            forall|i: int| 0 <= i < v.len() ==> (#[trigger] v@[i]) < keys.len(),
            s == v@.map_values(|i: usize| i as int),
            insert_by_key(s, x as int, keys@) == insert_by_key(s.take(j as int), x as int, keys@) + s.skip(j as int),
        decreases j,
    {
        proof {
            let t = s.take(j as int);
            assert(t.last() == s[j - 1]);
            assert(s[j - 1] == v@[j - 1] as int);
            assert(t.drop_last() =~= s.take(j - 1));
            assert(seq![s[j - 1]] + s.skip(j as int) =~= s.skip(j - 1));
            assert(insert_by_key(t, x as int, keys@) == insert_by_key(s.take(j - 1), x as int, keys@).push(s[j - 1]));
            assert(insert_by_key(s.take(j - 1), x as int, keys@).push(s[j - 1]) + s.skip(j as int)
                =~= insert_by_key(s.take(j - 1), x as int, keys@) + s.skip(j - 1));
        }
        j = j - 1;
    }
    proof {
        if j > 0 {
            assert(s.take(j as int).last() == s[j - 1]);
            assert(s[j - 1] == v@[j - 1] as int);
        }
        assert(insert_by_key(s.take(j as int), x as int, keys@) =~= s.take(j as int).push(x as int));
    }
    v.insert(j, x);
    proof {
        assert(v@.map_values(|i: usize| i as int) =~= s.take(j as int).push(x as int) + s.skip(j as int));
    }
}

/// The positions of the most complex symbols (see `ranking`).
pub fn complexity_ranking(metrics: &[CodeMetrics]) -> (r: Vec<usize>)
    ensures
        r@.map_values(|i: usize| i as int) == ranking(metrics@),
        key_sorted(ranking(metrics@), complexities(metrics@)),
{
    proof {
        law_ranking_sorted(metrics@);
    }
    let mut keys: Vec<u64> = Vec::new();
    let mut k: usize = 0;
    while k < metrics.len()
        invariant
            k <= metrics.len(),
            keys@ == complexities(metrics@.take(k as int)),
        decreases metrics.len() - k,
    {
        keys.push(metrics[k].cyclomatic_complexity);
        proof {
            assert(keys@ =~= complexities(metrics@.take(k + 1)));
        }
        k = k + 1;
    }
    proof {
        assert(metrics@.take(k as int) =~= metrics@);
    }
    let mut r: Vec<usize> = Vec::new();
    let mut i: usize = 0;
    proof {
        assert(r@.map_values(|i: usize| i as int) =~= Seq::<int>::empty());
    }
    while i < metrics.len()
        invariant
            i <= metrics.len(),
            keys.len() == metrics.len(),
            keys@ == complexities(metrics@),
            forall|j: int| 0 <= j < r.len() ==> (#[trigger] r@[j]) < keys.len(),
            r@.map_values(|i: usize| i as int) == rank_by_key(i as nat, keys@),
        decreases metrics.len() - i,
    {
        insert_index(&mut r, i, keys.as_slice());
        i = i + 1;
    }
    if r.len() > RANKING_SIZE {
        r.truncate(RANKING_SIZE);
        proof {
            assert(r@.map_values(|i: usize| i as int) =~= rank_by_key(metrics@.len(), complexities(metrics@)).take(RANKING_SIZE as int));
        }
    }
    r
}

/// Sum of complexities, and how many exceed 15 and 30.
pub open spec fn complexity_totals(metrics: Seq<CodeMetrics>) -> (int, int, int)
    decreases metrics.len(),
{
    if metrics.len() == 0 {
        (0, 0, 0)
    } else {
        let p = complexity_totals(metrics.drop_last());
        let c = metrics.last().cyclomatic_complexity;
        (p.0 + c, p.1 + if c > 15 { 1int } else { 0 }, p.2 + if c > 30 { 1int } else { 0 })
    }
}

/// A prefix's totals stay within the whole's.
proof fn lemma_totals_prefix(m: Seq<CodeMetrics>, k: int)
    requires
        0 <= k <= m.len(),
    ensures
        0 <= complexity_totals(m.take(k)).0 <= complexity_totals(m).0,
        0 <= complexity_totals(m.take(k)).1 <= k,
        0 <= complexity_totals(m.take(k)).2 <= k,
    decreases m.len() - k,
{
    lemma_totals_nonneg(m.take(k));
    if k < m.len() {
        lemma_totals_prefix(m, k + 1);
        assert(m.take(k + 1).drop_last() =~= m.take(k));
        assert(m.take(k + 1).last() == m[k]);
    } else {
        assert(m.take(k) =~= m);
    }
}

/// Totals are non-negative and counts bounded by the length.
proof fn lemma_totals_nonneg(m: Seq<CodeMetrics>)
    ensures
        complexity_totals(m).0 >= 0,
        0 <= complexity_totals(m).1 <= m.len(),
        0 <= complexity_totals(m).2 <= m.len(),
    decreases m.len(),
{
    if m.len() > 0 {
        lemma_totals_nonneg(m.drop_last());
    }
}

/// The global figures of the report: total complexity, symbols above 15
/// and symbols above 30.
pub fn complexity_summary(metrics: &[CodeMetrics]) -> (r: (u64, usize, usize))
    requires
        complexity_totals(metrics@).0 <= u64::MAX,
    ensures
        r.0 == complexity_totals(metrics@).0,
        r.1 == complexity_totals(metrics@).1,
        r.2 == complexity_totals(metrics@).2,
{
    let mut total: u64 = 0;
    let mut high: usize = 0;
    let mut very_high: usize = 0;
    let mut i: usize = 0;
    while i < metrics.len()
        invariant
            i <= metrics.len(),
            complexity_totals(metrics@).0 <= u64::MAX,
            total == complexity_totals(metrics@.take(i as int)).0,
            high == complexity_totals(metrics@.take(i as int)).1,
            very_high == complexity_totals(metrics@.take(i as int)).2,
        decreases metrics.len() - i,
    {
        proof {
            lemma_totals_prefix(metrics@, i + 1);
            lemma_totals_prefix(metrics@, i as int);
            assert(metrics@.take(i + 1).drop_last() =~= metrics@.take(i as int));
            assert(metrics@.take(i + 1).last() == metrics@[i as int]);
        }
        let c = metrics[i].cyclomatic_complexity;
        total = total + c;
        if c > 15 {
            high = high + 1;
        }
        if c > 30 {
            very_high = very_high + 1;
        }
        i = i + 1;
    }
    proof {
        assert(metrics@.take(i as int) =~= metrics@);
    }
    (total, high, very_high)
}

/// A function or method: the symbols dead-code detection looks at.
pub open spec fn is_callable(s: Symbol) -> bool {
    s.kind is Function || s.kind is Method
}

/// The ids of the callable symbols, in order.
pub open spec fn callable_ids(symbols: Seq<Symbol>) -> Seq<Seq<char>>
    decreases symbols.len(),
{
    if symbols.len() == 0 {
        Seq::empty()
    } else {
        let prev = callable_ids(symbols.drop_last());
        if is_callable(symbols.last()) { prev.push(symbols.last().id@) } else { prev }
    }
}

/// The callable symbols a walk starts from: those named `main` and the
/// exported ones.
pub open spec fn declared_entries(symbols: Seq<Symbol>) -> Seq<Seq<char>>
    decreases symbols.len(),
{
    if symbols.len() == 0 {
        Seq::empty()
    } else {
        let prev = declared_entries(symbols.drop_last());
        let s = symbols.last();
        if is_callable(s) && (s.name@ == "main"@ || s.is_exported) { prev.push(s.id@) } else { prev }
    }
}

/// The entry points: the declared ones, else the first callable symbol.
pub open spec fn entry_points(symbols: Seq<Symbol>) -> Seq<Seq<char>> {
    let d = declared_entries(symbols);
    if d.len() > 0 {
        d
    } else if callable_ids(symbols).len() > 0 {
        seq![callable_ids(symbols)[0]]
    } else {
        Seq::empty()
    }
}

/// The ids dead-code detection looks at and the ids it starts from (see
/// `callable_ids` and `entry_points`).
pub fn dead_code_inputs(symbols: &[Symbol]) -> (r: (Vec<String>, Vec<String>))
    ensures
        string_views(r.0@) == callable_ids(symbols@),
        string_views(r.1@) == entry_points(symbols@),
{
    let main_chars = chars_of("main");
    let mut ids: Vec<String> = Vec::new();
    let mut entries: Vec<String> = Vec::new();
    let mut i: usize = 0;
    proof {
        assert(symbols@.take(0) =~= Seq::<Symbol>::empty());
        assert(string_views(ids@) =~= Seq::<Seq<char>>::empty());
        assert(string_views(entries@) =~= Seq::<Seq<char>>::empty());
    }
    while i < symbols.len()
        invariant
            i <= symbols.len(),
            main_chars@ == "main"@,
            string_views(ids@) == callable_ids(symbols@.take(i as int)),
            string_views(entries@) == declared_entries(symbols@.take(i as int)),
        decreases symbols.len() - i,
    {
        let s = &symbols[i];
        proof {
            assert(symbols@.take(i + 1).drop_last() =~= symbols@.take(i as int));
            assert(symbols@.take(i + 1).last() == *s);
        }
        let callable = match s.kind {
            SymbolKind::Function => true,
            SymbolKind::Method => true,
            _ => false,
        };
        if callable {
            let ghost b = string_views(ids@);
            ids.push(s.id.clone());
            proof {
                assert(string_views(ids@) =~= b.push(s.id@));
            }
            let nm = chars_of(s.name.as_str());
            if chars_eq(nm.as_slice(), main_chars.as_slice()) || s.is_exported {
                let ghost e = string_views(entries@);
                entries.push(s.id.clone());
                proof {
                    assert(string_views(entries@) =~= e.push(s.id@));
                }
            }
        }
        i = i + 1;
    }
    proof {
        assert(symbols@.take(i as int) =~= symbols@);
    }
    if entries.len() == 0 && ids.len() > 0 {
        let first = ids[0].clone();
        entries.push(first);
        proof {
            assert(string_views(ids@)[0] == ids@[0]@);
            assert(string_views(entries@) =~= seq![callable_ids(symbols@)[0]]);
        }
    } else {
        proof {
            assert(string_views(entries@).len() == entries.len());
            assert(string_views(ids@).len() == ids.len());
        }
    }
    (ids, entries)
}

/// The wording of a dead-code confidence: high from 80 %, medium from 50 %.
pub open spec fn confidence_word(percent: u8) -> Seq<char> {
    if percent >= 80 {
        "高"@
    } else if percent >= 50 {
        "中"@
    } else {
        "低"@
    }
}

/// The wording of a dead-code confidence (see `confidence_word`).
pub fn confidence_label(percent: u8) -> (r: &'static str)
    ensures
        r@ == confidence_word(percent),
{
    if percent >= 80 {
        "高"
    } else if percent >= 50 {
        "中"
    } else {
        "低"
    }
}


/// Indices listed by non-increasing key.
pub open spec fn key_sorted(s: Seq<int>, keys: Seq<u64>) -> bool {
    forall|i: int, j: int| 0 <= i < j < s.len() ==> keys[#[trigger] s[i]] >= keys[#[trigger] s[j]]
}

/// Inserting adds `x` and keeps the rest.
proof fn lemma_insert_key_contents(s: Seq<int>, x: int, keys: Seq<u64>)
    ensures
        insert_by_key(s, x, keys).to_multiset() =~= s.to_multiset().insert(x),
        insert_by_key(s, x, keys).len() == s.len() + 1,
    decreases s.len(),
{
    broadcast use vstd::seq_lib::group_to_multiset_ensures;
    if s.len() > 0 && !(keys[s.last()] >= keys[x]) {
        lemma_insert_key_contents(s.drop_last(), x, keys);
        assert(s.drop_last().push(s.last()) =~= s);
    } else if s.len() == 0 {
        assert(seq![x] =~= Seq::<int>::empty().push(x));
    }
}

/// Inserting into a sorted list keeps it sorted.
proof fn lemma_insert_key_sorted(s: Seq<int>, x: int, keys: Seq<u64>)
    requires
        key_sorted(s, keys),
    ensures
        key_sorted(insert_by_key(s, x, keys), keys),
    decreases s.len(),
{
    broadcast use vstd::seq_lib::group_to_multiset_ensures;
    let r = insert_by_key(s, x, keys);
    if s.len() == 0 {
    } else if keys[s.last()] >= keys[x] {
        assert forall|i: int, j: int| 0 <= i < j < r.len() implies keys[#[trigger] r[i]] >= keys[#[trigger] r[j]] by {
            if j == s.len() && i < s.len() - 1 {
                assert(keys[s[i]] >= keys[s[s.len() - 1]]);
            }
        }
    } else {
        let d = s.drop_last();
        let l = s.last();
        lemma_insert_key_sorted(d, x, keys);
        lemma_insert_key_contents(d, x, keys);
        let q = insert_by_key(d, x, keys);
        assert forall|i: int| 0 <= i < q.len() implies keys[#[trigger] q[i]] >= keys[l] by {
            assert(q.to_multiset().count(q[i]) > 0);
            if q[i] != x {
                assert(d.to_multiset().count(q[i]) > 0);
                let m = choose|m: int| 0 <= m < d.len() && d[m] == q[i];
                assert(s[m] == d[m]);
                assert(keys[s[m]] >= keys[s[s.len() - 1]]);
            }
        }
        assert forall|i: int, j: int| 0 <= i < j < r.len() implies keys[#[trigger] r[i]] >= keys[#[trigger] r[j]] by {
            assert(r[i] == q[i]);
            if j < q.len() {
                assert(r[j] == q[j]);
            }
        }
    }
}

/// The ranking lists the most complex symbols first and each position at
/// most once, all of them within the list of metrics.
pub proof fn law_ranking_sorted(metrics: Seq<CodeMetrics>)
    ensures
        key_sorted(ranking(metrics), complexities(metrics)),
        ranking(metrics).len() == if metrics.len() > RANKING_SIZE { RANKING_SIZE as int } else { metrics.len() as int },
        forall|i: int| 0 <= i < ranking(metrics).len() ==> 0 <= #[trigger] ranking(metrics)[i] < metrics.len(),
{
    broadcast use vstd::seq_lib::group_to_multiset_ensures;
    let keys = complexities(metrics);
    lemma_rank_facts(metrics.len(), keys);
    let r = rank_by_key(metrics.len(), keys);
    if r.len() > RANKING_SIZE {
        let t = r.take(RANKING_SIZE as int);
        assert forall|i: int, j: int| 0 <= i < j < t.len() implies keys[#[trigger] t[i]] >= keys[#[trigger] t[j]] by {
            assert(t[i] == r[i] && t[j] == r[j]);
        }
        assert forall|i: int| 0 <= i < t.len() implies 0 <= #[trigger] t[i] < metrics.len() by {
            assert(t[i] == r[i]);
            assert(r.to_multiset().count(r[i]) > 0);
        }
    } else {
        assert forall|i: int| 0 <= i < r.len() implies 0 <= #[trigger] r[i] < metrics.len() by {
            assert(r.to_multiset().count(r[i]) > 0);
        }
    }
}

/// The full ranking is sorted and holds each of `0..n` once.
pub(crate) proof fn lemma_rank_facts(n: nat, keys: Seq<u64>)
    ensures
        key_sorted(rank_by_key(n, keys), keys),
        rank_by_key(n, keys).len() == n,
        forall|v: int| rank_by_key(n, keys).to_multiset().count(v) > 0 ==> 0 <= v < n,
        forall|v: int| 0 <= v < n ==> rank_by_key(n, keys).to_multiset().count(v) == 1,
    decreases n,
{
    broadcast use vstd::seq_lib::group_to_multiset_ensures;
    if n > 0 {
        let p = rank_by_key((n - 1) as nat, keys);
        lemma_rank_facts((n - 1) as nat, keys);
        lemma_insert_key_sorted(p, n - 1, keys);
        lemma_insert_key_contents(p, n - 1, keys);
    }
}

} // verus!
