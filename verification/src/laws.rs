use vstd::prelude::*;

use crate::fruit::{Fruit, Species};
use crate::pipeline::execute_spec;
use crate::service::{service_species_order, service_stages};
use crate::sorting::{
    insert_sorted, lemma_insert_sorted_elements, lemma_insert_sorted_len,
    lemma_stage_sort_elements, lemma_stage_sort_multiset, lemma_stage_sort_sorted, sorted_by,
    stage_sort,
};
use crate::stage::{species_rank, stage_key, StageSpec};

verus! {

/// Permutation law: whatever stages a pipeline registers, executing it
/// returns exactly the input multiset of fruit - nothing dropped, nothing
/// duplicated, nothing altered.
pub proof fn lemma_execute_permutes(stages: Seq<StageSpec>, s: Seq<Fruit>)
    ensures
        execute_spec(stages, s).to_multiset() == s.to_multiset(),
    decreases stages.len(),
{
    if stages.len() > 0 {
        lemma_execute_permutes(stages.drop_first(), s);
        lemma_stage_sort_multiset(stages[0], execute_spec(stages.drop_first(), s));
    }
}

/// Identity law: a pipeline with no stages leaves any input unchanged.
pub proof fn lemma_empty_pipeline_identity(s: Seq<Fruit>)
    ensures
        execute_spec(Seq::<StageSpec>::empty(), s) == s,
{
}

/// The subsequence of `s` whose fruit hold key `k` under stage `st`, in
/// input order.
pub open spec fn with_key(st: StageSpec, s: Seq<Fruit>, k: int) -> Seq<Fruit>
    decreases s.len(),
{
    if s.len() == 0 {
        Seq::empty()
    } else if stage_key(st, s.last()) == k {
        with_key(st, s.drop_last(), k).push(s.last())
    } else {
        with_key(st, s.drop_last(), k)
    }
}

proof fn lemma_with_key_push(st: StageSpec, s: Seq<Fruit>, x: Fruit, k: int)
    ensures
        stage_key(st, x) == k ==> with_key(st, s.push(x), k) == with_key(st, s, k).push(x),
        stage_key(st, x) != k ==> with_key(st, s.push(x), k) == with_key(st, s, k),
{
    assert(s.push(x).drop_last() =~= s);
    assert(s.push(x).last() == x);
}

/// Stable insertion extends a key class at its end, and leaves every other
/// key class alone.
proof fn lemma_insert_with_key(st: StageSpec, s: Seq<Fruit>, x: Fruit, k: int)
    ensures
        stage_key(st, x) == k ==> with_key(st, insert_sorted(st, s, x), k) == with_key(
            st,
            s,
            k,
        ).push(x),
        stage_key(st, x) != k ==> with_key(st, insert_sorted(st, s, x), k) == with_key(st, s, k),
    decreases s.len(),
{
    if s.len() == 0 {
        assert(insert_sorted(st, s, x) == seq![x]);
        assert(seq![x].drop_last() =~= Seq::<Fruit>::empty());
        assert(seq![x].last() == x);
        assert(with_key(st, Seq::<Fruit>::empty(), k) == Seq::<Fruit>::empty());
        if stage_key(st, x) == k {
            assert(with_key(st, seq![x], k) == Seq::<Fruit>::empty().push(x));
        } else {
            assert(with_key(st, seq![x], k) == Seq::<Fruit>::empty());
        }
    } else if stage_key(st, s.last()) > stage_key(st, x) {
        let inner = insert_sorted(st, s.drop_last(), x);
        lemma_insert_with_key(st, s.drop_last(), x, k);
        lemma_with_key_push(st, inner, s.last(), k);
        assert(insert_sorted(st, s, x) == inner.push(s.last()));
        if stage_key(st, s.last()) == k {
            assert(with_key(st, s, k) == with_key(st, s.drop_last(), k).push(s.last()));
        } else {
            assert(with_key(st, s, k) == with_key(st, s.drop_last(), k));
        }
    } else {
        lemma_with_key_push(st, s, x, k);
        assert(insert_sorted(st, s, x) == s.push(x));
    }
}

/// Stability law: fruit that tie on a stage's key keep their relative input
/// order through that stage: for every key, the key's subsequence of the
/// output equals the key's subsequence of the input.
pub proof fn lemma_stage_sort_stable(st: StageSpec, s: Seq<Fruit>, k: int)
    ensures
        with_key(st, stage_sort(st, s), k) == with_key(st, s, k),
    decreases s.len(),
{
    if s.len() > 0 {
        lemma_stage_sort_stable(st, s.drop_last(), k);
        lemma_insert_with_key(st, stage_sort(st, s.drop_last()), s.last(), k);
    }
}

/// `a` ranks no worse than `b` under primary stage `hi` with tie-break `lo`.
pub open spec fn lex_le(hi: StageSpec, lo: StageSpec, a: Fruit, b: Fruit) -> bool {
    stage_key(hi, a) < stage_key(hi, b) || (stage_key(hi, a) == stage_key(hi, b) && stage_key(
        lo,
        a,
    ) <= stage_key(lo, b))
}

/// The sequence is ordered primarily by `hi`'s key, with `lo`'s key breaking
/// `hi`'s ties.
pub open spec fn lex_sorted(hi: StageSpec, lo: StageSpec, s: Seq<Fruit>) -> bool {
    forall|i: int, j: int| 0 <= i < j < s.len() ==> lex_le(hi, lo, s[i], s[j])
}

/// Inserting a fruit whose `lo` key is maximal into a lexicographically
/// sorted sequence keeps it lexicographically sorted.
proof fn lemma_insert_refines(hi: StageSpec, lo: StageSpec, v: Seq<Fruit>, x: Fruit)
    requires
        lex_sorted(hi, lo, v),
        forall|i: int| 0 <= i < v.len() ==> stage_key(lo, #[trigger] v[i]) <= stage_key(lo, x),
    ensures
        lex_sorted(hi, lo, insert_sorted(hi, v, x)),
    decreases v.len(),
{
    if v.len() == 0 {
    } else if stage_key(hi, v.last()) > stage_key(hi, x) {
        lemma_insert_refines(hi, lo, v.drop_last(), x);
        lemma_insert_sorted_elements(hi, v.drop_last(), x);
        lemma_insert_sorted_len(hi, v.drop_last(), x);
        let inner = insert_sorted(hi, v.drop_last(), x);
        let out = inner.push(v.last());
        assert forall|i: int, j: int|
            0 <= i < j < out.len() implies lex_le(hi, lo, out[i], out[j]) by {
            if j < inner.len() {
                assert(out[i] == inner[i] && out[j] == inner[j]);
            } else {
                assert(out[j] == v.last());
                assert(out[i] == inner[i]);
                if inner[i] == x {
                } else {
                    let m = choose|m: int|
                        0 <= m < v.drop_last().len() && v.drop_last()[m] == inner[i];
                    assert(v[m] == inner[i]);
                    assert(lex_le(hi, lo, v[m], v[v.len() - 1]));
                }
            }
        }
    } else {
        let out = v.push(x);
        assert forall|i: int, j: int|
            0 <= i < j < out.len() implies lex_le(hi, lo, out[i], out[j]) by {
            if j < v.len() {
                assert(out[i] == v[i] && out[j] == v[j]);
            } else {
                assert(out[j] == x);
                assert(out[i] == v[i]);
                if i < v.len() - 1 {
                    assert(lex_le(hi, lo, v[i], v[v.len() - 1]));
                }
            }
        }
    }
}

/// Sorting a `lo`-sorted sequence by `hi` yields a lexicographically sorted
/// sequence: the later (stable) sort dominates and the earlier one survives
/// within its ties.
proof fn lemma_sort_refines(hi: StageSpec, lo: StageSpec, m: Seq<Fruit>)
    requires
        sorted_by(lo, m),
    ensures
        lex_sorted(hi, lo, stage_sort(hi, m)),
    decreases m.len(),
{
    if m.len() > 0 {
        lemma_sort_refines(hi, lo, m.drop_last());
        let prev = stage_sort(hi, m.drop_last());
        lemma_stage_sort_elements(hi, m.drop_last());
        assert forall|i: int|
            0 <= i < prev.len() implies stage_key(lo, #[trigger] prev[i]) <= stage_key(
            lo,
            m.last(),
        ) by {
            assert(m.drop_last().contains(prev[i]));
            let j = choose|j: int| 0 <= j < m.drop_last().len() && m.drop_last()[j] == prev[i];
            assert(m[j] == prev[i]);
            assert(stage_key(lo, m[j]) <= stage_key(lo, m[m.len() - 1]));
        }
        lemma_insert_refines(hi, lo, prev, m.last());
    }
}

/// Precedence law: a pipeline that registers `hi` first and `lo` second
/// orders primarily by `hi`'s key; `lo`'s key only breaks `hi`'s ties.
pub proof fn lemma_two_stage_precedence(hi: StageSpec, lo: StageSpec, s: Seq<Fruit>)
    ensures
        lex_sorted(hi, lo, execute_spec(seq![hi, lo], s)),
{
    let stages = seq![hi, lo];
    assert(stages.drop_first() =~= seq![lo]);
    assert(seq![lo].drop_first() =~= Seq::<StageSpec>::empty());
    assert(execute_spec(Seq::<StageSpec>::empty(), s) == s);
    assert(execute_spec(seq![lo], s) == stage_sort(lo, s));
    assert(execute_spec(stages, s) == stage_sort(hi, stage_sort(lo, s)));
    lemma_stage_sort_sorted(lo, s);
    lemma_sort_refines(hi, lo, stage_sort(lo, s));
}

/// The service's instance of the precedence law: after `prioritise`, height
/// (registered first) dominates and the species order breaks height ties.
pub proof fn lemma_service_precedence(s: Seq<Fruit>)
    ensures
        lex_sorted(
            StageSpec::Numeric,
            (StageSpec::Categorical { order: service_species_order() }),
            execute_spec(service_stages(), s),
        ),
{
    let lo = StageSpec::Categorical { order: service_species_order() };
    lemma_two_stage_precedence(StageSpec::Numeric, lo, s);
    assert(service_stages() =~= seq![StageSpec::Numeric, lo]);
}

/// Under the service's two keys a full tie means equal fruit: the category
/// order is duplicate-free and exhaustive, so rank determines species.
proof fn lemma_service_tie_equal(a: Fruit, b: Fruit)
    requires
        stage_key(StageSpec::Numeric, a) == stage_key(StageSpec::Numeric, b),
        stage_key((StageSpec::Categorical { order: service_species_order() }), a) == stage_key(
            (StageSpec::Categorical { order: service_species_order() }),
            b,
        ),
    ensures
        a == b,
{
    let order = service_species_order();
    assert(species_rank(order, Species::Apple) == 0);
    assert(species_rank(order, Species::Pear) == 1) by {
        assert(order[0] != Species::Pear);
        let rest = order.subrange(1, order.len() as int);
        assert(rest =~= seq![Species::Pear]);
        assert(species_rank(rest, Species::Pear) == 0);
    }
    assert(a.height == b.height);
    assert(a.species == b.species) by {
        match a.species {
            Species::Apple => {
                assert(species_rank(order, b.species) == 0);
                if b.species is Pear {
                    assert(false);
                }
            },
            Species::Pear => {
                assert(species_rank(order, b.species) == 1);
                if b.species is Apple {
                    assert(false);
                }
            },
        }
    }
}

/// Two lexicographically sorted sequences with the same multiset of fruit are
/// the same sequence, because the service's keys tie only on equal fruit.
proof fn lemma_service_sorted_unique(a: Seq<Fruit>, b: Seq<Fruit>)
    requires
        lex_sorted(
            StageSpec::Numeric,
            (StageSpec::Categorical { order: service_species_order() }),
            a,
        ),
        lex_sorted(
            StageSpec::Numeric,
            (StageSpec::Categorical { order: service_species_order() }),
            b,
        ),
        a.to_multiset() == b.to_multiset(),
    ensures
        a == b,
    decreases a.len(),
{
    broadcast use vstd::seq_lib::group_to_multiset_ensures;

    let hi = StageSpec::Numeric;
    let lo = StageSpec::Categorical { order: service_species_order() };
    assert(a.to_multiset().len() == a.len());
    assert(b.to_multiset().len() == b.len());
    if a.len() == 0 {
        assert(a =~= b);
    } else {
        assert(a.contains(a[0]));
        assert(a.to_multiset().count(a[0]) > 0);
        assert(b.contains(a[0]));
        let j = choose|j: int| 0 <= j < b.len() && b[j] == a[0];
        assert(lex_le(hi, lo, b[0], a[0])) by {
            if j > 0 {
                assert(lex_le(hi, lo, b[0], b[j]));
            }
        }
        assert(b.contains(b[0]));
        assert(b.to_multiset().count(b[0]) > 0);
        assert(a.contains(b[0]));
        let m = choose|m: int| 0 <= m < a.len() && a[m] == b[0];
        assert(lex_le(hi, lo, a[0], b[0])) by {
            if m > 0 {
                assert(lex_le(hi, lo, a[0], a[m]));
            }
        }
        lemma_service_tie_equal(a[0], b[0]);
        let a1 = a.remove(0);
        let b1 = b.remove(0);
        assert(a1.to_multiset() == a.to_multiset().remove(a[0]));
        assert(b1.to_multiset() == b.to_multiset().remove(b[0]));
        assert(lex_sorted(hi, lo, a1)) by {
            assert forall|i: int, j2: int|
                0 <= i < j2 < a1.len() implies lex_le(hi, lo, a1[i], a1[j2]) by {
                assert(a1[i] == a[i + 1] && a1[j2] == a[j2 + 1]);
            }
        }
        assert(lex_sorted(hi, lo, b1)) by {
            assert forall|i: int, j2: int|
                0 <= i < j2 < b1.len() implies lex_le(hi, lo, b1[i], b1[j2]) by {
                assert(b1[i] == b[i + 1] && b1[j2] == b[j2 + 1]);
            }
        }
        lemma_service_sorted_unique(a1, b1);
        assert forall|i: int| 0 <= i < a.len() implies a[i] == b[i] by {
            if i > 0 {
                assert(a[i] == a1[i - 1] && b[i] == b1[i - 1]);
            }
        }
        assert(a =~= b);
    }
}

/// Order-independence law: the service's full ranking is a pure function of
/// the input multiset, so every permutation of one input set yields the same
/// ranking and in particular the same top fruit.
pub proof fn lemma_prioritise_order_independent(s: Seq<Fruit>, t: Seq<Fruit>)
    requires
        s.to_multiset() == t.to_multiset(),
    ensures
        execute_spec(service_stages(), s) == execute_spec(service_stages(), t),
        s.len() > 0 ==> execute_spec(service_stages(), s)[0] == execute_spec(
            service_stages(),
            t,
        )[0],
{
    lemma_service_precedence(s);
    lemma_service_precedence(t);
    lemma_execute_permutes(service_stages(), s);
    lemma_execute_permutes(service_stages(), t);
    lemma_service_sorted_unique(execute_spec(service_stages(), s), execute_spec(service_stages(), t));
}

} // verus!

