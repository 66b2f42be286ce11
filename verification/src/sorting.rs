use vstd::prelude::*;

use crate::error::PrioritisationError;
use crate::fruit::Fruit;
use crate::stage::{rank_of, stage_accepts, stage_accepts_item, stage_key, RankingStage, StageSpec};

verus! {

/// Stable insertion of `x` into `s` from the right: `x` goes after every
/// element whose key is not strictly greater than its own.
pub open spec fn insert_sorted(st: StageSpec, s: Seq<Fruit>, x: Fruit) -> Seq<Fruit>
    decreases s.len(),
{
    if s.len() == 0 {
        seq![x]
    } else if stage_key(st, s.last()) > stage_key(st, x) {
        insert_sorted(st, s.drop_last(), x).push(s.last())
    } else {
        s.push(x)
    }
}

/// What one ranking stage returns: the stable sort of `s`, ascending by the
/// stage's key.
pub open spec fn stage_sort(st: StageSpec, s: Seq<Fruit>) -> Seq<Fruit>
    decreases s.len(),
{
    if s.len() == 0 {
        Seq::empty()
    } else {
        insert_sorted(st, stage_sort(st, s.drop_last()), s.last())
    }
}

/// The sequence is ascending by the stage's key.
pub open spec fn sorted_by(st: StageSpec, s: Seq<Fruit>) -> bool {
    forall|i: int, j: int|
        0 <= i < j < s.len() ==> stage_key(st, s[i]) <= stage_key(st, s[j])
}

pub proof fn lemma_insert_sorted_len(st: StageSpec, s: Seq<Fruit>, x: Fruit)
    ensures
        insert_sorted(st, s, x).len() == s.len() + 1,
    decreases s.len(),
{
    if s.len() > 0 && stage_key(st, s.last()) > stage_key(st, x) {
        lemma_insert_sorted_len(st, s.drop_last(), x);
    }
}

/// Insertion adds exactly `x` to the multiset of elements.
pub proof fn lemma_insert_sorted_multiset(st: StageSpec, s: Seq<Fruit>, x: Fruit)
    ensures
        insert_sorted(st, s, x).to_multiset() == s.to_multiset().insert(x),
    decreases s.len(),
{
    broadcast use vstd::seq_lib::group_to_multiset_ensures;

    if s.len() == 0 {
        assert(seq![x] =~= Seq::<Fruit>::empty().push(x));
    } else if stage_key(st, s.last()) > stage_key(st, x) {
        lemma_insert_sorted_multiset(st, s.drop_last(), x);
        assert(s.drop_last().push(s.last()) =~= s);
        assert(insert_sorted(st, s.drop_last(), x).push(s.last()).to_multiset()
            =~= s.drop_last().to_multiset().insert(x).insert(s.last()));
        assert(s.drop_last().to_multiset().insert(x).insert(s.last())
            =~= s.drop_last().to_multiset().insert(s.last()).insert(x));
    } else {
    }
}

/// A stage permutes its input: the multiset of fruit is unchanged.
pub proof fn lemma_stage_sort_multiset(st: StageSpec, s: Seq<Fruit>)
    ensures
        stage_sort(st, s).to_multiset() == s.to_multiset(),
    decreases s.len(),
{
    broadcast use vstd::seq_lib::group_to_multiset_ensures;

    if s.len() > 0 {
        lemma_stage_sort_multiset(st, s.drop_last());
        lemma_insert_sorted_multiset(st, stage_sort(st, s.drop_last()), s.last());
        assert(s.drop_last().push(s.last()) =~= s);
    }
}

/// Every element of the insertion's result is `x` or one of `s`.
pub proof fn lemma_insert_sorted_elements(st: StageSpec, s: Seq<Fruit>, x: Fruit)
    ensures
        forall|i: int|
            0 <= i < insert_sorted(st, s, x).len() ==> insert_sorted(st, s, x)[i] == x
                || s.contains(#[trigger] insert_sorted(st, s, x)[i]),
    decreases s.len(),
{
    if s.len() == 0 {
    } else if stage_key(st, s.last()) > stage_key(st, x) {
        lemma_insert_sorted_elements(st, s.drop_last(), x);
        let inner = insert_sorted(st, s.drop_last(), x);
        let out = inner.push(s.last());
        assert forall|i: int| 0 <= i < out.len() implies out[i] == x || s.contains(out[i]) by {
            if i < inner.len() {
                assert(out[i] == inner[i]);
                if inner[i] != x {
                    let j = choose|j: int|
                        0 <= j < s.drop_last().len() && s.drop_last()[j] == inner[i];
                    assert(s[j] == inner[i]);
                }
            } else {
                assert(out[i] == s.last());
                assert(s[s.len() - 1] == s.last());
            }
        }
    } else {
        assert forall|i: int|
            0 <= i < s.push(x).len() implies s.push(x)[i] == x || s.contains(s.push(x)[i]) by {
            if i < s.len() {
                assert(s.push(x)[i] == s[i]);
            }
        }
    }
}

/// Every element of a stage's output occurs in its input.
pub proof fn lemma_stage_sort_elements(st: StageSpec, s: Seq<Fruit>)
    ensures
        forall|i: int|
            0 <= i < stage_sort(st, s).len() ==> s.contains(#[trigger] stage_sort(st, s)[i]),
    decreases s.len(),
{
    if s.len() > 0 {
        let prev = stage_sort(st, s.drop_last());
        lemma_stage_sort_elements(st, s.drop_last());
        lemma_insert_sorted_elements(st, prev, s.last());
        let out = insert_sorted(st, prev, s.last());
        assert forall|i: int| 0 <= i < out.len() implies s.contains(out[i]) by {
            if out[i] == s.last() {
                assert(s[s.len() - 1] == s.last());
            } else {
                assert(prev.contains(out[i]));
                let j = choose|j: int| 0 <= j < prev.len() && prev[j] == out[i];
                let k = choose|k: int|
                    0 <= k < s.drop_last().len() && s.drop_last()[k] == prev[j];
                assert(s[k] == out[i]);
            }
        }
    }
}

/// Inserting into a key-sorted sequence keeps it key-sorted.
pub proof fn lemma_insert_sorted_preserves_sorted(st: StageSpec, s: Seq<Fruit>, x: Fruit)
    requires
        sorted_by(st, s),
    ensures
        sorted_by(st, insert_sorted(st, s, x)),
    decreases s.len(),
{
    if s.len() == 0 {
    } else if stage_key(st, s.last()) > stage_key(st, x) {
        lemma_insert_sorted_preserves_sorted(st, s.drop_last(), x);
        lemma_insert_sorted_elements(st, s.drop_last(), x);
        lemma_insert_sorted_len(st, s.drop_last(), x);
        let inner = insert_sorted(st, s.drop_last(), x);
        let out = inner.push(s.last());
        assert forall|i: int, j: int|
            0 <= i < j < out.len() implies stage_key(st, out[i]) <= stage_key(st, out[j]) by {
            if j < inner.len() {
                assert(out[i] == inner[i] && out[j] == inner[j]);
            } else {
                assert(out[j] == s.last());
                assert(out[i] == inner[i]);
                if inner[i] == x {
                } else {
                    let k = choose|k: int|
                        0 <= k < s.drop_last().len() && s.drop_last()[k] == inner[i];
                    assert(s[k] == inner[i]);
                    assert(stage_key(st, s[k]) <= stage_key(st, s[s.len() - 1]));
                }
            }
        }
    } else {
        let out = s.push(x);
        assert forall|i: int, j: int|
            0 <= i < j < out.len() implies stage_key(st, out[i]) <= stage_key(st, out[j]) by {
            if j < s.len() {
                assert(out[i] == s[i] && out[j] == s[j]);
            } else {
                assert(out[j] == x);
                assert(out[i] == s[i]);
                assert(stage_key(st, s[i]) <= stage_key(st, s[s.len() - 1]));
            }
        }
    }
}

/// A stage's output is ascending by the stage's key.
pub proof fn lemma_stage_sort_sorted(st: StageSpec, s: Seq<Fruit>)
    ensures
        sorted_by(st, stage_sort(st, s)),
    decreases s.len(),
{
    if s.len() > 0 {
        lemma_stage_sort_sorted(st, s.drop_last());
        lemma_insert_sorted_preserves_sorted(st, stage_sort(st, s.drop_last()), s.last());
    }
}

/// Where the insertion lands: splitting `s` at a position `j` whose suffix
/// keys are all strictly greater than `x`'s and whose boundary is not.
pub proof fn lemma_insert_sorted_split(st: StageSpec, s: Seq<Fruit>, x: Fruit, j: int)
    requires
        0 <= j <= s.len(),
        forall|m: int| j <= m < s.len() ==> stage_key(st, s[m]) > stage_key(st, x),
        j > 0 ==> stage_key(st, s[j - 1]) <= stage_key(st, x),
    ensures
        insert_sorted(st, s, x) == s.subrange(0, j) + seq![x] + s.subrange(j, s.len() as int),
    decreases s.len(),
{
    if j == s.len() {
        if s.len() == 0 {
            assert(seq![x] =~= s.subrange(0, j) + seq![x] + s.subrange(j, s.len() as int));
        } else {
            assert(stage_key(st, s[j - 1]) <= stage_key(st, x));
            assert(s.push(x) =~= s.subrange(0, j) + seq![x] + s.subrange(j, s.len() as int));
        }
    } else {
        assert(stage_key(st, s[s.len() - 1]) > stage_key(st, x));
        let d = s.drop_last();
        lemma_insert_sorted_split(st, d, x, j);
        assert(insert_sorted(st, d, x).push(s.last()) =~= s.subrange(0, j) + seq![x]
            + s.subrange(j, s.len() as int));
    }
}

/// Inserts `x` into the key-sorted `v`, after every element whose key is not
/// strictly greater: the executable form of `insert_sorted`.
fn insert_ranked(stage: &RankingStage, v: &mut Vec<Fruit>, x: Fruit)
    ensures
        final(v)@ == insert_sorted(stage@, old(v)@, x),
{
    let mut j: usize = v.len();
    while j > 0 && stage.comes_after(&v[j - 1], &x)
        invariant
            j <= v@.len(),
            v@ == old(v)@,
            forall|m: int| j <= m < v@.len() ==> stage_key(stage@, v@[m]) > stage_key(stage@, x),
        decreases j,
    {
        j -= 1;
    }
    proof {
        lemma_insert_sorted_split(stage@, v@, x, j as int);
    }
    v.insert(j, x);
    proof {
        assert(v@ =~= old(v)@.subrange(0, j as int) + seq![x] + old(v)@.subrange(
            j as int,
            old(v)@.len() as int,
        ));
    }
}

impl RankingStage {
    /// The stage's ranking: the stable sort of `input`, ascending by this
    /// stage's key. Total: every input is ranked, whatever the category order.
    pub fn rank(&self, input: Vec<Fruit>) -> (r: Vec<Fruit>)
        ensures
            r@ == stage_sort(self@, input@),
    {
        let mut out: Vec<Fruit> = Vec::new();
        let mut i: usize = 0;
        while i < input.len()
            invariant
                i <= input@.len(),
                out@ == stage_sort(self@, input@.subrange(0, i as int)),
            decreases input@.len() - i,
        {
            let x = input[i];
            insert_ranked(self, &mut out, x);
            proof {
                let pre = input@.subrange(0, i + 1);
                assert(pre.drop_last() =~= input@.subrange(0, i as int));
                assert(pre.last() == input@[i as int]);
            }
            i += 1;
        }
        proof {
            assert(input@.subrange(0, input@.len() as int) =~= input@);
        }
        out
    }

    /// Applies the stage as a pipeline step: fails fast with a configuration
    /// error when the category order misses a species present in the data
    /// (reporting the first such species), otherwise ranks.
    pub fn apply(&self, input: Vec<Fruit>) -> (r: Result<Vec<Fruit>, PrioritisationError>)
        ensures
            r is Ok <==> stage_accepts(self@, input@),
            r matches Ok(out) ==> out@ == stage_sort(self@, input@),
            r matches Err(e) ==> exists|i: int|
                0 <= i < input@.len() && !stage_accepts_item(self@, #[trigger] input@[i]) && e
                    == (PrioritisationError::Configuration { species: input@[i].species }),
    {
        if let RankingStage::Categorical { order } = self {
            let mut i: usize = 0;
            while i < input.len()
                invariant
                    i <= input@.len(),
                    self@ == (StageSpec::Categorical { order: order@ }),
                    forall|j: int| 0 <= j < i ==> stage_accepts_item(self@, #[trigger] input@[j]),
                decreases input@.len() - i,
            {
                if rank_of(order, input[i].species) >= order.len() {
                    return Err(PrioritisationError::Configuration { species: input[i].species });
                }
                i += 1;
            }
        }
        Ok(self.rank(input))
    }
}

} // verus!
