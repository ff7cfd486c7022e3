use vstd::prelude::*;

use crate::chance::{gen_below, thread_rng};
use crate::atlas::Atlas;
use crate::myimage::MyImage;
use crate::object::Object;

verus! {

/// A candidate object with its score.
#[derive(Clone, Copy, Debug, PartialEq, Eq)]
pub struct Competitor {
    pub object: Object,
    pub score: i64,
}

/// Candidate `a` (at input position `i`) comes before candidate `b` (at input
/// position `j`): a higher score first, and on equal scores the earlier input first.
pub open spec fn ranks_before(a: Competitor, i: int, b: Competitor, j: int) -> bool {
    a.score > b.score || (a.score == b.score && i < j)
}

/// `ranked` lists the candidates of `input` from the highest score to the
/// lowest, candidates with equal scores in input order; `perm[k]` is the input
/// position of `ranked[k]`.
pub open spec fn is_ranking(input: Seq<Competitor>, ranked: Seq<Competitor>, perm: Seq<int>) -> bool {
    &&& ranked.len() == input.len()
    &&& perm.len() == input.len()
    &&& forall|k: int| 0 <= k < perm.len() ==> 0 <= #[trigger] perm[k] < input.len()
    &&& forall|k: int, l: int| 0 <= k < l < perm.len() ==> #[trigger] perm[k] != #[trigger] perm[l]
    &&& forall|k: int| 0 <= k < ranked.len() ==> #[trigger] ranked[k] == input[perm[k]]
    &&& forall|k: int, l: int|
        0 <= k < l < ranked.len() ==> ranks_before(
            #[trigger] ranked[k],
            perm[k],
            #[trigger] ranked[l],
            perm[l],
        )
}

/// A list of `n` different positions below `n` holds every position below `n`.
proof fn lemma_perm_covers(p: Seq<int>, n: int, a: int)
    requires
        p.len() == n,
        forall|k: int| 0 <= k < p.len() ==> 0 <= #[trigger] p[k] < n,
        forall|k: int, l: int| 0 <= k < l < p.len() ==> #[trigger] p[k] != #[trigger] p[l],
        0 <= a < n,
    ensures
        exists|k: int| 0 <= k < n && p[k] == a,
{
    assert(p.no_duplicates()) by {
        assert forall|i: int, j: int| 0 <= i < p.len() && 0 <= j < p.len() && i != j implies p[i]
            != p[j] by {
            if i < j {
                assert(p[i] != p[j]);
            } else {
                assert(p[j] != p[i]);
            }
        }
    }
    p.unique_seq_to_set();
    let range = vstd::set_lib::set_int_range(0, n);
    vstd::set_lib::lemma_int_range(0, n);
    assert(p.to_set().subset_of(range));
    vstd::set_lib::lemma_len_subset(p.to_set(), range);
    vstd::set_lib::lemma_subset_equality(p.to_set(), range);
    assert(range.contains(a));
    assert(p.to_set().contains(a));
    assert(p.contains(a));
}

/// The ranking of a list of candidates is unique: two rankings of the same
/// input are the same list.
pub proof fn lemma_ranking_unique(
    input: Seq<Competitor>,
    r1: Seq<Competitor>,
    p1: Seq<int>,
    r2: Seq<Competitor>,
    p2: Seq<int>,
)
    requires
        is_ranking(input, r1, p1),
        is_ranking(input, r2, p2),
    ensures
        r1 == r2,
{
    let n = input.len() as int;
    assert forall|k: int| 0 <= k < n implies p1[k] == p2[k] by {
        lemma_same_position(input, r1, p1, r2, p2, k);
    }
    assert(r1 =~= r2);
}

proof fn lemma_same_position(
    input: Seq<Competitor>,
    r1: Seq<Competitor>,
    p1: Seq<int>,
    r2: Seq<Competitor>,
    p2: Seq<int>,
    k: int,
)
    requires
        is_ranking(input, r1, p1),
        is_ranking(input, r2, p2),
        0 <= k < input.len(),
    ensures
        p1[k] == p2[k],
    decreases k,
{
    let n = input.len() as int;
    assert forall|j: int| 0 <= j < k implies p1[j] == p2[j] by {
        lemma_same_position(input, r1, p1, r2, p2, j);
    }
    let a = p1[k];
    let b = p2[k];
    if a != b {
        lemma_perm_covers(p2, n, a);
        lemma_perm_covers(p1, n, b);
        let m2 = choose|m: int| 0 <= m < n && p2[m] == a;
        let m1 = choose|m: int| 0 <= m < n && p1[m] == b;
        if m2 < k {
            assert(p1[m2] == p2[m2]);
            assert(p1[m2] != p1[k]);
        }
        if m1 < k {
            assert(p1[m1] == p2[m1]);
            assert(p2[m1] != p2[k]);
        }
        assert(m2 > k);
        assert(m1 > k);
        assert(ranks_before(r2[k], p2[k], r2[m2], p2[m2]));
        assert(ranks_before(r1[k], p1[k], r1[m1], p1[m1]));
        assert(r2[k] == input[b] && r2[m2] == input[a]);
        assert(r1[k] == input[a] && r1[m1] == input[b]);
    }
}

/// Sorts the candidates from the highest score to the lowest, keeping the input
/// order among equal scores.
pub fn rank(scores: Vec<Competitor>) -> (ranked: Vec<Competitor>)
    ensures
        exists|perm: Seq<int>| is_ranking(scores@, ranked@, perm),
{
    let ghost input = scores@;
    let mut ranked: Vec<Competitor> = Vec::new();
    let ghost mut perm: Seq<int> = Seq::empty();
    let mut k: usize = 0;
    while k < scores.len()
        invariant
            input == scores@,
            k <= input.len(),
            ranked@.len() == k,
            perm.len() == k,
            forall|a: int| 0 <= a < perm.len() ==> 0 <= #[trigger] perm[a] < k,
            forall|a: int, b: int| 0 <= a < b < perm.len() ==> #[trigger] perm[a] != #[trigger] perm[b],
            forall|a: int| 0 <= a < ranked@.len() ==> #[trigger] ranked@[a] == input[perm[a]],
            forall|a: int, b: int|
                0 <= a < b < ranked@.len() ==> ranks_before(
                    #[trigger] ranked@[a],
                    perm[a],
                    #[trigger] ranked@[b],
                    perm[b],
                ),
        decreases input.len() - k,
    {
        let c = scores[k];
        let mut p: usize = 0;
        while p < ranked.len() && ranked[p].score >= c.score
            invariant
                p <= ranked@.len(),
                forall|a: int| 0 <= a < p ==> (#[trigger] ranked@[a]).score >= c.score,
            decreases ranked@.len() - p,
        {
            p = p + 1;
        }
        let ghost old_ranked = ranked@;
        let ghost old_perm = perm;
        proof {
            assert forall|a: int| p <= a < old_ranked.len() implies (#[trigger] old_ranked[a]).score
                < c.score by {
                if a > p {
                    assert(ranks_before(old_ranked[p as int], old_perm[p as int], old_ranked[a], old_perm[a]));
                }
            }
        }
        ranked.insert(p, c);
        proof {
            perm = old_perm.insert(p as int, k as int);
            assert forall|a: int| 0 <= a < ranked@.len() implies #[trigger] ranked@[a] == input[perm[a]] by {
                if a < p {
                    assert(ranked@[a] == old_ranked[a]);
                } else if a > p {
                    assert(ranked@[a] == old_ranked[a - 1]);
                }
            }
            assert forall|a: int, b: int| 0 <= a < b < perm.len() implies #[trigger] perm[a]
                != #[trigger] perm[b] by {
                if a < p && b > p {
                    assert(old_perm[a] != old_perm[b - 1]);
                } else if a > p {
                    assert(old_perm[a - 1] != old_perm[b - 1]);
                } else if b < p {
                    assert(old_perm[a] != old_perm[b]);
                }
            }
            assert forall|a: int, b: int| 0 <= a < b < ranked@.len() implies ranks_before(
                #[trigger] ranked@[a],
                perm[a],
                #[trigger] ranked@[b],
                perm[b],
            ) by {
                if a < p && b > p {
                    assert(ranks_before(old_ranked[a], old_perm[a], old_ranked[b - 1], old_perm[b - 1]));
                } else if a > p {
                    assert(ranks_before(old_ranked[a - 1], old_perm[a - 1], old_ranked[b - 1], old_perm[b - 1]));
                } else if b < p {
                    assert(ranks_before(old_ranked[a], old_perm[a], old_ranked[b], old_perm[b]));
                } else if a == p {
                    assert(old_ranked[b - 1].score < c.score);
                } else {
                    assert(old_ranked[a].score >= c.score);
                }
            }
        }
        k = k + 1;
    }
    assert(is_ranking(input, ranked@, perm));
    ranked
}

/// `order` lists the positions of `keys` from the highest key to the lowest,
/// equal keys by increasing position.
pub open spec fn is_rank_order(keys: Seq<i64>, order: Seq<usize>) -> bool {
    &&& order.len() == keys.len()
    &&& forall|k: int| 0 <= k < order.len() ==> #[trigger] order[k] < keys.len()
    &&& forall|k: int, l: int| 0 <= k < l < order.len() ==> #[trigger] order[k] != #[trigger] order[l]
    &&& forall|k: int, l: int|
        0 <= k < l < order.len() ==> keys[#[trigger] order[k] as int] > keys[#[trigger] order[l] as int]
            || (keys[order[k] as int] == keys[order[l] as int] && order[k] < order[l])
}

/// The positions of `keys` from the highest key to the lowest, equal keys by
/// increasing position: the order in which `rank` lists candidates with these scores.
pub fn rank_order(keys: &Vec<i64>) -> (order: Vec<usize>)
    ensures
        is_rank_order(keys@, order@),
{
    let mut order: Vec<usize> = Vec::new();
    let mut k: usize = 0;
    while k < keys.len()
        invariant
            k <= keys@.len(),
            order@.len() == k,
            forall|a: int| 0 <= a < order@.len() ==> #[trigger] order@[a] < k,
            forall|a: int, b: int| 0 <= a < b < order@.len() ==> #[trigger] order@[a] != #[trigger] order@[b],
            forall|a: int, b: int|
                0 <= a < b < order@.len() ==> keys@[#[trigger] order@[a] as int] > keys@[#[trigger] order@[b] as int]
                    || (keys@[order@[a] as int] == keys@[order@[b] as int] && order@[a] < order@[b]),
        decreases keys@.len() - k,
    {
        let x = keys[k];
        let mut p: usize = 0;
        while p < order.len() && keys[order[p]] >= x
            invariant
                p <= order@.len(),
                order@.len() == k,
                k < keys@.len(),
                forall|a: int| 0 <= a < order@.len() ==> #[trigger] order@[a] < k,
                forall|a: int| 0 <= a < p ==> keys@[#[trigger] order@[a] as int] >= x,
            decreases order@.len() - p,
        {
            p = p + 1;
        }
        let ghost before = order@;
        proof {
            assert forall|a: int| p <= a < before.len() implies keys@[#[trigger] before[a] as int] < x by {
                if a > p {
                    assert(keys@[before[p as int] as int] > keys@[before[a] as int] || keys@[before[p as int] as int]
                        == keys@[before[a] as int]);
                }
            }
        }
        order.insert(p, k);
        proof {
            assert forall|a: int| 0 <= a < order@.len() implies #[trigger] order@[a] < k + 1 by {
                if a < p {
                    assert(order@[a] == before[a]);
                } else if a > p {
                    assert(order@[a] == before[a - 1]);
                }
            }
            assert forall|a: int, b: int| 0 <= a < b < order@.len() implies #[trigger] order@[a]
                != #[trigger] order@[b] by {
                if a < p && b > p {
                    assert(before[a] != before[b - 1]);
                } else if a > p {
                    assert(before[a - 1] != before[b - 1]);
                } else if b < p {
                    assert(before[a] != before[b]);
                } else if a == p {
                    assert(before[b - 1] < k);
                } else {
                    assert(before[a] < k);
                }
            }
            assert forall|a: int, b: int| 0 <= a < b < order@.len() implies keys@[#[trigger] order@[a] as int]
                > keys@[#[trigger] order@[b] as int] || (keys@[order@[a] as int] == keys@[order@[b] as int]
                && order@[a] < order@[b]) by {
                if a < p && b > p {
                    assert(order@[a] == before[a] && order@[b] == before[b - 1]);
                } else if a > p {
                    assert(order@[a] == before[a - 1] && order@[b] == before[b - 1]);
                } else if b < p {
                    assert(order@[a] == before[a] && order@[b] == before[b]);
                } else if a == p {
                    assert(order@[b] == before[b - 1]);
                    assert(keys@[before[b - 1] as int] < x);
                } else {
                    assert(order@[a] == before[a]);
                    assert(keys@[before[a] as int] >= x);
                    assert(before[a] < k);
                }
            }
        }
        k = k + 1;
    }
    order
}

/// The objects of the first `nb_candidates / 9 + 1` ranked candidates (all of
/// them when there are fewer), in rank order: the parents of the next generation.
pub fn parents(ranked: &Vec<Competitor>, nb_candidates: usize) -> (objects: Vec<Object>)
    ensures
        objects@.len() == if ranked@.len() < nb_candidates / 9 + 1 {
            ranked@.len() as int
        } else {
            nb_candidates / 9 + 1
        },
        forall|i: int| 0 <= i < objects@.len() ==> #[trigger] objects@[i] == ranked@[i].object,
{
    let keep = nb_candidates / 9 + 1;
    let mut objects: Vec<Object> = Vec::new();
    let mut i: usize = 0;
    while i < ranked.len() && i < keep
        invariant
            keep == nb_candidates / 9 + 1,
            i <= ranked@.len(),
            i <= keep,
            objects@.len() == i,
            forall|j: int| 0 <= j < i ==> #[trigger] objects@[j] == ranked@[j].object,
        decreases ranked@.len() - i,
    {
        objects.push(ranked[i].object);
        i = i + 1;
    }
    objects
}

/// The number of parents `parents` keeps.
pub open spec fn parent_count(ranked_len: int, nb_candidates: int) -> int {
    if ranked_len < nb_candidates / 9 + 1 {
        ranked_len
    } else {
        nb_candidates / 9 + 1
    }
}

/// The next generation: each parent (see `parents`) followed by eight mutated
/// copies of it; copy `m` of parent `p` gets the scale `sizes[8 * p + m]`.
pub fn next_generation(
    ranked: &Vec<Competitor>,
    nb_candidates: usize,
    atlas: &Atlas,
    canvas: &MyImage,
    sizes: &Vec<u32>,
) -> (candidates: Vec<Object>)
    requires
        sizes@.len() == 8 * parent_count(ranked@.len() as int, nb_candidates as int),
        parent_count(ranked@.len() as int, nb_candidates as int) > 0 ==> 0 < atlas.nb_sprites
            <= atlas.ids@.len(),
        forall|i: int|
            0 <= i < parent_count(ranked@.len() as int, nb_candidates as int) ==> (
            #[trigger] ranked@[i]).object.can_mutate(canvas),
    ensures
        candidates@.len() == 9 * parent_count(ranked@.len() as int, nb_candidates as int),
        forall|k: int|
            0 <= k < candidates@.len() ==> if k % 9 == 0 {
                #[trigger] candidates@[k] == ranked@[k / 9].object
            } else {
                candidates@[k].is_mutation_of(
                    ranked@[k / 9].object,
                    atlas,
                    canvas.width as int,
                    canvas.height as int,
                    sizes@[8 * (k / 9) + k % 9 - 1],
                )
            },
{
    let chosen = parents(ranked, nb_candidates);
    let n_sizes = sizes.len();
    let ghost keep = parent_count(ranked@.len() as int, nb_candidates as int);
    let mut candidates: Vec<Object> = Vec::new();
    let mut p: usize = 0;
    while p < chosen.len()
        invariant
            chosen@.len() == keep,
            forall|i: int| 0 <= i < chosen@.len() ==> #[trigger] chosen@[i] == ranked@[i].object,
            sizes@.len() == 8 * keep,
            n_sizes == sizes@.len(),
            keep > 0 ==> 0 < atlas.nb_sprites <= atlas.ids@.len(),
            forall|i: int| 0 <= i < keep ==> (#[trigger] ranked@[i]).object.can_mutate(canvas),
            p <= keep,
            candidates@.len() == 9 * p,
            forall|k: int|
                0 <= k < candidates@.len() ==> if k % 9 == 0 {
                    #[trigger] candidates@[k] == ranked@[k / 9].object
                } else {
                    candidates@[k].is_mutation_of(
                        ranked@[k / 9].object,
                        atlas,
                        canvas.width as int,
                        canvas.height as int,
                        sizes@[8 * (k / 9) + k % 9 - 1],
                    )
                },
        decreases keep - p,
    {
        let parent = chosen[p];
        assert(parent == ranked@[p as int].object);
        proof {
            vstd::arithmetic::div_mod::lemma_fundamental_div_mod_converse(9 * p, 9, p as int, 0);
        }
        candidates.push(parent);
        let mut m: usize = 0;
        while m < 8
            invariant
                parent == ranked@[p as int].object,
                parent.can_mutate(canvas),
                0 < atlas.nb_sprites <= atlas.ids@.len(),
                sizes@.len() == 8 * keep,
                n_sizes == sizes@.len(),
                p < keep,
                m <= 8,
                candidates@.len() == 9 * p + 1 + m,
                forall|k: int|
                    0 <= k < candidates@.len() ==> if k % 9 == 0 {
                        #[trigger] candidates@[k] == ranked@[k / 9].object
                    } else {
                        candidates@[k].is_mutation_of(
                            ranked@[k / 9].object,
                            atlas,
                            canvas.width as int,
                            canvas.height as int,
                            sizes@[8 * (k / 9) + k % 9 - 1],
                        )
                    },
            decreases 8 - m,
        {
            let idx = 8 * p + m;
            let copy = parent.clone_and_mutate(atlas, canvas, sizes[idx]);
            proof {
                vstd::arithmetic::div_mod::lemma_fundamental_div_mod_converse(
                    9 * p + 1 + m,
                    9,
                    p as int,
                    1 + m as int,
                );
                assert(copy.is_mutation_of(parent, atlas, canvas.width as int, canvas.height as int, sizes@[idx as int]));
            }
            candidates.push(copy);
            m = m + 1;
        }
        p = p + 1;
    }
    candidates
}

/// `o` is one of the objects of `s`.
pub open spec fn is_one_of(s: Seq<Object>, o: Object) -> bool {
    exists|j: int| 0 <= j < s.len() && s[j] == o
}

/// The candidates for adapting objects to a new frame: all of `previous`, then
/// randomly picked copies of its objects until there are `nb_candidates`.
pub fn pad_with_copies(previous: &Vec<Object>, nb_candidates: usize) -> (candidates: Vec<Object>)
    requires
        previous@.len() > 0 || nb_candidates <= previous@.len(),
    ensures
        candidates@.len() == if previous@.len() < nb_candidates {
            nb_candidates as int
        } else {
            previous@.len() as int
        },
        forall|i: int| 0 <= i < previous@.len() ==> #[trigger] candidates@[i] == previous@[i],
        forall|i: int|
            previous@.len() <= i < candidates@.len() ==> is_one_of(previous@, #[trigger] candidates@[i]),
{
    let mut picks: Vec<usize> = Vec::new();
    if previous.len() < nb_candidates {
        let mut rng = thread_rng();
        let extra = nb_candidates - previous.len();
        let mut i: usize = 0;
        while i < extra
            invariant
                previous@.len() > 0,
                i <= extra,
                picks@.len() == i,
                forall|j: int| 0 <= j < i ==> #[trigger] picks@[j] < previous@.len(),
            decreases extra - i,
        {
            picks.push(gen_below(&mut rng, previous.len()));
            i = i + 1;
        }
    }
    let candidates = copies_from_picks(previous, &picks);
    assert forall|i: int|
        previous@.len() <= i < candidates@.len() implies is_one_of(previous@, #[trigger] candidates@[i]) by {
        let j = picks@[i - previous@.len()] as int;
        assert(candidates@[i] == previous@[j]);
    }
    assert forall|i: int| 0 <= i < previous@.len() implies #[trigger] candidates@[i] == previous@[i] by {
        assert(candidates@.subrange(0, previous@.len() as int)[i] == candidates@[i]);
    }
    candidates
}

/// All of `previous`, then for every pick `p` in `picks` a copy of `previous[p]`.
pub fn copies_from_picks(previous: &Vec<Object>, picks: &Vec<usize>) -> (c: Vec<Object>)
    requires
        forall|i: int| 0 <= i < picks@.len() ==> #[trigger] picks@[i] < previous@.len(),
    ensures
        c@.len() == previous@.len() + picks@.len(),
        c@.subrange(0, previous@.len() as int) == previous@,
        forall|i: int|
            0 <= i < picks@.len() ==> c@[previous@.len() + i] == previous@[#[trigger] picks@[i] as int],
{
    let mut c: Vec<Object> = Vec::new();
    let mut i: usize = 0;
    while i < previous.len()
        invariant
            i <= previous@.len(),
            c@.len() == i,
            forall|j: int| 0 <= j < i ==> #[trigger] c@[j] == previous@[j],
        decreases previous@.len() - i,
    {
        c.push(previous[i]);
        i = i + 1;
    }
    let mut k: usize = 0;
    while k < picks.len()
        invariant
            forall|j: int| 0 <= j < picks@.len() ==> #[trigger] picks@[j] < previous@.len(),
            k <= picks@.len(),
            c@.len() == previous@.len() + k,
            forall|j: int| 0 <= j < previous@.len() ==> #[trigger] c@[j] == previous@[j],
            forall|j: int| 0 <= j < k ==> c@[previous@.len() + j] == previous@[#[trigger] picks@[j] as int],
        decreases picks@.len() - k,
    {
        c.push(previous[picks[k]]);
        k = k + 1;
    }
    assert(c@.subrange(0, previous@.len() as int) =~= previous@);
    c
}

} // verus!
