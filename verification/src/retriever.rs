//! Ranking of scored chunks. Scores are compared through order-preserving
//! integer keys (higher key, higher score); the ranking is a stable sort by
//! descending key, cut to the requested number of results.

use vstd::prelude::*;

verus! {

/// Entry `i` ranks before entry `j`: a higher key, or an equal key and an
/// earlier position (a stable descending order).
pub open spec fn ranks_before(keys: Seq<u32>, i: int, j: int) -> bool {
    keys[i] > keys[j] || (keys[i] == keys[j] && i < j)
}

/// The smaller of two lengths.
pub open spec fn top_len(n: nat, k: nat) -> nat {
    if n < k {
        n
    } else {
        k
    }
}

/// `res` lists indices of `keys` in ranking order, each ranked before the
/// next.
pub open spec fn ranked(keys: Seq<u32>, res: Seq<usize>) -> bool {
    &&& forall|j: int| 0 <= j < res.len() ==> #[trigger] res[j] < keys.len()
    &&& forall|a: int, b: int|
        0 <= a < b < res.len() ==> ranks_before(keys, #[trigger] res[a] as int, #[trigger] res[b] as int)
}

/// Entry `x` ranks after every entry listed in `res`.
pub open spec fn after_all(keys: Seq<u32>, res: Seq<usize>, x: int) -> bool {
    forall|j: int| 0 <= j < res.len() ==> ranks_before(keys, #[trigger] res[j] as int, x)
}

/// `res` holds the first `top_len(keys.len(), top_k)` indices of the stable
/// descending order of `keys`, in that order.
pub open spec fn is_top_ranking(keys: Seq<u32>, top_k: nat, res: Seq<usize>) -> bool {
    &&& res.len() == top_len(keys.len(), top_k)
    &&& ranked(keys, res)
    &&& forall|x: int|
        0 <= x < keys.len() && !res.contains(x as usize) ==> #[trigger] after_all(keys, res, x)
}

fn ranks_before_exec(keys: &[u32], i: usize, j: usize) -> (res: bool)
    requires
        i < keys.len(),
        j < keys.len(),
    ensures
        res == ranks_before(keys@, i as int, j as int),
{
    keys[i] > keys[j] || (keys[i] == keys[j] && i < j)
}

/// The indices of the `top_k` highest keys, highest first, earlier indices
/// first among equal keys.
pub fn rank_top_k(keys: &[u32], top_k: usize) -> (res: Vec<usize>)
    ensures
        is_top_ranking(keys@, top_k as nat, res@),
        res@.no_duplicates(),
{
    let n = keys.len();
    let mut res: Vec<usize> = Vec::new();
    let mut i: usize = 0;
    while i < n
        invariant
            i <= n == keys@.len(),
            res.len() == top_len(i as nat, top_k as nat),
            ranked(keys@, res@),
            forall|j: int| 0 <= j < res.len() ==> #[trigger] res@[j] < i,
            forall|x: int|
                0 <= x < i && !res@.contains(x as usize) ==> res.len() == top_k && #[trigger] after_all(
                    keys@,
                    res@,
                    x,
                ),
            forall|x: int| 0 <= x < i && res.len() < top_k ==> #[trigger] res@.contains(x as usize),
        decreases n - i,
    {
        let ghost old_res = res@;
        let mut p: usize = 0;
        while p < res.len() && !ranks_before_exec(keys, i, res[p])
            invariant
                p <= res.len(),
                res@ == old_res,
                i < n == keys@.len(),
                forall|j: int| 0 <= j < res.len() ==> #[trigger] res@[j] < i,
                forall|j: int| 0 <= j < p ==> !ranks_before(keys@, i as int, #[trigger] res@[j] as int),
            decreases res.len() - p,
        {
            p = p + 1;
        }
        if p < top_k {
            res.insert(p, i);
            if res.len() > top_k {
                res.truncate(top_k);
            }
            proof {
                let ins = old_res.insert(p as int, i);
                assert forall|j: int| 0 <= j < res.len() implies #[trigger] res@[j] < i + 1 by {
                    assert(res@[j] == ins[j]);
                    if j < p {
                        assert(ins[j] == old_res[j]);
                    } else if j > p {
                        assert(ins[j] == old_res[j - 1]);
                    }
                }
                assert forall|a: int, b: int| 0 <= a < b < res.len() implies ranks_before(
                    keys@,
                    #[trigger] res@[a] as int,
                    #[trigger] res@[b] as int,
                ) by {
                    assert(res@[a] == ins[a] && res@[b] == ins[b]);
                    if b < p {
                        assert(ins[a] == old_res[a] && ins[b] == old_res[b]);
                    } else if b == p {
                        assert(ins[a] == old_res[a]);
                        assert(!ranks_before(keys@, i as int, old_res[a] as int));
                    } else if a < p {
                        assert(ins[a] == old_res[a] && ins[b] == old_res[b - 1]);
                        assert(ranks_before(keys@, old_res[a] as int, old_res[b - 1] as int));
                    } else if a == p {
                        assert(ins[b] == old_res[b - 1]);
                        assert(ranks_before(keys@, i as int, old_res[p as int] as int));
                        if b - 1 > p {
                            assert(ranks_before(keys@, old_res[p as int] as int, old_res[b - 1] as int));
                        }
                    } else {
                        assert(ins[a] == old_res[a - 1] && ins[b] == old_res[b - 1]);
                    }
                }
                assert forall|x: int| 0 <= x < i + 1 && !res@.contains(x as usize) implies res.len()
                    == top_k && #[trigger] after_all(keys@, res@, x) by {
                    assert(ins[p as int] == i);
                    assert(res@[p as int] == i);
                    assert(x != i);
                    if old_res.contains(x as usize) {
                        let w = choose|w: int| 0 <= w < old_res.len() && old_res[w] == x as usize;
                        if w < p {
                            assert(res@[w] == x as usize);
                        } else if w + 1 < res.len() {
                            assert(res@[w + 1] == x as usize);
                        }
                        assert(w == old_res.len() - 1 && old_res.len() == top_k);
                        assert forall|j: int| 0 <= j < res.len() implies ranks_before(
                            keys@,
                            #[trigger] res@[j] as int,
                            x,
                        ) by {
                            if j < p {
                                assert(res@[j] == old_res[j]);
                            } else if j == p {
                                assert(ranks_before(keys@, i as int, old_res[p as int] as int));
                                if p < w {
                                    assert(ranks_before(keys@, old_res[p as int] as int, old_res[w] as int));
                                }
                            } else {
                                assert(res@[j] == old_res[j - 1]);
                            }
                        }
                    } else {
                        assert(after_all(keys@, old_res, x));
                        assert forall|j: int| 0 <= j < res.len() implies ranks_before(
                            keys@,
                            #[trigger] res@[j] as int,
                            x,
                        ) by {
                            if j < p {
                                assert(res@[j] == old_res[j]);
                            } else if j == p {
                                assert(ranks_before(keys@, old_res[p as int] as int, x));
                            } else {
                                assert(res@[j] == old_res[j - 1]);
                            }
                        }
                    }
                }
                assert forall|x: int| 0 <= x < i + 1 && res.len() < top_k implies #[trigger] res@.contains(
                    x as usize,
                ) by {
                    if x == i {
                        assert(res@[p as int] == i);
                    } else {
                        assert(res@ == ins);
                        assert(old_res.len() < top_k);
                        assert(old_res.contains(x as usize));
                        let w = choose|w: int| 0 <= w < old_res.len() && old_res[w] == x as usize;
                        if w < p {
                            assert(res@[w] == x as usize);
                        } else {
                            assert(res@[w + 1] == x as usize);
                        }
                    }
                }
            }
        } else {
            proof {
                assert forall|j: int| 0 <= j < res.len() implies ranks_before(
                    keys@,
                    #[trigger] res@[j] as int,
                    i as int,
                ) by {
                    assert(!ranks_before(keys@, i as int, res@[j] as int));
                }
                assert(after_all(keys@, res@, i as int));
            }
        }
        i = i + 1;
    }
    assert forall|a: int, b: int| 0 <= a < res.len() && 0 <= b < res.len() && a != b implies res@[a]
        != res@[b] by {
        if a < b {
            assert(ranks_before(keys@, res@[a] as int, res@[b] as int));
        } else {
            assert(ranks_before(keys@, res@[b] as int, res@[a] as int));
        }
    }
    res
}

} // verus!
