//! The cycle guard: walking parent references upward, both the depth-capped
//! public check and the exact ancestry test the mutation engine relies on.

use vstd::prelude::*;

use crate::chapter::ChapterModel;
use crate::store::{
    ch, has_id, idx_of, ids_unique, lemma_idx_of, lemma_level_bound, valid_at, wf_seq,
    ChapterStore,
};

verus! {

/// `target` appears among the first `fuel` chapters visited when walking
/// parent references upward from `start` (the walk stops at a root, at a
/// missing chapter, and when the fuel runs out).
pub open spec fn chain_hits(s: Seq<ChapterModel>, start: int, target: int, fuel: nat) -> bool
    decreases fuel,
{
    if fuel == 0 {
        false
    } else if start == target {
        true
    } else if !has_id(s, start) {
        false
    } else {
        match ch(s, start).parent_id {
            None => false,
            Some(p) => chain_hits(s, p, target, (fuel - 1) as nat),
        }
    }
}

/// `target` is `start` itself or one of its ancestors. In a well-formed
/// table every ancestor chain visits distinct chapters, so a fuel of the
/// table's size never cuts a walk short.
pub open spec fn reachable_up(s: Seq<ChapterModel>, start: int, target: int) -> bool {
    chain_hits(s, start, target, s.len() as nat)
}

/// More fuel never loses a hit.
pub proof fn lemma_chain_monotone(
    s: Seq<ChapterModel>,
    start: int,
    target: int,
    f1: nat,
    f2: nat,
)
    requires
        chain_hits(s, start, target, f1),
        f1 <= f2,
    ensures
        chain_hits(s, start, target, f2),
    decreases f1,
{
    if start == target {
    } else {
        match ch(s, start).parent_id {
            None => {},
            Some(p) => {
                lemma_chain_monotone(s, p, target, (f1 - 1) as nat, (f2 - 1) as nat);
            },
        }
    }
}

/// A chain that reaches `x` extends one hop to `x`'s parent.
pub proof fn lemma_chain_extend(s: Seq<ChapterModel>, start: int, x: int, q: int, f: nat)
    requires
        chain_hits(s, start, x, f),
        has_id(s, x),
        ch(s, x).parent_id == Some(q),
    ensures
        chain_hits(s, start, q, (f + 1) as nat),
    decreases f,
{
    if start == x {
        if start == q {
        } else {
            assert(chain_hits(s, q, q, f));
        }
    } else {
        match ch(s, start).parent_id {
            None => {},
            Some(p) => {
                lemma_chain_extend(s, p, x, q, (f - 1) as nat);
            },
        }
    }
}

/// In a well-formed table a hit with any fuel is a hit within the walker's
/// own level plus one: chains are as short as the depth of their start.
pub proof fn lemma_chain_tight(s: Seq<ChapterModel>, start: int, target: int, f: nat)
    requires
        wf_seq(s),
        has_id(s, start),
        chain_hits(s, start, target, f),
    ensures
        chain_hits(s, start, target, (ch(s, start).level + 1) as nat),
    decreases f,
{
    let i = idx_of(s, start);
    assert(0 <= i < s.len() && s[i].id == start);
    assert(valid_at(s, i));
    if start == target {
    } else {
        match ch(s, start).parent_id {
            None => {},
            Some(p) => {
                let pi = idx_of(s, p);
                assert(has_id(s, p));
                assert(0 <= pi < s.len() && s[pi].id == p);
                assert(valid_at(s, pi));
                lemma_chain_tight(s, p, target, (f - 1) as nat);
                assert(ch(s, p).level + 1 == ch(s, start).level);
            },
        }
    }
}

/// Walks depend only on ids and parent references: two tables that agree
/// on those agree on every walk.
pub proof fn lemma_chain_shape(
    s1: Seq<ChapterModel>,
    s2: Seq<ChapterModel>,
    start: int,
    target: int,
    f: nat,
)
    requires
        ids_unique(s1),
        s1.len() == s2.len(),
        forall|j: int|
            0 <= j < s1.len() ==> #[trigger] s2[j].id == s1[j].id && s2[j].parent_id
                == s1[j].parent_id,
    ensures
        chain_hits(s1, start, target, f) == chain_hits(s2, start, target, f),
    decreases f,
{
    if f == 0 || start == target {
    } else {
        assert(ids_unique(s2));
        assert(has_id(s1, start) == has_id(s2, start)) by {
            if has_id(s1, start) {
                let j = idx_of(s1, start);
                assert(0 <= j < s1.len() && s1[j].id == start);
                assert(s2[j].id == start);
            }
            if has_id(s2, start) {
                let j = idx_of(s2, start);
                assert(0 <= j < s2.len() && s2[j].id == start);
                assert(s1[j].id == start);
            }
        }
        if has_id(s1, start) {
            let j1 = idx_of(s1, start);
            let j2 = idx_of(s2, start);
            assert(0 <= j1 < s1.len() && s1[j1].id == start);
            assert(0 <= j2 < s2.len() && s2[j2].id == start);
            assert(s1[j2].id == start);
            if j1 != j2 {
                assert(false);
            }
            assert(ch(s1, start).parent_id == ch(s2, start).parent_id);
            match ch(s1, start).parent_id {
                None => {},
                Some(p) => {
                    lemma_chain_shape(s1, s2, p, target, (f - 1) as nat);
                },
            }
        }
    }
}

/// Same length, same ids: every lookup lands on the same position.
pub proof fn lemma_idx_stable(s1: Seq<ChapterModel>, s2: Seq<ChapterModel>)
    requires
        ids_unique(s1),
        s1.len() == s2.len(),
        forall|j: int| 0 <= j < s1.len() ==> #[trigger] s2[j].id == s1[j].id,
    ensures
        ids_unique(s2),
        forall|id: int| #[trigger] has_id(s1, id) == has_id(s2, id),
        forall|id: int| has_id(s1, id) ==> #[trigger] idx_of(s1, id) == idx_of(s2, id),
{
    assert(ids_unique(s2));
    assert forall|id: int| #[trigger] has_id(s1, id) == has_id(s2, id) by {
        if has_id(s1, id) {
            let j = idx_of(s1, id);
            assert(0 <= j < s1.len() && s1[j].id == id);
            assert(s2[j].id == id);
        }
        if has_id(s2, id) {
            let j = choose|j: int| 0 <= j < s2.len() && s2[j].id == id;
            assert(s1[j].id == id);
        }
    }
    assert forall|id: int| has_id(s1, id) implies #[trigger] idx_of(s1, id) == idx_of(
        s2,
        id,
    ) by {
        let j1 = idx_of(s1, id);
        assert(0 <= j1 < s1.len() && s1[j1].id == id);
        assert(s2[j1].id == id);
        assert(has_id(s2, id));
        let j2 = idx_of(s2, id);
        assert(0 <= j2 < s2.len() && s2[j2].id == id);
        if j1 != j2 {
            assert(s1[j2].id == id);
        }
    }
}

/// Every chapter on the chain of ancestor positions is reachable from the
/// chain's start.
pub proof fn lemma_chain_member_reachable(s: Seq<ChapterModel>, i: int, r: Seq<int>, k: int)
    requires
        wf_seq(s),
        0 <= i < s.len(),
        r[0] == i,
        forall|t: int| 0 <= t < r.len() ==> 0 <= #[trigger] r[t] < s.len(),
        forall|t: int|
            0 <= t < r.len() - 1 ==> (#[trigger] s[r[t]].parent_id) is Some && idx_of(
                s,
                s[r[t]].parent_id->0,
            ) == r[t + 1],
        0 <= k < r.len(),
    ensures
        chain_hits(s, s[i].id, s[r[k]].id, (k + 1) as nat),
    decreases k,
{
    if k == 0 {
        assert(chain_hits(s, s[i].id, s[i].id, 1));
    } else {
        lemma_chain_member_reachable(s, i, r, k - 1);
        let q = s[r[k - 1]].parent_id->0;
        assert(has_id(s, s[r[k - 1]].id) && idx_of(s, s[r[k - 1]].id) == r[k - 1]) by {
            lemma_idx_of(s, r[k - 1]);
        }
        assert(ch(s, s[r[k - 1]].id).parent_id == Some(q));
        assert(q == s[r[k]].id) by {
            assert(idx_of(s, q) == r[k]);
            assert(has_id(s, q)) by {
                assert(valid_at(s, r[k - 1]));
            }
            assert(s[idx_of(s, q)].id == q);
        }
        lemma_chain_extend(s, s[i].id, s[r[k - 1]].id, q, k as nat);
    }
}

/// Where the depth-capped walk and exact ancestry agree: whenever the
/// candidate parent sits fewer than 100 levels deep — and so whenever the
/// cap cannot cut the walk short — the capped walk is the exact test.
pub proof fn lemma_capped_walk_exact(s: Seq<ChapterModel>, start: int, target: int)
    requires
        wf_seq(s),
        has_id(s, start),
        ch(s, start).level < 100,
    ensures
        chain_hits(s, start, target, 100) == reachable_up(s, start, target),
{
    let i = idx_of(s, start);
    assert(0 <= i < s.len() && s[i].id == start);
    lemma_level_bound(s, i);
    if chain_hits(s, start, target, 100) {
        lemma_chain_tight(s, start, target, 100);
        lemma_chain_monotone(
            s,
            start,
            target,
            (ch(s, start).level + 1) as nat,
            s.len() as nat,
        );
    }
    if reachable_up(s, start, target) {
        lemma_chain_tight(s, start, target, s.len() as nat);
        lemma_chain_monotone(s, start, target, (ch(s, start).level + 1) as nat, 100);
    }
}

impl ChapterStore {
    /// The depth-capped cycle check: walks upward from `new_parent_id`
    /// through at most 100 chapters and reports whether `chapter_id` was
    /// seen. Exceeding the cap counts as "no cycle" — a deliberate,
    /// conservative policy for data that is already corrupt.
    pub fn would_create_cycle(&self, chapter_id: i32, new_parent_id: i32) -> (r: bool)
        requires
            self.wf(),
        ensures
            r == chain_hits(self@, new_parent_id as int, chapter_id as int, 100),
    {
        let ghost s = self@;
        let ghost target = chapter_id as int;
        let mut cur: i32 = new_parent_id;
        let mut step: usize = 0;
        while step < 100
            invariant
                self.wf(),
                s == self@,
                target == chapter_id as int,
                step <= 100,
                chain_hits(s, new_parent_id as int, target, 100) == chain_hits(
                    s,
                    cur as int,
                    target,
                    (100 - step) as nat,
                ),
            decreases 100 - step,
        {
            if cur == chapter_id {
                return true;
            }
            match self.find_index(cur) {
                None => {
                    return false;
                },
                Some(i) => {
                    match self.chapters[i].parent_id {
                        None => {
                            return false;
                        },
                        Some(p) => {
                            proof {
                                lemma_idx_of(s, i as int);
                            }
                            cur = p;
                        },
                    }
                },
            }
            step += 1;
        }
        false
    }

    /// The exact ancestry test: whether `target` is `start_id` itself or
    /// one of its ancestors. Terminates without a cap because levels
    /// strictly decrease along any well-formed chain.
    pub fn is_ancestor_or_self(&self, start_id: i32, target: i32) -> (r: bool)
        requires
            self.wf(),
            has_id(self@, start_id as int),
        ensures
            r == reachable_up(self@, start_id as int, target as int),
    {
        let ghost s = self@;
        let ghost t = target as int;
        let mut cur: i32 = start_id;
        let ghost mut fuel: nat = s.len() as nat;
        proof {
            let i0 = idx_of(s, start_id as int);
            assert(0 <= i0 < s.len() && s[i0].id == start_id as int);
            lemma_level_bound(s, i0);
        }
        loop
            invariant
                self.wf(),
                s == self@,
                t == target as int,
                has_id(s, cur as int),
                0 < fuel <= s.len(),
                ch(s, cur as int).level < fuel,
                reachable_up(s, start_id as int, t) == chain_hits(s, cur as int, t, fuel),
            decreases ch(s, cur as int).level,
        {
            if cur == target {
                return true;
            }
            let i = match self.find_index(cur) {
                Some(i) => i,
                None => {
                    proof {
                        assert(false);
                    }
                    return false;
                },
            };
            proof {
                lemma_idx_of(s, i as int);
                assert(valid_at(s, i as int));
                lemma_level_bound(s, i as int);
            }
            match self.chapters[i].parent_id {
                None => {
                    return false;
                },
                Some(p) => {
                    proof {
                        let pi = idx_of(s, p as int);
                        assert(has_id(s, p as int));
                        assert(0 <= pi < s.len() && s[pi].id == p as int);
                        assert(valid_at(s, pi));
                        let lvl_cur = ch(s, cur as int).level;
                        assert(ch(s, p as int).level + 1 == lvl_cur);
                        assert(chain_hits(s, cur as int, t, fuel) == chain_hits(
                            s,
                            p as int,
                            t,
                            (fuel - 1) as nat,
                        ));
                        if chain_hits(s, p as int, t, (fuel - 1) as nat) {
                            lemma_chain_tight(s, p as int, t, (fuel - 1) as nat);
                        }
                        if chain_hits(s, p as int, t, lvl_cur as nat) {
                            lemma_chain_monotone(s, p as int, t, lvl_cur as nat, (fuel - 1) as nat);
                        }
                        fuel = lvl_cur as nat;
                    }
                    cur = p;
                },
            }
        }
    }
}

/// A walk that finds `c` from a different start passes through a chapter
/// whose parent is `c` — the walk's last stop before `c`.
pub proof fn lemma_chain_pred(s: Seq<ChapterModel>, x: int, c: int, f: nat)
    requires
        chain_hits(s, x, c, f),
        x != c,
        has_id(s, x),
    ensures
        exists|y: int|
            has_id(s, y) && (#[trigger] ch(s, y)).parent_id == Some(c) && chain_hits(
                s,
                x,
                y,
                (f - 1) as nat,
            ),
    decreases f,
{
    let p = ch(s, x).parent_id->0;
    if p == c {
        assert(chain_hits(s, x, x, (f - 1) as nat)) by {
            assert(f >= 2) by {
                if f < 2 {
                    assert(!chain_hits(s, x, c, f));
                }
            }
        }
        assert(has_id(s, x) && ch(s, x).parent_id == Some(c) && chain_hits(
            s,
            x,
            x,
            (f - 1) as nat,
        ));
    } else {
        assert(chain_hits(s, p, c, (f - 1) as nat));
        assert(has_id(s, p)) by {
            if !has_id(s, p) {
                assert(!chain_hits(s, p, c, (f - 1) as nat));
            }
        }
        lemma_chain_pred(s, p, c, (f - 1) as nat);
        let y = choose|y: int|
            has_id(s, y) && (#[trigger] ch(s, y)).parent_id == Some(c) && chain_hits(
                s,
                p,
                y,
                (f - 2) as nat,
            );
        assert(chain_hits(s, x, y, (f - 1) as nat));
    }
}

/// Every chapter's walk ends at a root of its own book.
pub proof fn lemma_chain_to_some_root(s: Seq<ChapterModel>, i: int)
    requires
        wf_seq(s),
        0 <= i < s.len(),
    ensures
        exists|r: int|
            has_id(s, r) && (#[trigger] ch(s, r)).parent_id is None && ch(s, r).book_id
                == s[i].book_id && reachable_up(s, s[i].id, r),
    decreases s[i].level,
{
    assert(valid_at(s, i));
    lemma_idx_of(s, i);
    match s[i].parent_id {
        None => {
            assert(chain_hits(s, s[i].id, s[i].id, s.len() as nat));
            assert(has_id(s, s[i].id) && ch(s, s[i].id).parent_id is None && ch(
                s,
                s[i].id,
            ).book_id == s[i].book_id && reachable_up(s, s[i].id, s[i].id));
        },
        Some(p) => {
            let pi = idx_of(s, p);
            assert(has_id(s, p));
            assert(0 <= pi < s.len() && s[pi].id == p);
            assert(valid_at(s, pi));
            lemma_chain_to_some_root(s, pi);
            let r = choose|r: int|
                has_id(s, r) && (#[trigger] ch(s, r)).parent_id is None && ch(s, r).book_id
                    == s[pi].book_id && reachable_up(s, p, r);
            lemma_chain_tight(s, p, r, s.len() as nat);
            let lp = ch(s, p).level;
            assert(ch(s, p) == s[pi]);
            lemma_level_bound(s, pi);
            lemma_level_bound(s, i);
            assert(s[i].level == lp + 1);
            assert(chain_hits(s, s[i].id, r, (lp + 2) as nat)) by {
                if s[i].id == r {
                } else {
                    assert(chain_hits(s, p, r, (lp + 1) as nat));
                }
            }
            lemma_chain_monotone(s, s[i].id, r, (lp + 2) as nat, s.len() as nat) ;
            assert(reachable_up(s, s[i].id, r));
        },
    }
}

} // verus!
