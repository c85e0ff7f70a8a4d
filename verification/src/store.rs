//! The chapter store: an in-memory table of chapter records, together with
//! the well-formedness predicate every operation preserves.

use vstd::prelude::*;
use vstd::set_lib::{lemma_int_range, lemma_len_subset, set_int_range};
use vstd::string::StringExecFns;

use crate::chapter::{opt_id_eq, opt_int, opt_view, Chapter, ChapterModel};
use crate::digits::{dec_digits, render_id};
use crate::errors::ChapterError;

verus! {

/// Some record in `s` carries the id `id`.
pub open spec fn has_id(s: Seq<ChapterModel>, id: int) -> bool {
    exists|j: int| 0 <= j < s.len() && s[j].id == id
}

/// The position of the record with id `id` (meaningful when ids are unique
/// and `has_id` holds).
pub open spec fn idx_of(s: Seq<ChapterModel>, id: int) -> int {
    choose|j: int| 0 <= j < s.len() && s[j].id == id
}

/// The record with id `id`.
pub open spec fn ch(s: Seq<ChapterModel>, id: int) -> ChapterModel {
    s[idx_of(s, id)]
}

/// No two records share an id.
pub open spec fn ids_unique(s: Seq<ChapterModel>) -> bool {
    forall|i: int, j: int| 0 <= i < j < s.len() ==> s[i].id != s[j].id
}

/// Membership in the sibling group `(book_id, parent)`.
pub open spec fn in_group(c: ChapterModel, book_id: int, parent: Option<int>) -> bool {
    c.book_id == book_id && c.parent_id == parent
}

/// The record at `i` either is a root or points at an existing chapter of
/// the same book, other than itself.
pub open spec fn parent_ok(s: Seq<ChapterModel>, i: int) -> bool {
    match s[i].parent_id {
        None => true,
        Some(p) => has_id(s, p) && ch(s, p).book_id == s[i].book_id && p != s[i].id,
    }
}

/// The derived fields of the record at `i` agree with its parent: a root has
/// level 0 and its own id as path; a child has its parent's level plus one
/// and its parent's path, a separator, and its own id.
pub open spec fn derived_ok(s: Seq<ChapterModel>, i: int) -> bool {
    match s[i].parent_id {
        None => s[i].level == 0 && s[i].path == dec_digits(s[i].id as nat),
        Some(p) => s[i].level == ch(s, p).level + 1 && s[i].path == ch(s, p).path + seq!['/']
            + dec_digits(s[i].id as nat),
    }
}

/// All per-record conditions at position `i`.
pub open spec fn valid_at(s: Seq<ChapterModel>, i: int) -> bool {
    &&& s[i].id >= 1
    &&& s[i].level >= 0
    &&& parent_ok(s, i)
    &&& derived_ok(s, i)
}

/// Well-formedness of a chapter table. This is the invariant of the store:
/// unique positive ids, parents that exist in the same book, and `level` and
/// `path` consistent with the parent everywhere.
pub open spec fn wf_seq(s: Seq<ChapterModel>) -> bool {
    &&& ids_unique(s)
    &&& forall|i: int| 0 <= i < s.len() ==> #[trigger] valid_at(s, i)
}

/// A record found at position `i` is the one `idx_of` names.
pub proof fn lemma_idx_of(s: Seq<ChapterModel>, i: int)
    requires
        ids_unique(s),
        0 <= i < s.len(),
    ensures
        has_id(s, s[i].id),
        idx_of(s, s[i].id) == i,
        ch(s, s[i].id) == s[i],
{
    assert(has_id(s, s[i].id));
    let j = idx_of(s, s[i].id);
    assert(0 <= j < s.len() && s[j].id == s[i].id);
}

/// The positions of a chapter and all its ancestors, nearest first.
pub proof fn chain_to_root(s: Seq<ChapterModel>, i: int) -> (r: Seq<int>)
    requires
        wf_seq(s),
        0 <= i < s.len(),
    ensures
        r.len() == s[i].level + 1,
        forall|k: int|
            0 <= k < r.len() ==> 0 <= #[trigger] r[k] < s.len() && s[r[k]].level == s[i].level
                - k,
        r[0] == i,
        forall|k: int|
            0 <= k < r.len() - 1 ==> (#[trigger] s[r[k]].parent_id) is Some && idx_of(
                s,
                s[r[k]].parent_id->0,
            ) == r[k + 1],
        s[r[r.len() - 1]].parent_id is None,
    decreases s[i].level,
{
    assert(valid_at(s, i));
    match s[i].parent_id {
        None => {
            seq![i]
        },
        Some(p) => {
            let pi = idx_of(s, p);
            assert(has_id(s, p));
            assert(0 <= pi < s.len() && s[pi].id == p);
            assert(valid_at(s, pi));
            let rest = chain_to_root(s, pi);
            let r = seq![i] + rest;
            assert forall|k: int| 0 <= k < r.len() implies 0 <= #[trigger] r[k] < s.len()
                && s[r[k]].level == s[i].level - k by {
                if k > 0 {
                    assert(r[k] == rest[k - 1]);
                }
            }
            assert forall|k: int| 0 <= k < r.len() - 1 implies (#[trigger] s[r[k]].parent_id)
                is Some && idx_of(s, s[r[k]].parent_id->0) == r[k + 1] by {
                if k == 0 {
                    assert(r[0] == i && r[1] == rest[0]);
                } else {
                    assert(r[k] == rest[k - 1] && r[k + 1] == rest[k]);
                }
            }
            assert(r[r.len() - 1] == rest[rest.len() - 1]);
            r
        },
    }
}

/// In a well-formed table every level is below the number of chapters:
/// the ancestor chain visits distinct rows.
pub proof fn lemma_level_bound(s: Seq<ChapterModel>, i: int)
    requires
        wf_seq(s),
        0 <= i < s.len(),
    ensures
        0 <= s[i].level < s.len(),
{
    assert(valid_at(s, i));
    let r = chain_to_root(s, i);
    assert(r.no_duplicates()) by {
        assert forall|k1: int, k2: int| 0 <= k1 < k2 < r.len() implies r[k1] != r[k2] by {
            assert(s[r[k1]].level == s[i].level - k1);
            assert(s[r[k2]].level == s[i].level - k2);
        }
    }
    r.unique_seq_to_set();
    let range = set_int_range(0, s.len() as int);
    lemma_int_range(0, s.len() as int);
    assert(r.to_set().subset_of(range)) by {
        assert forall|x: int| r.to_set().contains(x) implies range.contains(x) by {
            assert(r.contains(x));
            let k = choose|k: int| 0 <= k < r.len() && r[k] == x;
            assert(0 <= r[k] < s.len());
        }
    }
    lemma_len_subset(r.to_set(), range);
}

/// Appending a fresh, locally consistent record keeps the table well formed.
pub proof fn lemma_wf_push(s: Seq<ChapterModel>, m: ChapterModel)
    requires
        wf_seq(s),
        m.id >= 1,
        !has_id(s, m.id),
        match m.parent_id {
            None => m.level == 0 && m.path == dec_digits(m.id as nat),
            Some(p) => has_id(s, p) && ch(s, p).book_id == m.book_id && m.level == ch(s, p).level
                + 1 && m.path == ch(s, p).path + seq!['/'] + dec_digits(m.id as nat),
        },
    ensures
        wf_seq(s.push(m)),
        forall|id: int| has_id(s, id) ==> #[trigger] has_id(s.push(m), id),
        forall|id: int|
            has_id(s, id) ==> #[trigger] ch(s.push(m), id) == ch(s, id) && idx_of(s.push(m), id)
                == idx_of(s, id),
        has_id(s.push(m), m.id),
        ch(s.push(m), m.id) == m,
{
    let t = s.push(m);
    let n = s.len() as int;
    assert(forall|i: int| 0 <= i < n ==> t[i] == s[i]);
    assert(t[n] == m);
    assert(ids_unique(t)) by {
        assert forall|i: int, j: int| 0 <= i < j < t.len() implies t[i].id != t[j].id by {
            if j < n {
            } else {
                assert(t[j] == m);
                if t[i].id == m.id {
                    assert(has_id(s, m.id));
                }
            }
        }
    }
    assert forall|id: int| has_id(s, id) implies #[trigger] has_id(t, id) && ch(t, id) == ch(
        s,
        id,
    ) && idx_of(t, id) == idx_of(s, id) by {
        let j = idx_of(s, id);
        assert(0 <= j < n && s[j].id == id);
        assert(t[j].id == id);
        assert(has_id(t, id));
        let j2 = idx_of(t, id);
        assert(0 <= j2 < t.len() && t[j2].id == id);
        if j2 != j {
            if j2 == n {
                assert(m.id == id);
                assert(has_id(s, m.id));
            } else {
                assert(s[j2].id == id && s[j].id == id);
            }
        }
    }
    assert(has_id(t, m.id));
    let jm = idx_of(t, m.id);
    assert(0 <= jm < t.len() && t[jm].id == m.id);
    if jm != n {
        assert(s[jm].id == m.id);
        assert(has_id(s, m.id));
    }
    assert(ch(t, m.id) == m);
    assert forall|i: int| 0 <= i < t.len() implies #[trigger] valid_at(t, i) by {
        if i < n {
            assert(valid_at(s, i));
            assert(t[i] == s[i]);
            match s[i].parent_id {
                None => {},
                Some(p) => {
                    assert(has_id(s, p));
                    assert(has_id(t, p));
                    assert(ch(t, p) == ch(s, p));
                    assert(parent_ok(t, i));
                    assert(derived_ok(t, i));
                },
            }
        } else {
            assert(t[i] == m);
            match m.parent_id {
                None => {},
                Some(p) => {
                    let pi = idx_of(s, p);
                    assert(0 <= pi < n && s[pi].id == p);
                    assert(valid_at(s, pi));
                    assert(ch(s, p).level >= 0);
                    assert(has_id(t, p));
                    assert(ch(t, p) == ch(s, p));
                    assert(parent_ok(t, i));
                    assert(derived_ok(t, i));
                },
            }
        }
    }
}

/// The largest sibling ordering key in the group `(b, p)`, if the group is
/// not empty.
pub open spec fn group_max(s: Seq<ChapterModel>, b: int, p: Option<int>) -> Option<int>
    decreases s.len(),
{
    if s.len() == 0 {
        None
    } else {
        let rest = group_max(s.drop_last(), b, p);
        if in_group(s.last(), b, p) {
            match rest {
                None => Some(s.last().sort_order),
                Some(m) => Some(
                    if s.last().sort_order > m {
                        s.last().sort_order
                    } else {
                        m
                    },
                ),
            }
        } else {
            rest
        }
    }
}

/// The ordering key a freshly appended sibling receives: one past the
/// group's maximum, or 1 for an empty group.
pub open spec fn next_order_spec(s: Seq<ChapterModel>, b: int, p: Option<int>) -> int {
    match group_max(s, b, p) {
        None => 1,
        Some(m) => m + 1,
    }
}

/// Two records that agree on identity, tree position and derived fields
/// (only metadata, ordering key and timestamps may differ).
pub open spec fn same_structure(a: ChapterModel, b: ChapterModel) -> bool {
    &&& a.id == b.id
    &&& a.parent_id == b.parent_id
    &&& a.book_id == b.book_id
    &&& a.level == b.level
    &&& a.path == b.path
}

/// Replacing one record by a structurally identical one keeps the table
/// well formed and leaves every lookup in place.
pub proof fn lemma_wf_update_meta(s: Seq<ChapterModel>, i: int, m2: ChapterModel)
    requires
        wf_seq(s),
        0 <= i < s.len(),
        same_structure(s[i], m2),
    ensures
        wf_seq(s.update(i, m2)),
        forall|id: int| #[trigger] has_id(s.update(i, m2), id) == has_id(s, id),
        forall|id: int|
            has_id(s, id) ==> #[trigger] idx_of(s.update(i, m2), id) == idx_of(s, id),
        forall|id: int|
            has_id(s, id) && id != s[i].id ==> #[trigger] ch(s.update(i, m2), id) == ch(s, id),
        ch(s.update(i, m2), s[i].id) == m2,
{
    let t = s.update(i, m2);
    assert(forall|j: int| 0 <= j < t.len() ==> #[trigger] t[j].id == s[j].id);
    assert forall|id: int| #[trigger] has_id(t, id) == has_id(s, id) by {
        if has_id(s, id) {
            let j = idx_of(s, id);
            assert(0 <= j < s.len() && s[j].id == id);
            assert(t[j].id == id);
        }
        if has_id(t, id) {
            let j = choose|j: int| 0 <= j < t.len() && t[j].id == id;
            assert(s[j].id == id);
        }
    }
    assert forall|id: int| has_id(s, id) implies #[trigger] idx_of(t, id) == idx_of(s, id) by {
        let j = idx_of(s, id);
        assert(0 <= j < s.len() && s[j].id == id);
        assert(t[j].id == id);
        assert(has_id(t, id));
        let j2 = idx_of(t, id);
        assert(0 <= j2 < t.len() && t[j2].id == id);
        if j2 != j {
            assert(s[j2].id == id && s[j].id == id);
        }
    }
    assert forall|j: int| 0 <= j < t.len() implies #[trigger] valid_at(t, j) by {
        assert(valid_at(s, j));
        match s[j].parent_id {
            None => {},
            Some(p) => {
                assert(has_id(s, p));
                let pj = idx_of(s, p);
                assert(idx_of(t, p) == pj);
                if pj == i {
                    assert(ch(t, p) == m2 && ch(s, p) == s[i]);
                } else {
                    assert(ch(t, p) == s[pj]);
                }
                assert(ch(t, p).book_id == ch(s, p).book_id);
                assert(ch(t, p).level == ch(s, p).level);
                assert(ch(t, p).path == ch(s, p).path);
                assert(t[j].parent_id == s[j].parent_id);
            },
        }
    }
}

/// The record a creation appends, as a function of the table it is appended
/// to and the creation arguments.
pub open spec fn created_model(
    s: Seq<ChapterModel>,
    id: int,
    book_id: int,
    parent: Option<int>,
    title: Seq<char>,
    desc: Option<Seq<char>>,
    sort: int,
    now: int,
) -> ChapterModel {
    ChapterModel {
        id: id,
        title: title,
        description: desc,
        book_id: book_id,
        parent_id: parent,
        sort_order: sort,
        level: match parent {
            None => 0,
            Some(p) => ch(s, p).level + 1,
        },
        path: match parent {
            None => dec_digits(id as nat),
            Some(p) => ch(s, p).path + seq!['/'] + dec_digits(id as nat),
        },
        created_at: now,
        updated_at: now,
    }
}

/// The ordering key a creation assigns: the explicit one if the caller gave
/// it, else the group's next free key.
pub open spec fn create_sort_spec(
    s: Seq<ChapterModel>,
    b: int,
    p: Option<int>,
    sort_order: Option<int>,
) -> int {
    match sort_order {
        Some(v) => v,
        None => next_order_spec(s, b, p),
    }
}

/// The chapter table.
pub struct ChapterStore {
    /// The records, in creation order.
    pub chapters: Vec<Chapter>,
    /// The next id to assign; larger than every stored id.
    pub next_id: i32,
}

impl View for ChapterStore {
    type V = Seq<ChapterModel>;

    open spec fn view(&self) -> Seq<ChapterModel> {
        self.chapters@.map_values(|c: Chapter| c@)
    }
}

impl ChapterStore {
    /// The store invariant: a well-formed table whose ids all lie below
    /// `next_id`.
    pub open spec fn wf(&self) -> bool {
        &&& wf_seq(self@)
        &&& self.next_id >= 1
        &&& self@.len() < self.next_id
        &&& forall|i: int| 0 <= i < self@.len() ==> #[trigger] self@[i].id < self.next_id
    }

    /// An empty store; ids are assigned from 1 up.
    pub fn new() -> (s: Self)
        ensures
            s.wf(),
            s@.len() == 0,
            s.next_id == 1,
    {
        ChapterStore { chapters: Vec::new(), next_id: 1 }
    }

    /// The position of the chapter with the given id, if any.
    pub fn find_index(&self, id: i32) -> (r: Option<usize>)
        requires
            ids_unique(self@),
        ensures
            match r {
                Some(i) => i < self@.len() && self@[i as int].id == id && idx_of(self@, id as int)
                    == i as int && has_id(self@, id as int),
                None => !has_id(self@, id as int),
            },
    {
        let n = self.chapters.len();
        let mut i: usize = 0;
        while i < n
            invariant
                n == self@.len(),
                i <= n,
                ids_unique(self@),
                forall|k: int| 0 <= k < i ==> self@[k].id != id,
            decreases n - i,
        {
            if self.chapters[i].id == id {
                proof {
                    lemma_idx_of(self@, i as int);
                }
                return Some(i);
            }
            i += 1;
        }
        None
    }

    /// The number of chapters in the store.
    pub fn count(&self) -> (r: usize)
        ensures
            r == self@.len(),
    {
        self.chapters.len()
    }

    /// One past the largest ordering key among the chapters sharing
    /// `(book_id, parent_id)`; 1 if that group is empty.
    pub fn get_next_sort_order(&self, book_id: i32, parent_id: Option<i32>) -> (r: i32)
        requires
            self.wf(),
            group_max(self@, book_id as int, opt_int(parent_id)) matches Some(m) ==> m
                < i32::MAX,
        ensures
            r as int == next_order_spec(self@, book_id as int, opt_int(parent_id)),
    {
        let ghost b = book_id as int;
        let ghost p = opt_int(parent_id);
        let n = self.chapters.len();
        let mut best: Option<i32> = None;
        let mut i: usize = 0;
        while i < n
            invariant
                n == self@.len(),
                i <= n,
                self.wf(),
                p == opt_int(parent_id),
                b == book_id as int,
                opt_int(best) == group_max(self@.take(i as int), b, p),
                group_max(self@, b, p) matches Some(m) ==> m < i32::MAX,
            decreases n - i,
        {
            let c = &self.chapters[i];
            proof {
                assert(self@.take(i + 1 as int).drop_last() =~= self@.take(i as int));
                assert(self@.take(i + 1 as int).last() == self@[i as int]);
            }
            if c.book_id == book_id && opt_id_eq(c.parent_id, parent_id) {
                assert(in_group(self@[i as int], b, p));
                match best {
                    None => {
                        best = Some(c.sort_order);
                    },
                    Some(m) => {
                        if c.sort_order > m {
                            best = Some(c.sort_order);
                        }
                    },
                }
            } else {
                assert(!in_group(self@[i as int], b, p));
            }
            i += 1;
        }
        proof {
            assert(self@.take(n as int) =~= self@);
        }
        match best {
            None => 1,
            Some(m) => m + 1,
        }
    }

    /// Creates a chapter — a root when `parent_id` is `None`, a child
    /// otherwise — with the explicit ordering key if one is given, else the
    /// group's next free key. The new chapter's `level` and `path` are
    /// derived immediately; a fresh chapter has no descendants to cascade
    /// to. Fails with `NotFound` when the parent does not exist and with
    /// `ScopeMismatch` when it lives in another book.
    pub fn create_chapter(
        &mut self,
        book_id: i32,
        parent_id: Option<i32>,
        title: String,
        description: Option<String>,
        sort_order: Option<i32>,
        now: i64,
    ) -> (r: Result<i32, ChapterError>)
        requires
            old(self).wf(),
            old(self).next_id < i32::MAX,
            sort_order is None ==> (group_max(
                old(self)@,
                book_id as int,
                opt_int(parent_id),
            ) matches Some(m) ==> m < i32::MAX),
        ensures
            match r {
                Ok(id) => {
                    &&& match opt_int(parent_id) {
                        None => true,
                        Some(p) => has_id(old(self)@, p) && ch(old(self)@, p).book_id
                            == book_id as int,
                    }
                    &&& id == old(self).next_id
                    &&& final(self).next_id == old(self).next_id + 1
                    &&& final(self).wf()
                    &&& final(self)@ == old(self)@.push(
                        created_model(
                            old(self)@,
                            id as int,
                            book_id as int,
                            opt_int(parent_id),
                            title@,
                            opt_view(description),
                            create_sort_spec(
                                old(self)@,
                                book_id as int,
                                opt_int(parent_id),
                                opt_int(sort_order),
                            ),
                            now as int,
                        ),
                    )
                },
                Err(e) => {
                    &&& *final(self) == *old(self)
                    &&& match opt_int(parent_id) {
                        None => false,
                        Some(p) => if !has_id(old(self)@, p) {
                            e == ChapterError::NotFound
                        } else {
                            ch(old(self)@, p).book_id != book_id as int && e
                                == ChapterError::ScopeMismatch
                        },
                    }
                },
            },
    {
        let ghost s0 = self@;
        let mut parent_level: i64 = 0;
        let mut parent_pos: usize = 0;
        let mut has_parent = false;
        match parent_id {
            None => {},
            Some(pid) => {
                match self.find_index(pid) {
                    None => {
                        return Err(ChapterError::NotFound);
                    },
                    Some(pi) => {
                        if self.chapters[pi].book_id != book_id {
                            return Err(ChapterError::ScopeMismatch);
                        }
                        parent_pos = pi;
                        parent_level = self.chapters[pi].level;
                        has_parent = true;
                    },
                }
            },
        }
        let sort = match sort_order {
            Some(v) => v,
            None => self.get_next_sort_order(book_id, parent_id),
        };
        let id = self.next_id;
        proof {
            assert(!has_id(s0, id as int)) by {
                if has_id(s0, id as int) {
                    let j = choose|j: int| 0 <= j < s0.len() && s0[j].id == id as int;
                    assert(s0[j].id < old(self).next_id);
                }
            }
        }
        let (level, path): (i64, String) = if has_parent {
            proof {
                lemma_level_bound(s0, parent_pos as int);
            }
            let lvl = parent_level + 1;
            let mut pth = self.chapters[parent_pos].path.clone();
            pth.append("/");
            let ds = render_id(id as u32);
            pth.append(ds.as_str());
            proof {
                reveal_strlit("/");
                lemma_idx_of(s0, parent_pos as int);
                assert(pth@ =~= ch(s0, opt_int(parent_id)->0).path + seq!['/'] + dec_digits(
                    id as nat,
                ));
            }
            (lvl, pth)
        } else {
            (0, render_id(id as u32))
        };
        let record = Chapter {
            id: id,
            title: title,
            description: description,
            book_id: book_id,
            parent_id: parent_id,
            sort_order: sort,
            level: level,
            path: path,
            created_at: now,
            updated_at: now,
        };
        let ghost m = record@;
        self.chapters.push(record);
        self.next_id = id + 1;
        proof {
            assert(self@ =~= s0.push(m));
            if has_parent {
                lemma_idx_of(s0, parent_pos as int);
            }
            lemma_wf_push(s0, m);
            let target = created_model(
                s0,
                id as int,
                book_id as int,
                opt_int(parent_id),
                title@,
                opt_view(description),
                create_sort_spec(s0, book_id as int, opt_int(parent_id), opt_int(sort_order)),
                now as int,
            );
            assert(m =~= target);
            assert(self@ == s0.push(target));
            assert forall|i: int| 0 <= i < self@.len() implies #[trigger] self@[i].id
                < self.next_id by {
                if i < s0.len() {
                    assert(self@[i] == s0[i]);
                }
            }
        }
        Ok(id)
    }

    /// Edits title, description and/or the explicit ordering key of a
    /// chapter. These fields are independent of tree shape, so neither the
    /// cycle guard nor any recomputation is involved.
    pub fn update_chapter(
        &mut self,
        chapter_id: i32,
        title: Option<String>,
        description: Option<String>,
        sort_order: Option<i32>,
        now: i64,
    ) -> (r: Result<(), ChapterError>)
        requires
            old(self).wf(),
        ensures
            match r {
                Ok(()) => {
                    &&& has_id(old(self)@, chapter_id as int)
                    &&& final(self).wf()
                    &&& final(self).next_id == old(self).next_id
                    &&& final(self)@ == old(self)@.update(
                        idx_of(old(self)@, chapter_id as int),
                        meta_updated(
                            ch(old(self)@, chapter_id as int),
                            opt_view(title),
                            opt_view(description),
                            opt_int(sort_order),
                            now as int,
                        ),
                    )
                },
                Err(e) => {
                    &&& *final(self) == *old(self)
                    &&& e == ChapterError::NotFound
                    &&& !has_id(old(self)@, chapter_id as int)
                },
            },
    {
        let ghost s0 = self@;
        let i = match self.find_index(chapter_id) {
            None => {
                return Err(ChapterError::NotFound);
            },
            Some(i) => i,
        };
        let c = &self.chapters[i];
        let new_title = match title {
            Some(t) => t,
            None => c.title.clone(),
        };
        let new_desc = match description {
            Some(d) => Some(d),
            None => clone_opt_string(&c.description),
        };
        let new_sort = match sort_order {
            Some(v) => v,
            None => c.sort_order,
        };
        let record = Chapter {
            id: c.id,
            title: new_title,
            description: new_desc,
            book_id: c.book_id,
            parent_id: c.parent_id,
            sort_order: new_sort,
            level: c.level,
            path: c.path.clone(),
            created_at: c.created_at,
            updated_at: now,
        };
        let ghost m2 = record@;
        self.chapters[i] = record;
        proof {
            assert(self@ =~= s0.update(i as int, m2));
            lemma_wf_update_meta(s0, i as int, m2);
            let target = meta_updated(
                ch(s0, chapter_id as int),
                opt_view(title),
                opt_view(description),
                opt_int(sort_order),
                now as int,
            );
            assert(m2 =~= target);
            assert forall|k: int| 0 <= k < self@.len() implies #[trigger] self@[k].id
                < self.next_id by {
                assert(self@[k].id == s0[k].id);
            }
        }
        Ok(())
    }

    /// Creates a root chapter, its ordering key appended after the
    /// existing root chapters of the book.
    pub fn create_with_order(
        &mut self,
        book_id: i32,
        title: String,
        description: Option<String>,
        now: i64,
    ) -> (r: Result<i32, ChapterError>)
        requires
            old(self).wf(),
            old(self).next_id < i32::MAX,
            group_max(old(self)@, book_id as int, None) matches Some(m) ==> m < i32::MAX,
        ensures
            match r {
                Ok(id) => {
                    &&& id == old(self).next_id
                    &&& final(self).next_id == old(self).next_id + 1
                    &&& final(self).wf()
                    &&& final(self)@ == old(self)@.push(
                        created_model(
                            old(self)@,
                            id as int,
                            book_id as int,
                            None,
                            title@,
                            opt_view(description),
                            next_order_spec(old(self)@, book_id as int, None),
                            now as int,
                        ),
                    )
                },
                Err(_) => false,
            },
    {
        let r = self.create_chapter(book_id, None, title, description, None, now);
        match r {
            Ok(id) => Ok(id),
            Err(e) => {
                proof {
                    assert(false);
                }
                Err(e)
            },
        }
    }

    /// Creates a child chapter under `parent_id`, its ordering key
    /// appended after the parent's existing children.
    pub fn create_child(
        &mut self,
        book_id: i32,
        parent_id: i32,
        title: String,
        description: Option<String>,
        now: i64,
    ) -> (r: Result<i32, ChapterError>)
        requires
            old(self).wf(),
            old(self).next_id < i32::MAX,
            group_max(old(self)@, book_id as int, Some(parent_id as int)) matches Some(m) ==> m
                < i32::MAX,
        ensures
            match r {
                Ok(id) => {
                    &&& has_id(old(self)@, parent_id as int)
                    &&& ch(old(self)@, parent_id as int).book_id == book_id as int
                    &&& id == old(self).next_id
                    &&& final(self).next_id == old(self).next_id + 1
                    &&& final(self).wf()
                    &&& final(self)@ == old(self)@.push(
                        created_model(
                            old(self)@,
                            id as int,
                            book_id as int,
                            Some(parent_id as int),
                            title@,
                            opt_view(description),
                            next_order_spec(old(self)@, book_id as int, Some(parent_id as int)),
                            now as int,
                        ),
                    )
                },
                Err(e) => {
                    &&& *final(self) == *old(self)
                    &&& if !has_id(old(self)@, parent_id as int) {
                        e == ChapterError::NotFound
                    } else {
                        ch(old(self)@, parent_id as int).book_id != book_id as int && e
                            == ChapterError::ScopeMismatch
                    }
                },
            },
    {
        self.create_chapter(book_id, Some(parent_id), title, description, None, now)
    }
}

/// The record `update_chapter` leaves behind: the given fields replaced,
/// `updated_at` refreshed, everything else (identity, tree position,
/// derived fields) untouched.
pub open spec fn meta_updated(
    m: ChapterModel,
    title: Option<Seq<char>>,
    desc: Option<Seq<char>>,
    sort: Option<int>,
    now: int,
) -> ChapterModel {
    ChapterModel {
        id: m.id,
        title: match title {
            Some(t) => t,
            None => m.title,
        },
        description: match desc {
            Some(d) => Some(d),
            None => m.description,
        },
        book_id: m.book_id,
        parent_id: m.parent_id,
        sort_order: match sort {
            Some(v) => v,
            None => m.sort_order,
        },
        level: m.level,
        path: m.path,
        created_at: m.created_at,
        updated_at: now,
    }
}

/// A field-preserving copy of an optional text.
pub fn clone_opt_string(d: &Option<String>) -> (r: Option<String>)
    ensures
        crate::chapter::opt_view(r) == crate::chapter::opt_view(*d),
{
    match d {
        None => None,
        Some(s) => Some(s.clone()),
    }
}

} // verus!
