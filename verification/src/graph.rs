//! The blocking-dependency graph over issues.
//!
//! Edges live in two mirrored lists: `blocked_by` on the blocked issue
//! and `blocks` on the blocker, always added and removed as a pair.  An
//! issue never blocks itself.  Alongside the edits live the readiness
//! law and the walks over the graph: the dependency tree and cycle
//! detection.

use vstd::prelude::*;
use vstd::string::StringExecFns;
use crate::errors::ErrorModel;
use crate::errors::TrackerError;
use crate::issue::Issue;
use crate::issue::Status;
use crate::store::blocker_cleared;
use crate::store::has_id;
use crate::store::idx_of;
use crate::store::is_ready;
use crate::store::lemma_idx_of;
use crate::store::unique_ids;
use crate::store::all_wf;
use crate::store::Store;
use crate::text::str_eq;

verus! {

/// Everything but the relation lists and the update time stays.
pub open spec fn edge_edit_frame(pre: Issue, post: Issue) -> bool {
    &&& post.id == pre.id
    &&& post.title == pre.title
    &&& post.description == pre.description
    &&& post.status == pre.status
    &&& post.priority == pre.priority
    &&& post.issue_type == pre.issue_type
    &&& post.session_id == pre.session_id
    &&& post.labels == pre.labels
    &&& post.comments == pre.comments
    &&& post.created_at == pre.created_at
    &&& post.closed_at == pre.closed_at
}

impl Store {
    /// Marks the issue `id` as blocked by `blocker`: the edge lands on
    /// both sides, and both issues get their update time stamped.  A
    /// self-edge, an unknown id on either side, or an edge already there
    /// is rejected with nothing changed.
    pub fn add_edge(&mut self, id: &str, blocker: &str, now: &str) -> (r: Result<(), TrackerError>)
        requires
            old(self).wf(),
        ensures
            final(self).wf(),
            final(self).config == old(self).config,
            id@ == blocker@ ==> {
                &&& r is Err
                &&& r->Err_0@ == ErrorModel::SelfBlock
                &&& final(self).issues@ == old(self).issues@
            },
            id@ != blocker@ && !has_id(old(self).issues@, id@) ==> {
                &&& r is Err
                &&& r->Err_0@ == (ErrorModel::NotFound { id: id@ })
                &&& final(self).issues@ == old(self).issues@
            },
            id@ != blocker@ && has_id(old(self).issues@, id@) && !has_id(
                old(self).issues@,
                blocker@,
            ) ==> {
                &&& r is Err
                &&& r->Err_0@ == (ErrorModel::NotFound { id: blocker@ })
                &&& final(self).issues@ == old(self).issues@
            },
            id@ != blocker@ && has_id(old(self).issues@, id@) && has_id(
                old(self).issues@,
                blocker@,
            ) ==> {
                let i = idx_of(old(self).issues@, id@);
                let b = idx_of(old(self).issues@, blocker@);
                let pre_i = old(self).issues@[i];
                let pre_b = old(self).issues@[b];
                if pre_i.blocked_by.deep_view().contains(blocker@) {
                    &&& r is Err
                    &&& r->Err_0@ == (ErrorModel::DuplicateEdge { id: id@, blocker: blocker@ })
                    &&& final(self).issues@ == old(self).issues@
                } else {
                    let post_i = final(self).issues@[i];
                    let post_b = final(self).issues@[b];
                    &&& r is Ok
                    &&& final(self).issues@.len() == old(self).issues@.len()
                    &&& forall|j: int|
                        0 <= j < old(self).issues@.len() && j != i && j != b
                            ==> final(self).issues@[j] == old(self).issues@[j]
                    &&& post_i.blocked_by.deep_view() == pre_i.blocked_by.deep_view().push(
                        blocker@,
                    )
                    &&& post_i.blocks == pre_i.blocks
                    &&& post_b.blocks.deep_view() == pre_b.blocks.deep_view().push(id@)
                    &&& post_b.blocked_by == pre_b.blocked_by
                    &&& post_i.blocked_by.deep_view().contains(blocker@)
                    &&& post_b.blocks.deep_view().contains(id@)
                    &&& post_i.updated_at@ == now@
                    &&& post_b.updated_at@ == now@
                    &&& edge_edit_frame(pre_i, post_i)
                    &&& edge_edit_frame(pre_b, post_b)
                }
            },
    {
        if str_eq(id, blocker) {
            return Err(TrackerError::SelfBlock);
        }
        let i = match self.find_index(id) {
            Some(i) => i,
            None => {
                return Err(TrackerError::NotFound { id: String::from_str(id) });
            },
        };
        let b = match self.find_index(blocker) {
            Some(b) => b,
            None => {
                return Err(TrackerError::NotFound { id: String::from_str(blocker) });
            },
        };
        proof {
            lemma_idx_of(self.issues@, id@, i as int);
            lemma_idx_of(self.issues@, blocker@, b as int);
        }
        if crate::store::vec_contains_str(&self.issues[i].blocked_by, blocker) {
            return Err(
                TrackerError::DuplicateEdge {
                    id: String::from_str(id),
                    blocker: String::from_str(blocker),
                },
            );
        }
        let ghost pre = self.issues@;
        let mut issue_i = self.issues.remove(i);
        let ghost bb = issue_i.blocked_by.deep_view();
        issue_i.blocked_by.push(String::from_str(blocker));
        issue_i.updated_at = String::from_str(now);
        proof {
            assert(issue_i.blocked_by.deep_view() =~= bb.push(blocker@));
        }
        self.issues.insert(i, issue_i);
        proof {
            assert(self.issues@ =~= pre.update(i as int, self.issues@[i as int]));
        }
        let ghost mid = self.issues@;
        let mut issue_b = self.issues.remove(b);
        let ghost bl = issue_b.blocks.deep_view();
        issue_b.blocks.push(String::from_str(id));
        issue_b.updated_at = String::from_str(now);
        proof {
            assert(issue_b.blocks.deep_view() =~= bl.push(id@));
        }
        self.issues.insert(b, issue_b);
        proof {
            assert(self.issues@ =~= mid.update(b as int, self.issues@[b as int]));
            assert(unique_ids(self.issues@));
            assert(all_wf(self.issues@));
            assert(bb.push(blocker@)[bb.len() as int] == blocker@);
            assert(bb.push(blocker@).contains(blocker@));
            assert(bl.push(id@)[bl.len() as int] == id@);
            assert(bl.push(id@).contains(id@));
        }
        Ok(())
    }

    /// Removes the blocking edge from both sides — every copy of it —
    /// and stamps both issues.  An unknown id on either side or an edge
    /// that is not there is rejected with nothing changed.
    pub fn remove_edge(&mut self, id: &str, blocker: &str, now: &str) -> (r: Result<
        (),
        TrackerError,
    >)
        requires
            old(self).wf(),
        ensures
            final(self).wf(),
            final(self).config == old(self).config,
            !has_id(old(self).issues@, id@) ==> {
                &&& r is Err
                &&& r->Err_0@ == (ErrorModel::NotFound { id: id@ })
                &&& final(self).issues@ == old(self).issues@
            },
            has_id(old(self).issues@, id@) && !has_id(old(self).issues@, blocker@) ==> {
                &&& r is Err
                &&& r->Err_0@ == (ErrorModel::NotFound { id: blocker@ })
                &&& final(self).issues@ == old(self).issues@
            },
            has_id(old(self).issues@, id@) && id@ == blocker@ ==> {
                let i = idx_of(old(self).issues@, id@);
                let pre_i = old(self).issues@[i];
                if !pre_i.blocked_by.deep_view().contains(id@) {
                    &&& r is Err
                    &&& r->Err_0@ == (ErrorModel::MissingEdge { id: id@, blocker: blocker@ })
                    &&& final(self).issues@ == old(self).issues@
                } else {
                    let post_i = final(self).issues@[i];
                    &&& r is Ok
                    &&& final(self).issues@.len() == old(self).issues@.len()
                    &&& forall|j: int|
                        0 <= j < old(self).issues@.len() && j != i
                            ==> final(self).issues@[j] == old(self).issues@[j]
                    &&& post_i.blocked_by.deep_view() == pre_i.blocked_by.deep_view().filter(
                        |x: Seq<char>| x != blocker@,
                    )
                    &&& post_i.blocks.deep_view() == pre_i.blocks.deep_view().filter(
                        |x: Seq<char>| x != id@,
                    )
                    &&& !post_i.blocked_by.deep_view().contains(blocker@)
                    &&& !post_i.blocks.deep_view().contains(id@)
                    &&& post_i.updated_at@ == now@
                    &&& edge_edit_frame(pre_i, post_i)
                }
            },
            has_id(old(self).issues@, id@) && has_id(old(self).issues@, blocker@) && id@
                != blocker@ ==> {
                let i = idx_of(old(self).issues@, id@);
                let b = idx_of(old(self).issues@, blocker@);
                let pre_i = old(self).issues@[i];
                let pre_b = old(self).issues@[b];
                if !pre_i.blocked_by.deep_view().contains(blocker@) {
                    &&& r is Err
                    &&& r->Err_0@ == (ErrorModel::MissingEdge { id: id@, blocker: blocker@ })
                    &&& final(self).issues@ == old(self).issues@
                } else {
                    let post_i = final(self).issues@[i];
                    let post_b = final(self).issues@[b];
                    &&& r is Ok
                    &&& final(self).issues@.len() == old(self).issues@.len()
                    &&& forall|j: int|
                        0 <= j < old(self).issues@.len() && j != i && j != b
                            ==> final(self).issues@[j] == old(self).issues@[j]
                    &&& post_i.blocked_by.deep_view() == pre_i.blocked_by.deep_view().filter(
                        |x: Seq<char>| x != blocker@,
                    )
                    &&& post_i.blocks == pre_i.blocks
                    &&& post_b.blocks.deep_view() == pre_b.blocks.deep_view().filter(
                        |x: Seq<char>| x != id@,
                    )
                    &&& post_b.blocked_by == pre_b.blocked_by
                    &&& !post_i.blocked_by.deep_view().contains(blocker@)
                    &&& !post_b.blocks.deep_view().contains(id@)
                    &&& post_i.updated_at@ == now@
                    &&& post_b.updated_at@ == now@
                    &&& edge_edit_frame(pre_i, post_i)
                    &&& edge_edit_frame(pre_b, post_b)
                }
            },
    {
        let i = match self.find_index(id) {
            Some(i) => i,
            None => {
                return Err(TrackerError::NotFound { id: String::from_str(id) });
            },
        };
        let b = match self.find_index(blocker) {
            Some(b) => b,
            None => {
                return Err(TrackerError::NotFound { id: String::from_str(blocker) });
            },
        };
        proof {
            lemma_idx_of(self.issues@, id@, i as int);
            lemma_idx_of(self.issues@, blocker@, b as int);
        }
        if !crate::store::vec_contains_str(&self.issues[i].blocked_by, blocker) {
            return Err(
                TrackerError::MissingEdge {
                    id: String::from_str(id),
                    blocker: String::from_str(blocker),
                },
            );
        }
        let ghost pre = self.issues@;
        let mut issue_i = self.issues.remove(i);
        let kept = crate::store::retain_without(&issue_i.blocked_by, blocker);
        issue_i.blocked_by = kept;
        issue_i.updated_at = String::from_str(now);
        proof {
            let fl = issue_i.blocked_by.deep_view();
            if fl.contains(blocker@) {
                let k = choose|k: int| 0 <= k < fl.len() && fl[k] == blocker@;
                pre[i as int].blocked_by.deep_view().lemma_filter_pred(
                    |x: Seq<char>| x != blocker@,
                    k,
                );
            }
        }
        self.issues.insert(i, issue_i);
        proof {
            assert(self.issues@ =~= pre.update(i as int, self.issues@[i as int]));
        }
        let ghost mid = self.issues@;
        let mut issue_b = self.issues.remove(b);
        let ghost pre_blocks = issue_b.blocks.deep_view();
        let kept_b = crate::store::retain_without(&issue_b.blocks, id);
        issue_b.blocks = kept_b;
        issue_b.updated_at = String::from_str(now);
        proof {
            let fl = issue_b.blocks.deep_view();
            if fl.contains(id@) {
                let k = choose|k: int| 0 <= k < fl.len() && fl[k] == id@;
                pre_blocks.lemma_filter_pred(|x: Seq<char>| x != id@, k);
            }
        }
        self.issues.insert(b, issue_b);
        proof {
            assert(self.issues@ =~= mid.update(b as int, self.issues@[b as int]));
            assert(unique_ids(self.issues@));
            assert(all_wf(self.issues@));
        }
        Ok(())
    }
}

/// A blocking edge: some issue with id `a` lists `b` among its
/// blockers.
pub open spec fn edge(s: Seq<Issue>, a: Seq<char>, b: Seq<char>) -> bool {
    exists|i: int|
        0 <= i < s.len() && (#[trigger] s[i]).id@ == a && s[i].blocked_by.deep_view().contains(b)
}

/// A blocking cycle: consecutive ids are edges, and the last id leads
/// back to the first.
pub open spec fn is_cycle(s: Seq<Issue>, c: Seq<Seq<char>>) -> bool {
    &&& c.len() >= 1
    &&& forall|k: int| 0 <= k < c.len() - 1 ==> edge(s, #[trigger] c[k], c[k + 1])
    &&& edge(s, c[c.len() - 1], c[0])
}

/// No two ids in the list spell the same.
pub open spec fn ids_distinct(p: Seq<String>) -> bool {
    forall|k1: int, k2: int| 0 <= k1 < k2 < p.len() ==> p[k1]@ != p[k2]@
}

/// Every id in the list belongs to an issue in the store.
pub open spec fn all_in_store(s: Seq<Issue>, p: Seq<String>) -> bool {
    forall|k: int| 0 <= k < p.len() ==> has_id(s, (#[trigger] p[k])@)
}

/// Consecutive ids on the walk's path are edges.
pub open spec fn chain(s: Seq<Issue>, p: Seq<String>) -> bool {
    forall|k: int| 0 <= k < p.len() - 1 ==> edge(s, (#[trigger] p[k])@, p[k + 1]@)
}

/// One of the listed ids spells this id.
pub open spec fn id_among(p: Seq<String>, x: Seq<char>) -> bool {
    exists|v: int| 0 <= v < p.len() && (#[trigger] p[v])@ == x
}

/// Pairwise distinct ids: a simple cycle visits no id twice.
pub open spec fn distinct_ids(c: Seq<Seq<char>>) -> bool {
    forall|a: int, b: int| 0 <= a < b < c.len() ==> c[a] != c[b]
}

/// No cycle of the store touches a finished id: one the walk has
/// visited and since stepped away from.  While every finished id is
/// cycle-free, the fully explored part of the graph holds no cycle.
pub open spec fn finished_cycle_free(
    s: Seq<Issue>,
    visited: Seq<String>,
    path: Seq<String>,
) -> bool {
    forall|c: Seq<Seq<char>>, k: int|
        #![trigger is_cycle(s, c), c[k]]
        is_cycle(s, c) && 0 <= k < c.len() && id_among(visited, c[k]) ==> id_among(path, c[k])
}

/// The position of the first smallest id in a cycle.
pub open spec fn min_pos(l: Seq<Seq<char>>) -> int
    decreases l.len(),
{
    if l.len() <= 1 {
        0
    } else {
        let p = min_pos(l.drop_last());
        if crate::text::lex_le(
            vstd::utf8::encode_utf8(l[l.len() - 1]),
            vstd::utf8::encode_utf8(l[p]),
        ) && !crate::text::lex_le(
            vstd::utf8::encode_utf8(l[p]),
            vstd::utf8::encode_utf8(l[l.len() - 1]),
        ) {
            l.len() - 1
        } else {
            p
        }
    }
}

/// A cycle's canonical form: rotated so its first smallest id leads.
pub open spec fn canon(l: Seq<Seq<char>>) -> Seq<Seq<char>> {
    l.subrange(min_pos(l), l.len() as int) + l.subrange(0, min_pos(l))
}

/// The first smallest id sits inside the cycle.
proof fn lemma_min_pos_in_range(l: Seq<Seq<char>>)
    requires
        l.len() >= 1,
    ensures
        0 <= min_pos(l) < l.len(),
    decreases l.len(),
{
    if l.len() > 1 {
        lemma_min_pos_in_range(l.drop_last());
    }
}

/// The first smallest id compares at or before every id of the cycle.
proof fn lemma_min_pos_minimal(l: Seq<Seq<char>>)
    requires
        l.len() >= 1,
    ensures
        0 <= min_pos(l) < l.len(),
        forall|k: int|
            0 <= k < l.len() ==> crate::text::lex_le(
                vstd::utf8::encode_utf8(l[min_pos(l)]),
                vstd::utf8::encode_utf8(#[trigger] l[k]),
            ),
    decreases l.len(),
{
    if l.len() == 1 {
        crate::text::lemma_lex_le_total(
            vstd::utf8::encode_utf8(l[0]),
            vstd::utf8::encode_utf8(l[0]),
        );
    } else {
        let d = l.drop_last();
        lemma_min_pos_minimal(d);
        let p = min_pos(d);
        let lastv = l[l.len() - 1];
        assert(forall|k: int| 0 <= k < d.len() ==> d[k] == l[k]);
        crate::text::lemma_lex_le_total(
            vstd::utf8::encode_utf8(lastv),
            vstd::utf8::encode_utf8(l[p]),
        );
        if crate::text::lex_le(
            vstd::utf8::encode_utf8(lastv),
            vstd::utf8::encode_utf8(l[p]),
        ) && !crate::text::lex_le(
            vstd::utf8::encode_utf8(l[p]),
            vstd::utf8::encode_utf8(lastv),
        ) {
            assert(min_pos(l) == l.len() - 1);
            assert forall|k: int| 0 <= k < l.len() implies crate::text::lex_le(
                vstd::utf8::encode_utf8(lastv),
                vstd::utf8::encode_utf8(#[trigger] l[k]),
            ) by {
                if k < l.len() - 1 {
                    crate::text::lemma_lex_le_trans(
                        vstd::utf8::encode_utf8(lastv),
                        vstd::utf8::encode_utf8(l[p]),
                        vstd::utf8::encode_utf8(l[k]),
                    );
                } else {
                    crate::text::lemma_lex_le_total(
                        vstd::utf8::encode_utf8(lastv),
                        vstd::utf8::encode_utf8(lastv),
                    );
                }
            };
        } else {
            assert(min_pos(l) == p);
            assert(crate::text::lex_le(
                vstd::utf8::encode_utf8(l[p]),
                vstd::utf8::encode_utf8(lastv),
            ));
        }
    }
}

/// With pairwise distinct ids, any position holding a smallest id is
/// the first smallest position.
proof fn lemma_min_pos_unique(l: Seq<Seq<char>>, m: int)
    requires
        l.len() >= 1,
        distinct_ids(l),
        0 <= m < l.len(),
        forall|k: int|
            0 <= k < l.len() ==> crate::text::lex_le(
                vstd::utf8::encode_utf8(l[m]),
                vstd::utf8::encode_utf8(#[trigger] l[k]),
            ),
    ensures
        min_pos(l) == m,
{
    broadcast use vstd::utf8::encode_utf8_decode_utf8;

    lemma_min_pos_minimal(l);
    let mp = min_pos(l);
    if mp != m {
        crate::text::lemma_lex_le_antisym(
            vstd::utf8::encode_utf8(l[mp]),
            vstd::utf8::encode_utf8(l[m]),
        );
        assert(vstd::utf8::decode_utf8(vstd::utf8::encode_utf8(l[mp])) == l[mp]);
        assert(vstd::utf8::decode_utf8(vstd::utf8::encode_utf8(l[m])) == l[m]);
        assert(l[mp] == l[m]);
        if mp < m {
            assert(l[mp] != l[m]);
        } else {
            assert(l[m] != l[mp]);
        }
    }
}

/// A cycle of pairwise distinct ids normalizes the same from every
/// rotation: the canonical form fixes the rotation and depends only on
/// the cyclic sequence.
pub proof fn lemma_canon_rotation(l: Seq<Seq<char>>, p: int)
    requires
        l.len() >= 1,
        distinct_ids(l),
        0 <= p < l.len(),
    ensures
        canon(l.subrange(p, l.len() as int) + l.subrange(0, p)) == canon(l),
{
    let n = l.len() as int;
    let r = l.subrange(p, n) + l.subrange(0, p);
    assert(r.len() == n);
    assert(forall|k: int| 0 <= k < n - p ==> r[k] == l[p + k]);
    assert(forall|k: int| n - p <= k < n ==> r[k] == l[k - (n - p)]);
    assert forall|a: int, b: int| 0 <= a < b < n implies r[a] != r[b] by {
        let xa: int = if a < n - p {
            p + a
        } else {
            a - (n - p)
        };
        let xb: int = if b < n - p {
            p + b
        } else {
            b - (n - p)
        };
        assert(r[a] == l[xa] && r[b] == l[xb]);
        assert(xa != xb);
        if xa < xb {
            assert(l[xa] != l[xb]);
        } else {
            assert(l[xb] != l[xa]);
        }
    };
    lemma_min_pos_minimal(l);
    let ml = min_pos(l);
    let j0: int = if ml >= p {
        ml - p
    } else {
        ml + n - p
    };
    assert(0 <= j0 < n);
    assert(r[j0] == l[ml]);
    assert forall|k: int| 0 <= k < n implies crate::text::lex_le(
        vstd::utf8::encode_utf8(r[j0]),
        vstd::utf8::encode_utf8(#[trigger] r[k]),
    ) by {
        let xk: int = if k < n - p {
            p + k
        } else {
            k - (n - p)
        };
        assert(r[k] == l[xk]);
    };
    lemma_min_pos_unique(r, j0);
    assert(canon(r).len() == n);
    assert(canon(l).len() == n);
    assert forall|t: int| 0 <= t < n implies canon(r)[t] == canon(l)[t] by {
        let u: int = if t < n - j0 {
            j0 + t
        } else {
            t - (n - j0)
        };
        assert(canon(r)[t] == r[u]);
        let x: int = if u < n - p {
            p + u
        } else {
            u - (n - p)
        };
        assert(r[u] == l[x]);
        let v2: int = if t < n - ml {
            ml + t
        } else {
            t - (n - ml)
        };
        assert(canon(l)[t] == l[v2]);
        assert(x == v2);
    };
    assert(canon(r) =~= canon(l));
}

/// True when two id lists spell the same ids in the same order.
fn str_vecs_eq(a: &Vec<String>, b: &Vec<String>) -> (r: bool)
    ensures
        r == (a.deep_view() == b.deep_view()),
{
    if a.len() != b.len() {
        proof {
            assert(a.deep_view().len() == a@.len());
            assert(b.deep_view().len() == b@.len());
        }
        return false;
    }
    let n = a.len();
    let mut i: usize = 0;
    while i < n
        invariant
            n == a@.len() == b@.len(),
            i <= n,
            forall|j: int| 0 <= j < i ==> a.deep_view()[j] == b.deep_view()[j],
        decreases n - i,
    {
        if !str_eq(a[i].as_str(), b[i].as_str()) {
            proof {
                assert(a.deep_view()[i as int] == a@[i as int]@);
                assert(b.deep_view()[i as int] == b@[i as int]@);
            }
            return false;
        }
        proof {
            assert(a.deep_view()[i as int] == a@[i as int]@);
            assert(b.deep_view()[i as int] == b@[i as int]@);
        }
        i = i + 1;
    }
    proof {
        assert(a.deep_view() =~= b.deep_view());
    }
    true
}

/// Rotates a cycle so that its first lexicographically smallest id
/// comes first; cycles that are rotations of one another normalize to
/// the same list.
pub fn normalize_cycle(cycle: &Vec<String>) -> (r: Vec<String>)
    ensures
        r.deep_view() == canon(cycle.deep_view()),
{
    let n = cycle.len();
    if n == 0 {
        proof {
            assert(canon(cycle.deep_view()) =~= Seq::<Seq<char>>::empty());
        }
        return Vec::new();
    }
    let mut m: usize = 0;
    let mut j: usize = 1;
    while j < n
        invariant
            n == cycle@.len(),
            n == cycle.deep_view().len(),
            m < j <= n,
            m == min_pos(cycle.deep_view().take(j as int)),
        decreases n - j,
    {
        proof {
            let dv = cycle.deep_view();
            assert(dv.take(j as int + 1).drop_last() =~= dv.take(j as int));
            assert(dv.take(j as int + 1)[j as int] == dv[j as int]);
            lemma_min_pos_in_range(dv.take(j as int));
        }
        let le1 = crate::text::str_le(cycle[j].as_str(), cycle[m].as_str());
        let le2 = crate::text::str_le(cycle[m].as_str(), cycle[j].as_str());
        proof {
            assert(cycle.deep_view()[j as int] == cycle@[j as int]@);
            assert(cycle.deep_view()[m as int] == cycle@[m as int]@);
        }
        if le1 && !le2 {
            m = j;
        }
        j = j + 1;
    }
    proof {
        assert(cycle.deep_view().take(n as int) =~= cycle.deep_view());
        lemma_min_pos_in_range(cycle.deep_view());
    }
    let mut r: Vec<String> = Vec::new();
    let mut k: usize = m;
    while k < n
        invariant
            n == cycle@.len(),
            n == cycle.deep_view().len(),
            m <= k <= n,
            m < n,
            r.deep_view() =~= cycle.deep_view().subrange(m as int, k as int),
        decreases n - k,
    {
        let ghost before = r.deep_view();
        r.push(cycle[k].clone());
        proof {
            assert(r.deep_view() =~= before.push(cycle.deep_view()[k as int]));
            assert(r.deep_view() =~= cycle.deep_view().subrange(m as int, k as int + 1));
        }
        k = k + 1;
    }
    let mut k2: usize = 0;
    while k2 < m
        invariant
            n == cycle@.len(),
            n == cycle.deep_view().len(),
            k2 <= m < n,
            r.deep_view() =~= cycle.deep_view().subrange(m as int, n as int)
                + cycle.deep_view().subrange(0, k2 as int),
        decreases m - k2,
    {
        let ghost before = r.deep_view();
        r.push(cycle[k2].clone());
        proof {
            assert(r.deep_view() =~= before.push(cycle.deep_view()[k2 as int]));
            assert(r.deep_view() =~= cycle.deep_view().subrange(m as int, n as int)
                + cycle.deep_view().subrange(0, k2 as int + 1));
        }
        k2 = k2 + 1;
    }
    proof {
        assert(r.deep_view() =~= canon(cycle.deep_view()));
    }
    r
}

/// Ids that are distinct and all in the store are no more than the
/// store's issues.
proof fn lemma_ids_bound(s: Seq<Issue>, p: Seq<String>)
    requires
        ids_distinct(p),
        all_in_store(s, p),
    ensures
        p.len() <= s.len(),
{
    let mapped = p.map_values(|x: String| x@);
    assert(mapped.no_duplicates());
    mapped.unique_seq_to_set();
    crate::store::lemma_id_set_card(s);
    assert forall|x: Seq<char>| mapped.to_set().contains(x) implies crate::store::id_set(
        s,
    ).contains(x) by {
        let k = choose|k: int| 0 <= k < mapped.len() && mapped[k] == x;
        assert(has_id(s, p[k]@));
        crate::store::lemma_id_set_has_id(s, x);
    };
    vstd::set_lib::lemma_len_subset(mapped.to_set(), crate::store::id_set(s));
}

impl Store {
    /// Walks the blocking graph depth first from one id, the current
    /// path in hand; whenever a step returns onto the path, the loop of
    /// ids from that point is recorded as one cycle.  Every recorded
    /// cycle is a real cycle of the store.
    #[verifier::rlimit(100)]
    #[verifier::spinoff_prover]
    fn walk_cycles(
        &self,
        id: &str,
        visited: &mut Vec<String>,
        path: &mut Vec<String>,
        cycles: &mut Vec<Vec<String>>,
    )
        requires
            self.wf(),
            ids_distinct(old(visited)@),
            all_in_store(self.issues@, old(visited)@),
            ids_distinct(old(path)@),
            all_in_store(self.issues@, old(path)@),
            chain(self.issues@, old(path)@),
            old(path)@.len() > 0 ==> edge(self.issues@, old(path)@.last()@, id@),
        ensures
            final(path)@ == old(path)@,
            ids_distinct(final(visited)@),
            all_in_store(self.issues@, final(visited)@),
            final(visited)@.len() >= old(visited)@.len(),
            forall|k: int| 0 <= k < old(visited)@.len() ==> final(visited)@[k] == old(visited)@[k],
            final(cycles)@.len() >= old(cycles)@.len(),
            forall|k: int| 0 <= k < old(cycles)@.len() ==> final(cycles)@[k] == old(cycles)@[k],
            forall|k: int|
                old(cycles)@.len() <= k < final(cycles)@.len() ==> is_cycle(
                    self.issues@,
                    (#[trigger] final(cycles)@[k]).deep_view(),
                ) && distinct_ids(final(cycles)@[k].deep_view()),
            id_among(old(path)@, id@) ==> final(cycles)@.len() > old(cycles)@.len(),
            final(cycles)@.len() == old(cycles)@.len() && has_id(self.issues@, id@)
                ==> id_among(final(visited)@, id@),
            finished_cycle_free(self.issues@, old(visited)@, old(path)@) && final(cycles)@.len()
                == old(cycles)@.len() ==> finished_cycle_free(
                self.issues@,
                final(visited)@,
                old(path)@,
            ),
        decreases self.issues@.len() - visited@.len(),
    {
        proof {
            lemma_ids_bound(self.issues@, visited@);
        }
        // A step back onto the path closes a cycle.
        let plen = path.len();
        let mut k: usize = 0;
        while k < plen
            invariant
                self.wf(),
                plen == path@.len(),
                k <= plen,
                path@ == old(path)@,
                visited@ == old(visited)@,
                cycles@ == old(cycles)@,
                ids_distinct(visited@),
                all_in_store(self.issues@, visited@),
                ids_distinct(path@),
                chain(self.issues@, path@),
                path@.len() > 0 ==> edge(self.issues@, path@.last()@, id@),
                forall|j: int| 0 <= j < k ==> path@[j]@ != id@,
            decreases plen - k,
        {
            if str_eq(path[k].as_str(), id) {
                let mut cycle: Vec<String> = Vec::new();
                let mut c: usize = k;
                while c < plen
                    invariant
                        plen == path@.len(),
                        k <= c <= plen,
                        k < plen,
                        cycle.deep_view() =~= path@.map_values(|x: String| x@).subrange(
                            k as int,
                            c as int,
                        ),
                    decreases plen - c,
                {
                    let ghost before = cycle.deep_view();
                    cycle.push(path[c].clone());
                    proof {
                        assert(cycle.deep_view() =~= before.push(path@[c as int]@));
                        assert(cycle.deep_view() =~= path@.map_values(|x: String| x@).subrange(
                            k as int,
                            c as int + 1,
                        ));
                    }
                    c = c + 1;
                }
                proof {
                    let pm = path@.map_values(|x: String| x@);
                    let cv = cycle.deep_view();
                    assert(cv =~= pm.subrange(k as int, plen as int));
                    assert(cv.len() == plen - k);
                    assert forall|j: int| 0 <= j < cv.len() - 1 implies edge(
                        self.issues@,
                        #[trigger] cv[j],
                        cv[j + 1],
                    ) by {
                        assert(cv[j] == path@[k + j]@);
                        assert(cv[j + 1] == path@[k + j + 1]@);
                        assert(edge(self.issues@, path@[k + j]@, path@[k + j + 1]@));
                    };
                    assert(cv[cv.len() - 1] == path@[plen - 1]@);
                    assert(path@.last()@ == path@[plen - 1]@);
                    assert(cv[0] == path@[k as int]@);
                    assert(path@[k as int]@ == id@);
                    assert(edge(self.issues@, cv[cv.len() - 1], cv[0]));
                    assert(is_cycle(self.issues@, cv));
                    assert forall|a: int, b: int| 0 <= a < b < cv.len() implies cv[a]
                        != cv[b] by {
                        assert(cv[a] == path@[k + a]@);
                        assert(cv[b] == path@[k + b]@);
                    };
                    assert(distinct_ids(cv));
                    assert(id_among(path@, id@));
                }
                let ghost before_cycles = cycles@;
                cycles.push(cycle);
                proof {
                    assert(cycles@ =~= before_cycles.push(cycle));
                }
                return ;
            }
            k = k + 1;
        }
        proof {
            assert(!id_among(old(path)@, id@));
        }
        // Already explored from here: nothing new can come of it.
        if crate::store::vec_contains_str(visited, id) {
            proof {
                let dv = visited.deep_view();
                let j = choose|j: int| 0 <= j < dv.len() && dv[j] == id@;
                assert(visited@[j]@ == id@);
                assert(id_among(visited@, id@));
            }
            return ;
        }
        let idx = match self.find_index(id) {
            Some(idx) => idx,
            None => {
                return ;
            },
        };
        proof {
            let dv = visited.deep_view();
            if dv.contains(id@) {
                let j = choose|j: int| 0 <= j < dv.len() && dv[j] == id@;
                assert(visited@[j]@ == id@);
            }
            assert(!visited.deep_view().contains(id@));
            assert(forall|j: int|
                0 <= j < visited@.len() ==> visited.deep_view()[j] == (
                #[trigger] visited@[j])@);
            lemma_idx_of(self.issues@, id@, idx as int);
        }
        let ghost vis0 = visited@;
        let ghost path0 = path@;
        proof {
            assert(vis0 == old(visited)@);
            assert(path0 == old(path)@);
        }
        visited.push(String::from_str(id));
        path.push(String::from_str(id));
        proof {
            assert(ids_distinct(visited@));
            assert(all_in_store(self.issues@, visited@));
            assert(ids_distinct(path@));
            assert(all_in_store(self.issues@, path@));
            assert(chain(self.issues@, path@));
            assert(visited@[vis0.len() as int]@ == id@);
            // Stepping onto this id keeps every finished id cycle-free:
            // the one new visited id is on the new path.
            if finished_cycle_free(self.issues@, vis0, path0) {
                assert forall|c: Seq<Seq<char>>, ck: int|
                    #![trigger is_cycle(self.issues@, c), c[ck]]
                    is_cycle(self.issues@, c) && 0 <= ck < c.len() && id_among(visited@, c[ck])
                    implies id_among(path@, c[ck]) by {
                    let v = choose|v: int| 0 <= v < visited@.len() && visited@[v]@ == c[ck];
                    if v < vis0.len() {
                        assert(vis0[v]@ == c[ck]);
                        assert(id_among(vis0, c[ck]));
                        assert(id_among(path0, c[ck]));
                        let p = choose|p: int| 0 <= p < path0.len() && path0[p]@ == c[ck];
                        assert(path@[p]@ == c[ck]);
                    } else {
                        assert(c[ck] == id@);
                        assert(path@[path0.len() as int]@ == c[ck]);
                    }
                };
                assert(finished_cycle_free(self.issues@, visited@, path@));
            }
        }
        let ghost pathwid = path@;
        let nb = self.issues[idx].blocked_by.len();
        let mut b: usize = 0;
        while b < nb
            invariant
                self.wf(),
                idx < self.issues@.len(),
                self.issues@[idx as int].id@ == id@,
                nb == self.issues@[idx as int].blocked_by@.len(),
                b <= nb,
                path@ == pathwid,
                pathwid.len() == path0.len() + 1,
                forall|j: int| 0 <= j < path0.len() ==> pathwid[j] == path0[j],
                pathwid[path0.len() as int]@ == id@,
                path@.last()@ == id@,
                ids_distinct(path@),
                all_in_store(self.issues@, path@),
                chain(self.issues@, path@),
                ids_distinct(visited@),
                all_in_store(self.issues@, visited@),
                vis0 == old(visited)@,
                path0 == old(path)@,
                visited@.len() > vis0.len(),
                forall|j: int| 0 <= j < vis0.len() ==> visited@[j] == vis0[j],
                visited@[vis0.len() as int]@ == id@,
                cycles@.len() >= old(cycles)@.len(),
                forall|j: int| 0 <= j < old(cycles)@.len() ==> cycles@[j] == old(cycles)@[j],
                forall|j: int|
                    old(cycles)@.len() <= j < cycles@.len() ==> is_cycle(
                        self.issues@,
                        (#[trigger] cycles@[j]).deep_view(),
                    ) && distinct_ids(cycles@[j].deep_view()),
                finished_cycle_free(self.issues@, vis0, path0) && cycles@.len() == old(
                    cycles,
                )@.len() ==> finished_cycle_free(self.issues@, visited@, pathwid),
                cycles@.len() == old(cycles)@.len() ==> forall|b2: int|
                    0 <= b2 < b && has_id(
                        self.issues@,
                        (#[trigger] self.issues@[idx as int].blocked_by.deep_view()[b2]),
                    ) ==> id_among(
                        visited@,
                        self.issues@[idx as int].blocked_by.deep_view()[b2],
                    ),
                cycles@.len() == old(cycles)@.len() ==> forall|b2: int|
                    0 <= b2 < b ==> !id_among(
                        pathwid,
                        (#[trigger] self.issues@[idx as int].blocked_by.deep_view()[b2]),
                    ),
            decreases nb - b,
        {
            let bid = &self.issues[idx].blocked_by[b];
            proof {
                assert(self.issues@[idx as int].blocked_by.deep_view()[b as int] == bid@);
                assert(self.issues@[idx as int].blocked_by.deep_view().contains(bid@));
                assert(edge(self.issues@, id@, bid@));
                lemma_ids_bound(self.issues@, visited@);
            }
            let bid_owned = bid.clone();
            let ghost vis_before = visited@;
            let ghost cycles_before = cycles@;
            self.walk_cycles(bid_owned.as_str(), visited, path, cycles);
            proof {
                let dv = self.issues@[idx as int].blocked_by.deep_view();
                if cycles@.len() == old(cycles)@.len() {
                    // this child grew nothing either
                    assert(cycles_before.len() == old(cycles)@.len());
                    assert(cycles@.len() == cycles_before.len());
                    assert forall|b2: int|
                        0 <= b2 < b + 1 && has_id(self.issues@, (#[trigger] dv[b2]))
                        implies id_among(visited@, dv[b2]) by {
                        if b2 < b {
                            let v = choose|v: int|
                                0 <= v < vis_before.len() && vis_before[v]@ == dv[b2];
                            assert(visited@[v] == vis_before[v]);
                        } else {
                            assert(dv[b2] == bid_owned@);
                        }
                    };
                    assert forall|b2: int| 0 <= b2 < b + 1 implies !id_among(
                        pathwid,
                        (#[trigger] dv[b2]),
                    ) by {
                        if b2 == b {
                            // had this blocker been on the path, the
                            // child would have recorded a cycle
                            if id_among(pathwid, dv[b2]) {
                                assert(cycles@.len() > cycles_before.len());
                            }
                        }
                    };
                }
            }
            b = b + 1;
        }
        path.pop();
        proof {
            assert(path@ =~= path0);
            if finished_cycle_free(self.issues@, vis0, path0) && cycles@.len() == old(
                cycles,
            )@.len() {
                // This id is now finished; show no cycle runs through it.
                assert(finished_cycle_free(self.issues@, visited@, pathwid));
                assert forall|c: Seq<Seq<char>>, ck: int|
                    #![trigger is_cycle(self.issues@, c), c[ck]]
                    is_cycle(self.issues@, c) && 0 <= ck < c.len() && id_among(visited@, c[ck])
                    implies id_among(path0, c[ck]) by {
                    assert(id_among(pathwid, c[ck]));
                    if !id_among(path0, c[ck]) {
                        let v = choose|v: int|
                            0 <= v < pathwid.len() && (#[trigger] pathwid[v])@ == c[ck];
                        if v < path0.len() {
                            assert(path0[v]@ == c[ck]);
                        }
                        assert(c[ck] == id@);
                        // Follow the cycle one step: that blocker was
                        // walked, finished, and is not on the path.
                        let cknext: int = if ck + 1 < c.len() {
                            ck + 1
                        } else {
                            0
                        };
                        assert(edge(self.issues@, c[ck], c[cknext]));
                        let i2 = choose|i2: int|
                            0 <= i2 < self.issues@.len() && (#[trigger] self.issues@[i2]).id@
                                == c[ck] && self.issues@[i2].blocked_by.deep_view().contains(
                                c[cknext],
                            );
                        assert(i2 == idx) by {
                            if i2 != idx {
                                if i2 < idx {
                                    assert(self.issues@[i2].id@ != self.issues@[idx as int].id@);
                                } else {
                                    assert(self.issues@[idx as int].id@ != self.issues@[i2].id@);
                                }
                            }
                        }
                        let dv = self.issues@[idx as int].blocked_by.deep_view();
                        let target = c[cknext];
                        let b2 = choose|b2: int|
                            0 <= b2 < dv.len() && (#[trigger] dv[b2]) == target;
                        let cknext2: int = if cknext + 1 < c.len() {
                            cknext + 1
                        } else {
                            0
                        };
                        assert(edge(self.issues@, c[cknext], c[cknext2]));
                        assert(has_id(self.issues@, c[cknext]));
                        assert(id_among(visited@, c[cknext]));
                        assert(id_among(pathwid, c[cknext]));
                        assert(!id_among(pathwid, dv[b2]));
                        assert(false);
                    }
                };
                assert(finished_cycle_free(self.issues@, visited@, path0));
            }
            assert(id_among(visited@, id@)) by {
                assert(visited@[vis0.len() as int]@ == id@);
            }
        }
    }

    /// Finds the blocking cycles of the store: a depth-first walk from
    /// every issue, the raw cycles then kept one per canonical form.
    /// Every reported cycle is a real simple cycle, no two reported
    /// cycles are rotations of one another, and whenever the store
    /// holds any blocking cycle at all, at least one is reported.
    pub fn detect_cycles(&self) -> (r: Vec<Vec<String>>)
        requires
            self.wf(),
        ensures
            forall|k: int|
                0 <= k < r@.len() ==> is_cycle(self.issues@, (#[trigger] r@[k]).deep_view())
                    && distinct_ids(r@[k].deep_view()),
            forall|k1: int, k2: int|
                0 <= k1 < k2 < r@.len() ==> canon((#[trigger] r@[k1]).deep_view()) != canon(
                    (#[trigger] r@[k2]).deep_view(),
                ),
            (exists|c: Seq<Seq<char>>| is_cycle(self.issues@, c)) ==> r@.len() >= 1,
    {
        let mut raw: Vec<Vec<String>> = Vec::new();
        let n = self.issues.len();
        let mut i: usize = 0;
        while i < n
            invariant
                self.wf(),
                n == self.issues@.len(),
                i <= n,
                forall|k: int|
                    0 <= k < raw@.len() ==> is_cycle(
                        self.issues@,
                        (#[trigger] raw@[k]).deep_view(),
                    ) && distinct_ids(raw@[k].deep_view()),
                raw@.len() == 0 ==> forall|i2: int, c: Seq<Seq<char>>, k: int|
                    #![trigger self.issues@[i2], is_cycle(self.issues@, c), c[k]]
                    0 <= i2 < i && is_cycle(self.issues@, c) && 0 <= k < c.len() ==> c[k]
                        != self.issues@[i2].id@,
            decreases n - i,
        {
            let mut visited: Vec<String> = Vec::new();
            let mut path: Vec<String> = Vec::new();
            let id = self.issues[i].id.clone();
            let ghost raw_before = raw@;
            self.walk_cycles(id.as_str(), &mut visited, &mut path, &mut raw);
            proof {
                if raw@.len() == 0 {
                    // Nothing came of a fresh walk from this issue, so
                    // everything it visited — this issue included — is
                    // on no cycle.
                    assert(finished_cycle_free(
                        self.issues@,
                        Seq::<String>::empty(),
                        Seq::<String>::empty(),
                    ));
                    assert(finished_cycle_free(self.issues@, visited@, Seq::<String>::empty()));
                    assert(has_id(self.issues@, id@)) by {
                        assert(self.issues@[i as int].id@ == id@);
                    }
                    assert(id_among(visited@, id@));
                    assert forall|i2: int, c: Seq<Seq<char>>, k: int|
                        #![trigger self.issues@[i2], is_cycle(self.issues@, c), c[k]]
                        0 <= i2 < i + 1 && is_cycle(self.issues@, c) && 0 <= k < c.len()
                        implies c[k] != self.issues@[i2].id@ by {
                        if i2 == i as int && c[k] == self.issues@[i2].id@ {
                            assert(id_among(visited@, c[k]));
                            assert(id_among(Seq::<String>::empty(), c[k]));
                        }
                    };
                }
            }
            i = i + 1;
        }
        let mut kept: Vec<Vec<String>> = Vec::new();
        let mut canons: Vec<Vec<String>> = Vec::new();
        let rn = raw.len();
        let mut t: usize = 0;
        while t < rn
            invariant
                self.wf(),
                rn == raw@.len(),
                t <= rn,
                forall|k: int|
                    0 <= k < raw@.len() ==> is_cycle(
                        self.issues@,
                        (#[trigger] raw@[k]).deep_view(),
                    ) && distinct_ids(raw@[k].deep_view()),
                kept@.len() == canons@.len(),
                kept@.len() <= t,
                rn > 0 && t > 0 ==> kept@.len() >= 1,
                forall|k: int|
                    0 <= k < kept@.len() ==> is_cycle(
                        self.issues@,
                        (#[trigger] kept@[k]).deep_view(),
                    ) && distinct_ids(kept@[k].deep_view()),
                forall|k: int|
                    0 <= k < kept@.len() ==> (#[trigger] canons@[k]).deep_view() == canon(
                        kept@[k].deep_view(),
                    ),
                forall|k1: int, k2: int|
                    0 <= k1 < k2 < kept@.len() ==> canon((#[trigger] kept@[k1]).deep_view())
                        != canon((#[trigger] kept@[k2]).deep_view()),
            decreases rn - t,
        {
            let cn = normalize_cycle(&raw[t]);
            let kn = canons.len();
            let mut seen = false;
            let mut k: usize = 0;
            while k < kn
                invariant
                    kn == canons@.len(),
                    k <= kn,
                    cn.deep_view() == canon(raw@[t as int].deep_view()),
                    t < rn,
                    rn == raw@.len(),
                    seen == exists|j: int|
                        0 <= j < k && (#[trigger] canons@[j]).deep_view() == cn.deep_view(),
                decreases kn - k,
            {
                if str_vecs_eq(&canons[k], &cn) {
                    seen = true;
                    proof {
                        assert(canons@[k as int].deep_view() == cn.deep_view());
                    }
                    k = kn;
                } else {
                    proof {
                        if exists|j: int|
                            0 <= j < k + 1 && (#[trigger] canons@[j]).deep_view()
                                == cn.deep_view() {
                            let j = choose|j: int|
                                0 <= j < k + 1 && (#[trigger] canons@[j]).deep_view()
                                    == cn.deep_view();
                            assert(j < k);
                        }
                    }
                    k = k + 1;
                }
            }
            if !seen {
                let ghost kept0 = kept@;
                let ghost canons0 = canons@;
                let ghost cnv = cn.deep_view();
                let row = copy_ids(&raw[t]);
                let ghost rowv = row.deep_view();
                kept.push(row);
                canons.push(cn);
                proof {
                    assert(kept@ =~= kept0.push(kept@[kept0.len() as int]));
                    assert(canons@ =~= canons0.push(canons@[canons0.len() as int]));
                    assert(kept@[kept0.len() as int].deep_view() == rowv);
                    assert(canon(rowv) == cnv);
                    assert forall|k1: int, k2: int|
                        0 <= k1 < k2 < kept@.len() implies canon(
                        (#[trigger] kept@[k1]).deep_view(),
                    ) != canon((#[trigger] kept@[k2]).deep_view()) by {
                        if k2 == kept0.len() {
                            assert(canons0[k1].deep_view() == canon(kept0[k1].deep_view()));
                            assert(canons0[k1].deep_view() != cnv);
                        }
                    };
                }
            }
            t = t + 1;
        }
        proof {
            if exists|c: Seq<Seq<char>>| is_cycle(self.issues@, c) {
                let c = choose|c: Seq<Seq<char>>| is_cycle(self.issues@, c);
                let cnext: int = if 1 < c.len() {
                    1
                } else {
                    0
                };
                assert(edge(self.issues@, c[0], c[cnext]));
                let j = choose|j: int|
                    0 <= j < self.issues@.len() && (#[trigger] self.issues@[j]).id@ == c[0]
                        && self.issues@[j].blocked_by.deep_view().contains(c[cnext]);
                if rn == 0 {
                    assert(c[0] != self.issues@[j].id@);
                    assert(false);
                }
                assert(kept@.len() >= 1);
            }
        }
        kept
    }
}

/// One node of the rendered dependency tree: an issue with its
/// blockers as children, a node already on the current path rendered
/// as a cycle leaf, and an id absent from the store as a missing leaf.
#[derive(Debug)]
pub enum TreeNode {
    Node { id: String, title: String, status: Status, children: Vec<TreeNode> },
    CycleLeaf { id: String },
    MissingLeaf { id: String },
}

/// The id a tree node stands for.
pub open spec fn tree_id(t: TreeNode) -> Seq<char> {
    match t {
        TreeNode::Node { id, .. } => id@,
        TreeNode::CycleLeaf { id } => id@,
        TreeNode::MissingLeaf { id } => id@,
    }
}

/// What the dependency tree under an id holds, the path from the root
/// in hand: an id already on the path is a cycle leaf, an id absent
/// from the store a missing leaf, and any other id a node whose fields
/// match its issue and whose children follow its blockers in order,
/// each walked with this id added to the path.
pub open spec fn tree_follows(
    s: Seq<Issue>,
    path: Seq<Seq<char>>,
    id: Seq<char>,
    t: TreeNode,
) -> bool
    decreases t,
{
    if path.contains(id) {
        t matches TreeNode::CycleLeaf { id: tid } && tid@ == id
    } else if !has_id(s, id) {
        t matches TreeNode::MissingLeaf { id: tid } && tid@ == id
    } else {
        let i = idx_of(s, id);
        t matches TreeNode::Node { id: tid, title, status, children } && tid@ == id && title@
            == s[i].title@ && status == s[i].status && children@.len()
            == s[i].blocked_by.deep_view().len() && (forall|b: int|
            0 <= b < children@.len() ==> tree_follows(
                s,
                path.push(id),
                s[i].blocked_by.deep_view()[b],
                #[trigger] children@[b],
            ))
    }
}

impl Store {
    /// Builds the dependency tree under one id, the path from the root
    /// in hand.  An id already on the path becomes a cycle leaf — that
    /// branch only, so the same issue may still appear in sibling
    /// branches — an id not in the store a missing leaf, and any other
    /// id a node with one child per blocker, in order; the whole tree,
    /// all the way down, follows [`tree_follows`].
    pub fn build_tree(&self, id: &str, path: &mut Vec<String>) -> (t: TreeNode)
        requires
            self.wf(),
            ids_distinct(old(path)@),
            all_in_store(self.issues@, old(path)@),
        ensures
            final(path)@ == old(path)@,
            tree_id(t) == id@,
            tree_follows(
                self.issues@,
                old(path)@.map_values(|x: String| x@),
                id@,
                t,
            ),
        decreases self.issues@.len() - path@.len(),
    {
        proof {
            lemma_ids_bound(self.issues@, path@);
        }
        let ghost pmap = old(path)@.map_values(|x: String| x@);
        let plen = path.len();
        let mut k: usize = 0;
        while k < plen
            invariant
                plen == path@.len(),
                k <= plen,
                path@ == old(path)@,
                pmap == old(path)@.map_values(|x: String| x@),
                forall|j: int| 0 <= j < k ==> path@[j]@ != id@,
            decreases plen - k,
        {
            if str_eq(path[k].as_str(), id) {
                let leaf = TreeNode::CycleLeaf { id: String::from_str(id) };
                proof {
                    assert(pmap[k as int] == path@[k as int]@);
                    assert(pmap.contains(id@));
                    assert(tree_follows(self.issues@, pmap, id@, leaf));
                }
                return leaf;
            }
            k = k + 1;
        }
        proof {
            assert(!pmap.contains(id@)) by {
                if pmap.contains(id@) {
                    let j = choose|j: int| 0 <= j < pmap.len() && pmap[j] == id@;
                    assert(path@[j]@ == id@);
                }
            }
        }
        let idx = match self.find_index(id) {
            Some(idx) => idx,
            None => {
                let leaf = TreeNode::MissingLeaf { id: String::from_str(id) };
                proof {
                    assert(tree_follows(self.issues@, pmap, id@, leaf));
                }
                return leaf;
            },
        };
        proof {
            lemma_idx_of(self.issues@, id@, idx as int);
        }
        let ghost path0 = path@;
        path.push(String::from_str(id));
        proof {
            assert(ids_distinct(path@));
            assert(all_in_store(self.issues@, path@));
            assert(path@.map_values(|x: String| x@) =~= pmap.push(id@));
        }
        let nb = self.issues[idx].blocked_by.len();
        let mut children: Vec<TreeNode> = Vec::new();
        let mut b: usize = 0;
        while b < nb
            invariant
                self.wf(),
                idx < self.issues@.len(),
                self.issues@[idx as int].id@ == id@,
                nb == self.issues@[idx as int].blocked_by@.len(),
                b <= nb,
                path0 == old(path)@,
                pmap == old(path)@.map_values(|x: String| x@),
                path@.len() == path0.len() + 1,
                forall|j: int| 0 <= j < path0.len() ==> path@[j] == path0[j],
                path@.map_values(|x: String| x@) == pmap.push(id@),
                ids_distinct(path@),
                all_in_store(self.issues@, path@),
                children@.len() == b,
                forall|j: int|
                    0 <= j < b ==> tree_follows(
                        self.issues@,
                        pmap.push(id@),
                        self.issues@[idx as int].blocked_by.deep_view()[j],
                        #[trigger] children@[j],
                    ),
            decreases nb - b,
        {
            let bid = self.issues[idx].blocked_by[b].clone();
            proof {
                assert(self.issues@[idx as int].blocked_by.deep_view()[b as int] == bid@);
                lemma_ids_bound(self.issues@, path@);
            }
            let child = self.build_tree(bid.as_str(), path);
            proof {
                assert(tree_follows(self.issues@, pmap.push(id@), bid@, child));
            }
            children.push(child);
            b = b + 1;
        }
        path.pop();
        let node = TreeNode::Node {
            id: String::from_str(id),
            title: self.issues[idx].title.clone(),
            status: self.issues[idx].status,
            children,
        };
        proof {
            assert(path@ =~= path0);
            assert(idx_of(self.issues@, id@) == idx);
            assert(tree_follows(self.issues@, pmap, id@, node));
        }
        node
    }
}

/// Copies a list of ids.
fn copy_ids(v: &Vec<String>) -> (r: Vec<String>)
    ensures
        r.deep_view() == v.deep_view(),
{
    let n = v.len();
    let mut r: Vec<String> = Vec::new();
    let mut i: usize = 0;
    while i < n
        invariant
            n == v@.len(),
            i <= n,
            r.deep_view() =~= v.deep_view().take(i as int),
        decreases n - i,
    {
        let ghost before = r.deep_view();
        r.push(v[i].clone());
        proof {
            assert(r.deep_view() =~= before.push(v.deep_view()[i as int]));
            assert(r.deep_view() =~= v.deep_view().take(i as int + 1));
        }
        i = i + 1;
    }
    proof {
        assert(v.deep_view().take(n as int) =~= v.deep_view());
    }
    r
}

/// Readiness, spelled out: an open issue with no blockers, or none of
/// whose blocker ids is in the store, is ready; an open issue with a
/// blocker that is present and not closed is not ready; an issue that is
/// not open is never ready.
pub proof fn lemma_readiness(s: Seq<Issue>, x: Issue)
    ensures
        x.status == Status::Open && x.blocked_by.deep_view().len() == 0 ==> is_ready(s, x),
        x.status == Status::Open && (forall|b: int|
            0 <= b < x.blocked_by.deep_view().len() ==> !has_id(
                s,
                #[trigger] x.blocked_by.deep_view()[b],
            )) ==> is_ready(s, x),
        forall|b: int, j: int|
            #![trigger s[j], x.blocked_by.deep_view()[b]]
            0 <= b < x.blocked_by.deep_view().len() && 0 <= j < s.len()
                && s[j].id@ == x.blocked_by.deep_view()[b] && s[j].status
                != Status::Closed ==> !is_ready(s, x),
        x.status != Status::Open ==> !is_ready(s, x),
{
    assert forall|b: int|
        0 <= b < x.blocked_by.deep_view().len() && !has_id(
            s,
            #[trigger] x.blocked_by.deep_view()[b],
        ) implies blocker_cleared(s, x.blocked_by.deep_view()[b]) by {
        let bid = x.blocked_by.deep_view()[b];
        assert forall|i: int|
            0 <= i < s.len() && (#[trigger] s[i]).id@ == bid implies s[i].status
            == Status::Closed by {
            assert(has_id(s, bid));
        };
    };
    assert forall|b: int, j: int|
        #![trigger s[j], x.blocked_by.deep_view()[b]]
        0 <= b < x.blocked_by.deep_view().len() && 0 <= j < s.len()
            && s[j].id@ == x.blocked_by.deep_view()[b] && s[j].status
            != Status::Closed implies !is_ready(s, x) by {
        assert(!blocker_cleared(s, x.blocked_by.deep_view()[b]));
    };
}

} // verus!
