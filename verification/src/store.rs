//! The in-memory store of all issues.
//!
//! The store owns the list of issues, keeps ids unique and priorities in
//! range, and is the only caller of the identifier generator.  Every
//! mutating operation validates before it touches anything: on an error
//! the store is exactly what it was.

use vstd::prelude::*;
use vstd::set_lib::lemma_len_subset;
use vstd::string::StringExecFns;
use crate::errors::ErrorModel;
use crate::errors::TrackerError;
use crate::idgen::counter_candidate;
use crate::idgen::lemma_counter_candidates_card;
use crate::idgen::counter_candidates_below;
use crate::idgen::sha256;
use crate::idgen::sha256_of;
use crate::idgen::window_candidate;
use crate::idgen::build_counter_candidate;
use crate::idgen::build_window_candidate;
use crate::issue::applied;
use crate::issue::issue_type_keyword;
use crate::issue::parse_issue_type;
use crate::issue::step_reported;
use crate::issue::Issue;
use crate::issue::Status;
use crate::issue::Transition;
use crate::text::str_eq;

verus! {

/// The store-wide settings: a schema version and the id prefix chosen at
/// initialization.
#[derive(Debug)]
pub struct Config {
    pub version: u8,
    pub prefix: String,
}

/// The store: the settings and every issue, ids unique.
#[derive(Debug)]
pub struct Store {
    pub config: Config,
    pub issues: Vec<Issue>,
}

/// True when some issue in the sequence carries this id.
pub open spec fn has_id(s: Seq<Issue>, id: Seq<char>) -> bool {
    exists|i: int| 0 <= i < s.len() && s[i].id@ == id
}

/// The position of the issue with this id, meaningful when the id is
/// there and ids are unique.
pub open spec fn idx_of(s: Seq<Issue>, id: Seq<char>) -> int {
    choose|i: int| 0 <= i < s.len() && s[i].id@ == id
}

/// No two issues share an id.
pub open spec fn unique_ids(s: Seq<Issue>) -> bool {
    forall|i: int, j: int| 0 <= i < j < s.len() ==> s[i].id@ != s[j].id@
}

/// Every issue is well formed on its own.
pub open spec fn all_wf(s: Seq<Issue>) -> bool {
    forall|i: int| 0 <= i < s.len() ==> (#[trigger] s[i]).wf()
}

/// The set of ids in use.
pub open spec fn id_set(s: Seq<Issue>) -> Set<Seq<char>> {
    s.map_values(|x: Issue| x.id@).to_set()
}

/// An id is in the id set exactly when some issue carries it.
pub proof fn lemma_id_set_has_id(s: Seq<Issue>, id: Seq<char>)
    ensures
        id_set(s).contains(id) == has_id(s, id),
{
    let mapped = s.map_values(|x: Issue| x.id@);
    if has_id(s, id) {
        let i = choose|i: int| 0 <= i < s.len() && s[i].id@ == id;
        assert(mapped[i] == id);
        assert(mapped.contains(id));
    }
    if mapped.to_set().contains(id) {
        let i = choose|i: int| 0 <= i < mapped.len() && mapped[i] == id;
        assert(s[i].id@ == id);
    }
}

/// The id set is finite and no larger than the issue list.
pub proof fn lemma_id_set_card(s: Seq<Issue>)
    ensures
        id_set(s).finite(),
        id_set(s).len() <= s.len(),
{
    broadcast use vstd::seq_lib::seq_to_set_is_finite;

    let mapped = s.map_values(|x: Issue| x.id@);
    mapped.lemma_cardinality_of_set();
}

/// With unique ids, any position holding the id is the position of it.
pub proof fn lemma_idx_of(s: Seq<Issue>, id: Seq<char>, i: int)
    requires
        unique_ids(s),
        0 <= i < s.len(),
        s[i].id@ == id,
    ensures
        idx_of(s, id) == i,
        has_id(s, id),
{
    assert(has_id(s, id));
    let j = idx_of(s, id);
    if j != i {
        if j < i {
            assert(s[j].id@ != s[i].id@);
        } else {
            assert(s[i].id@ != s[j].id@);
        }
    }
}

/// Everything but the label list and the update time stays.
pub open spec fn labels_edit_frame(pre: Issue, post: Issue) -> bool {
    &&& post.id == pre.id
    &&& post.title == pre.title
    &&& post.description == pre.description
    &&& post.status == pre.status
    &&& post.priority == pre.priority
    &&& post.issue_type == pre.issue_type
    &&& post.session_id == pre.session_id
    &&& post.comments == pre.comments
    &&& post.created_at == pre.created_at
    &&& post.closed_at == pre.closed_at
    &&& post.blocks == pre.blocks
    &&& post.blocked_by == pre.blocked_by
}

/// True when the list holds this string.
pub(crate) fn vec_contains_str(v: &Vec<String>, x: &str) -> (r: bool)
    ensures
        r == v.deep_view().contains(x@),
{
    let n = v.len();
    let mut i: usize = 0;
    while i < n
        invariant
            n == v@.len(),
            i <= n,
            forall|j: int| 0 <= j < i ==> v.deep_view()[j] != x@,
        decreases n - i,
    {
        if str_eq(v[i].as_str(), x) {
            proof {
                assert(v.deep_view()[i as int] == x@);
            }
            return true;
        }
        i = i + 1;
    }
    proof {
        assert(!v.deep_view().contains(x@));
    }
    false
}

/// Copies the list, leaving out every copy of the given string.
pub(crate) fn retain_without(v: &Vec<String>, x: &str) -> (out: Vec<String>)
    ensures
        out.deep_view() == v.deep_view().filter(|s: Seq<char>| s != x@),
{
    let ghost pred = (|s: Seq<char>| s != x@);
    let n = v.len();
    let mut out: Vec<String> = Vec::new();
    proof {
        assert(v.deep_view().take(0).filter(pred) =~= Seq::<Seq<char>>::empty());
        assert(out.deep_view() =~= v.deep_view().take(0).filter(pred));
    }
    let mut i: usize = 0;
    while i < n
        invariant
            n == v@.len(),
            i <= n,
            out.deep_view() == v.deep_view().take(i as int).filter(pred),
            pred == (|s: Seq<char>| s != x@),
        decreases n - i,
    {
        let ghost dv = v.deep_view();
        let ghost before = out.deep_view();
        let keep = !str_eq(v[i].as_str(), x);
        if keep {
            out.push(v[i].clone());
        }
        proof {
            let t1 = dv.take(i as int + 1);
            assert(t1.len() == i + 1);
            assert(t1.drop_last() =~= dv.take(i as int));
            assert(t1.last() == dv[i as int]);
            assert(keep == pred(dv[i as int]));
            reveal_with_fuel(Seq::<_>::filter, 2);
            assert(t1.filter(pred) == if pred(dv[i as int]) {
                dv.take(i as int).filter(pred).push(dv[i as int])
            } else {
                dv.take(i as int).filter(pred)
            });
            if keep {
                assert(out.deep_view() =~= before.push(dv[i as int]));
            }
            assert(out.deep_view() == t1.filter(pred));
        }
        i = i + 1;
    }
    proof {
        assert(v.deep_view().take(n as int) =~= v.deep_view());
    }
    out
}

/// True when every issue carrying this id is closed; an id that no
/// issue carries blocks nothing.
pub open spec fn blocker_cleared(s: Seq<Issue>, bid: Seq<char>) -> bool {
    forall|i: int|
        0 <= i < s.len() && (#[trigger] s[i]).id@ == bid ==> s[i].status == Status::Closed
}

/// Ready to work on: open, and every blocker either closed or absent
/// from the store.
pub open spec fn is_ready(s: Seq<Issue>, x: Issue) -> bool {
    &&& x.status == Status::Open
    &&& forall|b: int|
        0 <= b < x.blocked_by.deep_view().len() ==> blocker_cleared(
            s,
            #[trigger] x.blocked_by.deep_view()[b],
        )
}

/// What the plain listing shows: a named status only that status;
/// otherwise everything, or everything still open or in progress.
pub open spec fn passes_filter(x: Issue, filter: Option<Status>, all: bool) -> bool {
    match filter {
        Some(st) => x.status == st,
        None => all || x.status != Status::Closed,
    }
}

/// Claimed by this session.
pub open spec fn owned_by(x: Issue, session: Seq<char>) -> bool {
    x.session_id.deep_view() == Some(session)
}

/// Sorts a strictly increasing pick of positions by listing order and
/// carries membership across: the result holds exactly the picked
/// positions, each once.
fn finish_listing(issues: &Vec<Issue>, picked: Vec<usize>) -> (r: Vec<usize>)
    requires
        forall|k: int| 0 <= k < picked@.len() ==> #[trigger] picked@[k] < issues@.len(),
        forall|k1: int, k2: int|
            0 <= k1 < k2 < picked@.len() ==> picked@[k1] < picked@[k2],
    ensures
        forall|k: int| 0 <= k < r@.len() ==> #[trigger] r@[k] < issues@.len(),
        r@.no_duplicates(),
        forall|i: int, j: int|
            0 <= i < j < r@.len() ==> crate::sorting::rank_le(
                issues@[#[trigger] r@[i] as int],
                issues@[#[trigger] r@[j] as int],
            ),
        forall|x: usize| r@.contains(x) == picked@.contains(x),
{
    let ghost pk = picked@;
    let r = crate::sorting::sort_indices_by_rank(issues, picked);
    proof {
        assert(pk.no_duplicates());
        pk.lemma_multiset_has_no_duplicates();
        pk.to_multiset_ensures();
        r@.to_multiset_ensures();
        assert forall|x: usize| r@.to_multiset().contains(x) implies r@.to_multiset().count(x)
            == 1 by {
            assert(pk.to_multiset().contains(x));
        };
        r@.lemma_multiset_has_no_duplicates_conv();
        assert forall|x: usize| r@.contains(x) == pk.contains(x) by {
            assert(r@.contains(x) == (r@.to_multiset().count(x) > 0));
            assert(pk.contains(x) == (pk.to_multiset().count(x) > 0));
        };
    }
    r
}

impl Store {
    /// The store's invariant: unique ids, every issue well formed.
    pub open spec fn wf(self) -> bool {
        unique_ids(self.issues@) && all_wf(self.issues@)
    }

    /// A fresh store with no issues.
    pub fn new(config: Config) -> (s: Store)
        ensures
            s.wf(),
            s.issues@ =~= Seq::<Issue>::empty(),
            s.config == config,
    {
        Store { config, issues: Vec::new() }
    }

    /// Where the issue with this id sits, if anywhere.
    pub fn find_index(&self, id: &str) -> (r: Option<usize>)
        ensures
            match r {
                Some(i) => i < self.issues@.len() && self.issues@[i as int].id@ == id@,
                None => !has_id(self.issues@, id@),
            },
    {
        let n = self.issues.len();
        let mut i: usize = 0;
        while i < n
            invariant
                n == self.issues@.len(),
                i <= n,
                forall|j: int| 0 <= j < i ==> self.issues@[j].id@ != id@,
            decreases n - i,
        {
            if str_eq(self.issues[i].id.as_str(), id) {
                return Some(i);
            }
            i = i + 1;
        }
        None
    }

    /// True when an issue with this id is in the store.
    pub fn contains_id(&self, id: &str) -> (r: bool)
        ensures
            r == has_id(self.issues@, id@),
    {
        match self.find_index(id) {
            Some(i) => {
                proof {
                    assert(has_id(self.issues@, id@));
                }
                true
            },
            None => false,
        }
    }

    /// The issue with this id, if it is there.
    pub fn get(&self, id: &str) -> (r: Option<&Issue>)
        requires
            self.wf(),
        ensures
            match r {
                Some(found) => {
                    &&& has_id(self.issues@, id@)
                    &&& *found == self.issues@[idx_of(self.issues@, id@)]
                    &&& found.id@ == id@
                },
                None => !has_id(self.issues@, id@),
            },
    {
        match self.find_index(id) {
            Some(i) => {
                proof {
                    lemma_idx_of(self.issues@, id@, i as int);
                }
                Some(&self.issues[i])
            },
            None => None,
        }
    }

    /// Derives a fresh id for a new issue from its title and creation
    /// time: the first free candidate among the digest windows, then, if
    /// all twenty-eight collide, the first free counter candidate.
    pub fn generate_id(&self, title: &str, ts: &str) -> (r: String)
        ensures
            !has_id(self.issues@, r@),
            crate::idgen::is_generated_id(
                self.config.prefix@,
                sha256_of(title@ + ts@),
                id_set(self.issues@),
                r@,
            ),
    {
        let ghost taken = id_set(self.issues@);
        let mut input = String::from_str(title);
        input.append(ts);
        let digest = sha256(input.as_str());
        let prefix = self.config.prefix.as_str();
        let ghost dv = digest@;
        let mut o: usize = 0;
        while o < 28
            invariant
                digest@ == dv,
                dv == sha256_of(title@ + ts@),
                dv.len() == 32,
                prefix@ == self.config.prefix@,
                taken == id_set(self.issues@),
                o <= 28,
                forall|p: int| 0 <= p < o ==> taken.contains(
                    #[trigger] window_candidate(prefix@, dv, p),
                ),
            decreases 28 - o,
        {
            let cand = build_window_candidate(prefix, &digest, o);
            if !self.contains_id(cand.as_str()) {
                proof {
                    lemma_id_set_has_id(self.issues@, cand@);
                    assert(cand@ == window_candidate(prefix@, dv, o as int));
                }
                return cand;
            }
            proof {
                lemma_id_set_has_id(self.issues@, cand@);
            }
            o = o + 1;
        }
        // Every window candidate is taken: count upward until a counter
        // candidate is free.  Among any `n + 1` distinct candidates at
        // least one is not among the `n` ids in use.
        let n = self.issues.len();
        let mut c: u64 = 0;
        loop
            invariant
                digest@ == dv,
                dv == sha256_of(title@ + ts@),
                prefix@ == self.config.prefix@,
                taken == id_set(self.issues@),
                n == self.issues@.len(),
                c <= n,
                forall|d: nat| d < c ==> taken.contains(
                    #[trigger] counter_candidate(prefix@, d),
                ),
                forall|p: int| 0 <= p < 28 ==> taken.contains(
                    #[trigger] window_candidate(prefix@, dv, p),
                ),
            decreases n - c,
        {
            let cand = build_counter_candidate(prefix, c);
            if !self.contains_id(cand.as_str()) {
                proof {
                    lemma_id_set_has_id(self.issues@, cand@);
                    assert(cand@ == counter_candidate(prefix@, c as nat));
                }
                return cand;
            }
            proof {
                lemma_id_set_has_id(self.issues@, cand@);
                // The first c + 1 counter candidates all sit in the id
                // set, so c + 1 is at most the number of ids in use.
                lemma_counter_candidates_card(prefix@, (c + 1) as nat);
                lemma_id_set_card(self.issues@);
                assert forall|x: Seq<char>|
                    counter_candidates_below(prefix@, (c + 1) as nat).contains(x)
                    implies taken.contains(x) by {
                    let j = choose|j: nat| j < c + 1 && x == counter_candidate(prefix@, j);
                    if j == c as nat {
                        assert(x == cand@);
                    }
                };
                lemma_len_subset(counter_candidates_below(prefix@, (c + 1) as nat), taken);
                assert(c + 1 <= taken.len());
                assert(c < n);
            }
            c = c + 1;
        }
    }

    /// Applies one ownership transition to the issue with this id.  The
    /// issue steps exactly as [`crate::issue::step`] says; every other
    /// issue, and on any error the whole store, stays as it was.
    pub fn apply_transition(&mut self, id: &str, t: &Transition, now: &str) -> (r: Result<
        Option<String>,
        TrackerError,
    >)
        requires
            old(self).wf(),
        ensures
            final(self).wf(),
            final(self).config == old(self).config,
            final(self).issues@.len() == old(self).issues@.len(),
            !has_id(old(self).issues@, id@) ==> {
                &&& r is Err
                &&& r->Err_0@ == (ErrorModel::NotFound { id: id@ })
                &&& final(self).issues@ == old(self).issues@
            },
            has_id(old(self).issues@, id@) ==> {
                let i = idx_of(old(self).issues@, id@);
                &&& applied(old(self).issues@[i], final(self).issues@[i], t@, now@)
                &&& step_reported(old(self).issues@[i], t@, now@, r)
                &&& forall|j: int|
                    0 <= j < old(self).issues@.len() && j != i ==> final(self).issues@[j] == old(
                        self,
                    ).issues@[j]
            },
    {
        match self.find_index(id) {
            None => Err(TrackerError::NotFound { id: String::from_str(id) }),
            Some(i) => {
                proof {
                    lemma_idx_of(self.issues@, id@, i as int);
                }
                let ghost pre = self.issues@;
                let mut issue = self.issues.remove(i);
                let r = issue.apply(t, now);
                self.issues.insert(i, issue);
                proof {
                    assert(self.issues@ =~= pre.update(i as int, self.issues@[i as int]));
                    assert(self.issues@[i as int].id == pre[i as int].id);
                    assert(self.issues@[i as int].priority == pre[i as int].priority);
                    assert(unique_ids(self.issues@));
                    assert(all_wf(self.issues@));
                }
                r
            },
        }
    }

    /// Creates a new issue: open, unclaimed, no relations, its id fresh
    /// from the generator.  Rejected issue types and out-of-range
    /// priorities change nothing.
    pub fn create_issue(
        &mut self,
        title: &str,
        type_str: &str,
        priority: u8,
        description: &str,
        now: &str,
    ) -> (r: Result<String, TrackerError>)
        requires
            old(self).wf(),
        ensures
            final(self).wf(),
            final(self).config == old(self).config,
            issue_type_keyword(type_str@) is None ==> {
                &&& r is Err
                &&& r->Err_0@ == (ErrorModel::UnknownIssueType { value: type_str@ })
                &&& final(self).issues@ == old(self).issues@
            },
            issue_type_keyword(type_str@) is Some && priority > 4 ==> {
                &&& r is Err
                &&& r->Err_0@ == ErrorModel::PriorityOutOfRange
                &&& final(self).issues@ == old(self).issues@
            },
            issue_type_keyword(type_str@) is Some && priority <= 4 ==> {
                let added = final(self).issues@[old(self).issues@.len() as int];
                &&& r is Ok
                &&& !has_id(old(self).issues@, r->Ok_0@)
                &&& crate::idgen::is_generated_id(
                    old(self).config.prefix@,
                    sha256_of(title@ + now@),
                    id_set(old(self).issues@),
                    r->Ok_0@,
                )
                &&& final(self).issues@.len() == old(self).issues@.len() + 1
                &&& forall|j: int|
                    0 <= j < old(self).issues@.len() ==> final(self).issues@[j] == old(
                        self,
                    ).issues@[j]
                &&& added.id == r->Ok_0
                &&& added.title@ == title@
                &&& added.description@ == description@
                &&& added.status == Status::Open
                &&& added.priority == priority
                &&& Some(added.issue_type) == issue_type_keyword(type_str@)
                &&& added.session_id is None
                &&& added.labels@.len() == 0
                &&& added.comments@.len() == 0
                &&& added.created_at@ == now@
                &&& added.updated_at@ == now@
                &&& added.closed_at is None
                &&& added.blocks@.len() == 0
                &&& added.blocked_by@.len() == 0
            },
    {
        let issue_type = match parse_issue_type(type_str) {
            Ok(t) => t,
            Err(e) => {
                return Err(e);
            },
        };
        if priority > 4 {
            return Err(TrackerError::PriorityOutOfRange);
        }
        let id = self.generate_id(title, now);
        let issue = Issue {
            id: id.clone(),
            title: String::from_str(title),
            description: String::from_str(description),
            status: Status::Open,
            priority,
            issue_type,
            session_id: None,
            labels: Vec::new(),
            comments: Vec::new(),
            created_at: String::from_str(now),
            updated_at: String::from_str(now),
            closed_at: None,
            blocks: Vec::new(),
            blocked_by: Vec::new(),
        };
        let ghost pre = self.issues@;
        self.issues.push(issue);
        proof {
            assert(self.issues@ =~= pre.push(self.issues@[pre.len() as int]));
            assert(unique_ids(self.issues@));
            assert(all_wf(self.issues@));
        }
        Ok(id)
    }

    /// Sets the priority of the issue with this id; the value must be in
    /// range, and nothing else about the issue moves but the update time.
    pub fn set_priority(&mut self, id: &str, value: u8, now: &str) -> (r: Result<
        (),
        TrackerError,
    >)
        requires
            old(self).wf(),
        ensures
            final(self).wf(),
            final(self).config == old(self).config,
            value > 4 ==> {
                &&& r is Err
                &&& r->Err_0@ == ErrorModel::PriorityOutOfRange
                &&& final(self).issues@ == old(self).issues@
            },
            value <= 4 && !has_id(old(self).issues@, id@) ==> {
                &&& r is Err
                &&& r->Err_0@ == (ErrorModel::NotFound { id: id@ })
                &&& final(self).issues@ == old(self).issues@
            },
            value <= 4 && has_id(old(self).issues@, id@) ==> {
                let i = idx_of(old(self).issues@, id@);
                let pre = old(self).issues@[i];
                let post = final(self).issues@[i];
                &&& r is Ok
                &&& final(self).issues@.len() == old(self).issues@.len()
                &&& forall|j: int|
                    0 <= j < old(self).issues@.len() && j != i ==> final(self).issues@[j] == old(
                        self,
                    ).issues@[j]
                &&& post.priority == value
                &&& post.updated_at@ == now@
                &&& post.id == pre.id
                &&& post.title == pre.title
                &&& post.description == pre.description
                &&& post.status == pre.status
                &&& post.issue_type == pre.issue_type
                &&& post.session_id == pre.session_id
                &&& post.labels == pre.labels
                &&& post.comments == pre.comments
                &&& post.created_at == pre.created_at
                &&& post.closed_at == pre.closed_at
                &&& post.blocks == pre.blocks
                &&& post.blocked_by == pre.blocked_by
            },
    {
        if value > 4 {
            return Err(TrackerError::PriorityOutOfRange);
        }
        match self.find_index(id) {
            None => Err(TrackerError::NotFound { id: String::from_str(id) }),
            Some(i) => {
                proof {
                    lemma_idx_of(self.issues@, id@, i as int);
                }
                let ghost pre = self.issues@;
                let mut issue = self.issues.remove(i);
                issue.priority = value;
                issue.updated_at = String::from_str(now);
                self.issues.insert(i, issue);
                proof {
                    assert(self.issues@ =~= pre.update(i as int, self.issues@[i as int]));
                    assert(unique_ids(self.issues@));
                    assert(all_wf(self.issues@));
                }
                Ok(())
            },
        }
    }

    /// Adds a label to or removes a label from the issue with this id.
    /// Adding keeps the label list sorted; removing drops every copy of
    /// the label.  A label already there, a label not there, and an
    /// action other than `add` or `remove` are each rejected.
    pub fn edit_label(&mut self, id: &str, action: &str, label: &str, now: &str) -> (r: Result<
        (),
        TrackerError,
    >)
        requires
            old(self).wf(),
        ensures
            final(self).wf(),
            final(self).config == old(self).config,
            !has_id(old(self).issues@, id@) ==> {
                &&& r is Err
                &&& r->Err_0@ == (ErrorModel::NotFound { id: id@ })
                &&& final(self).issues@ == old(self).issues@
            },
            has_id(old(self).issues@, id@) ==> {
                let i = idx_of(old(self).issues@, id@);
                let pre = old(self).issues@[i];
                let post = final(self).issues@[i];
                &&& final(self).issues@.len() == old(self).issues@.len()
                &&& forall|j: int|
                    0 <= j < old(self).issues@.len() && j != i ==> final(self).issues@[j] == old(
                        self,
                    ).issues@[j]
                &&& if action@ == "add"@ {
                    if pre.labels.deep_view().contains(label@) {
                        &&& r is Err
                        &&& r->Err_0@ == (ErrorModel::LabelExists { id: id@, label: label@ })
                        &&& post == pre
                    } else {
                        &&& r is Ok
                        &&& post.labels.deep_view().to_multiset()
                            == pre.labels.deep_view().to_multiset().insert(label@)
                        &&& crate::sorting::sorted_strs(post.labels.deep_view())
                        &&& post.updated_at@ == now@
                        &&& labels_edit_frame(pre, post)
                    }
                } else if action@ == "remove"@ {
                    if !pre.labels.deep_view().contains(label@) {
                        &&& r is Err
                        &&& r->Err_0@ == (ErrorModel::LabelMissing { id: id@, label: label@ })
                        &&& post == pre
                    } else {
                        &&& r is Ok
                        &&& post.labels.deep_view() == pre.labels.deep_view().filter(
                            |x: Seq<char>| x != label@,
                        )
                        &&& post.updated_at@ == now@
                        &&& labels_edit_frame(pre, post)
                    }
                } else {
                    &&& r is Err
                    &&& r->Err_0@ == (ErrorModel::UnknownAction { value: action@ })
                    &&& post == pre
                }
            },
    {
        match self.find_index(id) {
            None => Err(TrackerError::NotFound { id: String::from_str(id) }),
            Some(i) => {
                proof {
                    lemma_idx_of(self.issues@, id@, i as int);
                }
                let ghost pre = self.issues@;
                let mut issue = self.issues.remove(i);
                let outcome: Result<(), TrackerError> = if str_eq(action, "add") {
                    if vec_contains_str(&issue.labels, label) {
                        Err(
                            TrackerError::LabelExists {
                                id: String::from_str(id),
                                label: String::from_str(label),
                            },
                        )
                    } else {
                        let ghost before = issue.labels.deep_view();
                        issue.labels.push(String::from_str(label));
                        proof {
                            assert(issue.labels.deep_view() =~= before.push(label@));
                            issue.labels.deep_view().to_multiset_ensures();
                            before.to_multiset_ensures();
                            assert(before.push(label@).to_multiset() =~= before.to_multiset()
                                .insert(label@));
                        }
                        let sorted = crate::sorting::sort_strings(&issue.labels);
                        issue.labels = sorted;
                        issue.updated_at = String::from_str(now);
                        Ok(())
                    }
                } else if str_eq(action, "remove") {
                    if !vec_contains_str(&issue.labels, label) {
                        Err(
                            TrackerError::LabelMissing {
                                id: String::from_str(id),
                                label: String::from_str(label),
                            },
                        )
                    } else {
                        let kept = retain_without(&issue.labels, label);
                        issue.labels = kept;
                        issue.updated_at = String::from_str(now);
                        Ok(())
                    }
                } else {
                    Err(TrackerError::UnknownAction { value: String::from_str(action) })
                };
                self.issues.insert(i, issue);
                proof {
                    assert(self.issues@ =~= pre.update(i as int, self.issues@[i as int]));
                    assert(unique_ids(self.issues@));
                    assert(all_wf(self.issues@));
                }
                outcome
            },
        }
    }

    /// Appends a comment to the issue with this id and stamps the update
    /// time; the comment list never loses entries.
    pub fn add_comment(&mut self, id: &str, text: &str, author: &str, now: &str) -> (r: Result<
        (),
        TrackerError,
    >)
        requires
            old(self).wf(),
        ensures
            final(self).wf(),
            final(self).config == old(self).config,
            !has_id(old(self).issues@, id@) ==> {
                &&& r is Err
                &&& r->Err_0@ == (ErrorModel::NotFound { id: id@ })
                &&& final(self).issues@ == old(self).issues@
            },
            has_id(old(self).issues@, id@) ==> {
                let i = idx_of(old(self).issues@, id@);
                let pre = old(self).issues@[i];
                let post = final(self).issues@[i];
                &&& r is Ok
                &&& final(self).issues@.len() == old(self).issues@.len()
                &&& forall|j: int|
                    0 <= j < old(self).issues@.len() && j != i ==> final(self).issues@[j] == old(
                        self,
                    ).issues@[j]
                &&& post.comments@.len() == pre.comments@.len() + 1
                &&& forall|k: int|
                    0 <= k < pre.comments@.len() ==> post.comments@[k] == pre.comments@[k]
                &&& post.comments@[pre.comments@.len() as int]@ == (crate::issue::CommentModel {
                    author: author@,
                    text: text@,
                    created_at: now@,
                })
                &&& post.updated_at@ == now@
                &&& post.id == pre.id
                &&& post.title == pre.title
                &&& post.description == pre.description
                &&& post.status == pre.status
                &&& post.priority == pre.priority
                &&& post.issue_type == pre.issue_type
                &&& post.session_id == pre.session_id
                &&& post.labels == pre.labels
                &&& post.created_at == pre.created_at
                &&& post.closed_at == pre.closed_at
                &&& post.blocks == pre.blocks
                &&& post.blocked_by == pre.blocked_by
            },
    {
        match self.find_index(id) {
            None => Err(TrackerError::NotFound { id: String::from_str(id) }),
            Some(i) => {
                proof {
                    lemma_idx_of(self.issues@, id@, i as int);
                }
                let ghost pre = self.issues@;
                let mut issue = self.issues.remove(i);
                issue.comments.push(
                    crate::issue::Comment {
                        author: String::from_str(author),
                        text: String::from_str(text),
                        created_at: String::from_str(now),
                    },
                );
                issue.updated_at = String::from_str(now);
                self.issues.insert(i, issue);
                proof {
                    assert(self.issues@ =~= pre.update(i as int, self.issues@[i as int]));
                    assert(unique_ids(self.issues@));
                    assert(all_wf(self.issues@));
                }
                Ok(())
            },
        }
    }

    /// True when nothing with this id still blocks: every issue carrying
    /// it is closed, or none carries it.
    fn blocker_cleared_exec(&self, bid: &str) -> (r: bool)
        requires
            self.wf(),
        ensures
            r == blocker_cleared(self.issues@, bid@),
    {
        match self.find_index(bid) {
            None => true,
            Some(j) => {
                let closed = self.issues[j].status == Status::Closed;
                proof {
                    if closed {
                        assert forall|i: int|
                            0 <= i < self.issues@.len() && (#[trigger] self.issues@[i]).id@ == bid@
                            implies self.issues@[i].status == Status::Closed by {
                            if i != j {
                                if i < j {
                                    assert(self.issues@[i].id@ != self.issues@[j as int].id@);
                                } else {
                                    assert(self.issues@[j as int].id@ != self.issues@[i].id@);
                                }
                            }
                        };
                    }
                }
                closed
            },
        }
    }

    /// True when the issue at this position is ready to work on.
    fn is_ready_exec(&self, idx: usize) -> (r: bool)
        requires
            self.wf(),
            idx < self.issues@.len(),
        ensures
            r == is_ready(self.issues@, self.issues@[idx as int]),
    {
        if !(self.issues[idx].status == Status::Open) {
            return false;
        }
        let n = self.issues[idx].blocked_by.len();
        let mut b: usize = 0;
        while b < n
            invariant
                self.wf(),
                idx < self.issues@.len(),
                n == self.issues@[idx as int].blocked_by@.len(),
                b <= n,
                forall|k: int|
                    0 <= k < b ==> blocker_cleared(
                        self.issues@,
                        #[trigger] self.issues@[idx as int].blocked_by.deep_view()[k],
                    ),
            decreases n - b,
        {
            let bid = &self.issues[idx].blocked_by[b];
            if !self.blocker_cleared_exec(bid.as_str()) {
                proof {
                    assert(self.issues@[idx as int].blocked_by.deep_view()[b as int] == bid@);
                }
                return false;
            }
            proof {
                assert(self.issues@[idx as int].blocked_by.deep_view()[b as int] == bid@);
            }
            b = b + 1;
        }
        true
    }

    /// The positions of every issue ready to work on, most urgent first,
    /// older first among equals.
    pub fn ready(&self) -> (r: Vec<usize>)
        requires
            self.wf(),
        ensures
            forall|k: int|
                0 <= k < r@.len() ==> (#[trigger] r@[k]) < self.issues@.len() && is_ready(
                    self.issues@,
                    self.issues@[r@[k] as int],
                ),
            forall|i: int|
                0 <= i < self.issues@.len() && is_ready(self.issues@, self.issues@[i])
                    ==> r@.contains(i as usize),
            r@.no_duplicates(),
            forall|i: int, j: int|
                0 <= i < j < r@.len() ==> crate::sorting::rank_le(
                    self.issues@[#[trigger] r@[i] as int],
                    self.issues@[#[trigger] r@[j] as int],
                ),
    {
        let n = self.issues.len();
        let mut picked: Vec<usize> = Vec::new();
        let mut i: usize = 0;
        while i < n
            invariant
                self.wf(),
                n == self.issues@.len(),
                i <= n,
                forall|k: int|
                    0 <= k < picked@.len() ==> #[trigger] picked@[k] < i && is_ready(
                        self.issues@,
                        self.issues@[picked@[k] as int],
                    ),
                forall|j: int|
                    0 <= j < i && is_ready(self.issues@, self.issues@[j]) ==> picked@.contains(
                        j as usize,
                    ),
                forall|k1: int, k2: int|
                    0 <= k1 < k2 < picked@.len() ==> picked@[k1] < picked@[k2],
            decreases n - i,
        {
            let ghost before = picked@;
            if self.is_ready_exec(i) {
                picked.push(i);
                proof {
                    assert forall|j: int|
                        0 <= j < i + 1 && is_ready(self.issues@, self.issues@[j])
                        implies picked@.contains(j as usize) by {
                        if j < i {
                            let k = choose|k: int| 0 <= k < before.len() && before[k] == j as usize;
                            assert(picked@[k] == j as usize);
                        } else {
                            assert(picked@[before.len() as int] == i);
                        }
                    };
                }
            }
            i = i + 1;
        }
        let r = finish_listing(&self.issues, picked);
        proof {
            assert forall|k: int|
                0 <= k < r@.len() implies (#[trigger] r@[k]) < self.issues@.len() && is_ready(
                self.issues@,
                self.issues@[r@[k] as int],
            ) by {
                assert(r@.contains(r@[k]));
            };
        }
        r
    }

    /// The positions of the issues a listing shows, most urgent first,
    /// older first among equals.
    pub fn list(&self, filter: Option<Status>, all: bool) -> (r: Vec<usize>)
        requires
            self.wf(),
        ensures
            forall|k: int|
                0 <= k < r@.len() ==> (#[trigger] r@[k]) < self.issues@.len() && passes_filter(
                    self.issues@[r@[k] as int],
                    filter,
                    all,
                ),
            forall|i: int|
                0 <= i < self.issues@.len() && passes_filter(self.issues@[i], filter, all)
                    ==> r@.contains(i as usize),
            r@.no_duplicates(),
            forall|i: int, j: int|
                0 <= i < j < r@.len() ==> crate::sorting::rank_le(
                    self.issues@[#[trigger] r@[i] as int],
                    self.issues@[#[trigger] r@[j] as int],
                ),
    {
        let n = self.issues.len();
        let mut picked: Vec<usize> = Vec::new();
        let mut i: usize = 0;
        while i < n
            invariant
                self.wf(),
                n == self.issues@.len(),
                i <= n,
                forall|k: int|
                    0 <= k < picked@.len() ==> #[trigger] picked@[k] < i && passes_filter(
                        self.issues@[picked@[k] as int],
                        filter,
                        all,
                    ),
                forall|j: int|
                    0 <= j < i && passes_filter(self.issues@[j], filter, all)
                        ==> picked@.contains(j as usize),
                forall|k1: int, k2: int|
                    0 <= k1 < k2 < picked@.len() ==> picked@[k1] < picked@[k2],
            decreases n - i,
        {
            let ghost before = picked@;
            let wanted = match filter {
                Some(st) => self.issues[i].status == st,
                None => all || !(self.issues[i].status == Status::Closed),
            };
            if wanted {
                picked.push(i);
                proof {
                    assert forall|j: int|
                        0 <= j < i + 1 && passes_filter(self.issues@[j], filter, all)
                        implies picked@.contains(j as usize) by {
                        if j < i {
                            let k = choose|k: int| 0 <= k < before.len() && before[k] == j as usize;
                            assert(picked@[k] == j as usize);
                        } else {
                            assert(picked@[before.len() as int] == i);
                        }
                    };
                }
            }
            i = i + 1;
        }
        let r = finish_listing(&self.issues, picked);
        proof {
            assert forall|k: int|
                0 <= k < r@.len() implies (#[trigger] r@[k]) < self.issues@.len() && passes_filter(
                self.issues@[r@[k] as int],
                filter,
                all,
            ) by {
                assert(r@.contains(r@[k]));
            };
        }
        r
    }

    /// The positions of the issues this session has claimed, most urgent
    /// first, older first among equals.
    pub fn mine(&self, session: &str) -> (r: Vec<usize>)
        requires
            self.wf(),
        ensures
            forall|k: int|
                0 <= k < r@.len() ==> (#[trigger] r@[k]) < self.issues@.len() && owned_by(
                    self.issues@[r@[k] as int],
                    session@,
                ),
            forall|i: int|
                0 <= i < self.issues@.len() && owned_by(self.issues@[i], session@)
                    ==> r@.contains(i as usize),
            r@.no_duplicates(),
            forall|i: int, j: int|
                0 <= i < j < r@.len() ==> crate::sorting::rank_le(
                    self.issues@[#[trigger] r@[i] as int],
                    self.issues@[#[trigger] r@[j] as int],
                ),
    {
        let n = self.issues.len();
        let mut picked: Vec<usize> = Vec::new();
        let mut i: usize = 0;
        while i < n
            invariant
                self.wf(),
                n == self.issues@.len(),
                i <= n,
                forall|k: int|
                    0 <= k < picked@.len() ==> #[trigger] picked@[k] < i && owned_by(
                        self.issues@[picked@[k] as int],
                        session@,
                    ),
                forall|j: int|
                    0 <= j < i && owned_by(self.issues@[j], session@) ==> picked@.contains(
                        j as usize,
                    ),
                forall|k1: int, k2: int|
                    0 <= k1 < k2 < picked@.len() ==> picked@[k1] < picked@[k2],
            decreases n - i,
        {
            let ghost before = picked@;
            let wanted = match &self.issues[i].session_id {
                Some(s) => str_eq(s.as_str(), session),
                None => false,
            };
            if wanted {
                picked.push(i);
                proof {
                    assert forall|j: int|
                        0 <= j < i + 1 && owned_by(self.issues@[j], session@)
                        implies picked@.contains(j as usize) by {
                        if j < i {
                            let k = choose|k: int| 0 <= k < before.len() && before[k] == j as usize;
                            assert(picked@[k] == j as usize);
                        } else {
                            assert(picked@[before.len() as int] == i);
                        }
                    };
                }
            }
            i = i + 1;
        }
        let r = finish_listing(&self.issues, picked);
        proof {
            assert forall|k: int|
                0 <= k < r@.len() implies (#[trigger] r@[k]) < self.issues@.len() && owned_by(
                self.issues@[r@[k] as int],
                session@,
            ) by {
                assert(r@.contains(r@[k]));
            };
        }
        r
    }
}

} // verus!
