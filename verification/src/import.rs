//! Batch import of externally exported records.
//!
//! The caller parses the external line format into candidate records and
//! hands them here.  The store resolves an old-to-new id map — fresh ids
//! from the generator unless the caller keeps the originals — rebuilds
//! the blocking lists from the external dependency entries of kind
//! `blocks`, and commits what validates; per-record failures are
//! collected, never fatal for the rest of the batch.

use vstd::prelude::*;
use vstd::string::StringExecFns;
use crate::idgen::is_generated_id;
use crate::idgen::lemma_generated_id_unique;
use crate::idgen::sha256_of;
use crate::issue::issue_type_keyword;
use crate::issue::parse_issue_type;
use crate::issue::parse_status;
use crate::issue::status_keyword;
use crate::issue::Issue;
use crate::issue::IssueType;
use crate::store::all_wf;
use crate::store::has_id;
use crate::store::id_set;
use crate::store::lemma_id_set_has_id;
use crate::store::unique_ids;
use crate::store::vec_contains_str;
use crate::store::Store;
use crate::text::str_eq;

verus! {

/// One dependency entry of the external export.
#[derive(Debug)]
pub struct ImportDep {
    pub issue_id: String,
    pub depends_on_id: String,
    pub dep_type: String,
}

/// One candidate record of the external export, its timestamps already
/// checked by the caller.
#[derive(Debug)]
pub struct ImportRecord {
    pub line: u64,
    pub id: String,
    pub title: String,
    pub description: String,
    pub status: String,
    pub priority: u8,
    pub issue_type: String,
    pub created_at: String,
    pub updated_at: String,
    pub closed_at: Option<String>,
    pub deps: Vec<ImportDep>,
}

/// One collected per-record failure.
#[derive(Debug)]
pub struct ImportNote {
    pub line: u64,
    pub issue_id: Option<String>,
    pub field: String,
    pub message: String,
}

/// What an import did: how many records landed, how many were already
/// there, and what failed.
#[derive(Debug)]
pub struct ImportReport {
    pub imported: usize,
    pub skipped: usize,
    pub errors: Vec<ImportNote>,
}

/// How an issue that was already in the store may change during an
/// import: only its `blocks` list, and only by growing at the end.
pub open spec fn import_blocks_frame(pre: Issue, post: Issue) -> bool {
    &&& post.id == pre.id
    &&& post.title == pre.title
    &&& post.description == pre.description
    &&& post.status == pre.status
    &&& post.priority == pre.priority
    &&& post.issue_type == pre.issue_type
    &&& post.session_id == pre.session_id
    &&& post.labels == pre.labels
    &&& post.comments == pre.comments
    &&& post.created_at == pre.created_at
    &&& post.updated_at == pre.updated_at
    &&& post.closed_at == pre.closed_at
    &&& post.blocked_by == pre.blocked_by
    &&& post.blocks.deep_view().len() >= pre.blocks.deep_view().len()
    &&& post.blocks.deep_view().take(pre.blocks.deep_view().len() as int)
        == pre.blocks.deep_view()
}

/// What a whole import is judged against: the id prefix and the ids in
/// use before the batch, the batch itself, and whether original ids
/// are kept.
pub struct ImportCtx {
    pub prefix: Seq<char>,
    pub taken: Set<Seq<char>>,
    pub records: Seq<ImportRecord>,
    pub keep_ids: bool,
}

/// The judging context for an import run against this store.
pub open spec fn import_ctx(pre: Store, records: Seq<ImportRecord>, keep_ids: bool) -> ImportCtx {
    ImportCtx { prefix: pre.config.prefix@, taken: id_set(pre.issues@), records, keep_ids }
}

/// The position of the first record carrying this id.
pub open spec fn first_idx(records: Seq<ImportRecord>, oldid: Seq<char>) -> int
    decreases records.len(),
{
    if records.len() == 0 {
        0
    } else if records[0].id@ == oldid {
        0
    } else {
        1 + first_idx(records.drop_first(), oldid)
    }
}

/// The new id the batch's map assigns to the record at `k`: the
/// record's own id when ids are kept, else the one id the generator's
/// characterization admits for its title and creation time against the
/// pre-import store.
pub open spec fn ctx_new_id(ctx: ImportCtx, k: int) -> Seq<char> {
    if ctx.keep_ids {
        ctx.records[k].id@
    } else {
        choose|rr: Seq<char>|
            is_generated_id(
                ctx.prefix,
                sha256_of(ctx.records[k].title@ + ctx.records[k].created_at@),
                ctx.taken,
                rr,
            )
    }
}

/// The id a record resolves to through the map: records sharing one
/// old id share the first one's entry.
pub open spec fn eff_id(ctx: ImportCtx, k: int) -> Seq<char> {
    ctx_new_id(ctx, first_idx(ctx.records, ctx.records[k].id@))
}

/// A dependency entry that feeds a blocker list: of kind `blocks`,
/// naming this record as the blocked side, with a target somewhere in
/// the batch.
pub open spec fn dep_passes(records: Seq<ImportRecord>, rec: ImportRecord, d: ImportDep) -> bool {
    &&& d.dep_type@ == "blocks"@
    &&& d.issue_id@ == rec.id@
    &&& exists|k: int| 0 <= k < records.len() && (#[trigger] records[k]).id@ == d.depends_on_id@
}

/// The blocker list an imported record gets: the targets of its
/// passing dependency entries, resolved through the batch's map, in
/// order.
pub open spec fn mapped_blocked_by(ctx: ImportCtx, rec: ImportRecord) -> Seq<Seq<char>> {
    rec.deps@.filter(|d: ImportDep| dep_passes(ctx.records, rec, d)).map_values(
        |d: ImportDep| ctx_new_id(ctx, first_idx(ctx.records, d.depends_on_id@)),
    )
}

/// An imported issue next to the record it came from: the plain fields
/// carried over, the status and type read from their keywords with
/// unknown types falling back to task, the priority clamped into range,
/// ownership, labels and comments starting empty, and the blocker list
/// rebuilt from the passing dependency entries through the batch's map.
pub open spec fn built_from(ctx: ImportCtx, rec: ImportRecord, post: Issue) -> bool {
    &&& post.title@ == rec.title@
    &&& post.description@ == rec.description@
    &&& status_keyword(rec.status@) == Some(post.status)
    &&& post.priority == (if rec.priority > 4 {
        4u8
    } else {
        rec.priority
    })
    &&& (match issue_type_keyword(rec.issue_type@) {
        Some(t) => post.issue_type == t,
        None => post.issue_type == IssueType::Task,
    })
    &&& post.session_id is None
    &&& post.labels@.len() == 0
    &&& post.comments@.len() == 0
    &&& post.created_at@ == rec.created_at@
    &&& post.updated_at@ == rec.updated_at@
    &&& post.closed_at.deep_view() == rec.closed_at.deep_view()
    &&& post.blocked_by.deep_view() == mapped_blocked_by(ctx, rec)
}

/// Nothing can pre-empt this record: the id the map gives it is
/// neither in the store already nor any other record's mapped id.
pub open spec fn collision_free(ctx: ImportCtx, k: int) -> bool {
    &&& 0 <= k < ctx.records.len()
    &&& !ctx.taken.contains(eff_id(ctx, k))
    &&& forall|k2: int|
        0 <= k2 < ctx.records.len() && k2 != k ==> eff_id(ctx, k2) != eff_id(ctx, k)
}

/// The first record carrying an id that some record carries.
proof fn lemma_first_idx(records: Seq<ImportRecord>, oldid: Seq<char>)
    requires
        exists|k: int| 0 <= k < records.len() && (#[trigger] records[k]).id@ == oldid,
    ensures
        0 <= first_idx(records, oldid) < records.len(),
        records[first_idx(records, oldid)].id@ == oldid,
        forall|j: int|
            0 <= j < first_idx(records, oldid) ==> (#[trigger] records[j]).id@ != oldid,
    decreases records.len(),
{
    if records[0].id@ == oldid {
    } else {
        let k = choose|k: int| 0 <= k < records.len() && (#[trigger] records[k]).id@ == oldid;
        assert(records.drop_first()[k - 1].id@ == oldid);
        lemma_first_idx(records.drop_first(), oldid);
        assert(forall|j: int|
            1 <= j < records.len() ==> (#[trigger] records[j]).id@ == records.drop_first()[j
                - 1].id@);
    }
}

/// A first match in the map sits at the first record with that id.
proof fn lemma_first_match(
    records: Seq<ImportRecord>,
    map: Seq<(String, String)>,
    key: Seq<char>,
    j: int,
)
    requires
        map.len() == records.len(),
        forall|t: int| 0 <= t < map.len() ==> (#[trigger] map[t]).0@ == records[t].id@,
        0 <= j < map.len(),
        map[j].0@ == key,
        forall|j2: int| 0 <= j2 < j ==> (#[trigger] map[j2]).0@ != key,
    ensures
        j == first_idx(records, key),
        records[j].id@ == key,
{
    assert(records[j].id@ == key);
    lemma_first_idx(records, key);
    let fi = first_idx(records, key);
    if fi < j {
        assert(map[fi].0@ == key);
    }
    if j < fi {
        assert(records[j].id@ != key);
    }
}

/// Looks a key up in the old-to-new id map; the first entry wins.
fn map_lookup(map: &Vec<(String, String)>, key: &str) -> (r: Option<String>)
    ensures
        match r {
            Some(v) => exists|j: int|
                {
                    &&& 0 <= j < map@.len()
                    &&& (#[trigger] map@[j]).0@ == key@
                    &&& v@ == map@[j].1@
                    &&& forall|j2: int| 0 <= j2 < j ==> (#[trigger] map@[j2]).0@ != key@
                },
            None => forall|j: int| 0 <= j < map@.len() ==> (#[trigger] map@[j]).0@ != key@,
        },
{
    let n = map.len();
    let mut i: usize = 0;
    while i < n
        invariant
            n == map@.len(),
            i <= n,
            forall|j: int| 0 <= j < i ==> (#[trigger] map@[j]).0@ != key@,
        decreases n - i,
    {
        if str_eq(map[i].0.as_str(), key) {
            return Some(map[i].1.clone());
        }
        i = i + 1;
    }
    None
}

impl Store {
    /// Imports a batch of candidate records.  Ids are remapped through
    /// the generator unless kept; a record whose mapped id is already in
    /// the store is skipped and counted; an unknown status keyword fails
    /// the record with one collected note; an unknown type keyword is
    /// noted and falls back to task.  Every record that nothing
    /// pre-empts and whose status parses lands.  After the batch, every
    /// `blocks` list is topped up — never with a duplicate — until the
    /// whole store mirrors its blocker lists.  The rest of the store
    /// keeps everything but those `blocks` lists.
    #[verifier::rlimit(100)]
    #[verifier::spinoff_prover]
    pub fn import_records(&mut self, records: Vec<ImportRecord>, keep_ids: bool) -> (report:
        ImportReport)
        requires
            old(self).wf(),
        ensures
            final(self).wf(),
            final(self).config == old(self).config,
            final(self).issues@.len() == old(self).issues@.len() + report.imported,
            report.imported + report.skipped <= records@.len(),
            forall|j: int|
                0 <= j < old(self).issues@.len() ==> import_blocks_frame(
                    old(self).issues@[j],
                    #[trigger] final(self).issues@[j],
                ),
            forall|j: int|
                old(self).issues@.len() <= j < final(self).issues@.len() ==> (exists|k: int|
                    {
                        &&& 0 <= k < records@.len()
                        &&& built_from(
                            import_ctx(*old(self), records@, keep_ids),
                            records@[k],
                            #[trigger] final(self).issues@[j],
                        )
                        &&& final(self).issues@[j].id@ == eff_id(
                            import_ctx(*old(self), records@, keep_ids),
                            k,
                        )
                    }) && !has_id(old(self).issues@, final(self).issues@[j].id@),
            !keep_ids ==> forall|j: int|
                old(self).issues@.len() <= j < final(self).issues@.len() ==> exists|k: int|
                    0 <= k < records@.len() && is_generated_id(
                        old(self).config.prefix@,
                        sha256_of(records@[k].title@ + records@[k].created_at@),
                        id_set(old(self).issues@),
                        (#[trigger] final(self).issues@[j]).id@,
                    ),
            forall|k: int|
                collision_free(import_ctx(*old(self), records@, keep_ids), k) && status_keyword(
                    (#[trigger] records@[k]).status@,
                ) is Some ==> exists|j: int|
                    {
                        &&& old(self).issues@.len() <= j < final(self).issues@.len()
                        &&& (#[trigger] final(self).issues@[j]).id@ == eff_id(
                            import_ctx(*old(self), records@, keep_ids),
                            k,
                        )
                        &&& built_from(
                            import_ctx(*old(self), records@, keep_ids),
                            records@[k],
                            final(self).issues@[j],
                        )
                    },
            forall|k: int|
                collision_free(import_ctx(*old(self), records@, keep_ids), k) && status_keyword(
                    (#[trigger] records@[k]).status@,
                ) is None ==> exists|e: int|
                    0 <= e < report.errors@.len() && (#[trigger] report.errors@[e]).line
                        == records@[k].line,
            forall|k: int|
                collision_free(import_ctx(*old(self), records@, keep_ids), k) && status_keyword(
                    (#[trigger] records@[k]).status@,
                ) is Some && issue_type_keyword(records@[k].issue_type@) is None ==> exists|e: int|
                    0 <= e < report.errors@.len() && (#[trigger] report.errors@[e]).line
                        == records@[k].line,
            forall|e: int|
                0 <= e < report.errors@.len() ==> exists|k: int|
                    0 <= k < records@.len() && records@[k].line == (
                    #[trigger] report.errors@[e]).line,
            blocks_mirrored(final(self).issues@),
            forall|j: int, a: int, b: int|
                #![trigger final(self).issues@[j].blocks.deep_view()[a], final(self).issues@[j].blocks.deep_view()[b]]
                0 <= j < final(self).issues@.len() && 0 <= a < b
                    < final(self).issues@[j].blocks.deep_view().len() && b >= (if j < old(
                    self,
                ).issues@.len() {
                    old(self).issues@[j].blocks.deep_view().len() as int
                } else {
                    0int
                }) ==> final(self).issues@[j].blocks.deep_view()[a]
                    != final(self).issues@[j].blocks.deep_view()[b],
    {
        let ghost ctx = import_ctx(*old(self), records@, keep_ids);
        let mut errors: Vec<ImportNote> = Vec::new();
        let mut imported: usize = 0;
        let mut skipped: usize = 0;
        // Resolve the old-to-new id map against the store as it stands,
        // before anything lands.
        let rn = records.len();
        let mut map: Vec<(String, String)> = Vec::new();
        let mut r: usize = 0;
        while r < rn
            invariant
                self.wf(),
                self.issues@ == old(self).issues@,
                self.config == old(self).config,
                ctx == import_ctx(*old(self), records@, keep_ids),
                rn == records@.len(),
                r <= rn,
                map@.len() == r,
                forall|j: int| 0 <= j < r ==> (#[trigger] map@[j]).0@ == records@[j].id@,
                forall|j: int| 0 <= j < r ==> (#[trigger] map@[j]).1@ == ctx_new_id(ctx, j),
                !keep_ids ==> forall|j: int|
                    0 <= j < r ==> is_generated_id(
                        old(self).config.prefix@,
                        sha256_of(records@[j].title@ + records@[j].created_at@),
                        id_set(old(self).issues@),
                        (#[trigger] map@[j]).1@,
                    ),
            decreases rn - r,
        {
            let new_id = if keep_ids {
                records[r].id.clone()
            } else {
                self.generate_id(records[r].title.as_str(), records[r].created_at.as_str())
            };
            proof {
                if !keep_ids {
                    assert(is_generated_id(
                        ctx.prefix,
                        sha256_of(ctx.records[r as int].title@ + ctx.records[r as int].created_at@),
                        ctx.taken,
                        new_id@,
                    ));
                    assert(exists|rr: Seq<char>|
                        is_generated_id(
                            ctx.prefix,
                            sha256_of(
                                ctx.records[r as int].title@ + ctx.records[r as int].created_at@,
                            ),
                            ctx.taken,
                            rr,
                        ));
                    lemma_generated_id_unique(
                        ctx.prefix,
                        sha256_of(ctx.records[r as int].title@ + ctx.records[r as int].created_at@),
                        ctx.taken,
                        new_id@,
                        ctx_new_id(ctx, r as int),
                    );
                }
                assert(new_id@ == ctx_new_id(ctx, r as int));
            }
            map.push((records[r].id.clone(), new_id));
            r = r + 1;
        }
        // Commit the records that validate.
        let ghost pre = self.issues@;
        let mut r2: usize = 0;
        while r2 < rn
            invariant
                rn == records@.len(),
                r2 <= rn,
                self.wf(),
                self.config == old(self).config,
                pre == old(self).issues@,
                ctx == import_ctx(*old(self), records@, keep_ids),
                self.issues@.len() == pre.len() + imported,
                imported + skipped <= r2,
                forall|j: int| 0 <= j < pre.len() ==> self.issues@[j] == pre[j],
                forall|j: int|
                    pre.len() <= j < self.issues@.len() ==> (exists|k: int|
                        {
                            &&& 0 <= k < r2
                            &&& built_from(ctx, records@[k], #[trigger] self.issues@[j])
                            &&& self.issues@[j].id@ == eff_id(ctx, k)
                        }) && !has_id(pre, self.issues@[j].id@) && self.issues@[j].blocks@.len()
                    == 0,
                map@.len() == rn,
                forall|j: int| 0 <= j < rn ==> (#[trigger] map@[j]).0@ == records@[j].id@,
                forall|j: int| 0 <= j < rn ==> (#[trigger] map@[j]).1@ == ctx_new_id(ctx, j),
                !keep_ids ==> forall|j: int|
                    0 <= j < rn ==> is_generated_id(
                        old(self).config.prefix@,
                        sha256_of(records@[j].title@ + records@[j].created_at@),
                        id_set(old(self).issues@),
                        (#[trigger] map@[j]).1@,
                    ),
                forall|k: int|
                    0 <= k < r2 && collision_free(ctx, k) && status_keyword(
                        (#[trigger] records@[k]).status@,
                    ) is Some ==> exists|j: int|
                        {
                            &&& pre.len() <= j < self.issues@.len()
                            &&& (#[trigger] self.issues@[j]).id@ == eff_id(ctx, k)
                            &&& built_from(ctx, records@[k], self.issues@[j])
                        },
                forall|k: int|
                    0 <= k < r2 && collision_free(ctx, k) && status_keyword(
                        (#[trigger] records@[k]).status@,
                    ) is None ==> exists|e: int|
                        0 <= e < errors@.len() && (#[trigger] errors@[e]).line
                            == records@[k].line,
                forall|k: int|
                    0 <= k < r2 && collision_free(ctx, k) && status_keyword(
                        (#[trigger] records@[k]).status@,
                    ) is Some && issue_type_keyword(records@[k].issue_type@) is None
                        ==> exists|e: int|
                        0 <= e < errors@.len() && (#[trigger] errors@[e]).line
                            == records@[k].line,
                forall|e: int|
                    0 <= e < errors@.len() ==> exists|k: int|
                        0 <= k < rn && records@[k].line == (#[trigger] errors@[e]).line,
            decreases rn - r2,
        {
            let rec = &records[r2];
            let new_id = match map_lookup(&map, rec.id.as_str()) {
                Some(id) => id,
                None => {
                    proof {
                        // Every record was mapped in the first pass.
                        assert(map@[r2 as int].0@ == records@[r2 as int].id@);
                        assert(false);
                    }
                    r2 = r2 + 1;
                    continue ;
                },
            };
            proof {
                let j = choose|j: int|
                    {
                        &&& 0 <= j < map@.len()
                        &&& (#[trigger] map@[j]).0@ == rec.id@
                        &&& new_id@ == map@[j].1@
                        &&& forall|j2: int| 0 <= j2 < j ==> (#[trigger] map@[j2]).0@ != rec.id@
                    };
                lemma_first_match(records@, map@, rec.id@, j);
                assert(new_id@ == ctx_new_id(ctx, j));
                assert(new_id@ == eff_id(ctx, r2 as int));
            }
            if self.contains_id(new_id.as_str()) {
                proof {
                    // A record that nothing pre-empts cannot meet an id
                    // already stored.
                    if collision_free(ctx, r2 as int) {
                        let i = choose|i: int|
                            0 <= i < self.issues@.len() && self.issues@[i].id@ == new_id@;
                        if i < pre.len() {
                            assert(self.issues@[i] == pre[i]);
                            assert(has_id(pre, new_id@));
                            lemma_id_set_has_id(pre, new_id@);
                            assert(ctx.taken.contains(eff_id(ctx, r2 as int)));
                        } else {
                            let kp = choose|kp: int|
                                {
                                    &&& 0 <= kp < r2
                                    &&& built_from(ctx, records@[kp], self.issues@[i])
                                    &&& self.issues@[i].id@ == eff_id(ctx, kp)
                                };
                            assert(eff_id(ctx, kp) == eff_id(ctx, r2 as int));
                        }
                        assert(false);
                    }
                }
                skipped = skipped + 1;
                r2 = r2 + 1;
                continue ;
            }
            let status = match parse_status(rec.status.as_str()) {
                Ok(st) => st,
                Err(_) => {
                    proof {
                        assert(status_keyword(records@[r2 as int].status@) is None);
                    }
                    let ghost errors0 = errors@;
                    errors.push(
                        ImportNote {
                            line: rec.line,
                            issue_id: Some(rec.id.clone()),
                            field: String::from_str("status"),
                            message: String::from_str(
                                "Unknown status, expected open/in_progress/closed",
                            ),
                        },
                    );
                    proof {
                        assert(errors@ =~= errors0.push(errors@[errors0.len() as int]));
                        assert(errors@[errors0.len() as int].line == records@[r2 as int].line);
                        assert forall|e: int|
                            0 <= e < errors@.len() implies exists|k: int|
                            0 <= k < rn && records@[k].line == (#[trigger] errors@[e]).line by {
                            if e < errors0.len() {
                                let k = choose|k: int|
                                    0 <= k < rn && records@[k].line == errors0[e].line;
                                assert(records@[k].line == errors@[e].line);
                            } else {
                                assert(records@[r2 as int].line == errors@[e].line);
                            }
                        };
                        assert forall|k: int|
                            0 <= k < r2 + 1 && collision_free(ctx, k) && status_keyword(
                                (#[trigger] records@[k]).status@,
                            ) is None implies exists|e: int|
                            0 <= e < errors@.len() && (#[trigger] errors@[e]).line
                                == records@[k].line by {
                            if k < r2 {
                                let e = choose|e: int|
                                    0 <= e < errors0.len() && (#[trigger] errors0[e]).line
                                        == records@[k].line;
                                assert(errors@[e].line == records@[k].line);
                            } else {
                                assert(errors@[errors0.len() as int].line == records@[k].line);
                            }
                        };
                        assert forall|k: int|
                            0 <= k < r2 + 1 && collision_free(ctx, k) && status_keyword(
                                (#[trigger] records@[k]).status@,
                            ) is Some && issue_type_keyword(records@[k].issue_type@) is None
                            implies exists|e: int|
                            0 <= e < errors@.len() && (#[trigger] errors@[e]).line
                                == records@[k].line by {
                            if k < r2 {
                                let e = choose|e: int|
                                    0 <= e < errors0.len() && (#[trigger] errors0[e]).line
                                        == records@[k].line;
                                assert(errors@[e].line == records@[k].line);
                            }
                        };
                    }
                    r2 = r2 + 1;
                    continue ;
                },
            };
            let issue_type = match parse_issue_type(rec.issue_type.as_str()) {
                Ok(t) => t,
                Err(_) => {
                    let ghost errors0 = errors@;
                    errors.push(
                        ImportNote {
                            line: rec.line,
                            issue_id: Some(rec.id.clone()),
                            field: String::from_str("issue_type"),
                            message: String::from_str("Unknown type mapped to 'task'"),
                        },
                    );
                    proof {
                        assert(errors@ =~= errors0.push(errors@[errors0.len() as int]));
                        assert(errors@[errors0.len() as int].line == records@[r2 as int].line);
                        assert forall|e: int|
                            0 <= e < errors@.len() implies exists|k: int|
                            0 <= k < rn && records@[k].line == (#[trigger] errors@[e]).line by {
                            if e < errors0.len() {
                                let k = choose|k: int|
                                    0 <= k < rn && records@[k].line == errors0[e].line;
                                assert(records@[k].line == errors@[e].line);
                            } else {
                                assert(records@[r2 as int].line == errors@[e].line);
                            }
                        };
                        assert forall|k: int|
                            0 <= k < r2 + 1 && collision_free(ctx, k) && status_keyword(
                                (#[trigger] records@[k]).status@,
                            ) is None implies exists|e: int|
                            0 <= e < errors@.len() && (#[trigger] errors@[e]).line
                                == records@[k].line by {
                            if k < r2 {
                                let e = choose|e: int|
                                    0 <= e < errors0.len() && (#[trigger] errors0[e]).line
                                        == records@[k].line;
                                assert(errors@[e].line == records@[k].line);
                            } else {
                                assert(status_keyword(records@[r2 as int].status@) is Some);
                            }
                        };
                        assert forall|k: int|
                            0 <= k < r2 + 1 && collision_free(ctx, k) && status_keyword(
                                (#[trigger] records@[k]).status@,
                            ) is Some && issue_type_keyword(records@[k].issue_type@) is None
                            implies exists|e: int|
                            0 <= e < errors@.len() && (#[trigger] errors@[e]).line
                                == records@[k].line by {
                            if k < r2 {
                                let e = choose|e: int|
                                    0 <= e < errors0.len() && (#[trigger] errors0[e]).line
                                        == records@[k].line;
                                assert(errors@[e].line == records@[k].line);
                            } else {
                                assert(errors@[errors0.len() as int].line == records@[k].line);
                            }
                        };
                    }
                    IssueType::Task
                },
            };
            let mut blocked_by: Vec<String> = Vec::new();
            let ghost dpred = (|dd: ImportDep| dep_passes(records@, records@[r2 as int], dd));
            let dn = rec.deps.len();
            let mut d: usize = 0;
            proof {
                assert(records@[r2 as int].deps@.take(0).filter(dpred).map_values(
                    |dd: ImportDep| ctx_new_id(ctx, first_idx(ctx.records, dd.depends_on_id@)),
                ) =~= Seq::<Seq<char>>::empty());
            }
            while d < dn
                invariant
                    rn == records@.len(),
                    r2 < rn,
                    *rec == records@[r2 as int],
                    ctx == import_ctx(*old(self), records@, keep_ids),
                    dn == rec.deps@.len(),
                    dn == records@[r2 as int].deps@.len(),
                    d <= dn,
                    map@.len() == rn,
                    forall|j: int| 0 <= j < rn ==> (#[trigger] map@[j]).0@ == records@[j].id@,
                    forall|j: int| 0 <= j < rn ==> (#[trigger] map@[j]).1@ == ctx_new_id(ctx, j),
                    dpred == (|dd: ImportDep| dep_passes(records@, records@[r2 as int], dd)),
                    blocked_by.deep_view() == records@[r2 as int].deps@.take(d as int).filter(
                        dpred,
                    ).map_values(
                        |dd: ImportDep| ctx_new_id(ctx, first_idx(ctx.records, dd.depends_on_id@)),
                    ),
                decreases dn - d,
            {
                let dep = &rec.deps[d];
                let ghost deps = records@[r2 as int].deps@;
                let ghost bb0 = blocked_by.deep_view();
                let is_blocks = str_eq(dep.dep_type.as_str(), "blocks") && str_eq(
                    dep.issue_id.as_str(),
                    rec.id.as_str(),
                );
                let mut target_mapped = false;
                if is_blocks {
                    match map_lookup(&map, dep.depends_on_id.as_str()) {
                        Some(mapped) => {
                            proof {
                                let j = choose|j: int|
                                    {
                                        &&& 0 <= j < map@.len()
                                        &&& (#[trigger] map@[j]).0@ == dep.depends_on_id@
                                        &&& mapped@ == map@[j].1@
                                        &&& forall|j2: int|
                                            0 <= j2 < j ==> (#[trigger] map@[j2]).0@
                                                != dep.depends_on_id@
                                    };
                                lemma_first_match(records@, map@, dep.depends_on_id@, j);
                                assert(mapped@ == ctx_new_id(
                                    ctx,
                                    first_idx(ctx.records, dep.depends_on_id@),
                                ));
                            }
                            blocked_by.push(mapped);
                            target_mapped = true;
                        },
                        None => {},
                    }
                }
                proof {
                    assert(deps[d as int] == *dep);
                    assert((is_blocks && target_mapped) == dpred(deps[d as int])) by {
                        if is_blocks && target_mapped {
                            assert(dep.dep_type@ == "blocks"@);
                            assert(dep.issue_id@ == records@[r2 as int].id@);
                        }
                        if dpred(deps[d as int]) {
                            let k = choose|k: int|
                                0 <= k < records@.len() && (#[trigger] records@[k]).id@
                                    == dep.depends_on_id@;
                            assert(map@[k].0@ == dep.depends_on_id@);
                        }
                    }
                    let t1 = deps.take(d as int + 1);
                    assert(t1.drop_last() =~= deps.take(d as int));
                    assert(t1.last() == deps[d as int]);
                    reveal_with_fuel(Seq::<_>::filter, 2);
                    assert(t1.filter(dpred) == if dpred(deps[d as int]) {
                        deps.take(d as int).filter(dpred).push(deps[d as int])
                    } else {
                        deps.take(d as int).filter(dpred)
                    });
                    if is_blocks && target_mapped {
                        assert(blocked_by.deep_view() =~= bb0.push(ctx_new_id(
                            ctx,
                            first_idx(ctx.records, dep.depends_on_id@),
                        )));
                        assert(t1.filter(dpred).map_values(
                            |dd: ImportDep| ctx_new_id(
                                ctx,
                                first_idx(ctx.records, dd.depends_on_id@),
                            ),
                        ) =~= deps.take(d as int).filter(dpred).map_values(
                            |dd: ImportDep| ctx_new_id(
                                ctx,
                                first_idx(ctx.records, dd.depends_on_id@),
                            ),
                        ).push(ctx_new_id(ctx, first_idx(ctx.records, dep.depends_on_id@))));
                    } else {
                        assert(t1.filter(dpred).map_values(
                            |dd: ImportDep| ctx_new_id(
                                ctx,
                                first_idx(ctx.records, dd.depends_on_id@),
                            ),
                        ) =~= deps.take(d as int).filter(dpred).map_values(
                            |dd: ImportDep| ctx_new_id(
                                ctx,
                                first_idx(ctx.records, dd.depends_on_id@),
                            ),
                        ));
                    }
                    assert(blocked_by.deep_view() == t1.filter(dpred).map_values(
                        |dd: ImportDep| ctx_new_id(
                            ctx,
                            first_idx(ctx.records, dd.depends_on_id@),
                        ),
                    ));
                }
                d = d + 1;
            }
            proof {
                assert(records@[r2 as int].deps@.take(dn as int) =~= records@[r2 as int].deps@);
                assert(blocked_by.deep_view() == mapped_blocked_by(ctx, records@[r2 as int]));
            }
            let issue = Issue {
                id: new_id,
                title: rec.title.clone(),
                description: rec.description.clone(),
                status,
                priority: if rec.priority > 4 {
                    4
                } else {
                    rec.priority
                },
                issue_type,
                session_id: None,
                labels: Vec::new(),
                comments: Vec::new(),
                created_at: rec.created_at.clone(),
                updated_at: rec.updated_at.clone(),
                closed_at: match &rec.closed_at {
                    Some(t) => Some(t.clone()),
                    None => None,
                },
                blocks: Vec::new(),
                blocked_by,
            };
            let ghost mid = self.issues@;
            self.issues.push(issue);
            imported = imported + 1;
            proof {
                assert(self.issues@ =~= mid.push(self.issues@[mid.len() as int]));
                assert(unique_ids(self.issues@));
                assert(all_wf(self.issues@));
                assert(built_from(ctx, records@[r2 as int], self.issues@[mid.len() as int]));
                assert(self.issues@[mid.len() as int].id@ == eff_id(ctx, r2 as int));
                assert forall|j: int|
                    0 <= j < mid.len() implies self.issues@[j] == mid[j] by {}
            }
            r2 = r2 + 1;
        }
        // Mirror the blocking lists: every issue named in a blocker list
        // that exists learns that it blocks the lister.
        let ghost committed = self.issues@;
        proof {
            assert forall|j: int|
                0 <= j < committed.len() implies import_blocks_frame(
                committed[j],
                #[trigger] self.issues@[j],
            ) by {
                assert(committed[j].blocks.deep_view().take(
                    committed[j].blocks.deep_view().len() as int,
                ) =~= committed[j].blocks.deep_view());
            };
        }
        let n = self.issues.len();
        let mut i: usize = 0;
        while i < n
            invariant
                n == committed.len(),
                self.wf(),
                self.config == old(self).config,
                i <= n,
                self.issues@.len() == n,
                forall|j: int|
                    0 <= j < n ==> import_blocks_frame(committed[j], #[trigger] self.issues@[j]),
                forall|i2: int, b2: int, j: int|
                    #![trigger self.issues@[i2].blocked_by.deep_view()[b2], self.issues@[j]]
                    0 <= i2 < i && 0 <= b2 < self.issues@[i2].blocked_by.deep_view().len() && 0
                        <= j < n && self.issues@[j].id@
                        == self.issues@[i2].blocked_by.deep_view()[b2]
                        ==> self.issues@[j].blocks.deep_view().contains(self.issues@[i2].id@),
                forall|j: int, a: int, b: int|
                    #![trigger self.issues@[j].blocks.deep_view()[a], self.issues@[j].blocks.deep_view()[b]]
                    0 <= j < n && 0 <= a < b < self.issues@[j].blocks.deep_view().len() && b
                        >= committed[j].blocks.deep_view().len() ==> self.issues@[
                        j].blocks.deep_view()[a] != self.issues@[j].blocks.deep_view()[b],
            decreases n - i,
        {
            let bn = self.issues[i].blocked_by.len();
            let mut b: usize = 0;
            while b < bn
                invariant
                    n == committed.len(),
                    self.wf(),
                    self.config == old(self).config,
                    i < n,
                    self.issues@.len() == n,
                    bn == self.issues@[i as int].blocked_by@.len(),
                    b <= bn,
                    forall|j: int|
                        0 <= j < n ==> import_blocks_frame(
                            committed[j],
                            #[trigger] self.issues@[j],
                        ),
                    forall|i2: int, b2: int, j: int|
                        #![trigger self.issues@[i2].blocked_by.deep_view()[b2], self.issues@[j]]
                        0 <= i2 <= i && 0 <= b2 < self.issues@[i2].blocked_by.deep_view().len()
                            && 0 <= j < n && (i2 < i || b2 < b) && self.issues@[j].id@
                            == self.issues@[i2].blocked_by.deep_view()[b2]
                            ==> self.issues@[j].blocks.deep_view().contains(
                            self.issues@[i2].id@,
                        ),
                    forall|j: int, a: int, b3: int|
                        #![trigger self.issues@[j].blocks.deep_view()[a], self.issues@[j].blocks.deep_view()[b3]]
                        0 <= j < n && 0 <= a < b3 < self.issues@[j].blocks.deep_view().len()
                            && b3 >= committed[j].blocks.deep_view().len() ==> self.issues@[
                            j].blocks.deep_view()[a] != self.issues@[j].blocks.deep_view()[b3],
                decreases bn - b,
            {
                let blocker_id = self.issues[i].blocked_by[b].clone();
                let own_id = self.issues[i].id.clone();
                proof {
                    assert(self.issues@[i as int].blocked_by.deep_view()[b as int]
                        == blocker_id@);
                }
                match self.find_index(blocker_id.as_str()) {
                    None => {
                        proof {
                            assert forall|j: int|
                                0 <= j < n && self.issues@[j].id@
                                    == self.issues@[i as int].blocked_by.deep_view()[b as int]
                                implies self.issues@[j].blocks.deep_view().contains(
                                self.issues@[i as int].id@,
                            ) by {
                                assert(has_id(self.issues@, blocker_id@));
                            };
                        }
                    },
                    Some(bj) => {
                        let ghost step_pre = self.issues@;
                        let mut blocker = self.issues.remove(bj);
                        let ghost blocks0 = blocker.blocks.deep_view();
                        let had = vec_contains_str(&blocker.blocks, own_id.as_str());
                        if !had {
                            blocker.blocks.push(own_id);
                            proof {
                                assert(blocker.blocks.deep_view() =~= blocks0.push(
                                    step_pre[i as int].id@,
                                ));
                                assert(blocker.blocks.deep_view().take(blocks0.len() as int)
                                    =~= blocks0);
                            }
                        }
                        self.issues.insert(bj, blocker);
                        proof {
                            assert(self.issues@ =~= step_pre.update(
                                bj as int,
                                self.issues@[bj as int],
                            ));
                            assert(unique_ids(self.issues@));
                            assert(all_wf(self.issues@));
                            assert(self.issues@[bj as int].blocks.deep_view().contains(
                                step_pre[i as int].id@,
                            )) by {
                                if !had {
                                    assert(self.issues@[bj as int].blocks.deep_view()[
                                        blocks0.len() as int] == step_pre[i as int].id@);
                                }
                            }
                            assert forall|j: int| 0 <= j < n implies import_blocks_frame(
                                committed[j],
                                #[trigger] self.issues@[j],
                            ) by {
                                if j != bj {
                                    assert(self.issues@[j] == step_pre[j]);
                                } else {
                                    let c = committed[j];
                                    assert(self.issues@[j].blocks.deep_view().take(
                                        c.blocks.deep_view().len() as int,
                                    ) =~= c.blocks.deep_view());
                                }
                            };
                            assert forall|i2: int, b2: int, j: int|
                                #![trigger self.issues@[i2].blocked_by.deep_view()[b2], self.issues@[j]]
                                0 <= i2 <= i && 0 <= b2
                                    < self.issues@[i2].blocked_by.deep_view().len() && 0 <= j < n
                                    && (i2 < i || b2 < b + 1) && self.issues@[j].id@
                                    == self.issues@[i2].blocked_by.deep_view()[b2]
                                implies self.issues@[j].blocks.deep_view().contains(
                                self.issues@[i2].id@,
                            ) by {
                                assert(self.issues@[i2].blocked_by
                                    == step_pre[i2].blocked_by);
                                assert(self.issues@[i2].id@ == step_pre[i2].id@);
                                assert(self.issues@[j].id@ == step_pre[j].id@);
                                if i2 == i as int && b2 == b as int {
                                    // the blocker just learned of this issue
                                    assert(self.issues@[j].id@ == blocker_id@);
                                    assert(step_pre[bj as int].id@ == blocker_id@);
                                    if j != bj {
                                        if j < bj {
                                            assert(self.issues@[j].id@
                                                != self.issues@[bj as int].id@);
                                        } else {
                                            assert(self.issues@[bj as int].id@
                                                != self.issues@[j].id@);
                                        }
                                    }
                                    assert(j == bj);
                                } else {
                                    // an already mirrored pair stays
                                    // mirrored: blocks lists only grow
                                    assert(step_pre[j].blocks.deep_view().contains(
                                        step_pre[i2].id@,
                                    ));
                                    if j == bj && !had {
                                        let w = choose|w: int|
                                            0 <= w < blocks0.len() && blocks0[w]
                                                == step_pre[i2].id@;
                                        assert(self.issues@[j].blocks.deep_view()[w]
                                            == step_pre[i2].id@);
                                    } else {
                                        assert(self.issues@[j].blocks
                                            == step_pre[j].blocks);
                                    }
                                }
                            };
                            assert forall|j: int, a: int, b3: int|
                                #![trigger self.issues@[j].blocks.deep_view()[a], self.issues@[j].blocks.deep_view()[b3]]
                                0 <= j < n && 0 <= a < b3
                                    < self.issues@[j].blocks.deep_view().len() && b3
                                    >= committed[j].blocks.deep_view().len()
                                implies self.issues@[j].blocks.deep_view()[a]
                                != self.issues@[j].blocks.deep_view()[b3] by {
                                if j != bj {
                                    assert(self.issues@[j] == step_pre[j]);
                                } else if !had {
                                    // a pushed entry was not in the list
                                    if b3 == blocks0.len() {
                                        assert(self.issues@[j].blocks.deep_view()[a]
                                            == blocks0[a]);
                                        assert(!blocks0.contains(step_pre[i as int].id@));
                                    } else {
                                        assert(self.issues@[j].blocks.deep_view()[a]
                                            == step_pre[j].blocks.deep_view()[a]);
                                        assert(self.issues@[j].blocks.deep_view()[b3]
                                            == step_pre[j].blocks.deep_view()[b3]);
                                    }
                                } else {
                                    assert(self.issues@[j].blocks == step_pre[j].blocks);
                                }
                            };
                        }
                    },
                }
                b = b + 1;
            }
            i = i + 1;
        }
        proof {
            assert forall|j: int|
                0 <= j < pre.len() implies import_blocks_frame(
                pre[j],
                #[trigger] self.issues@[j],
            ) by {
                assert(committed[j] == pre[j]);
            };
            assert forall|j: int|
                pre.len() <= j < self.issues@.len() implies (exists|k: int|
                {
                    &&& 0 <= k < records@.len()
                    &&& built_from(ctx, records@[k], #[trigger] self.issues@[j])
                    &&& self.issues@[j].id@ == eff_id(ctx, k)
                }) && !has_id(pre, self.issues@[j].id@) by {
                let k = choose|k: int|
                    {
                        &&& 0 <= k < r2
                        &&& built_from(ctx, records@[k], committed[j])
                        &&& committed[j].id@ == eff_id(ctx, k)
                    };
                assert(import_blocks_frame(committed[j], self.issues@[j]));
                assert(built_from(ctx, records@[k], self.issues@[j]));
                assert(self.issues@[j].id@ == eff_id(ctx, k));
            };
            if !keep_ids {
                assert forall|j: int|
                    pre.len() <= j < self.issues@.len() implies exists|k: int|
                    0 <= k < records@.len() && is_generated_id(
                        old(self).config.prefix@,
                        sha256_of(records@[k].title@ + records@[k].created_at@),
                        id_set(pre),
                        (#[trigger] self.issues@[j]).id@,
                    ) by {
                    let k = choose|k: int|
                        {
                            &&& 0 <= k < r2
                            &&& built_from(ctx, records@[k], committed[j])
                            &&& committed[j].id@ == eff_id(ctx, k)
                        };
                    let fi = first_idx(ctx.records, ctx.records[k].id@);
                    lemma_first_idx(ctx.records, ctx.records[k].id@);
                    assert(map@[fi].1@ == ctx_new_id(ctx, fi));
                    assert(is_generated_id(
                        old(self).config.prefix@,
                        sha256_of(records@[fi].title@ + records@[fi].created_at@),
                        id_set(pre),
                        map@[fi].1@,
                    ));
                    assert(self.issues@[j].id@ == ctx_new_id(ctx, fi));
                };
            }
            assert forall|k: int|
                collision_free(ctx, k) && status_keyword(
                    (#[trigger] records@[k]).status@,
                ) is Some implies exists|j: int|
                {
                    &&& pre.len() <= j < self.issues@.len()
                    &&& (#[trigger] self.issues@[j]).id@ == eff_id(ctx, k)
                    &&& built_from(ctx, records@[k], self.issues@[j])
                } by {
                let j = choose|j: int|
                    {
                        &&& pre.len() <= j < committed.len()
                        &&& (#[trigger] committed[j]).id@ == eff_id(ctx, k)
                        &&& built_from(ctx, records@[k], committed[j])
                    };
                assert(import_blocks_frame(committed[j], self.issues@[j]));
                assert(self.issues@[j].id@ == eff_id(ctx, k));
                assert(built_from(ctx, records@[k], self.issues@[j]));
            };
        }
        let ghost errs = errors@;
        let report = ImportReport { imported, skipped, errors };
        proof {
            assert(report.errors@ == errs);
            assert forall|k: int|
                collision_free(ctx, k) && status_keyword(
                    (#[trigger] records@[k]).status@,
                ) is None implies exists|e: int|
                0 <= e < report.errors@.len() && (#[trigger] report.errors@[e]).line
                    == records@[k].line by {
                let e = choose|e: int|
                    0 <= e < errs.len() && (#[trigger] errs[e]).line == records@[k].line;
                assert(report.errors@[e].line == records@[k].line);
            };
            assert forall|k: int|
                collision_free(ctx, k) && status_keyword(
                    (#[trigger] records@[k]).status@,
                ) is Some && issue_type_keyword(records@[k].issue_type@) is None
                implies exists|e: int|
                0 <= e < report.errors@.len() && (#[trigger] report.errors@[e]).line
                    == records@[k].line by {
                let e = choose|e: int|
                    0 <= e < errs.len() && (#[trigger] errs[e]).line == records@[k].line;
                assert(report.errors@[e].line == records@[k].line);
            };
            assert forall|e: int|
                0 <= e < report.errors@.len() implies exists|k: int|
                0 <= k < records@.len() && records@[k].line == (
                #[trigger] report.errors@[e]).line by {
                let k = choose|k: int| 0 <= k < rn && records@[k].line == errs[e].line;
            };
        }
        report
    }
}

/// Every blocker list is mirrored: an issue named as someone's blocker
/// lists the blocked issue among what it blocks.
pub open spec fn blocks_mirrored(s: Seq<Issue>) -> bool {
    forall|i: int, b: int, j: int|
        #![trigger s[i].blocked_by.deep_view()[b], s[j]]
        0 <= i < s.len() && 0 <= b < s[i].blocked_by.deep_view().len() && 0 <= j < s.len()
            && s[j].id@ == s[i].blocked_by.deep_view()[b] ==> s[j].blocks.deep_view().contains(
            s[i].id@,
        )
}

} // verus!
