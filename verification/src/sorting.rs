//! Verified sorts used by the tracker: label lists in byte order, and
//! issue listings by priority first and creation time second.

use vstd::prelude::*;
use vstd::utf8::encode_utf8;
use crate::issue::Issue;
use crate::text::lemma_lex_le_total;
use crate::text::lemma_lex_le_trans;
use crate::text::lex_le;
use crate::text::str_le;

verus! {

/// Strings in lexicographic byte order.
pub open spec fn sorted_strs(s: Seq<Seq<char>>) -> bool {
    forall|i: int, j: int|
        0 <= i < j < s.len() ==> lex_le(encode_utf8(#[trigger] s[i]), encode_utf8(#[trigger] s[j]))
}

/// The order of a listing: more urgent priorities first, older issues
/// first among equals.
pub open spec fn rank_le(a: Issue, b: Issue) -> bool {
    a.priority < b.priority || (a.priority == b.priority && lex_le(
        encode_utf8(a.created_at@),
        encode_utf8(b.created_at@),
    ))
}

/// Any two issues compare one way or the other.
pub proof fn lemma_rank_le_total(a: Issue, b: Issue)
    ensures
        rank_le(a, b) || rank_le(b, a),
{
    if a.priority == b.priority {
        lemma_lex_le_total(encode_utf8(a.created_at@), encode_utf8(b.created_at@));
    }
}

/// The listing order is transitive.
pub proof fn lemma_rank_le_trans(a: Issue, b: Issue, c: Issue)
    requires
        rank_le(a, b),
        rank_le(b, c),
    ensures
        rank_le(a, c),
{
    if a.priority == b.priority && b.priority == c.priority {
        lemma_lex_le_trans(
            encode_utf8(a.created_at@),
            encode_utf8(b.created_at@),
            encode_utf8(c.created_at@),
        );
    }
}

/// Sorts strings into byte order, keeping every copy.
pub fn sort_strings(v: &Vec<String>) -> (out: Vec<String>)
    ensures
        out.deep_view().to_multiset() == v.deep_view().to_multiset(),
        sorted_strs(out.deep_view()),
{
    broadcast use vstd::seq_lib::group_to_multiset_ensures;
    broadcast use vstd::multiset::group_multiset_axioms;

    let mut work: Vec<String> = Vec::new();
    let vn = v.len();
    let mut ci: usize = 0;
    while ci < vn
        invariant
            vn == v@.len(),
            ci <= vn,
            work.deep_view() =~= v.deep_view().take(ci as int),
        decreases vn - ci,
    {
        let ghost before = work.deep_view();
        work.push(v[ci].clone());
        proof {
            assert(work.deep_view() =~= before.push(v.deep_view()[ci as int]));
            assert(work.deep_view() =~= v.deep_view().take(ci as int + 1));
        }
        ci = ci + 1;
    }
    proof {
        assert(work.deep_view() =~= v.deep_view());
    }
    let ghost orig = work.deep_view();
    let mut work = work;
    let mut out: Vec<String> = Vec::new();
    proof {
        assert(out.deep_view() =~= Seq::<Seq<char>>::empty());
        assert(out.deep_view().to_multiset().add(work.deep_view().to_multiset())
            =~= orig.to_multiset());
    }
    while work.len() > 0
        invariant
            out.deep_view().to_multiset().add(work.deep_view().to_multiset())
                == orig.to_multiset(),
            sorted_strs(out.deep_view()),
            forall|a: int, b: int|
                0 <= a < out.deep_view().len() && 0 <= b < work.deep_view().len() ==> lex_le(
                    encode_utf8(#[trigger] out.deep_view()[a]),
                    encode_utf8(#[trigger] work.deep_view()[b]),
                ),
        decreases work.len(),
    {
        let n = work.len();
        let mut m: usize = 0;
        let mut j: usize = 1;
        proof {
            lemma_lex_le_total(
                encode_utf8(work.deep_view()[0]),
                encode_utf8(work.deep_view()[0]),
            );
        }
        while j < n
            invariant
                n == work.deep_view().len(),
                n == work@.len(),
                m < j <= n,
                forall|k: int|
                    0 <= k < j ==> lex_le(
                        encode_utf8(work.deep_view()[m as int]),
                        encode_utf8(#[trigger] work.deep_view()[k]),
                    ),
            decreases n - j,
        {
            if str_le(work[j].as_str(), work[m].as_str()) {
                proof {
                    lemma_lex_le_total(
                        encode_utf8(work.deep_view()[j as int]),
                        encode_utf8(work.deep_view()[m as int]),
                    );
                    assert forall|k: int| 0 <= k < j + 1 implies lex_le(
                        encode_utf8(work.deep_view()[j as int]),
                        encode_utf8(#[trigger] work.deep_view()[k]),
                    ) by {
                        if k < j {
                            lemma_lex_le_trans(
                                encode_utf8(work.deep_view()[j as int]),
                                encode_utf8(work.deep_view()[m as int]),
                                encode_utf8(work.deep_view()[k]),
                            );
                        } else {
                            lemma_lex_le_total(
                                encode_utf8(work.deep_view()[j as int]),
                                encode_utf8(work.deep_view()[j as int]),
                            );
                        }
                    };
                }
                m = j;
            } else {
                proof {
                    lemma_lex_le_total(
                        encode_utf8(work.deep_view()[j as int]),
                        encode_utf8(work.deep_view()[m as int]),
                    );
                }
            }
            j = j + 1;
        }
        let ghost pre_work = work.deep_view();
        let ghost pre_out = out.deep_view();
        let x = work.remove(m);
        out.push(x);
        proof {
            pre_work.to_multiset_ensures();
            pre_out.to_multiset_ensures();
            assert(pre_work.contains(pre_work[m as int]));
            assert(pre_work.to_multiset().count(pre_work[m as int]) > 0);
            assert(work.deep_view() =~= pre_work.remove(m as int));
            assert(out.deep_view() =~= pre_out.push(pre_work[m as int]));
            assert(pre_work.remove(m as int).to_multiset() =~= pre_work.to_multiset().remove(
                pre_work[m as int],
            ));
            assert(pre_out.push(pre_work[m as int]).to_multiset() =~= pre_out.to_multiset().insert(
                pre_work[m as int],
            ));
            assert(out.deep_view().to_multiset() =~= pre_out.to_multiset().insert(
                pre_work[m as int],
            ));
            assert(work.deep_view().to_multiset() =~= pre_work.to_multiset().remove(
                pre_work[m as int],
            ));
            assert(out.deep_view().to_multiset().add(work.deep_view().to_multiset())
                =~= orig.to_multiset());
            assert forall|a: int, b: int|
                0 <= a < out.deep_view().len() && 0 <= b < work.deep_view().len() implies lex_le(
                encode_utf8(out.deep_view()[a]),
                encode_utf8(work.deep_view()[b]),
            ) by {
                let wb: int = if b < m { b } else { b + 1 };
                assert(work.deep_view()[b] == pre_work[wb]);
                if a < pre_out.len() {
                    assert(lex_le(
                        encode_utf8(pre_out[a]),
                        encode_utf8(pre_work[wb]),
                    ));
                } else {
                    assert(out.deep_view()[a] == pre_work[m as int]);
                    assert(lex_le(encode_utf8(pre_work[m as int]), encode_utf8(pre_work[wb])));
                }
            };
            assert(sorted_strs(out.deep_view()));
        }
    }
    proof {
        assert(work.deep_view() =~= Seq::<Seq<char>>::empty());
        assert(out.deep_view().to_multiset().add(Seq::<Seq<char>>::empty().to_multiset())
            =~= out.deep_view().to_multiset());
    }
    out
}

/// The order in which records are saved: ids in byte order.
pub open spec fn id_le(a: Issue, b: Issue) -> bool {
    lex_le(encode_utf8(a.id@), encode_utf8(b.id@))
}

/// Sorts positions into the issue list by id order, keeping every
/// position.
pub fn sort_indices_by_id(issues: &Vec<Issue>, work: Vec<usize>) -> (out: Vec<usize>)
    requires
        forall|k: int| 0 <= k < work@.len() ==> #[trigger] work@[k] < issues@.len(),
    ensures
        out@.to_multiset() == work@.to_multiset(),
        forall|k: int| 0 <= k < out@.len() ==> #[trigger] out@[k] < issues@.len(),
        forall|i: int, j: int|
            0 <= i < j < out@.len() ==> id_le(
                issues@[#[trigger] out@[i] as int],
                issues@[#[trigger] out@[j] as int],
            ),
{
    broadcast use vstd::seq_lib::group_to_multiset_ensures;
    broadcast use vstd::multiset::group_multiset_axioms;

    let ghost orig = work@;
    let mut work = work;
    let mut out: Vec<usize> = Vec::new();
    proof {
        assert(out@.to_multiset().add(work@.to_multiset()) =~= orig.to_multiset());
    }
    while work.len() > 0
        invariant
            forall|k: int| 0 <= k < work@.len() ==> #[trigger] work@[k] < issues@.len(),
            forall|k: int| 0 <= k < out@.len() ==> #[trigger] out@[k] < issues@.len(),
            out@.to_multiset().add(work@.to_multiset()) == orig.to_multiset(),
            forall|i: int, j: int|
                0 <= i < j < out@.len() ==> id_le(
                    issues@[#[trigger] out@[i] as int],
                    issues@[#[trigger] out@[j] as int],
                ),
            forall|a: int, b: int|
                0 <= a < out@.len() && 0 <= b < work@.len() ==> id_le(
                    issues@[#[trigger] out@[a] as int],
                    issues@[#[trigger] work@[b] as int],
                ),
        decreases work.len(),
    {
        let n = work.len();
        let mut m: usize = 0;
        let mut j: usize = 1;
        proof {
            lemma_lex_le_total(
                encode_utf8(issues@[work@[0] as int].id@),
                encode_utf8(issues@[work@[0] as int].id@),
            );
        }
        while j < n
            invariant
                n == work@.len(),
                forall|k: int| 0 <= k < work@.len() ==> #[trigger] work@[k] < issues@.len(),
                m < j <= n,
                forall|k: int|
                    0 <= k < j ==> id_le(
                        issues@[work@[m as int] as int],
                        issues@[#[trigger] work@[k] as int],
                    ),
            decreases n - j,
        {
            let a = work[j];
            let bx = work[m];
            let take = str_le(issues[a].id.as_str(), issues[bx].id.as_str());
            proof {
                lemma_lex_le_total(
                    encode_utf8(issues@[work@[j as int] as int].id@),
                    encode_utf8(issues@[work@[m as int] as int].id@),
                );
            }
            if take {
                proof {
                    assert forall|k: int| 0 <= k < j + 1 implies id_le(
                        issues@[work@[j as int] as int],
                        issues@[#[trigger] work@[k] as int],
                    ) by {
                        if k < j {
                            lemma_lex_le_trans(
                                encode_utf8(issues@[work@[j as int] as int].id@),
                                encode_utf8(issues@[work@[m as int] as int].id@),
                                encode_utf8(issues@[work@[k] as int].id@),
                            );
                        } else {
                            lemma_lex_le_total(
                                encode_utf8(issues@[work@[j as int] as int].id@),
                                encode_utf8(issues@[work@[j as int] as int].id@),
                            );
                        }
                    };
                }
                m = j;
            }
            j = j + 1;
        }
        let ghost pre_work = work@;
        let ghost pre_out = out@;
        let x = work.remove(m);
        out.push(x);
        proof {
            pre_work.to_multiset_ensures();
            pre_out.to_multiset_ensures();
            assert(pre_work.contains(pre_work[m as int]));
            assert(pre_work.to_multiset().count(pre_work[m as int]) > 0);
            assert(work@ =~= pre_work.remove(m as int));
            assert(out@ =~= pre_out.push(pre_work[m as int]));
            assert(pre_work.remove(m as int).to_multiset() =~= pre_work.to_multiset().remove(
                pre_work[m as int],
            ));
            assert(pre_out.push(pre_work[m as int]).to_multiset() =~= pre_out.to_multiset().insert(
                pre_work[m as int],
            ));
            assert(out@.to_multiset() =~= pre_out.to_multiset().insert(pre_work[m as int]));
            assert(work@.to_multiset() =~= pre_work.to_multiset().remove(pre_work[m as int]));
            assert(out@.to_multiset().add(work@.to_multiset()) =~= orig.to_multiset());
            assert forall|a: int, b: int|
                0 <= a < out@.len() && 0 <= b < work@.len() implies id_le(
                issues@[#[trigger] out@[a] as int],
                issues@[#[trigger] work@[b] as int],
            ) by {
                let wb: int = if b < m { b } else { b + 1 };
                assert(work@[b] == pre_work[wb]);
                if a == pre_out.len() {
                    assert(out@[a] == pre_work[m as int]);
                }
            };
        }
    }
    proof {
        assert(work@ =~= Seq::<usize>::empty());
        assert(out@.to_multiset().add(Seq::<usize>::empty().to_multiset())
            =~= out@.to_multiset());
    }
    out
}

/// Sorts positions into the issue list by listing order, keeping every
/// position.
pub fn sort_indices_by_rank(issues: &Vec<Issue>, work: Vec<usize>) -> (out: Vec<usize>)
    requires
        forall|k: int| 0 <= k < work@.len() ==> #[trigger] work@[k] < issues@.len(),
    ensures
        out@.to_multiset() == work@.to_multiset(),
        forall|k: int| 0 <= k < out@.len() ==> #[trigger] out@[k] < issues@.len(),
        forall|i: int, j: int|
            0 <= i < j < out@.len() ==> rank_le(
                issues@[#[trigger] out@[i] as int],
                issues@[#[trigger] out@[j] as int],
            ),
{
    broadcast use vstd::seq_lib::group_to_multiset_ensures;
    broadcast use vstd::multiset::group_multiset_axioms;

    let ghost orig = work@;
    let mut work = work;
    let mut out: Vec<usize> = Vec::new();
    proof {
        assert(out@.to_multiset().add(work@.to_multiset()) =~= orig.to_multiset());
    }
    while work.len() > 0
        invariant
            forall|k: int| 0 <= k < work@.len() ==> #[trigger] work@[k] < issues@.len(),
            forall|k: int| 0 <= k < out@.len() ==> #[trigger] out@[k] < issues@.len(),
            out@.to_multiset().add(work@.to_multiset()) == orig.to_multiset(),
            forall|i: int, j: int|
                0 <= i < j < out@.len() ==> rank_le(
                    issues@[#[trigger] out@[i] as int],
                    issues@[#[trigger] out@[j] as int],
                ),
            forall|a: int, b: int|
                0 <= a < out@.len() && 0 <= b < work@.len() ==> rank_le(
                    issues@[#[trigger] out@[a] as int],
                    issues@[#[trigger] work@[b] as int],
                ),
        decreases work.len(),
    {
        let n = work.len();
        let mut m: usize = 0;
        let mut j: usize = 1;
        proof {
            lemma_rank_le_total(
                issues@[work@[0] as int],
                issues@[work@[0] as int],
            );
        }
        while j < n
            invariant
                n == work@.len(),
                forall|k: int| 0 <= k < work@.len() ==> #[trigger] work@[k] < issues@.len(),
                m < j <= n,
                forall|k: int|
                    0 <= k < j ==> rank_le(
                        issues@[work@[m as int] as int],
                        issues@[#[trigger] work@[k] as int],
                    ),
            decreases n - j,
        {
            let a = work[j];
            let b = work[m];
            let take = {
                let ia = &issues[a];
                let ib = &issues[b];
                if ia.priority < ib.priority {
                    true
                } else if ia.priority == ib.priority {
                    str_le(ia.created_at.as_str(), ib.created_at.as_str())
                } else {
                    false
                }
            };
            proof {
                lemma_rank_le_total(
                    issues@[work@[j as int] as int],
                    issues@[work@[m as int] as int],
                );
            }
            if take {
                proof {
                    assert forall|k: int| 0 <= k < j + 1 implies rank_le(
                        issues@[work@[j as int] as int],
                        issues@[#[trigger] work@[k] as int],
                    ) by {
                        if k < j {
                            lemma_rank_le_trans(
                                issues@[work@[j as int] as int],
                                issues@[work@[m as int] as int],
                                issues@[work@[k] as int],
                            );
                        } else {
                            lemma_rank_le_total(
                                issues@[work@[j as int] as int],
                                issues@[work@[j as int] as int],
                            );
                        }
                    };
                }
                m = j;
            }
            j = j + 1;
        }
        let ghost pre_work = work@;
        let ghost pre_out = out@;
        let x = work.remove(m);
        out.push(x);
        proof {
            pre_work.to_multiset_ensures();
            pre_out.to_multiset_ensures();
            assert(pre_work.contains(pre_work[m as int]));
            assert(pre_work.to_multiset().count(pre_work[m as int]) > 0);
            assert(work@ =~= pre_work.remove(m as int));
            assert(out@ =~= pre_out.push(pre_work[m as int]));
            assert(pre_work.remove(m as int).to_multiset() =~= pre_work.to_multiset().remove(
                pre_work[m as int],
            ));
            assert(pre_out.push(pre_work[m as int]).to_multiset() =~= pre_out.to_multiset().insert(
                pre_work[m as int],
            ));
            assert(out@.to_multiset() =~= pre_out.to_multiset().insert(pre_work[m as int]));
            assert(work@.to_multiset() =~= pre_work.to_multiset().remove(pre_work[m as int]));
            assert(out@.to_multiset().add(work@.to_multiset()) =~= orig.to_multiset());
            assert forall|a: int, b: int|
                0 <= a < out@.len() && 0 <= b < work@.len() implies rank_le(
                issues@[#[trigger] out@[a] as int],
                issues@[#[trigger] work@[b] as int],
            ) by {
                let wb: int = if b < m { b } else { b + 1 };
                assert(work@[b] == pre_work[wb]);
                if a == pre_out.len() {
                    assert(out@[a] == pre_work[m as int]);
                }
            };
        }
    }
    proof {
        assert(work@ =~= Seq::<usize>::empty());
        assert(out@.to_multiset().add(Seq::<usize>::empty().to_multiset())
            =~= out@.to_multiset());
    }
    out
}

} // verus!
