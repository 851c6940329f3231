//! The synchronization pipeline's ordering core: flattening per-file scan
//! results into a deterministically sorted pending batch, planning the batch
//! submission, mapping the returned identifiers one-to-one onto the batch by
//! global position, and rewriting one file's contents in memory.

use vstd::prelude::*;
use vstd::relations::{sorted_by, total_ordering};
use vstd::seq_lib::{lemma_multiset_commutative, lemma_sorted_unique};
use vstd::multiset::Multiset;

use crate::matched::{MatchedLine, MatchedModel};
use crate::scanner::{annotated_line, capture_of, lemma_annotated_line_clean,
    lemma_scan_lines_complete, lemma_scan_lines_props, line_has_marker, marker_free,
    rewrite_line, scan_lines_spec};
use crate::text::{lines_spec, push_char, seq_char_le, seq_char_lt, lemma_seq_char_le_refl,
    lemma_seq_char_le_total, lemma_seq_char_le_antisym, lemma_seq_char_le_trans, split_lines,
    str_le, views_of_strings};

verus! {

/// One discovered marker with its location: the file it came from, the
/// 1-based line number and the payload that becomes the issue title.
pub struct MatchLocation {
    pub file: String,
    pub line_num: usize,
    pub payload: String,
}

#[verifier::ext_equal]
pub struct LocModel {
    pub file: Seq<char>,
    pub line_num: nat,
    pub payload: Seq<char>,
}

impl View for MatchLocation {
    type V = LocModel;

    open spec fn view(&self) -> LocModel {
        LocModel { file: self.file@, line_num: self.line_num as nat, payload: self.payload@ }
    }
}

pub open spec fn batch_views(b: Seq<MatchLocation>) -> Seq<LocModel> {
    b.map_values(|l: MatchLocation| l@)
}

// ---------------------------------------------------------------------------
// the batch order: by file, then line number, then payload
// ---------------------------------------------------------------------------

pub open spec fn loc_le(a: LocModel, b: LocModel) -> bool {
    ||| seq_char_lt(a.file, b.file)
    ||| (a.file == b.file && (a.line_num < b.line_num || (a.line_num == b.line_num && seq_char_le(
        a.payload,
        b.payload,
    ))))
}

pub open spec fn loc_le_fn() -> spec_fn(LocModel, LocModel) -> bool {
    |a: LocModel, b: LocModel| loc_le(a, b)
}

/// The batch order is a total order on locations.
pub proof fn lemma_loc_le_total_ordering()
    ensures
        total_ordering(loc_le_fn()),
{
    let leq = loc_le_fn();
    assert forall|a: LocModel| #[trigger] leq(a, a) by {
        lemma_seq_char_le_refl(a.payload);
    }
    assert forall|a: LocModel, b: LocModel| #[trigger] leq(a, b) && #[trigger] leq(b, a) implies a
        == b by {
        if seq_char_lt(a.file, b.file) || seq_char_lt(b.file, a.file) {
            lemma_seq_char_le_antisym(a.file, b.file);
        } else {
            lemma_seq_char_le_antisym(a.payload, b.payload);
            assert(a =~= b);
        }
    }
    assert forall|a: LocModel, b: LocModel, c: LocModel|
        #[trigger] leq(a, b) && #[trigger] leq(b, c) implies leq(a, c) by {
        if a.file == b.file {
            lemma_seq_char_le_refl(a.file);
        }
        if b.file == c.file {
            lemma_seq_char_le_refl(b.file);
        }
        assert(seq_char_le(a.file, b.file) && seq_char_le(b.file, c.file));
        lemma_seq_char_le_trans(a.file, b.file, c.file);
        if a.file != c.file {
            assert(seq_char_le(a.file, c.file));
        } else {
            if seq_char_lt(a.file, b.file) {
                lemma_seq_char_le_antisym(a.file, b.file);
            } else if seq_char_lt(b.file, c.file) {
                lemma_seq_char_le_antisym(b.file, c.file);
            } else {
                assert(a.file == b.file && b.file == c.file);
                if a.line_num == b.line_num && b.line_num == c.line_num {
                    lemma_seq_char_le_trans(a.payload, b.payload, c.payload);
                }
            }
        }
    }
    assert forall|a: LocModel, b: LocModel| #[trigger] leq(a, b) || #[trigger] leq(b, a) by {
        lemma_seq_char_le_total(a.file, b.file);
        lemma_seq_char_le_total(a.payload, b.payload);
    }
}

fn loc_le_exec(a: &MatchLocation, b: &MatchLocation) -> (r: bool)
    ensures
        r == loc_le(a@, b@),
{
    if a.file == b.file {
        if a.line_num < b.line_num {
            true
        } else if a.line_num == b.line_num {
            str_le(a.payload.as_str(), b.payload.as_str())
        } else {
            false
        }
    } else {
        str_le(a.file.as_str(), b.file.as_str())
    }
}

// ---------------------------------------------------------------------------
// building the pending batch
// ---------------------------------------------------------------------------

/// The locations contributed by one file's matches.
pub open spec fn locs_of_file(file: Seq<char>, ms: Seq<MatchedModel>) -> Seq<LocModel> {
    ms.map_values(|m: MatchedModel| LocModel { file: file, line_num: m.line_num, payload: m.line })
}

pub open spec fn result_views(rs: Seq<(String, Vec<MatchedLine>)>) -> Seq<
    (Seq<char>, Seq<MatchedModel>),
> {
    rs.map_values(
        |p: (String, Vec<MatchedLine>)| (p.0@, p.1@.map_values(|m: MatchedLine| m@)),
    )
}

/// All locations of all per-file results, in result order.
pub open spec fn flatten_results(rs: Seq<(Seq<char>, Seq<MatchedModel>)>) -> Seq<LocModel>
    decreases rs.len(),
{
    if rs.len() == 0 {
        Seq::empty()
    } else {
        locs_of_file(rs[0].0, rs[0].1) + flatten_results(rs.drop_first())
    }
}

proof fn lemma_empty_to_multiset<A>()
    ensures
        Seq::<A>::empty().to_multiset() =~= Multiset::<A>::empty(),
{
    vstd::seq_lib::to_multiset_len::<A>(Seq::<A>::empty());
    vstd::multiset::lemma_multiset_empty_len::<A>(Seq::<A>::empty().to_multiset());
}

fn insert_sorted(v: &mut Vec<MatchLocation>, x: MatchLocation)
    requires
        sorted_by(batch_views(old(v)@), loc_le_fn()),
    ensures
        sorted_by(batch_views(final(v)@), loc_le_fn()),
        batch_views(final(v)@).to_multiset() == batch_views(old(v)@).to_multiset().insert(x@),
{
    proof {
        lemma_loc_le_total_ordering();
    }
    let n = v.len();
    let mut k: usize = 0;
    while k < n && !loc_le_exec(&x, &v[k])
        invariant
            n == v@.len(),
            k <= n,
            v@ == old(v)@,
            forall|j: int| 0 <= j < k ==> loc_le(#[trigger] batch_views(v@)[j], x@),
            total_ordering(loc_le_fn()),
        decreases n - k,
    {
        proof {
            let leq = loc_le_fn();
            assert(leq(batch_views(v@)[k as int], x@) || leq(x@, batch_views(v@)[k as int]));
        }
        k += 1;
    }
    let ghost oldviews = batch_views(v@);
    proof {
        assert forall|j: int| k <= j < n implies loc_le(x@, #[trigger] oldviews[j]) by {
            let leq = loc_le_fn();
            if k < n {
                assert(leq(x@, oldviews[k as int]));
                if j > k {
                    assert(leq(oldviews[k as int], oldviews[j]));
                }
            }
        }
    }
    v.insert(k, x);
    proof {
        assert(batch_views(v@) =~= oldviews.insert(k as int, x@)) by {
            assert(v@ == old(v)@.insert(k as int, x));
            old(v)@.insert_ensures(k as int, x);
            oldviews.insert_ensures(k as int, x@);
            assert forall|j: int| 0 <= j < v@.len() implies #[trigger] batch_views(v@)[j]
                == oldviews.insert(k as int, x@)[j] by {
                if j < k {
                    assert(v@[j] == old(v)@[j]);
                } else if j == k {
                    assert(v@[j] == x);
                } else {
                    assert(v@[j] == old(v)@[j - 1]);
                }
            }
        }
        let newviews = oldviews.insert(k as int, x@);
        assert forall|p: int, q: int| 0 <= p < q < newviews.len() implies #[trigger] loc_le_fn()(
            newviews[p],
            newviews[q],
        ) by {
            oldviews.insert_ensures(k as int, x@);
            let leq = loc_le_fn();
            if q < k {
                assert(leq(oldviews[p], oldviews[q]));
            } else if p > k {
                assert(leq(oldviews[p - 1], oldviews[q - 1]));
            } else if p == k {
                assert(newviews[p] == x@ && newviews[q] == oldviews[q - 1]);
            } else if q == k {
                assert(newviews[p] == oldviews[p] && newviews[q] == x@);
            } else {
                // p < k < q
                assert(newviews[p] == oldviews[p] && newviews[q] == oldviews[q - 1]);
            }
        }
        vstd::seq_lib::to_multiset_insert(oldviews, k as int, x@);
    }
}

/// Flattens per-file scan results into the pending batch, sorted by file,
/// line number and payload. The sort is what makes the batch order
/// independent of the completion order of the per-file scan tasks.
pub fn build_batch(results: &Vec<(String, Vec<MatchedLine>)>) -> (batch: Vec<MatchLocation>)
    ensures
        sorted_by(batch_views(batch@), loc_le_fn()),
        batch_views(batch@).to_multiset() == flatten_results(result_views(results@)).to_multiset(),
{
    broadcast use vstd::seq_lib::group_to_multiset_ensures;

    let mut batch: Vec<MatchLocation> = Vec::new();
    let ghost rviews = result_views(results@);
    let mut i: usize = 0;
    proof {
        assert(rviews.skip(0) =~= rviews);
        lemma_empty_to_multiset::<LocModel>();
        assert(batch_views(batch@) =~= Seq::<LocModel>::empty());
        assert(flatten_results(rviews).to_multiset() =~= batch_views(batch@).to_multiset().add(
            flatten_results(rviews.skip(0)).to_multiset(),
        )) by {
            broadcast use vstd::multiset::group_multiset_axioms;
        }
    }
    while i < results.len()
        invariant
            i <= results@.len(),
            rviews == result_views(results@),
            sorted_by(batch_views(batch@), loc_le_fn()),
            flatten_results(rviews).to_multiset() == batch_views(batch@).to_multiset().add(
                flatten_results(rviews.skip(i as int)).to_multiset(),
            ),
        decreases results@.len() - i,
    {
        let ghost rest = rviews.skip(i as int);
        proof {
            assert(rest[0] == rviews[i as int]);
            assert(rest.drop_first() =~= rviews.skip(i + 1));
            assert(flatten_results(rest) == locs_of_file(rest[0].0, rest[0].1) + flatten_results(
                rest.drop_first(),
            ));
            lemma_multiset_commutative(
                locs_of_file(rest[0].0, rest[0].1),
                flatten_results(rest.drop_first()),
            );
        }
        let ghost file_locs = locs_of_file(rviews[i as int].0, rviews[i as int].1);
        let (file, matches) = &results[i];
        let mut t: usize = 0;
        proof {
            assert(file_locs.skip(0) =~= file_locs);
            broadcast use vstd::multiset::group_multiset_axioms;
        }
        while t < matches.len()
            invariant
                t <= matches@.len(),
                rviews == result_views(results@),
                i < results@.len(),
                file == results@[i as int].0,
                matches == results@[i as int].1,
                file_locs == locs_of_file(rviews[i as int].0, rviews[i as int].1),
                file_locs.len() == matches@.len(),
                sorted_by(batch_views(batch@), loc_le_fn()),
                flatten_results(rviews).to_multiset() == batch_views(batch@).to_multiset().add(
                    file_locs.skip(t as int).to_multiset().add(
                        flatten_results(rviews.skip(i + 1)).to_multiset(),
                    ),
                ),
            decreases matches@.len() - t,
        {
            let m = &matches[t];
            let loc = MatchLocation {
                file: file.clone(),
                line_num: m.line_num,
                payload: m.line.clone(),
            };
            proof {
                broadcast use vstd::multiset::group_multiset_axioms;
                broadcast use vstd::seq_lib::group_to_multiset_ensures;

                assert(loc@ == file_locs[t as int]);
                let rem = file_locs.skip(t as int);
                assert(rem[0] == file_locs[t as int]);
                assert(rem.drop_first() =~= file_locs.skip(t + 1));
                assert(rem =~= file_locs.skip(t + 1).insert(0, loc@));
                vstd::seq_lib::to_multiset_insert(file_locs.skip(t + 1), 0, loc@);
                assert(rem.to_multiset() =~= file_locs.skip(t + 1).to_multiset().insert(loc@));
            }
            insert_sorted(&mut batch, loc);
            proof {
                broadcast use vstd::multiset::group_multiset_axioms;
            }
            t += 1;
        }
        proof {
            broadcast use vstd::multiset::group_multiset_axioms;

            assert(file_locs.skip(matches@.len() as int) =~= Seq::<LocModel>::empty());
            lemma_empty_to_multiset::<LocModel>();
        }
        i += 1;
    }
    proof {
        broadcast use vstd::multiset::group_multiset_axioms;

        assert(rviews.skip(rviews.len() as int) =~= Seq::<(Seq<char>, Seq<MatchedModel>)>::empty());
        lemma_empty_to_multiset::<LocModel>();
        assert(flatten_results(Seq::<(Seq<char>, Seq<MatchedModel>)>::empty())
            == Seq::<LocModel>::empty());
        assert(batch_views(batch@).to_multiset() =~= flatten_results(rviews).to_multiset());
    }
    batch
}

/// Two sorted batches holding the same matches are the same batch: the
/// pending batch is independent of the order in which the per-file results
/// arrived.
pub proof fn lemma_batch_deterministic(x: Seq<LocModel>, y: Seq<LocModel>)
    requires
        sorted_by(x, loc_le_fn()),
        sorted_by(y, loc_le_fn()),
        x.to_multiset() == y.to_multiset(),
    ensures
        x == y,
{
    lemma_loc_le_total_ordering();
    lemma_sorted_unique(x, y, loc_le_fn());
    assert(x =~= y);
}

/// Taking one result out of the list takes exactly its locations out of the
/// flattened matches.
proof fn lemma_flatten_results_remove(rs: Seq<(Seq<char>, Seq<MatchedModel>)>, idx: int)
    requires
        0 <= idx < rs.len(),
    ensures
        flatten_results(rs).to_multiset() =~= locs_of_file(
            rs[idx].0,
            rs[idx].1,
        ).to_multiset().add(flatten_results(rs.remove(idx)).to_multiset()),
    decreases idx,
{
    broadcast use vstd::multiset::group_multiset_axioms;

    if idx == 0 {
        assert(rs.remove(0) =~= rs.drop_first());
        lemma_multiset_commutative(locs_of_file(rs[0].0, rs[0].1), flatten_results(
            rs.drop_first(),
        ));
    } else {
        let rest = rs.drop_first();
        lemma_flatten_results_remove(rest, idx - 1);
        assert(rest[idx - 1] == rs[idx]);
        assert(rs.remove(idx) =~= seq![rs[0]] + rest.remove(idx - 1));
        assert((seq![rs[0]] + rest.remove(idx - 1)).drop_first() =~= rest.remove(idx - 1));
        assert(flatten_results(rs.remove(idx)) == locs_of_file(rs[0].0, rs[0].1)
            + flatten_results(rest.remove(idx - 1)));
        lemma_multiset_commutative(locs_of_file(rs[0].0, rs[0].1), flatten_results(
            rest.remove(idx - 1),
        ));
        lemma_multiset_commutative(locs_of_file(rs[0].0, rs[0].1), flatten_results(rest));
        assert(flatten_results(rs).to_multiset() =~= locs_of_file(
            rs[idx].0,
            rs[idx].1,
        ).to_multiset().add(flatten_results(rs.remove(idx)).to_multiset()));
    }
}

/// However the per-file scan tasks complete, the flattened matches are the
/// same multiset.
pub proof fn lemma_flatten_results_permutation(
    rs1: Seq<(Seq<char>, Seq<MatchedModel>)>,
    rs2: Seq<(Seq<char>, Seq<MatchedModel>)>,
)
    requires
        rs1.to_multiset() == rs2.to_multiset(),
    ensures
        flatten_results(rs1).to_multiset() == flatten_results(rs2).to_multiset(),
    decreases rs1.len(),
{
    broadcast use vstd::multiset::group_multiset_axioms;
    broadcast use vstd::seq_lib::group_to_multiset_ensures;

    if rs1.len() == 0 {
        vstd::seq_lib::to_multiset_len(rs1);
        vstd::seq_lib::to_multiset_len(rs2);
        assert(rs2.len() == 0);
        assert(rs1 =~= rs2);
    } else {
        let h = rs1[0];
        assert(rs1.contains(h));
        assert(rs1.to_multiset().count(h) > 0);
        assert(rs2.contains(h));
        let idx = choose|idx: int| 0 <= idx < rs2.len() && rs2[idx] == h;
        assert(rs1.remove(0).to_multiset() =~= rs1.to_multiset().remove(h));
        assert(rs2.remove(idx).to_multiset() =~= rs2.to_multiset().remove(h));
        assert(rs1.remove(0) =~= rs1.drop_first());
        lemma_flatten_results_permutation(rs1.drop_first(), rs2.remove(idx));
        lemma_flatten_results_remove(rs2, idx);
        lemma_multiset_commutative(locs_of_file(h.0, h.1), flatten_results(rs1.drop_first()));
        assert(flatten_results(rs1).to_multiset() =~= flatten_results(rs2).to_multiset());
    }
}

/// The ordering half of the pipeline's contract in one statement: two runs
/// whose per-file scan results are the same set of results, however ordered
/// by task completion, build one and the same pending batch.
pub proof fn lemma_batch_order_independent(
    b1: Seq<LocModel>,
    b2: Seq<LocModel>,
    rs1: Seq<(Seq<char>, Seq<MatchedModel>)>,
    rs2: Seq<(Seq<char>, Seq<MatchedModel>)>,
)
    requires
        rs1.to_multiset() == rs2.to_multiset(),
        sorted_by(b1, loc_le_fn()),
        sorted_by(b2, loc_le_fn()),
        b1.to_multiset() == flatten_results(rs1).to_multiset(),
        b2.to_multiset() == flatten_results(rs2).to_multiset(),
    ensures
        b1 == b2,
{
    lemma_flatten_results_permutation(rs1, rs2);
    lemma_batch_deterministic(b1, b2);
}

// ---------------------------------------------------------------------------
// planning the submission
// ---------------------------------------------------------------------------

/// The titles to submit, in batch order, or nothing at all when no marker
/// was found: an empty batch makes no call to the collaborator.
pub fn plan_submission(batch: &Vec<MatchLocation>) -> (r: Option<Vec<String>>)
    ensures
        r is Some <==> batch@.len() != 0,
        r matches Some(titles) ==> views_of_strings(titles@) == batch_views(batch@).map_values(
            |l: LocModel| l.payload,
        ),
{
    if batch.len() == 0 {
        return None;
    }
    let mut titles: Vec<String> = Vec::new();
    let mut i: usize = 0;
    while i < batch.len()
        invariant
            i <= batch@.len(),
            views_of_strings(titles@) =~= batch_views(batch@).map_values(
                |l: LocModel| l.payload,
            ).take(i as int),
        decreases batch@.len() - i,
    {
        let title = batch[i].payload.clone();
        proof {
            assert(views_of_strings(titles@.push(title)) =~= views_of_strings(titles@).push(
                title@,
            ));
            assert(batch_views(batch@).map_values(|l: LocModel| l.payload).take(i + 1)
                =~= batch_views(batch@).map_values(|l: LocModel| l.payload).take(i as int).push(
                batch@[i as int]@.payload,
            ));
        }
        titles.push(title);
        i += 1;
    }
    proof {
        assert(batch_views(batch@).map_values(|l: LocModel| l.payload).take(batch@.len() as int)
            =~= batch_views(batch@).map_values(|l: LocModel| l.payload));
    }
    Some(titles)
}

// ---------------------------------------------------------------------------
// mapping identifiers back by global position
// ---------------------------------------------------------------------------

/// The returned identifier list did not line up with the batch: the whole
/// run is aborted, no file is rewritten.
#[derive(Debug, PartialEq, Eq, Structural)]
pub struct AllocationError;

/// The rewrite work of one file: its `(line number, identifier)` pairs.
pub struct RewriteJob {
    pub file: String,
    pub pairs: Vec<(usize, usize)>,
}

#[verifier::ext_equal]
pub struct JobModel {
    pub file: Seq<char>,
    pub pairs: Seq<(nat, nat)>,
}

impl View for RewriteJob {
    type V = JobModel;

    open spec fn view(&self) -> JobModel {
        JobModel {
            file: self.file@,
            pairs: self.pairs@.map_values(|p: (usize, usize)| (p.0 as nat, p.1 as nat)),
        }
    }
}

pub open spec fn job_views(js: Seq<RewriteJob>) -> Seq<JobModel> {
    js.map_values(|j: RewriteJob| j@)
}

pub open spec fn id_views(ids: Seq<usize>) -> Seq<nat> {
    ids.map_values(|x: usize| x as nat)
}

/// The `(file, line, identifier)` triples of one job.
pub open spec fn job_triples(j: JobModel) -> Seq<(Seq<char>, nat, nat)> {
    j.pairs.map_values(|p: (nat, nat)| (j.file, p.0, p.1))
}

pub open spec fn jobs_flatten(js: Seq<JobModel>) -> Seq<(Seq<char>, nat, nat)>
    decreases js.len(),
{
    if js.len() == 0 {
        Seq::empty()
    } else {
        job_triples(js[0]) + jobs_flatten(js.drop_first())
    }
}

/// Each batch entry paired with its identifier, by global batch position.
pub open spec fn batch_triples(batch: Seq<LocModel>, ids: Seq<nat>) -> Seq<
    (Seq<char>, nat, nat),
> {
    Seq::new(batch.len(), |i: int| (batch[i].file, batch[i].line_num, ids[i]))
}

proof fn lemma_jobs_flatten_push(js: Seq<JobModel>, j: JobModel)
    ensures
        jobs_flatten(js.push(j)) =~= jobs_flatten(js) + job_triples(j),
    decreases js.len(),
{
    if js.len() == 0 {
        assert(js.push(j)[0] == j);
        assert(js.push(j).drop_first() =~= Seq::<JobModel>::empty());
        assert(jobs_flatten(Seq::<JobModel>::empty()) == Seq::<(Seq<char>, nat, nat)>::empty());
        assert(jobs_flatten(js.push(j)) == job_triples(j) + Seq::<
            (Seq<char>, nat, nat),
        >::empty());
        assert(jobs_flatten(js) == Seq::<(Seq<char>, nat, nat)>::empty());
        assert(jobs_flatten(js.push(j)) =~= jobs_flatten(js) + job_triples(j));
    } else {
        assert(js.push(j).drop_first() =~= js.drop_first().push(j));
        lemma_jobs_flatten_push(js.drop_first(), j);
        assert(js.push(j)[0] == js[0]);
    }
}

/// Pairs every batch entry with the identifier at its own global position
/// and groups the result into per-file rewrite jobs. A length mismatch
/// between batch and identifiers aborts the whole run; nothing is handed to
/// the rewrite phase.
pub fn assign_identifiers(batch: &Vec<MatchLocation>, ids: &Vec<usize>) -> (r: Result<
    Vec<RewriteJob>,
    AllocationError,
>)
    ensures
        r is Ok <==> ids@.len() == batch@.len(),
        r matches Ok(jobs) ==> jobs_flatten(job_views(jobs@)) == batch_triples(
            batch_views(batch@),
            id_views(ids@),
        ),
        r matches Ok(jobs) ==> (forall|t: int|
            0 <= t < jobs@.len() ==> #[trigger] job_views(jobs@)[t].pairs.len() > 0),
        r matches Ok(jobs) ==> (forall|t: int|
            0 <= t && t + 1 < jobs@.len() ==> #[trigger] job_views(jobs@)[t].file != job_views(
                jobs@,
            )[t + 1].file),
{
    if ids.len() != batch.len() {
        return Err(AllocationError);
    }
    let ghost bviews = batch_views(batch@);
    let ghost iviews = id_views(ids@);
    let ghost all = batch_triples(bviews, iviews);
    let mut jobs: Vec<RewriteJob> = Vec::new();
    let mut i: usize = 0;
    while i < batch.len()
        invariant
            i <= batch@.len(),
            ids@.len() == batch@.len(),
            bviews == batch_views(batch@),
            iviews == id_views(ids@),
            all == batch_triples(bviews, iviews),
            jobs_flatten(job_views(jobs@)) =~= all.take(i as int),
            forall|t: int| 0 <= t < jobs@.len() ==> #[trigger] job_views(jobs@)[t].pairs.len() > 0,
            forall|t: int|
                0 <= t && t + 1 < jobs@.len() ==> #[trigger] job_views(jobs@)[t].file
                    != job_views(jobs@)[t + 1].file,
            jobs@.len() > 0 && i < batch@.len() ==> job_views(jobs@).last().file
                != bviews[i as int].file,
        decreases batch@.len() - i,
    {
        let file = batch[i].file.clone();
        let mut pairs: Vec<(usize, usize)> = Vec::new();
        let mut e: usize = i;
        while e < batch.len() && batch[e].file == file
            invariant
                i <= e <= batch@.len(),
                ids@.len() == batch@.len(),
                bviews == batch_views(batch@),
                iviews == id_views(ids@),
                file@ == bviews[i as int].file,
                i < batch@.len(),
                forall|t: int| i <= t < e ==> #[trigger] bviews[t].file == file@,
                pairs@.map_values(|p: (usize, usize)| (p.0 as nat, p.1 as nat)) =~= Seq::new(
                    (e - i) as nat,
                    |t: int| (bviews[i + t].line_num, iviews[i + t]),
                ),
            decreases batch@.len() - e,
        {
            proof {
                assert((pairs@.push((batch@[e as int].line_num, ids@[e as int]))).map_values(
                    |p: (usize, usize)| (p.0 as nat, p.1 as nat),
                ) =~= pairs@.map_values(|p: (usize, usize)| (p.0 as nat, p.1 as nat)).push(
                    (bviews[e as int].line_num, iviews[e as int]),
                ));
                assert(Seq::new((e + 1 - i) as nat, |t: int| (bviews[i + t].line_num, iviews[i + t]))
                    =~= Seq::new((e - i) as nat, |t: int| (bviews[i + t].line_num, iviews[i + t]))
                    .push((bviews[e as int].line_num, iviews[e as int])));
            }
            pairs.push((batch[e].line_num, ids[e]));
            e += 1;
        }
        assert(e > i) by {
            if e == i {
                assert(bviews[i as int].file == file@);
            }
        }
        let ghost boundary_differs = e < batch@.len() ==> bviews[e as int].file != file@;
        proof {
            assert(boundary_differs);
        }
        let job = RewriteJob { file, pairs };
        let ghost jm = job@;
        let ghost prev_jv = job_views(jobs@);
        proof {
            lemma_jobs_flatten_push(prev_jv, jm);
            assert(job_views(jobs@.push(job)) =~= prev_jv.push(jm));
            assert(jm.pairs.len() == e - i);
            assert(job_triples(jm) =~= all.subrange(i as int, e as int)) by {
                assert forall|t: int| 0 <= t < jm.pairs.len() implies #[trigger] job_triples(
                    jm,
                )[t] == all.subrange(i as int, e as int)[t] by {
                    assert(jm.pairs[t] == (bviews[i + t].line_num, iviews[i + t]));
                    assert(bviews[i + t].file == file@);
                    assert(all[i + t] == (bviews[i + t].file, bviews[i + t].line_num, iviews[i
                        + t]));
                }
            }
            assert(all.take(e as int) =~= all.take(i as int) + all.subrange(i as int, e as int));
            assert(jobs_flatten(prev_jv.push(jm)) =~= all.take(e as int));
        }
        jobs.push(job);
        proof {
            let jv = job_views(jobs@);
            assert(jv =~= prev_jv.push(jm));
            assert forall|t: int| 0 <= t < jv.len() implies #[trigger] jv[t].pairs.len() > 0 by {
                if t < prev_jv.len() {
                    assert(prev_jv.push(jm)[t] == prev_jv[t]);
                    assert(jv[t] == prev_jv[t]);
                } else {
                    assert(prev_jv.push(jm)[t] == jm);
                    assert(jv[t] == jm);
                }
            }
            assert forall|t: int| 0 <= t && t + 1 < jv.len() implies #[trigger] jv[t].file
                != jv[t + 1].file by {
                assert(prev_jv.push(jm)[t] == prev_jv[t]);
                assert(jv[t] == prev_jv[t]);
                if t + 1 < prev_jv.len() {
                    assert(prev_jv.push(jm)[t + 1] == prev_jv[t + 1]);
                    assert(jv[t + 1] == prev_jv[t + 1]);
                } else {
                    assert(prev_jv.push(jm)[t + 1] == jm);
                    assert(jv[t + 1] == jm);
                    assert(prev_jv[t] == prev_jv.last());
                    assert(prev_jv.last().file != bviews[i as int].file);
                    assert(jm.file == bviews[i as int].file);
                }
            }
            assert(prev_jv.push(jm)[prev_jv.len() as int] == jm);
            assert(jv.last() == jm);
            assert(e < batch@.len() ==> jm.file != bviews[e as int].file);
        }
        i = e;
    }
    proof {
        assert(all.take(batch@.len() as int) =~= all);
    }
    Ok(jobs)
}

/// The ordering invariant: with identifiers allocated sequentially from
/// `base` in batch order, the identifier attached to every location is
/// `base` plus that location's global position in the sorted pending batch,
/// however the per-file tasks were scheduled.
pub proof fn lemma_sequential_identifiers(batch: Seq<LocModel>, ids: Seq<nat>, base: nat)
    requires
        ids.len() == batch.len(),
        forall|k: int| 0 <= k < ids.len() ==> ids[k] == base + k,
    ensures
        forall|k: int|
            0 <= k < batch.len() ==> #[trigger] batch_triples(batch, ids)[k] == (
                batch[k].file,
                batch[k].line_num,
                (base + k) as nat,
            ),
{
}

// ---------------------------------------------------------------------------
// rewriting one file in memory
// ---------------------------------------------------------------------------

pub open spec fn pair_views(ps: Seq<(usize, usize)>) -> Seq<(nat, nat)> {
    ps.map_values(|p: (usize, usize)| (p.0 as nat, p.1 as nat))
}

/// Lines rewritten against the pending pairs: a line whose 1-based number
/// (counted from `base`) equals the next pair's line number is replaced by
/// its annotated form; once the pairs run out, the remaining lines are
/// copied verbatim.
pub open spec fn rewrite_lines(ls: Seq<Seq<char>>, pairs: Seq<(nat, nat)>, base: nat) -> Seq<
    Seq<char>,
>
    decreases ls.len(),
{
    if ls.len() == 0 {
        Seq::empty()
    } else if pairs.len() > 0 && pairs[0].0 == base {
        seq![annotated_line(ls[0], pairs[0].1)] + rewrite_lines(
            ls.drop_first(),
            pairs.drop_first(),
            (base + 1) as nat,
        )
    } else {
        seq![ls[0]] + rewrite_lines(ls.drop_first(), pairs, (base + 1) as nat)
    }
}

/// Lines joined back into file contents, each line followed by `\n`.
pub open spec fn join_lines(ls: Seq<Seq<char>>) -> Seq<char>
    decreases ls.len(),
{
    if ls.len() == 0 {
        Seq::empty()
    } else {
        ls[0] + seq!['\n'] + join_lines(ls.drop_first())
    }
}

/// Every pair names an existing line that carries a marker.
pub open spec fn pairs_valid(ls: Seq<Seq<char>>, pairs: Seq<(nat, nat)>) -> bool {
    forall|k: int|
        0 <= k < pairs.len() ==> 1 <= (#[trigger] pairs[k]).0 <= ls.len() && line_has_marker(
            ls[pairs[k].0 - 1],
        )
}

/// Computes the full new contents of one file: the pair lines are annotated
/// with their identifiers, everything else is copied verbatim. Nothing is
/// written here; the caller persists the result only once it is complete.
pub fn rewrite_contents(contents: &str, pairs: &Vec<(usize, usize)>) -> (r: String)
    requires
        pairs_valid(lines_spec(contents@), pair_views(pairs@)),
    ensures
        r@ == join_lines(rewrite_lines(lines_spec(contents@), pair_views(pairs@), 1)),
{
    let lines = split_lines(contents);
    let ghost lviews = views_of_strings(lines@);
    let ghost pviews = pair_views(pairs@);
    let mut out = String::new();
    let mut pi: usize = 0;
    let mut li: usize = 0;
    proof {
        assert(lviews.skip(0) =~= lviews);
        assert(pviews.skip(0) =~= pviews);
    }
    while li < lines.len()
        invariant
            li <= lines@.len(),
            pi <= pairs@.len(),
            lviews == views_of_strings(lines@),
            pviews == pair_views(pairs@),
            pairs_valid(lviews, pviews),
            join_lines(rewrite_lines(lviews, pviews, 1)) =~= out@ + join_lines(
                rewrite_lines(lviews.skip(li as int), pviews.skip(pi as int), (li + 1) as nat),
            ),
        decreases lines@.len() - li,
    {
        let ghost lrest = lviews.skip(li as int);
        let ghost prest = pviews.skip(pi as int);
        proof {
            assert(lrest[0] == lviews[li as int]);
            assert(lrest.drop_first() =~= lviews.skip(li + 1));
        }
        let hit = pi < pairs.len() && pairs[pi].0 == li + 1;
        proof {
            if pi < pairs@.len() {
                assert(prest[0] == pviews[pi as int]);
            }
        }
        let ghost out0 = out@;
        let ghost rl = rewrite_lines(lrest, prest, (li + 1) as nat);
        if hit {
            proof {
                assert(pviews[pi as int].0 == (li + 1) as nat);
                assert(line_has_marker(lviews[li as int]));
                assert(prest.drop_first() =~= pviews.skip(pi + 1));
                assert(rl =~= seq![annotated_line(lrest[0], prest[0].1)] + rewrite_lines(
                    lrest.drop_first(),
                    prest.drop_first(),
                    (li + 2) as nat,
                ));
            }
            let newline = rewrite_line(lines[li].as_str(), pairs[pi].1);
            out.append(newline.as_str());
            push_char(&mut out, '\n');
            pi += 1;
            proof {
                assert(rl[0] == annotated_line(lrest[0], prest[0].1));
                assert(rl.drop_first() =~= rewrite_lines(
                    lviews.skip(li + 1),
                    pviews.skip(pi as int),
                    (li + 2) as nat,
                ));
                assert(join_lines(rl) =~= rl[0] + seq!['\n'] + join_lines(rl.drop_first()));
                assert(out@ =~= out0 + rl[0] + seq!['\n']);
                assert(out0 + join_lines(rl) =~= out@ + join_lines(rl.drop_first()));
            }
        } else {
            proof {
                if pi < pairs@.len() {
                    assert(prest[0].0 != (li + 1) as nat);
                }
                assert(rl =~= seq![lrest[0]] + rewrite_lines(
                    lrest.drop_first(),
                    prest,
                    (li + 2) as nat,
                ));
            }
            out.append(lines[li].as_str());
            push_char(&mut out, '\n');
            proof {
                assert(rl[0] == lrest[0]);
                assert(rl.drop_first() =~= rewrite_lines(
                    lviews.skip(li + 1),
                    pviews.skip(pi as int),
                    (li + 2) as nat,
                ));
                assert(join_lines(rl) =~= rl[0] + seq!['\n'] + join_lines(rl.drop_first()));
                assert(out@ =~= out0 + rl[0] + seq!['\n']);
                assert(out0 + join_lines(rl) =~= out@ + join_lines(rl.drop_first()));
            }
        }
        li += 1;
    }
    proof {
        assert(lviews.skip(lines@.len() as int) =~= Seq::<Seq<char>>::empty());
        assert(out@ =~= join_lines(rewrite_lines(lviews, pviews, 1)));
    }
    out
}

/// Rewriting touches exactly the pair lines: the line count is kept, the
/// line named by each pair comes out in its annotated form with that pair's
/// identifier, and every other line comes out unchanged.
pub proof fn lemma_rewrite_lines_positions(ls: Seq<Seq<char>>, pairs: Seq<(nat, nat)>, base: nat)
    requires
        forall|k: int|
            0 <= k < pairs.len() ==> base <= (#[trigger] pairs[k]).0 < base + ls.len(),
        forall|k1: int, k2: int|
            0 <= k1 < k2 < pairs.len() ==> (#[trigger] pairs[k1]).0 < (#[trigger] pairs[k2]).0,
    ensures
        rewrite_lines(ls, pairs, base).len() == ls.len(),
        forall|k: int|
            0 <= k < pairs.len() ==> rewrite_lines(ls, pairs, base)[(#[trigger] pairs[k]).0
                - base] == annotated_line(ls[pairs[k].0 - base], pairs[k].1),
        forall|l: int|
            0 <= l < ls.len() && !(exists|k: int|
                0 <= k < pairs.len() && (#[trigger] pairs[k]).0 == base + l)
                ==> #[trigger] rewrite_lines(ls, pairs, base)[l] == ls[l],
    decreases ls.len(),
{
    if ls.len() > 0 {
        let r = rewrite_lines(ls, pairs, base);
        let ls1 = ls.drop_first();
        if pairs.len() > 0 && pairs[0].0 == base {
            let ps1 = pairs.drop_first();
            assert forall|k: int| 0 <= k < ps1.len() implies (base + 1) <= (
            #[trigger] ps1[k]).0 < (base + 1) + ls1.len() by {
                assert(ps1[k] == pairs[k + 1]);
                assert(pairs[0].0 < pairs[k + 1].0);
            }
            assert forall|k1: int, k2: int| 0 <= k1 < k2 < ps1.len() implies (
            #[trigger] ps1[k1]).0 < (#[trigger] ps1[k2]).0 by {
                assert(ps1[k1] == pairs[k1 + 1] && ps1[k2] == pairs[k2 + 1]);
            }
            lemma_rewrite_lines_positions(ls1, ps1, (base + 1) as nat);
            let rest = rewrite_lines(ls1, ps1, (base + 1) as nat);
            assert forall|k: int| 0 <= k < pairs.len() implies r[(#[trigger] pairs[k]).0 - base]
                == annotated_line(ls[pairs[k].0 - base], pairs[k].1) by {
                if k == 0 {
                    assert(r[0] == annotated_line(ls[0], pairs[0].1));
                } else {
                    assert(ps1[k - 1] == pairs[k]);
                    assert(pairs[0].0 < pairs[k].0);
                    let l = pairs[k].0 - base;
                    assert(r[l] == rest[l - 1]);
                    assert(ls1[l - 1] == ls[l]);
                }
            }
            assert forall|l: int|
                0 <= l < ls.len() && !(exists|k: int|
                    0 <= k < pairs.len() && (#[trigger] pairs[k]).0 == base + l)
                    implies #[trigger] r[l] == ls[l] by {
                if l == 0 {
                    assert(pairs[0].0 == base + 0);
                } else {
                    assert(r[l] == rest[l - 1]);
                    assert(ls1[l - 1] == ls[l]);
                    if exists|k: int| 0 <= k < ps1.len() && (#[trigger] ps1[k]).0 == (base + 1)
                        + (l - 1) {
                        let k = choose|k: int|
                            0 <= k < ps1.len() && (#[trigger] ps1[k]).0 == (base + 1) + (l - 1);
                        assert(ps1[k] == pairs[k + 1]);
                        assert(pairs[k + 1].0 == base + l);
                    }
                }
            }
        } else {
            assert forall|k: int| 0 <= k < pairs.len() implies (base + 1) <= (
            #[trigger] pairs[k]).0 < (base + 1) + ls1.len() by {
                if pairs[k].0 == base {
                    if k > 0 {
                        assert(pairs[0].0 < pairs[k].0);
                        assert(pairs[0].0 >= base);
                    }
                }
            }
            lemma_rewrite_lines_positions(ls1, pairs, (base + 1) as nat);
            let rest = rewrite_lines(ls1, pairs, (base + 1) as nat);
            assert forall|k: int| 0 <= k < pairs.len() implies r[(#[trigger] pairs[k]).0 - base]
                == annotated_line(ls[pairs[k].0 - base], pairs[k].1) by {
                let l = pairs[k].0 - base;
                assert(l >= 1);
                assert(r[l] == rest[l - 1]);
                assert(ls1[l - 1] == ls[l]);
            }
            assert forall|l: int|
                0 <= l < ls.len() && !(exists|k: int|
                    0 <= k < pairs.len() && (#[trigger] pairs[k]).0 == base + l)
                    implies #[trigger] r[l] == ls[l] by {
                if l > 0 {
                    assert(r[l] == rest[l - 1]);
                    assert(ls1[l - 1] == ls[l]);
                    if exists|k: int| 0 <= k < pairs.len() && (#[trigger] pairs[k]).0 == (base
                        + 1) + (l - 1) {
                        let k = choose|k: int|
                            0 <= k < pairs.len() && (#[trigger] pairs[k]).0 == (base + 1) + (l
                                - 1);
                        assert(pairs[k].0 == base + l);
                    }
                }
            }
        }
    }
}

/// The round trip: when the pairs cover every marker line of a file, each
/// names a marker line, they come in strictly ascending line order, and no
/// captured payload itself holds a marker, then the scanner finds no marker
/// at all in the rewritten lines: every marker was replaced by its
/// annotated form and nothing else was touched.
pub proof fn lemma_rewrite_round_trip(ls: Seq<Seq<char>>, pairs: Seq<(nat, nat)>, base: nat)
    requires
        forall|l: int|
            0 <= l < ls.len() && line_has_marker(#[trigger] ls[l]) ==> exists|k: int|
                0 <= k < pairs.len() && #[trigger] pairs[k].0 == base + l,
        forall|k: int|
            0 <= k < pairs.len() ==> base <= (#[trigger] pairs[k]).0 < base + ls.len()
                && line_has_marker(ls[pairs[k].0 - base]) && marker_free(
                capture_of(ls[pairs[k].0 - base]),
            ),
        forall|k1: int, k2: int|
            0 <= k1 < k2 < pairs.len() ==> (#[trigger] pairs[k1]).0 < (#[trigger] pairs[k2]).0,
    ensures
        forall|l: int|
            0 <= l < rewrite_lines(ls, pairs, base).len() ==> !line_has_marker(
                #[trigger] rewrite_lines(ls, pairs, base)[l],
            ),
    decreases ls.len(),
{
    if ls.len() > 0 {
        let r = rewrite_lines(ls, pairs, base);
        let ls1 = ls.drop_first();
        if pairs.len() > 0 && pairs[0].0 == base {
            let ps1 = pairs.drop_first();
            assert(line_has_marker(ls[0]) && marker_free(capture_of(ls[0])));
            lemma_annotated_line_clean(ls[0], pairs[0].1);
            assert forall|l: int|
                0 <= l < ls1.len() && line_has_marker(#[trigger] ls1[l]) implies exists|k: int|
                0 <= k < ps1.len() && #[trigger] ps1[k].0 == (base + 1) + l by {
                assert(ls1[l] == ls[l + 1]);
                let k = choose|k: int|
                    0 <= k < pairs.len() && #[trigger] pairs[k].0 == base + (l + 1);
                assert(k > 0) by {
                    if k == 0 {
                        assert(pairs[0].0 == base);
                    }
                }
                assert(ps1[k - 1] == pairs[k]);
            }
            assert forall|k: int| 0 <= k < ps1.len() implies (base + 1) <= (
            #[trigger] ps1[k]).0 < (base + 1) + ls1.len() && line_has_marker(
                ls1[ps1[k].0 - (base + 1)],
            ) && marker_free(capture_of(ls1[ps1[k].0 - (base + 1)])) by {
                assert(ps1[k] == pairs[k + 1]);
                assert(pairs[0].0 < pairs[k + 1].0);
                assert(ls1[pairs[k + 1].0 - (base + 1)] == ls[pairs[k + 1].0 - base]);
            }
            assert forall|k1: int, k2: int| 0 <= k1 < k2 < ps1.len() implies (
            #[trigger] ps1[k1]).0 < (#[trigger] ps1[k2]).0 by {
                assert(ps1[k1] == pairs[k1 + 1] && ps1[k2] == pairs[k2 + 1]);
            }
            lemma_rewrite_round_trip(ls1, ps1, (base + 1) as nat);
            let rest = rewrite_lines(ls1, ps1, (base + 1) as nat);
            assert forall|l: int| 0 <= l < r.len() implies !line_has_marker(
                #[trigger] r[l],
            ) by {
                if l == 0 {
                    assert(r[0] == annotated_line(ls[0], pairs[0].1));
                } else {
                    assert(r[l] == rest[l - 1]);
                }
            }
        } else {
            assert(!line_has_marker(ls[0])) by {
                if line_has_marker(ls[0]) {
                    let k = choose|k: int|
                        0 <= k < pairs.len() && #[trigger] pairs[k].0 == base + 0;
                    if k > 0 {
                        assert(pairs[0].0 < pairs[k].0);
                        assert(pairs[0].0 >= base);
                    }
                }
            }
            assert forall|l: int|
                0 <= l < ls1.len() && line_has_marker(#[trigger] ls1[l]) implies exists|k: int|
                0 <= k < pairs.len() && #[trigger] pairs[k].0 == (base + 1) + l by {
                assert(ls1[l] == ls[l + 1]);
                let k = choose|k: int|
                    0 <= k < pairs.len() && #[trigger] pairs[k].0 == base + (l + 1);
                assert(pairs[k].0 == (base + 1) + l);
            }
            assert forall|k: int| 0 <= k < pairs.len() implies (base + 1) <= (
            #[trigger] pairs[k]).0 < (base + 1) + ls1.len() && line_has_marker(
                ls1[pairs[k].0 - (base + 1)],
            ) && marker_free(capture_of(ls1[pairs[k].0 - (base + 1)])) by {
                assert(pairs[k].0 != base) by {
                    if pairs[k].0 == base {
                        if k > 0 {
                            assert(pairs[0].0 < pairs[k].0);
                            assert(pairs[0].0 >= base);
                        }
                    }
                }
                assert(ls1[pairs[k].0 - (base + 1)] == ls[pairs[k].0 - base]);
            }
            lemma_rewrite_round_trip(ls1, pairs, (base + 1) as nat);
            let rest = rewrite_lines(ls1, pairs, (base + 1) as nat);
            assert forall|l: int| 0 <= l < r.len() implies !line_has_marker(
                #[trigger] r[l],
            ) by {
                if l == 0 {
                    assert(r[0] == ls[0]);
                } else {
                    assert(r[l] == rest[l - 1]);
                }
            }
        }
    }
}

/// The round trip stated over the scanner itself: rewriting a file against
/// pairs that carry exactly the line numbers its own scan produced (one
/// identifier each, in scan order) leaves contents in which a new scan
/// finds no marker line at all — provided no captured payload itself holds
/// a marker occurrence.
pub proof fn lemma_scan_rewrite_round_trip(ls: Seq<Seq<char>>, pairs: Seq<(nat, nat)>)
    requires
        pairs.len() == scan_lines_spec(ls, 1).len(),
        forall|k: int|
            0 <= k < pairs.len() ==> (#[trigger] pairs[k]).0 == scan_lines_spec(
                ls,
                1,
            )[k].line_num,
        forall|k: int|
            0 <= k < pairs.len() ==> marker_free(capture_of(ls[(#[trigger] pairs[k]).0 - 1])),
    ensures
        forall|l: int|
            0 <= l < rewrite_lines(ls, pairs, 1).len() ==> !line_has_marker(
                #[trigger] rewrite_lines(ls, pairs, 1)[l],
            ),
{
    lemma_scan_lines_props(ls, 1);
    lemma_scan_lines_complete(ls, 1);
    let sc = scan_lines_spec(ls, 1);
    assert forall|l: int|
        0 <= l < ls.len() && line_has_marker(#[trigger] ls[l]) implies exists|k: int|
        0 <= k < pairs.len() && #[trigger] pairs[k].0 == 1 + l by {
        let a = choose|a: int| 0 <= a < sc.len() && #[trigger] sc[a].line_num == 1 + l;
        assert(pairs[a].0 == 1 + l);
    }
    assert forall|k: int| 0 <= k < pairs.len() implies 1 <= (#[trigger] pairs[k]).0 < 1
        + ls.len() && line_has_marker(ls[pairs[k].0 - 1]) && marker_free(
        capture_of(ls[pairs[k].0 - 1]),
    ) by {
        assert(sc[k].line_num == pairs[k].0);
    }
    assert forall|k1: int, k2: int| 0 <= k1 < k2 < pairs.len() implies (
    #[trigger] pairs[k1]).0 < (#[trigger] pairs[k2]).0 by {
        assert(sc[k1].line_num < sc[k2].line_num);
    }
    lemma_rewrite_round_trip(ls, pairs, 1);
}

} // verus!
