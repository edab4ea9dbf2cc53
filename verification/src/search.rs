//! Single-sequence CTC prefix beam search.
//!
//! Given a time-by-label matrix of fixed-point probabilities (see
//! [`crate::prob`]), the search keeps a bounded beam of labelling prefixes,
//! extends each prefix at every timestep by the labels whose probability
//! clears the cut threshold, prunes to the best `beam_size` prefixes with
//! first-seen tie-breaking, and finally returns the labels and per-label
//! first-live timesteps of the winning prefix.

use vstd::prelude::*;

use crate::SearchError;
use crate::prob::{PROB_ONE, INCOMPARABLE, spec_prob_add, spec_prob_mul, prob_add, prob_mul};
use crate::tree::{SuffixTree, tree_wf, times_le, labels_lt, path_spec, lemma_path_wf, tree_abs, find_child, path_abs, lemma_path_abs};

verus! {

use vstd::string::StringExecFns;

/// The rows of a matrix, as mathematical sequences.
pub open spec fn mat_view(m: Vec<Vec<u64>>) -> Seq<Seq<u64>> {
    m@.map_values(|r: Vec<u64>| r@)
}

/// The symbols of an alphabet, as character sequences.
pub open spec fn alpha_view(a: Vec<String>) -> Seq<Seq<char>> {
    a@.map_values(|s: String| s@)
}

/// Every row has exactly `w` columns.
pub open spec fn rectangular(m: Seq<Seq<u64>>, w: int) -> bool {
    forall|t: int| 0 <= t < m.len() ==> (#[trigger] m[t]).len() == w
}

/// Some cell holds the marker that does not compare (the NaN stand-in).
pub open spec fn has_incomparable(m: Seq<Seq<u64>>) -> bool {
    exists|t: int, k: int|
        0 <= t < m.len() && 0 <= k < m[t].len() && #[trigger] m[t][k] == INCOMPARABLE
}

/// The cut threshold is strictly below one over the alphabet length, so
/// that a uniform distribution always retains a candidate.
pub open spec fn threshold_ok(theta: u64, w: int) -> bool {
    theta * w < PROB_ONE
}

/// Every entry of the row is at or below the threshold, so no candidate
/// survives this timestep.
pub open spec fn row_wipeout(row: Seq<u64>, theta: u64) -> bool {
    forall|k: int| 0 <= k < row.len() ==> #[trigger] row[k] <= theta
}

/// Some timestep wipes the beam out.
pub open spec fn any_wipeout(m: Seq<Seq<u64>>, theta: u64) -> bool {
    exists|t: int| 0 <= t < m.len() && row_wipeout(#[trigger] m[t], theta)
}

/// Argument validation, in the order the checks are made: the alphabet
/// and matrix shape first, then the beam size, then the threshold bound,
/// then the scan for incomparable cells.
pub open spec fn validate(m: Seq<Seq<u64>>, w: int, beam_size: usize, theta: u64) -> Option<
    SearchError,
> {
    if w < 2 || !rectangular(m, w) {
        Some(SearchError::InvalidAlphabet)
    } else if beam_size == 0 {
        Some(SearchError::InvalidBeamSize)
    } else if !threshold_ok(theta, w) {
        Some(SearchError::InvalidThreshold)
    } else if has_incomparable(m) {
        Some(SearchError::IncomparableValues)
    } else {
        None
    }
}

/// The concatenation of the alphabet symbols named along a path.
pub open spec fn path_chars(alpha: Seq<Seq<char>>, p: Seq<(usize, usize)>) -> Seq<char>
    decreases p.len(),
{
    if p.len() == 0 {
        Seq::empty()
    } else {
        path_chars(alpha, p.drop_last()) + alpha[p.last().0 as int]
    }
}

/// The time component of each path entry, in order.
pub open spec fn path_times(p: Seq<(usize, usize)>) -> Seq<usize> {
    p.map_values(|e: (usize, usize)| e.1)
}

/// What a successful decode returns: the labels are the concatenated
/// symbols of some path of non-blank labels, the timesteps are that path's
/// times, one per label, non-decreasing and all inside `[0, t_len)`.
pub open spec fn decode_output_ok(
    alpha: Seq<Seq<char>>,
    labels: Seq<char>,
    times: Seq<usize>,
    t_len: int,
) -> bool {
    exists|p: Seq<(usize, usize)>|
        {
            &&& #[trigger] path_chars(alpha, p) == labels
            &&& path_times(p) == times
            &&& forall|i: int| 0 <= i < p.len() ==> 1 <= (#[trigger] p[i]).0 < alpha.len()
            &&& forall|i: int| 0 <= i < p.len() ==> (#[trigger] p[i]).1 < t_len
            &&& forall|i: int, j: int| 0 <= i <= j < p.len() ==> (#[trigger] p[i]).1 <= (#[trigger] p[j]).1
        }
}

/// One live prefix: a tree node and its blank-ending / non-blank-ending
/// path masses.
#[derive(Clone, Copy)]
pub struct BeamEntry {
    /// The prefix's node in the suffix tree.
    pub node: usize,
    /// Mass of the paths for this prefix that end in a blank.
    pub pb: u64,
    /// Mass of the paths for this prefix that end in its last label.
    pub pnb: u64,
}

/// A prefix's total mass, the score used for pruning and for the winner.
pub open spec fn escore(e: BeamEntry) -> u64 {
    spec_prob_add(e.pb, e.pnb)
}

/// Candidate `j` beats candidate `i`: a larger score, or an equal score
/// seen earlier (first-seen wins on ties).
pub open spec fn better(s: Seq<BeamEntry>, j: int, i: int) -> bool {
    escore(s[j]) > escore(s[i]) || (escore(s[j]) == escore(s[i]) && j < i)
}

/// How many of the first `m` candidates beat candidate `i`.
pub open spec fn count_better_upto(s: Seq<BeamEntry>, i: int, m: int) -> int
    decreases m,
{
    if m <= 0 {
        0
    } else {
        count_better_upto(s, i, m - 1) + if better(s, m - 1, i) {
            1int
        } else {
            0int
        }
    }
}

/// How many candidates beat candidate `i` overall: its pruning rank.
pub open spec fn rank(s: Seq<BeamEntry>, i: int) -> int {
    count_better_upto(s, i, s.len() as int)
}

/// The first `n` candidates whose rank is below `k`, in first-seen order.
pub open spec fn keep_upto(s: Seq<BeamEntry>, k: int, n: int) -> Seq<BeamEntry>
    decreases n,
{
    if n <= 0 {
        Seq::empty()
    } else {
        keep_upto(s, k, n - 1) + if rank(s, n - 1) < k {
            seq![s[n - 1]]
        } else {
            Seq::empty()
        }
    }
}

/// The stable top-`k` selection: exactly the candidates beaten by fewer
/// than `k` others, kept in first-seen order.
pub open spec fn prune_spec(s: Seq<BeamEntry>, k: int) -> Seq<BeamEntry> {
    keep_upto(s, k, s.len() as int)
}

/// Nothing beats `i`, so its rank is zero.
proof fn lemma_count_better_zero(s: Seq<BeamEntry>, i: int, m: int)
    requires
        forall|j: int| 0 <= j < m ==> !better(s, j, i),
    ensures
        count_better_upto(s, i, m) == 0,
    decreases m,
{
    if m > 0 {
        lemma_count_better_zero(s, i, m - 1);
    }
}


/// The winning slot from `i` on: the first index attaining the maximum
/// score.
pub open spec fn best_of(s: Seq<BeamEntry>, i: int) -> int
    decreases s.len() - i,
{
    if i + 1 >= s.len() {
        i
    } else {
        let b = best_of(s, i + 1);
        if escore(s[b]) > escore(s[i]) {
            b
        } else {
            i
        }
    }
}

/// `best_of` names a real slot that no other slot beats.
proof fn lemma_best_of_props(s: Seq<BeamEntry>, i: int)
    requires
        0 <= i < s.len(),
    ensures
        i <= best_of(s, i) < s.len(),
        forall|j: int|
            i <= j < s.len() ==> escore(#[trigger] s[j]) < escore(s[best_of(s, i)]) || (escore(
                s[j],
            ) == escore(s[best_of(s, i)]) && j >= best_of(s, i)),
    decreases s.len() - i,
{
    if i + 1 < s.len() {
        lemma_best_of_props(s, i + 1);
    }
}

/// The first index whose score is the maximum.
#[verifier::loop_isolation(false)]
pub fn best_index(cands: &Vec<BeamEntry>) -> (b: usize)
    requires
        cands@.len() >= 1,
    ensures
        b < cands@.len(),
        b == best_of(cands@, 0),
        forall|j: int|
            0 <= j < cands@.len() ==> escore(cands@[j]) < escore(cands@[b as int]) || (escore(
                cands@[j],
            ) == escore(cands@[b as int]) && j >= b),
{
    let mut b: usize = 0;
    let mut best: u64 = prob_add(cands[0].pb, cands[0].pnb);
    let n = cands.len();
    let mut i: usize = 1;
    while i < n
        invariant
            n == cands@.len(),
            b < i <= n,
            1 <= i,
            best == escore(cands@[b as int]),
            forall|j: int|
                0 <= j < i ==> escore(cands@[j]) < best || (escore(cands@[j]) == best && j >= b),
        decreases n - i,
    {
        let s = prob_add(cands[i].pb, cands[i].pnb);
        if s > best {
            b = i;
            best = s;
        }
        i += 1;
    }
    proof {
        lemma_best_of_props(cands@, 0);
    }
    b
}

/// Keeps the `k` best candidates, in first-seen order; ties go to the
/// candidate seen first. Keeps at least one candidate when any exists.
#[verifier::loop_isolation(false)]
pub fn prune(cands: &Vec<BeamEntry>, k: usize) -> (out: Vec<BeamEntry>)
    requires
        k >= 1,
    ensures
        out@ == prune_spec(cands@, k as int),
        cands@.len() >= 1 ==> out@.len() >= 1,
        forall|x: int|
            0 <= x < out@.len() ==> exists|i: int|
                0 <= i < cands@.len() && #[trigger] out@[x] == cands@[i],
{
    let n = cands.len();
    let mut out: Vec<BeamEntry> = Vec::new();
    if n == 0 {
        proof {
            assert(out@ =~= prune_spec(cands@, k as int));
        }
        return out;
    }
    let b = best_index(cands);
    let mut i: usize = 0;
    while i < n
        invariant
            n == cands@.len(),
            i <= n,
            b < n,
            k >= 1,
            out@ == keep_upto(cands@, k as int, i as int),
            forall|j: int|
                0 <= j < cands@.len() ==> escore(cands@[j]) < escore(cands@[b as int]) || (escore(
                    cands@[j],
                ) == escore(cands@[b as int]) && j >= b),
            i > b ==> out@.len() >= 1,
            forall|x: int|
                0 <= x < out@.len() ==> exists|ii: int|
                    0 <= ii < cands@.len() && #[trigger] out@[x] == cands@[ii],
        decreases n - i,
    {
        let mut cnt: usize = 0;
        let mut j: usize = 0;
        let si = prob_add(cands[i].pb, cands[i].pnb);
        while j < n
            invariant
                n == cands@.len(),
                j <= n,
                i < n,
                cnt <= j,
                si == escore(cands@[i as int]),
                cnt == count_better_upto(cands@, i as int, j as int),
            decreases n - j,
        {
            let sj = prob_add(cands[j].pb, cands[j].pnb);
            if sj > si || (sj == si && j < i) {
                cnt += 1;
            }
            j += 1;
        }
        if cnt < k {
            out.push(cands[i]);
            proof {
                assert(out@ =~= keep_upto(cands@, k as int, i + 1));
            }
        } else {
            proof {
                assert(i != b) by {
                    if i == b {
                        lemma_count_better_zero(cands@, b as int, n as int);
                    }
                }
                assert(out@ =~= keep_upto(cands@, k as int, i + 1));
            }
        }
        i += 1;
    }
    out
}



/// The accumulator after one contribution: the first slot already holding
/// `node` receives the masses, otherwise a new slot is appended.
pub open spec fn add_mass_spec(s: Seq<BeamEntry>, node: usize, db: u64, dnb: u64) -> Seq<
    BeamEntry,
> {
    let j = find_slot(s, node, 0);
    if j >= 0 {
        s.update(
            j,
            BeamEntry {
                node,
                pb: spec_prob_add(s[j].pb, db),
                pnb: spec_prob_add(s[j].pnb, dnb),
            },
        )
    } else {
        s.push(BeamEntry { node, pb: db, pnb: dnb })
    }
}

/// Looking a child up, or appending it, in the abstract tree: the model
/// of [`SuffixTree::get_or_create_child`] over (parent, label, time)
/// triples.
pub open spec fn child_step(tr: Seq<(usize, usize, usize)>, p: usize, l: usize, t: usize) -> (
    Seq<(usize, usize, usize)>,
    int,
) {
    let j = find_child(tr, p as int, l as int);
    if j >= 0 {
        (tr, j)
    } else {
        (tr.push((p, l, t)), tr.len() as int)
    }
}

/// One (prefix, label) routing step of the expansion: the CTC rules of
/// the search, stated over the abstract tree and the accumulator.
pub open spec fn route(
    tr: Seq<(usize, usize, usize)>,
    cs: Seq<BeamEntry>,
    e: BeamEntry,
    k: int,
    row: Seq<u64>,
    theta: u64,
    t: usize,
) -> (Seq<(usize, usize, usize)>, Seq<BeamEntry>) {
    if !(row[k] > theta) {
        (tr, cs)
    } else if k == 0 {
        (tr, add_mass_spec(cs, e.node, spec_prob_mul(spec_prob_add(e.pb, e.pnb), row[0]), 0))
    } else if k == tr[e.node as int].1 as int {
        let cs1 = add_mass_spec(cs, e.node, 0, spec_prob_mul(e.pnb, row[k]));
        let m = spec_prob_mul(e.pb, row[k]);
        if m > 0 {
            let pr = child_step(tr, e.node, k as usize, t);
            (pr.0, add_mass_spec(cs1, pr.1 as usize, 0, m))
        } else {
            (tr, cs1)
        }
    } else {
        let m = spec_prob_mul(spec_prob_add(e.pb, e.pnb), row[k]);
        if m > 0 {
            let pr = child_step(tr, e.node, k as usize, t);
            (pr.0, add_mass_spec(cs, pr.1 as usize, 0, m))
        } else {
            (tr, cs)
        }
    }
}

/// The routing steps of one beam entry, for the labels below `k`.
pub open spec fn entry_routes(
    tr: Seq<(usize, usize, usize)>,
    cs: Seq<BeamEntry>,
    e: BeamEntry,
    row: Seq<u64>,
    theta: u64,
    t: usize,
    k: int,
) -> (Seq<(usize, usize, usize)>, Seq<BeamEntry>)
    decreases k,
{
    if k <= 0 {
        (tr, cs)
    } else {
        let pr = entry_routes(tr, cs, e, row, theta, t, k - 1);
        route(pr.0, pr.1, e, k - 1, row, theta, t)
    }
}

/// The expansion of the first `i` beam entries.
pub open spec fn expand_upto(
    tr: Seq<(usize, usize, usize)>,
    beam: Seq<BeamEntry>,
    row: Seq<u64>,
    theta: u64,
    t: usize,
    i: int,
) -> (Seq<(usize, usize, usize)>, Seq<BeamEntry>)
    decreases i,
{
    if i <= 0 {
        (tr, Seq::empty())
    } else {
        let pr = expand_upto(tr, beam, row, theta, t, i - 1);
        entry_routes(pr.0, pr.1, beam[i - 1], row, theta, t, row.len() as int)
    }
}

/// One whole timestep of expansion, as a mathematical function: what
/// [`expand`] does to the abstract tree, and the candidates it returns.
pub open spec fn expand_spec(
    tr: Seq<(usize, usize, usize)>,
    beam: Seq<BeamEntry>,
    row: Seq<u64>,
    theta: u64,
    t: usize,
) -> (Seq<(usize, usize, usize)>, Seq<BeamEntry>) {
    expand_upto(tr, beam, row, theta, t, beam.len() as int)
}

/// The first candidate slot already holding `node`, from position `i` on;
/// negative when there is none.
pub open spec fn find_slot(s: Seq<BeamEntry>, node: usize, i: int) -> int
    decreases s.len() - i,
{
    if i < 0 || i >= s.len() {
        -1
    } else if s[i].node == node {
        i
    } else {
        find_slot(s, node, i + 1)
    }
}

/// Scanning past known non-matches does not change the slot found.
proof fn lemma_find_slot_skip(s: Seq<BeamEntry>, node: usize, i: int)
    requires
        0 <= i <= s.len(),
        forall|x: int| 0 <= x < i ==> (#[trigger] s[x]).node != node,
    ensures
        find_slot(s, node, 0) == find_slot(s, node, i),
    decreases i,
{
    if i > 0 {
        lemma_find_slot_skip(s, node, i - 1);
        assert(find_slot(s, node, i - 1) == find_slot(s, node, i));
    }
}

/// Adds blank mass `db` and non-blank mass `dnb` to the candidate for
/// `node`, creating the candidate if this is the node's first mass at this
/// timestep. Accumulation is associative: the masses are summed whatever
/// the order of the contributions.
#[verifier::loop_isolation(false)]
fn add_mass(cands: &mut Vec<BeamEntry>, node: usize, db: u64, dnb: u64)
    ensures
        final(cands)@.len() >= old(cands)@.len(),
        final(cands)@.len() >= 1,
        final(cands)@ == add_mass_spec(old(cands)@, node, db, dnb),
        forall|x: int|
            0 <= x < final(cands)@.len() ==> (#[trigger] final(cands)@[x]).node == node || exists|
                i: int,
            | 0 <= i < old(cands)@.len() && final(cands)@[x].node == (#[trigger] old(
                cands,
            )@[i]).node,
{
    let n = cands.len();
    let mut i: usize = 0;
    while i < n
        invariant
            n == cands@.len(),
            i <= n,
            cands@ == old(cands)@,
            forall|x: int| 0 <= x < i ==> (#[trigger] cands@[x]).node != node,
        decreases n - i,
    {
        if cands[i].node == node {
            proof {
                lemma_find_slot_skip(cands@, node, i as int);
                assert(find_slot(cands@, node, i as int) == i);
            }
            let e = cands[i];
            let upd = BeamEntry { node, pb: prob_add(e.pb, db), pnb: prob_add(e.pnb, dnb) };
            cands.set(i, upd);
            return ;
        }
        i += 1;
    }
    proof {
        lemma_find_slot_skip(cands@, node, n as int);
        assert(find_slot(cands@, node, n as int) == -1);
    }
    cands.push(BeamEntry { node, pb: db, pnb: dnb });
}


/// The decoder's state at the start of a decode: a root-only tree and
/// the root prefix with unit blank mass.
pub open spec fn init_state() -> (Seq<(usize, usize, usize)>, Seq<BeamEntry>) {
    (seq![(0usize, 0usize, 0usize)], seq![BeamEntry { node: 0usize, pb: PROB_ONE, pnb: 0u64 }])
}

/// One whole timestep of the decode: expansion, then death when nothing
/// survived the threshold, else pruning to the beam size.
pub open spec fn decode_step(
    st: Option<(Seq<(usize, usize, usize)>, Seq<BeamEntry>)>,
    row: Seq<u64>,
    theta: u64,
    beam_size: usize,
    t: usize,
) -> Option<(Seq<(usize, usize, usize)>, Seq<BeamEntry>)> {
    match st {
        None => None,
        Some(pr) => {
            let ex = expand_spec(pr.0, pr.1, row, theta, t);
            if ex.1.len() == 0 {
                None
            } else {
                Some((ex.0, prune_spec(ex.1, beam_size as int)))
            }
        },
    }
}

/// The abstract decoder state after the first `t` timesteps; `None` once
/// the beam has died.
pub open spec fn decode_upto(m: Seq<Seq<u64>>, theta: u64, beam_size: usize, t: int) -> Option<
    (Seq<(usize, usize, usize)>, Seq<BeamEntry>),
>
    decreases t,
{
    if t <= 0 {
        Some(init_state())
    } else {
        decode_step(decode_upto(m, theta, beam_size, t - 1), m[t - 1], theta, beam_size, (t
            - 1) as usize)
    }
}

/// A dead beam stays dead for every later timestep.
proof fn lemma_decode_dead(m: Seq<Seq<u64>>, theta: u64, beam_size: usize, t1: int, t2: int)
    requires
        0 <= t1 <= t2,
        decode_upto(m, theta, beam_size, t1) is None,
    ensures
        decode_upto(m, theta, beam_size, t2) is None,
    decreases t2 - t1,
{
    if t2 > t1 {
        lemma_decode_dead(m, theta, beam_size, t1, t2 - 1);
    }
}

/// One routing step: what one live prefix contributes for one label, by
/// the CTC rules (see [`route`], which this function implements exactly).
#[verifier::rlimit(100)]
#[verifier::loop_isolation(false)]
fn route_exec(
    tree: &mut SuffixTree,
    cands: &mut Vec<BeamEntry>,
    e: BeamEntry,
    k: usize,
    row: &Vec<u64>,
    theta: u64,
    t: usize,
)
    requires
        tree_wf(old(tree)@),
        times_le(old(tree)@, t as int),
        labels_lt(old(tree)@, row@.len() as int),
        e.node < old(tree)@.len(),
        k < row@.len(),
        forall|x: int|
            0 <= x < old(cands)@.len() ==> (#[trigger] old(cands)@[x]).node < old(tree)@.len(),
    ensures
        tree_wf(final(tree)@),
        times_le(final(tree)@, t as int),
        labels_lt(final(tree)@, row@.len() as int),
        final(tree)@.len() >= old(tree)@.len(),
        forall|i: int|
            0 <= i < old(tree)@.len() ==> {
                &&& (#[trigger] final(tree)@[i]).parent == old(tree)@[i].parent
                &&& final(tree)@[i].label == old(tree)@[i].label
                &&& final(tree)@[i].time == old(tree)@[i].time
            },
        forall|x: int|
            0 <= x < final(cands)@.len() ==> (#[trigger] final(cands)@[x]).node < final(tree)@.len(),
        final(cands)@.len() >= old(cands)@.len(),
        row@[k as int] > theta && (k == 0 || k == old(tree)@[e.node as int].label)
            ==> final(cands)@.len() >= 1,
        tree_abs(final(tree)@) == route(
            tree_abs(old(tree)@),
            old(cands)@,
            e,
            k as int,
            row@,
            theta,
            t,
        ).0,
        final(cands)@ == route(
            tree_abs(old(tree)@),
            old(cands)@,
            e,
            k as int,
            row@,
            theta,
            t,
        ).1,
{
    let ghost pre_tr = tree_abs(tree@);
    let ghost pre_cs = cands@;
    let node_label = tree.label_at(e.node);
    let p = row[k];
    if p > theta {
        if k == 0 {
            // blank: the prefix stays, all mass moves to its blank channel
            let total = prob_add(e.pb, e.pnb);
            add_mass(cands, e.node, prob_mul(total, p), 0);
        } else if k == node_label {
            // repeat without a blank: collapses onto the same prefix
            add_mass(cands, e.node, 0, prob_mul(e.pnb, p));
            // repeat after a blank: a genuinely longer prefix
            let m = prob_mul(e.pb, p);
            if m > 0 {
                let child = tree.get_or_create_child(e.node, k, t);
                add_mass(cands, child, 0, m);
                proof {
                    assert(tree_abs(tree@) == child_step(pre_tr, e.node, k, t).0);
                    assert(child == child_step(pre_tr, e.node, k, t).1);
                }
            }
        } else {
            // a different label always extends the prefix
            let total = prob_add(e.pb, e.pnb);
            let m = prob_mul(total, p);
            if m > 0 {
                let child = tree.get_or_create_child(e.node, k, t);
                add_mass(cands, child, 0, m);
                proof {
                    assert(tree_abs(tree@) == child_step(pre_tr, e.node, k, t).0);
                    assert(child == child_step(pre_tr, e.node, k, t).1);
                }
            }
        }
    }
    proof {
        assert(pre_tr[e.node as int].1 == node_label);
        assert(tree_abs(tree@) == route(pre_tr, pre_cs, e, k as int, row@, theta, t).0);
        assert(cands@ == route(pre_tr, pre_cs, e, k as int, row@, theta, t).1);
    }
}

/// One timestep of beam expansion. For every live prefix and every label
/// whose probability clears the threshold, mass is routed by the CTC
/// rules: a blank keeps the prefix and feeds its blank channel; repeating
/// the prefix's last label feeds its non-blank channel, and may also
/// extend the prefix (only the mass that passed through a blank, keeping
/// two identical labels distinct); any other label extends the prefix.
/// A prefix is extended only for mass that is still positive, so a node
/// is created only when its prefix genuinely enters the beam. The result
/// is exactly [`expand_spec`] of the beam.
#[verifier::rlimit(100)]
#[verifier::loop_isolation(false)]
fn expand(
    tree: &mut SuffixTree,
    beam: &Vec<BeamEntry>,
    row: &Vec<u64>,
    theta: u64,
    t: usize,
) -> (cands: Vec<BeamEntry>)
    requires
        tree_wf(old(tree)@),
        times_le(old(tree)@, t as int),
        labels_lt(old(tree)@, row@.len() as int),
        forall|i: int| 0 <= i < beam@.len() ==> (#[trigger] beam@[i]).node < old(tree)@.len(),
        row@.len() >= 1,
    ensures
        tree_wf(final(tree)@),
        times_le(final(tree)@, t as int),
        labels_lt(final(tree)@, row@.len() as int),
        final(tree)@.len() >= old(tree)@.len(),
        forall|x: int|
            0 <= x < cands@.len() ==> (#[trigger] cands@[x]).node < final(tree)@.len(),
        beam@.len() > 0 && row@[0] > theta ==> cands@.len() > 0,
        row_wipeout(row@, theta) ==> cands@.len() == 0,
        tree_abs(final(tree)@) == expand_spec(tree_abs(old(tree)@), beam@, row@, theta, t).0,
        cands@ == expand_spec(tree_abs(old(tree)@), beam@, row@, theta, t).1,
{
    let mut cands: Vec<BeamEntry> = Vec::new();
    let n = beam.len();
    let w = row.len();
    let ghost tr0 = tree_abs(old(tree)@);
    let mut i: usize = 0;
    while i < n
        invariant
            n == beam@.len(),
            w == row@.len(),
            w >= 1,
            i <= n,
            tree_wf(tree@),
            times_le(tree@, t as int),
            labels_lt(tree@, w as int),
            tree@.len() >= old(tree)@.len(),
            forall|x: int| 0 <= x < beam@.len() ==> (#[trigger] beam@[x]).node < tree@.len(),
            forall|x: int| 0 <= x < cands@.len() ==> (#[trigger] cands@[x]).node < tree@.len(),
            i > 0 && row@[0] > theta ==> cands@.len() > 0,
            row_wipeout(row@, theta) ==> cands@.len() == 0,
            tree_abs(tree@) == expand_upto(tr0, beam@, row@, theta, t, i as int).0,
            cands@ == expand_upto(tr0, beam@, row@, theta, t, i as int).1,
        decreases n - i,
    {
        let e = beam[i];
        let ghost tr_i = tree_abs(tree@);
        let ghost cs_i = cands@;
        let mut k: usize = 0;
        while k < w
            invariant
                n == beam@.len(),
                w == row@.len(),
                w >= 1,
                i < n,
                k <= w,
                e == beam@[i as int],
                tree_wf(tree@),
                times_le(tree@, t as int),
                labels_lt(tree@, w as int),
                tree@.len() >= old(tree)@.len(),
                e.node < tree@.len(),
                forall|x: int| 0 <= x < beam@.len() ==> (#[trigger] beam@[x]).node < tree@.len(),
                forall|x: int| 0 <= x < cands@.len() ==> (#[trigger] cands@[x]).node < tree@.len(),
                (i > 0 || k > 0) && row@[0] > theta ==> cands@.len() > 0,
                row_wipeout(row@, theta) ==> cands@.len() == 0,
                tr_i == expand_upto(tr0, beam@, row@, theta, t, i as int).0,
                cs_i == expand_upto(tr0, beam@, row@, theta, t, i as int).1,
                tree_abs(tree@) == entry_routes(tr_i, cs_i, e, row@, theta, t, k as int).0,
                cands@ == entry_routes(tr_i, cs_i, e, row@, theta, t, k as int).1,
            decreases w - k,
        {
            route_exec(tree, &mut cands, e, k, row, theta, t);
            k += 1;
        }
        i += 1;
    }
    cands
}

/// True exactly when every row of the matrix has `w` columns.
#[verifier::loop_isolation(false)]
pub(crate) fn matrix_rect(net: &Vec<Vec<u64>>, w: usize) -> (r: bool)
    ensures
        r == rectangular(mat_view(*net), w as int),
{
    let ghost m = mat_view(*net);
    let n = net.len();
    let mut t: usize = 0;
    while t < n
        invariant
            t <= n,
            forall|t2: int| 0 <= t2 < t ==> (#[trigger] m[t2]).len() == w,
        decreases n - t,
    {
        if net[t].len() != w {
            proof {
                assert(m[t as int].len() != w);
            }
            return false;
        }
        t += 1;
    }
    true
}

/// True exactly when no cell holds the incomparable marker.
#[verifier::loop_isolation(false)]
pub(crate) fn matrix_clean(net: &Vec<Vec<u64>>) -> (r: bool)
    ensures
        r == !has_incomparable(mat_view(*net)),
{
    let ghost m = mat_view(*net);
    let n = net.len();
    let mut t: usize = 0;
    while t < n
        invariant
            t <= n,
            forall|t2: int, k2: int|
                0 <= t2 < t && 0 <= k2 < m[t2].len() ==> #[trigger] m[t2][k2] != INCOMPARABLE,
        decreases n - t,
    {
        let row = &net[t];
        let wr = row.len();
        let mut k: usize = 0;
        while k < wr
            invariant
                t < n,
                k <= wr,
                row@ == m[t as int],
                forall|k2: int| 0 <= k2 < k ==> #[trigger] m[t as int][k2] != INCOMPARABLE,
            decreases wr - k,
        {
            if row[k] == INCOMPARABLE {
                assert(has_incomparable(m));
                return false;
            }
            k += 1;
        }
        t += 1;
    }
    true
}

/// Decodes one network output by CTC prefix beam search.
///
/// The matrix rows are timesteps; the columns follow `alphabet`, whose
/// first symbol is the blank and is never emitted. Cells are fixed-point
/// probabilities (see [`crate::prob`]); a cell equal to
/// [`crate::prob::INCOMPARABLE`] marks a value that does not compare and
/// is rejected up front. On success the labels are the winning prefix's
/// symbols and `timesteps` gives, per label, the timestep at which that
/// label first entered the beam.
#[verifier::loop_isolation(false)]
pub fn beam_search(
    network: &Vec<Vec<u64>>,
    alphabet: &Vec<String>,
    beam_size: usize,
    beam_cut_threshold: u64,
) -> (r: Result<(String, Vec<usize>), SearchError>)
    ensures
        ({
            let m = mat_view(*network);
            let a = alpha_view(*alphabet);
            &&& (validate(m, a.len() as int, beam_size, beam_cut_threshold) matches Some(e) ==> r
                == Err::<(String, Vec<usize>), SearchError>(e))
            &&& (validate(m, a.len() as int, beam_size, beam_cut_threshold) is None ==> {
                &&& (any_wipeout(m, beam_cut_threshold) ==> r == Err::<
                    (String, Vec<usize>),
                    SearchError,
                >(SearchError::RanOutOfBeam))
                &&& (r is Err ==> r == Err::<(String, Vec<usize>), SearchError>(
                    SearchError::RanOutOfBeam,
                ) && exists|t: int| 0 <= t < m.len() && #[trigger] m[t][0] <= beam_cut_threshold)
                &&& ((forall|t: int| 0 <= t < m.len() ==> #[trigger] m[t][0] > beam_cut_threshold)
                    ==> r is Ok)
                &&& (r matches Ok(out) ==> decode_output_ok(a, out.0@, out.1@, m.len() as int))
                &&& (m.len() == 0 ==> (r matches Ok(out) && out.0@ == Seq::<char>::empty()
                    && out.1@ == Seq::<usize>::empty()))
                &&& (r is Err <==> decode_upto(m, beam_cut_threshold, beam_size, m.len() as int)
                    is None)
                &&& (decode_upto(m, beam_cut_threshold, beam_size, m.len() as int) matches Some(st)
                    ==> (r matches Ok(out) && out.0@ == path_chars(
                    a,
                    path_abs(st.0, st.1[best_of(st.1, 0)].node as int),
                ) && out.1@ == path_times(path_abs(st.0, st.1[best_of(st.1, 0)].node as int))))
            })
        }),
{
    let theta = beam_cut_threshold;
    let w = alphabet.len();
    let tlen = network.len();
    let ghost m = mat_view(*network);
    let ghost a = alpha_view(*alphabet);

    // argument validation, in a fixed order, before any decode work
    if w < 2 {
        return Err(SearchError::InvalidAlphabet);
    }
    if !matrix_rect(network, w) {
        return Err(SearchError::InvalidAlphabet);
    }
    if beam_size == 0 {
        return Err(SearchError::InvalidBeamSize);
    }
    proof {
        assert(theta * w <= 0xFFFF_FFFF_FFFF_FFFFu64 * 0xFFFF_FFFF_FFFF_FFFFu64) by (nonlinear_arith)
            requires theta <= 0xFFFF_FFFF_FFFF_FFFFu64, w <= 0xFFFF_FFFF_FFFF_FFFFu64,
        ;
    }
    if (theta as u128) * (w as u128) >= PROB_ONE as u128 {
        return Err(SearchError::InvalidThreshold);
    }
    if !matrix_clean(network) {
        return Err(SearchError::IncomparableValues);
    }
    assert(validate(m, a.len() as int, beam_size, theta) is None);

    // the decode proper
    let mut tree = SuffixTree::new();
    let mut beam: Vec<BeamEntry> = Vec::new();
    beam.push(BeamEntry { node: 0, pb: PROB_ONE, pnb: 0 });
    proof {
        assert(tree_abs(tree@) =~= init_state().0);
        assert(beam@ =~= init_state().1);
    }
    let mut t: usize = 0;
    while t < tlen
        invariant
            tlen == m.len(),
            w == a.len(),
            w >= 2,
            rectangular(m, w as int),
            t <= tlen,
            tree_wf(tree@),
            labels_lt(tree@, w as int),
            times_le(tree@, if t == 0 { 0int } else { t - 1 }),
            beam@.len() >= 1,
            forall|x: int| 0 <= x < beam@.len() ==> (#[trigger] beam@[x]).node < tree@.len(),
            forall|t2: int| 0 <= t2 < t ==> !row_wipeout(#[trigger] m[t2], theta),
            t == 0 ==> tree@.len() == 1 && beam@.len() == 1 && beam@[0].node == 0,
            Some((tree_abs(tree@), beam@)) == decode_upto(m, theta, beam_size, t as int),
        decreases tlen - t,
    {
        let row = &network[t];
        proof {
            assert(row@ == m[t as int]);
            assert(times_le(tree@, t as int));
        }
        let cands = expand(&mut tree, &beam, row, theta, t);
        if cands.len() == 0 {
            proof {
                assert(m[t as int][0] <= theta);
                assert(decode_upto(m, theta, beam_size, t + 1) is None);
                lemma_decode_dead(m, theta, beam_size, t + 1, m.len() as int);
            }
            return Err(SearchError::RanOutOfBeam);
        }
        proof {
            assert(!row_wipeout(m[t as int], theta));
        }
        beam = prune(&cands, beam_size);
        t += 1;
    }
    proof {
        assert(!any_wipeout(m, theta));
    }

    // finalise: take the winning prefix and materialise its labelling
    let b = best_index(&beam);
    let node = beam[b].node;
    let p = tree.path(node);
    proof {
        lemma_path_wf(tree@, node as int);
        assert(times_le(tree@, if tlen == 0 { 0int } else { tlen - 1 }));
    }
    let plen = p.len();
    let mut labels = String::new();
    let mut times: Vec<usize> = Vec::new();
    let mut x: usize = 0;
    while x < plen
        invariant
            plen == p@.len(),
            x <= plen,
            w == a.len(),
            w == alphabet@.len(),
            p@ == path_spec(tree@, node as int),
            node < tree@.len(),
            tree_wf(tree@),
            labels_lt(tree@, w as int),
            labels@ == path_chars(a, p@.take(x as int)),
            times@ == path_times(p@.take(x as int)),
        decreases plen - x,
    {
        let e = p[x];
        proof {
            assert(p@[x as int].0 >= 1 && p@[x as int].0 < w);
            assert(p@.take(x + 1).drop_last() =~= p@.take(x as int));
            assert(p@.take(x + 1).last() == p@[x as int]);
            assert(a[e.0 as int] == alphabet@[e.0 as int]@);
        }
        labels.append(alphabet[e.0].as_str());
        times.push(e.1);
        proof {
            assert(path_times(p@.take(x + 1)) =~= path_times(p@.take(x as int)).push(e.1));
        }
        x += 1;
    }
    proof {
        assert(p@.take(plen as int) =~= p@);
        assert(path_chars(a, p@) == labels@);
        assert(path_times(p@) =~= times@);
        lemma_path_abs(tree@, node as int);
        assert(decode_upto(m, theta, beam_size, m.len() as int) matches Some(st) && st.0
            == tree_abs(tree@) && st.1 == beam@);
        if tlen > 0 {
            assert(forall|i: int|
                0 <= i < p@.len() ==> (#[trigger] p@[i]).1 <= tree@[node as int].time);
            assert(tree@[node as int].time <= tlen - 1);
        } else {
            assert(tree@.len() == 1 && node == 0);
            assert(p@ =~= Seq::<(usize, usize)>::empty());
        }
        assert(decode_output_ok(a, labels@, times@, m.len() as int));
        if m.len() == 0 {
            assert(p@ =~= Seq::<(usize, usize)>::empty());
            assert(labels@ =~= Seq::<char>::empty());
            assert(times@ =~= Seq::<usize>::empty());
        }
    }
    Ok((labels, times))
}


/// One character per emitted label: when every alphabet symbol is a single
/// character, the concatenated labels of a path have exactly one character
/// per path entry, so the label string and the timestep sequence returned
/// by a decode have equal lengths.
pub proof fn lemma_one_label_per_timestep(alpha: Seq<Seq<char>>, p: Seq<(usize, usize)>)
    requires
        forall|i: int| 0 <= i < alpha.len() ==> (#[trigger] alpha[i]).len() == 1,
        forall|i: int| 0 <= i < p.len() ==> 0 <= (#[trigger] p[i]).0 < alpha.len(),
    ensures
        path_chars(alpha, p).len() == p.len(),
        path_times(p).len() == p.len(),
    decreases p.len(),
{
    if p.len() > 0 {
        lemma_one_label_per_timestep(alpha, p.drop_last());
        assert(p.last() == p[p.len() - 1]);
    }
}

/// Widening every row by one cell that does not clear the threshold
/// leaves wipeout unchanged: a timestep empties the beam on the widened
/// matrix exactly when it does on the narrower one.
pub proof fn lemma_below_threshold_column_keeps_wipeout(
    m: Seq<Seq<u64>>,
    mx: Seq<Seq<u64>>,
    theta: u64,
)
    requires
        mx.len() == m.len(),
        forall|t: int| 0 <= t < m.len() ==> (#[trigger] mx[t]).len() == m[t].len() + 1,
        forall|t: int, k: int|
            0 <= t < m.len() && 0 <= k < m[t].len() ==> #[trigger] mx[t][k] == m[t][k],
        forall|t: int| 0 <= t < m.len() ==> #[trigger] mx[t][m[t].len() as int] <= theta,
    ensures
        any_wipeout(mx, theta) <==> any_wipeout(m, theta),
        forall|t: int|
            0 <= t < m.len() ==> (row_wipeout(#[trigger] mx[t], theta) <==> row_wipeout(
                m[t],
                theta,
            )),
{
    assert forall|t: int|
        0 <= t < m.len() implies (row_wipeout(#[trigger] mx[t], theta) <==> row_wipeout(
        m[t],
        theta,
    )) by {
        if row_wipeout(m[t], theta) {
            assert forall|k: int| 0 <= k < mx[t].len() implies #[trigger] mx[t][k] <= theta by {
                if k < m[t].len() {
                    assert(m[t][k] <= theta);
                } else {
                    assert(k == m[t].len());
                }
            }
        }
        if row_wipeout(mx[t], theta) {
            assert forall|k: int| 0 <= k < m[t].len() implies #[trigger] m[t][k] <= theta by {
                assert(mx[t][k] <= theta);
            }
        }
    }
    if any_wipeout(m, theta) {
        let t = choose|t: int| 0 <= t < m.len() && row_wipeout(#[trigger] m[t], theta);
        assert(row_wipeout(mx[t], theta));
    }
    if any_wipeout(mx, theta) {
        let t = choose|t: int| 0 <= t < mx.len() && row_wipeout(#[trigger] mx[t], theta);
        assert(row_wipeout(m[t], theta));
    }
}


/// One routing step sees only the shared cells, so an extra trailing
/// cell changes nothing for the labels before it.
proof fn lemma_route_column(
    tr: Seq<(usize, usize, usize)>,
    cs: Seq<BeamEntry>,
    e: BeamEntry,
    k: int,
    row: Seq<u64>,
    c: u64,
    theta: u64,
    t: usize,
)
    requires
        0 <= k < row.len(),
    ensures
        route(tr, cs, e, k, row.push(c), theta, t) == route(tr, cs, e, k, row, theta, t),
{
    assert(row.push(c)[k] == row[k]);
    assert(row.push(c)[0] == row[0]);
}

/// The routing steps for the first `k` labels ignore an extra cell.
proof fn lemma_entry_routes_column(
    tr: Seq<(usize, usize, usize)>,
    cs: Seq<BeamEntry>,
    e: BeamEntry,
    row: Seq<u64>,
    c: u64,
    theta: u64,
    t: usize,
    k: int,
)
    requires
        0 <= k <= row.len(),
    ensures
        entry_routes(tr, cs, e, row.push(c), theta, t, k) == entry_routes(tr, cs, e, row, theta, t, k),
    decreases k,
{
    if k > 0 {
        lemma_entry_routes_column(tr, cs, e, row, c, theta, t, k - 1);
        let pr = entry_routes(tr, cs, e, row, theta, t, k - 1);
        lemma_route_column(pr.0, pr.1, e, k - 1, row, c, theta, t);
    }
}

/// A whole entry's expansion ignores an extra below-threshold cell: the
/// one extra routing step never clears the threshold.
proof fn lemma_entry_all_column(
    tr: Seq<(usize, usize, usize)>,
    cs: Seq<BeamEntry>,
    e: BeamEntry,
    row: Seq<u64>,
    c: u64,
    theta: u64,
    t: usize,
)
    requires
        c <= theta,
    ensures
        entry_routes(tr, cs, e, row.push(c), theta, t, row.push(c).len() as int) == entry_routes(
            tr,
            cs,
            e,
            row,
            theta,
            t,
            row.len() as int,
        ),
{
    lemma_entry_routes_column(tr, cs, e, row, c, theta, t, row.len() as int);
    assert(row.push(c)[row.len() as int] == c);
}

/// A whole timestep's expansion ignores an extra below-threshold cell.
proof fn lemma_expand_upto_column(
    tr: Seq<(usize, usize, usize)>,
    beam: Seq<BeamEntry>,
    row: Seq<u64>,
    c: u64,
    theta: u64,
    t: usize,
    i: int,
)
    requires
        c <= theta,
        0 <= i <= beam.len(),
    ensures
        expand_upto(tr, beam, row.push(c), theta, t, i) == expand_upto(tr, beam, row, theta, t, i),
    decreases i,
{
    if i > 0 {
        lemma_expand_upto_column(tr, beam, row, c, theta, t, i - 1);
        let pr = expand_upto(tr, beam, row, theta, t, i - 1);
        lemma_entry_all_column(pr.0, pr.1, beam[i - 1], row, c, theta, t);
    }
}

/// Appending one below-threshold cell to every row leaves the whole
/// decode unchanged: after any number of timesteps the same prefixes
/// survive, with the same masses, the same tree and the same timings,
/// and the beam dies at a timestep on the widened matrix exactly when
/// it does on the narrower one. The labels of a decode, and its
/// timesteps, are therefore unchanged by such a column.
pub proof fn lemma_below_threshold_column_keeps_decode(
    m: Seq<Seq<u64>>,
    mx: Seq<Seq<u64>>,
    theta: u64,
    beam_size: usize,
    t: int,
)
    requires
        0 <= t <= m.len(),
        mx.len() == m.len(),
        forall|t2: int| 0 <= t2 < m.len() ==> (#[trigger] mx[t2]).len() == m[t2].len() + 1,
        forall|t2: int, k: int|
            0 <= t2 < m.len() && 0 <= k < m[t2].len() ==> #[trigger] mx[t2][k] == m[t2][k],
        forall|t2: int| 0 <= t2 < m.len() ==> #[trigger] mx[t2][m[t2].len() as int] <= theta,
    ensures
        decode_upto(mx, theta, beam_size, t) == decode_upto(m, theta, beam_size, t),
    decreases t,
{
    if t > 0 {
        lemma_below_threshold_column_keeps_decode(m, mx, theta, beam_size, t - 1);
        let c = mx[t - 1][m[t - 1].len() as int];
        assert(mx[t - 1] =~= m[t - 1].push(c));
        match decode_upto(m, theta, beam_size, t - 1) {
            None => {},
            Some(pr) => {
                lemma_expand_upto_column(
                    pr.0,
                    pr.1,
                    m[t - 1],
                    c,
                    theta,
                    (t - 1) as usize,
                    pr.1.len() as int,
                );
            },
        }
    }
}

} // verus!
