//! Dual-sequence ("duplex") CTC beam search.
//!
//! Jointly decodes two network outputs believed to describe the same
//! underlying sequence. Beam entries pair a labelling prefix with an
//! alignment position into the second matrix; expansion over the first
//! matrix re-runs the blank / repeat / extend rules against the second
//! matrix inside a caller-supplied (or default, whole-matrix) row
//! envelope, combining the two probability streams multiplicatively.
//! Rows of the second matrix skipped while aligning an extension
//! contribute their blank probability. Only the winning labelling is
//! returned: the two networks disagree on timing, so no timesteps are.

use vstd::prelude::*;

use crate::SearchError;
use crate::prob::{PROB_ONE, INCOMPARABLE, spec_prob_add, spec_prob_mul, prob_add, prob_mul};
use crate::search::{
    mat_view, alpha_view, rectangular, has_incomparable, threshold_ok, row_wipeout, any_wipeout,
    path_chars, matrix_rect, matrix_clean, child_step,
};
use crate::tree::{
    SuffixTree, tree_wf, times_le, labels_lt, path_spec, lemma_path_wf, tree_abs, path_abs,
    lemma_path_abs,
};

verus! {

use vstd::string::StringExecFns;

/// The envelope rows are sane: each window `[lo, hi)` is ordered and lies
/// inside the second matrix, both bounds are non-decreasing from row to
/// row, the first window starts at 0 and the last ends at the second
/// matrix's length.
pub open spec fn envelope_rows_ok(env: Seq<(usize, usize)>, t2len: int) -> bool {
    &&& forall|i: int| 0 <= i < env.len() ==> (#[trigger] env[i]).0 <= env[i].1 && env[i].1 <= t2len
    &&& forall|i: int|
        0 <= i < env.len() - 1 ==> (#[trigger] env[i]).0 <= env[i + 1].0 && env[i].1 <= env[i
            + 1].1
    &&& env.len() > 0 ==> env[0].0 == 0 && env[env.len() - 1].1 == t2len
}

/// A valid envelope: one sane window per row of the first matrix.
pub open spec fn envelope_ok(env: Seq<(usize, usize)>, t1len: int, t2len: int) -> bool {
    env.len() == t1len && envelope_rows_ok(env, t2len)
}

/// Argument validation for the duplex search, in the order the checks are
/// made: alphabet and both shapes, beam size, threshold, the scan of both
/// matrices for incomparable cells, then the envelope when one is given.
pub open spec fn validate_duplex(
    m1: Seq<Seq<u64>>,
    m2: Seq<Seq<u64>>,
    w: int,
    beam_size: usize,
    theta: u64,
    env: Option<Seq<(usize, usize)>>,
) -> Option<SearchError> {
    if w < 2 || !rectangular(m1, w) || !rectangular(m2, w) {
        Some(SearchError::InvalidAlphabet)
    } else if beam_size == 0 {
        Some(SearchError::InvalidBeamSize)
    } else if !threshold_ok(theta, w) {
        Some(SearchError::InvalidThreshold)
    } else if has_incomparable(m1) || has_incomparable(m2) {
        Some(SearchError::IncomparableValues)
    } else if env matches Some(e) && !envelope_ok(e, m1.len() as int, m2.len() as int) {
        Some(SearchError::InvalidEnvelope)
    } else {
        None
    }
}

/// What a successful duplex decode returns: the concatenated symbols of
/// some path of non-blank labels.
pub open spec fn duplex_output_ok(alpha: Seq<Seq<char>>, labels: Seq<char>) -> bool {
    exists|p: Seq<(usize, usize)>|
        {
            &&& #[trigger] path_chars(alpha, p) == labels
            &&& forall|i: int| 0 <= i < p.len() ==> 1 <= (#[trigger] p[i]).0 < alpha.len()
        }
}

/// One live joint prefix: a tree node, the alignment position reached in
/// the second matrix, and the joint blank-ending / non-blank-ending mass.
#[derive(Clone, Copy)]
pub struct DuplexEntry {
    /// The prefix's node in the suffix tree.
    pub node: usize,
    /// The first row of the second matrix not yet consumed by alignment.
    pub pos2: usize,
    /// Joint mass of the aligned path pairs ending in a blank.
    pub pb: u64,
    /// Joint mass of the aligned path pairs ending in the last label.
    pub pnb: u64,
}

/// A joint prefix's total mass, the score used for pruning and winning.
pub open spec fn dscore(e: DuplexEntry) -> u64 {
    spec_prob_add(e.pb, e.pnb)
}

/// Candidate `j` beats candidate `i`: larger score, or equal and earlier.
pub open spec fn dbetter(s: Seq<DuplexEntry>, j: int, i: int) -> bool {
    dscore(s[j]) > dscore(s[i]) || (dscore(s[j]) == dscore(s[i]) && j < i)
}

/// How many of the first `m` candidates beat candidate `i`.
pub open spec fn dcount_better_upto(s: Seq<DuplexEntry>, i: int, m: int) -> int
    decreases m,
{
    if m <= 0 {
        0
    } else {
        dcount_better_upto(s, i, m - 1) + if dbetter(s, m - 1, i) {
            1int
        } else {
            0int
        }
    }
}

/// How many candidates beat candidate `i` overall.
pub open spec fn drank(s: Seq<DuplexEntry>, i: int) -> int {
    dcount_better_upto(s, i, s.len() as int)
}

/// The first `n` candidates of rank below `k`, in first-seen order.
pub open spec fn dkeep_upto(s: Seq<DuplexEntry>, k: int, n: int) -> Seq<DuplexEntry>
    decreases n,
{
    if n <= 0 {
        Seq::empty()
    } else {
        dkeep_upto(s, k, n - 1) + if drank(s, n - 1) < k {
            seq![s[n - 1]]
        } else {
            Seq::empty()
        }
    }
}

/// The stable top-`k` selection over joint candidates.
pub open spec fn dprune_spec(s: Seq<DuplexEntry>, k: int) -> Seq<DuplexEntry> {
    dkeep_upto(s, k, s.len() as int)
}

/// Nothing beats `i`, so its rank is zero.
proof fn lemma_dcount_better_zero(s: Seq<DuplexEntry>, i: int, m: int)
    requires
        forall|j: int| 0 <= j < m ==> !dbetter(s, j, i),
    ensures
        dcount_better_upto(s, i, m) == 0,
    decreases m,
{
    if m > 0 {
        lemma_dcount_better_zero(s, i, m - 1);
    }
}

/// The winning slot from `i` on: the first index attaining the maximum
/// joint score.
pub open spec fn dbest_of(s: Seq<DuplexEntry>, i: int) -> int
    decreases s.len() - i,
{
    if i + 1 >= s.len() {
        i
    } else {
        let b = dbest_of(s, i + 1);
        if dscore(s[b]) > dscore(s[i]) {
            b
        } else {
            i
        }
    }
}

/// `dbest_of` names a real slot that no other slot beats.
proof fn lemma_dbest_of_props(s: Seq<DuplexEntry>, i: int)
    requires
        0 <= i < s.len(),
    ensures
        i <= dbest_of(s, i) < s.len(),
        forall|j: int|
            i <= j < s.len() ==> dscore(#[trigger] s[j]) < dscore(s[dbest_of(s, i)]) || (dscore(
                s[j],
            ) == dscore(s[dbest_of(s, i)]) && j >= dbest_of(s, i)),
    decreases s.len() - i,
{
    if i + 1 < s.len() {
        lemma_dbest_of_props(s, i + 1);
    }
}

/// The first index whose joint score is the maximum.
#[verifier::loop_isolation(false)]
fn dbest_index(cands: &Vec<DuplexEntry>) -> (b: usize)
    requires
        cands@.len() >= 1,
    ensures
        b < cands@.len(),
        b == dbest_of(cands@, 0),
        forall|j: int|
            0 <= j < cands@.len() ==> dscore(cands@[j]) < dscore(cands@[b as int]) || (dscore(
                cands@[j],
            ) == dscore(cands@[b as int]) && j >= b),
{
    let mut b: usize = 0;
    let mut best: u64 = prob_add(cands[0].pb, cands[0].pnb);
    let n = cands.len();
    let mut i: usize = 1;
    while i < n
        invariant
            b < i <= n,
            best == dscore(cands@[b as int]),
            forall|j: int|
                0 <= j < i ==> dscore(cands@[j]) < best || (dscore(cands@[j]) == best && j >= b),
        decreases n - i,
    {
        let s = prob_add(cands[i].pb, cands[i].pnb);
        if s > best {
            b = i;
            best = s;
        }
        i += 1;
    }
    proof {
        lemma_dbest_of_props(cands@, 0);
    }
    b
}

/// Keeps the `k` best joint candidates, first-seen order, ties to the
/// earlier candidate; keeps at least one when any exists.
#[verifier::loop_isolation(false)]
fn dprune(cands: &Vec<DuplexEntry>, k: usize) -> (out: Vec<DuplexEntry>)
    requires
        k >= 1,
    ensures
        out@ == dprune_spec(cands@, k as int),
        cands@.len() >= 1 ==> out@.len() >= 1,
        forall|x: int|
            0 <= x < out@.len() ==> exists|i: int|
                0 <= i < cands@.len() && #[trigger] out@[x] == cands@[i],
{
    let n = cands.len();
    let mut out: Vec<DuplexEntry> = Vec::new();
    if n == 0 {
        proof {
            assert(out@ =~= dprune_spec(cands@, k as int));
        }
        return out;
    }
    let b = dbest_index(cands);
    let mut i: usize = 0;
    while i < n
        invariant
            i <= n,
            b < n,
            out@ == dkeep_upto(cands@, k as int, i as int),
            i > b ==> out@.len() >= 1,
            forall|x: int|
                0 <= x < out@.len() ==> exists|ii: int|
                    0 <= ii < cands@.len() && #[trigger] out@[x] == cands@[ii],
        decreases n - i,
    {
        let mut cnt: usize = 0;
        let mut j: usize = 0;
        let si = prob_add(cands[i].pb, cands[i].pnb);
        while j < n
            invariant
                j <= n,
                i < n,
                cnt <= j,
                si == dscore(cands@[i as int]),
                cnt == dcount_better_upto(cands@, i as int, j as int),
            decreases n - j,
        {
            let sj = prob_add(cands[j].pb, cands[j].pnb);
            if sj > si || (sj == si && j < i) {
                cnt += 1;
            }
            j += 1;
        }
        if cnt < k {
            out.push(cands[i]);
            proof {
                assert(out@ =~= dkeep_upto(cands@, k as int, i + 1));
            }
        } else {
            proof {
                assert(i != b) by {
                    if i == b {
                        lemma_dcount_better_zero(cands@, b as int, n as int);
                    }
                }
                assert(out@ =~= dkeep_upto(cands@, k as int, i + 1));
            }
        }
        i += 1;
    }
    out
}


/// The first candidate slot already holding the joint state
/// (`node`, `pos2`), from position `i` on; negative when there is none.
pub open spec fn dfind_slot(s: Seq<DuplexEntry>, node: usize, pos2: usize, i: int) -> int
    decreases s.len() - i,
{
    if i < 0 || i >= s.len() {
        -1
    } else if s[i].node == node && s[i].pos2 == pos2 {
        i
    } else {
        dfind_slot(s, node, pos2, i + 1)
    }
}

/// Scanning past known non-matches does not change the slot found.
proof fn lemma_dfind_slot_skip(s: Seq<DuplexEntry>, node: usize, pos2: usize, i: int)
    requires
        0 <= i <= s.len(),
        forall|x: int|
            0 <= x < i ==> !((#[trigger] s[x]).node == node && s[x].pos2 == pos2),
    ensures
        dfind_slot(s, node, pos2, 0) == dfind_slot(s, node, pos2, i),
    decreases i,
{
    if i > 0 {
        lemma_dfind_slot_skip(s, node, pos2, i - 1);
        assert(dfind_slot(s, node, pos2, i - 1) == dfind_slot(s, node, pos2, i));
    }
}

/// The joint accumulator after one contribution: the first slot already
/// holding (`node`, `pos2`) receives the masses, otherwise a new slot is
/// appended.
pub open spec fn dadd_mass_spec(
    s: Seq<DuplexEntry>,
    node: usize,
    pos2: usize,
    db: u64,
    dnb: u64,
) -> Seq<DuplexEntry> {
    let j = dfind_slot(s, node, pos2, 0);
    if j >= 0 {
        s.update(
            j,
            DuplexEntry {
                node,
                pos2,
                pb: spec_prob_add(s[j].pb, db),
                pnb: spec_prob_add(s[j].pnb, dnb),
            },
        )
    } else {
        s.push(DuplexEntry { node, pos2, pb: db, pnb: dnb })
    }
}

/// Adds joint blank mass `db` and non-blank mass `dnb` to the candidate
/// for (`node`, `pos2`), creating it on first contribution. Accumulation
/// is associative over contributions to the same joint state.
fn dadd_mass(cands: &mut Vec<DuplexEntry>, node: usize, pos2: usize, db: u64, dnb: u64)
    ensures
        final(cands)@.len() >= old(cands)@.len(),
        final(cands)@.len() >= 1,
        final(cands)@ == dadd_mass_spec(old(cands)@, node, pos2, db, dnb),
        forall|x: int|
            0 <= x < final(cands)@.len() ==> (#[trigger] final(cands)@[x]).node == node || exists|
                i: int,
            | 0 <= i < old(cands)@.len() && final(cands)@[x].node == (#[trigger] old(
                cands,
            )@[i]).node,
{
    let n = cands.len();
    let mut i: usize = 0;
    while i < n
        invariant
            n == cands@.len(),
            i <= n,
            cands@ == old(cands)@,
            forall|x: int|
                0 <= x < i ==> !((#[trigger] cands@[x]).node == node && cands@[x].pos2 == pos2),
        decreases n - i,
    {
        if cands[i].node == node && cands[i].pos2 == pos2 {
            proof {
                lemma_dfind_slot_skip(cands@, node, pos2, i as int);
                assert(dfind_slot(cands@, node, pos2, i as int) == i);
            }
            let e = cands[i];
            let upd = DuplexEntry {
                node,
                pos2,
                pb: prob_add(e.pb, db),
                pnb: prob_add(e.pnb, dnb),
            };
            cands.set(i, upd);
            return ;
        }
        i += 1;
    }
    proof {
        lemma_dfind_slot_skip(cands@, node, pos2, n as int);
        assert(dfind_slot(cands@, node, pos2, n as int) == -1);
    }
    cands.push(DuplexEntry { node, pos2, pb: db, pnb: dnb });
}


/// One row of the alignment window: when the row clears the threshold
/// for the extending label and the weighted joint mass is still positive,
/// the extended prefix is looked up or created and the mass lands on the
/// joint state aligned past row `u`.
pub open spec fn wrow(
    tr: Seq<(usize, usize, usize)>,
    cs: Seq<DuplexEntry>,
    gap: u64,
    node: usize,
    k: usize,
    m1: u64,
    row2: Seq<u64>,
    u: int,
    theta: u64,
    t1: usize,
) -> (Seq<(usize, usize, usize)>, Seq<DuplexEntry>) {
    if row2[k as int] > theta {
        let m2v = spec_prob_mul(gap, row2[k as int]);
        let j = spec_prob_mul(m1, m2v);
        if j > 0 {
            let pr = child_step(tr, node, k, t1);
            (pr.0, dadd_mass_spec(cs, pr.1 as usize, (u + 1) as usize, 0, j))
        } else {
            (tr, cs)
        }
    } else {
        (tr, cs)
    }
}

/// The alignment window's first `j` rows from `base` on, processed in
/// order; the third component is the running product of the skipped
/// rows' blank probabilities.
pub open spec fn window_upto(
    tr: Seq<(usize, usize, usize)>,
    cs: Seq<DuplexEntry>,
    node: usize,
    k: usize,
    m1: u64,
    m2: Seq<Seq<u64>>,
    base: int,
    j: int,
    theta: u64,
    t1: usize,
) -> (Seq<(usize, usize, usize)>, Seq<DuplexEntry>, u64)
    decreases j,
{
    if j <= 0 {
        (tr, cs, PROB_ONE)
    } else {
        let pr = window_upto(tr, cs, node, k, m1, m2, base, j - 1, theta, t1);
        let u = base + j - 1;
        let st = wrow(pr.0, pr.1, pr.2, node, k, m1, m2[u], u, theta, t1);
        (st.0, st.1, spec_prob_mul(pr.2, m2[u][0]))
    }
}

/// One (prefix, label) routing step of the joint expansion: the CTC
/// rules of the duplex search, stated over the abstract tree and the
/// joint accumulator.
pub open spec fn droute(
    tr: Seq<(usize, usize, usize)>,
    cs: Seq<DuplexEntry>,
    e: DuplexEntry,
    k: int,
    row1: Seq<u64>,
    m2: Seq<Seq<u64>>,
    lo: int,
    hi: int,
    theta: u64,
    t1: usize,
) -> (Seq<(usize, usize, usize)>, Seq<DuplexEntry>) {
    let base = if e.pos2 > lo { e.pos2 as int } else { lo };
    let cnt = if hi > base { hi - base } else { 0 };
    if !(row1[k] > theta) {
        (tr, cs)
    } else if k == 0 {
        (
            tr,
            dadd_mass_spec(
                cs,
                e.node,
                e.pos2,
                spec_prob_mul(spec_prob_add(e.pb, e.pnb), row1[0]),
                0,
            ),
        )
    } else if k == tr[e.node as int].1 as int {
        let cs1 = dadd_mass_spec(cs, e.node, e.pos2, 0, spec_prob_mul(e.pnb, row1[k]));
        let m1v = spec_prob_mul(e.pb, row1[k]);
        if m1v > 0 {
            let wr = window_upto(tr, cs1, e.node, k as usize, m1v, m2, base, cnt, theta, t1);
            (wr.0, wr.1)
        } else {
            (tr, cs1)
        }
    } else {
        let m1v = spec_prob_mul(spec_prob_add(e.pb, e.pnb), row1[k]);
        if m1v > 0 {
            let wr = window_upto(tr, cs, e.node, k as usize, m1v, m2, base, cnt, theta, t1);
            (wr.0, wr.1)
        } else {
            (tr, cs)
        }
    }
}

/// The routing steps of one joint entry, for the labels below `k`.
pub open spec fn dentry_routes(
    tr: Seq<(usize, usize, usize)>,
    cs: Seq<DuplexEntry>,
    e: DuplexEntry,
    row1: Seq<u64>,
    m2: Seq<Seq<u64>>,
    lo: int,
    hi: int,
    theta: u64,
    t1: usize,
    k: int,
) -> (Seq<(usize, usize, usize)>, Seq<DuplexEntry>)
    decreases k,
{
    if k <= 0 {
        (tr, cs)
    } else {
        let pr = dentry_routes(tr, cs, e, row1, m2, lo, hi, theta, t1, k - 1);
        droute(pr.0, pr.1, e, k - 1, row1, m2, lo, hi, theta, t1)
    }
}

/// The joint expansion of the first `i` beam entries.
pub open spec fn dexpand_upto(
    tr: Seq<(usize, usize, usize)>,
    beam: Seq<DuplexEntry>,
    row1: Seq<u64>,
    m2: Seq<Seq<u64>>,
    lo: int,
    hi: int,
    theta: u64,
    t1: usize,
    i: int,
) -> (Seq<(usize, usize, usize)>, Seq<DuplexEntry>)
    decreases i,
{
    if i <= 0 {
        (tr, Seq::empty())
    } else {
        let pr = dexpand_upto(tr, beam, row1, m2, lo, hi, theta, t1, i - 1);
        dentry_routes(pr.0, pr.1, beam[i - 1], row1, m2, lo, hi, theta, t1, row1.len() as int)
    }
}

/// One whole joint timestep of expansion, as a mathematical function:
/// what [`dexpand`] does to the abstract tree, and the candidates it
/// returns.
pub open spec fn dexpand_spec(
    tr: Seq<(usize, usize, usize)>,
    beam: Seq<DuplexEntry>,
    row1: Seq<u64>,
    m2: Seq<Seq<u64>>,
    lo: int,
    hi: int,
    theta: u64,
    t1: usize,
) -> (Seq<(usize, usize, usize)>, Seq<DuplexEntry>) {
    dexpand_upto(tr, beam, row1, m2, lo, hi, theta, t1, beam.len() as int)
}

/// One joint routing step: what one live joint prefix contributes for
/// one label of the first matrix, by the rules of [`droute`], which this
/// function implements exactly.
#[verifier::rlimit(100)]
#[verifier::loop_isolation(false)]
fn droute_exec(
    tree: &mut SuffixTree,
    cands: &mut Vec<DuplexEntry>,
    e: DuplexEntry,
    k: usize,
    row1: &Vec<u64>,
    net2: &Vec<Vec<u64>>,
    lo: usize,
    hi: usize,
    theta: u64,
    t1: usize,
)
    requires
        tree_wf(old(tree)@),
        times_le(old(tree)@, t1 as int),
        labels_lt(old(tree)@, row1@.len() as int),
        e.node < old(tree)@.len(),
        k < row1@.len(),
        hi <= net2@.len(),
        rectangular(mat_view(*net2), row1@.len() as int),
        forall|x: int|
            0 <= x < old(cands)@.len() ==> (#[trigger] old(cands)@[x]).node < old(tree)@.len(),
    ensures
        tree_wf(final(tree)@),
        times_le(final(tree)@, t1 as int),
        labels_lt(final(tree)@, row1@.len() as int),
        final(tree)@.len() >= old(tree)@.len(),
        forall|i: int|
            0 <= i < old(tree)@.len() ==> {
                &&& (#[trigger] final(tree)@[i]).parent == old(tree)@[i].parent
                &&& final(tree)@[i].label == old(tree)@[i].label
                &&& final(tree)@[i].time == old(tree)@[i].time
            },
        forall|x: int|
            0 <= x < final(cands)@.len() ==> (#[trigger] final(cands)@[x]).node < final(tree)@.len(),
        final(cands)@.len() >= old(cands)@.len(),
        row1@[k as int] > theta && (k == 0 || k == old(tree)@[e.node as int].label)
            ==> final(cands)@.len() >= 1,
        tree_abs(final(tree)@) == droute(
            tree_abs(old(tree)@),
            old(cands)@,
            e,
            k as int,
            row1@,
            mat_view(*net2),
            lo as int,
            hi as int,
            theta,
            t1,
        ).0,
        final(cands)@ == droute(
            tree_abs(old(tree)@),
            old(cands)@,
            e,
            k as int,
            row1@,
            mat_view(*net2),
            lo as int,
            hi as int,
            theta,
            t1,
        ).1,
{
    let ghost pre_tr = tree_abs(tree@);
    let ghost pre_cs = cands@;
    let w = row1.len();
    let node_label = tree.label_at(e.node);
    let base = if e.pos2 > lo {
        e.pos2
    } else {
        lo
    };
    let p1 = row1[k];
    if p1 > theta {
        if k == 0 {
            // blank: the joint prefix stays where it is
            let total = prob_add(e.pb, e.pnb);
            dadd_mass(cands, e.node, e.pos2, prob_mul(total, p1), 0);
        } else if k == node_label {
            // repeat without a blank: collapses onto the same prefix
            dadd_mass(cands, e.node, e.pos2, 0, prob_mul(e.pnb, p1));
            // repeat after a blank: extend, aligned within the window
            let m1 = prob_mul(e.pb, p1);
            if m1 > 0 {
                extend_into_window(cands, tree, e.node, k, m1, net2, base, hi, theta, t1, w);
            }
        } else {
            // a different label extends, aligned within the window
            let total = prob_add(e.pb, e.pnb);
            let m1 = prob_mul(total, p1);
            if m1 > 0 {
                extend_into_window(cands, tree, e.node, k, m1, net2, base, hi, theta, t1, w);
            }
        }
    }
    proof {
        assert(pre_tr[e.node as int].1 == node_label);
        assert(tree_abs(tree@) == droute(
            pre_tr,
            pre_cs,
            e,
            k as int,
            row1@,
            mat_view(*net2),
            lo as int,
            hi as int,
            theta,
            t1,
        ).0);
        assert(cands@ == droute(
            pre_tr,
            pre_cs,
            e,
            k as int,
            row1@,
            mat_view(*net2),
            lo as int,
            hi as int,
            theta,
            t1,
        ).1);
    }
}

/// One joint timestep. Blanks and collapsing repeats of the first matrix
/// keep the prefix and its alignment position. An extension by label `k`
/// must also be matched in the second matrix: for each row `u` of the
/// window not yet consumed, the joint mass is weighted by the blank
/// probabilities of the skipped rows and by `net2[u][k]`, and the new
/// alignment position is `u + 1`. The result is exactly [`dexpand_spec`]
/// of the beam.
#[verifier::rlimit(100)]
#[verifier::loop_isolation(false)]
fn dexpand(
    tree: &mut SuffixTree,
    beam: &Vec<DuplexEntry>,
    row1: &Vec<u64>,
    net2: &Vec<Vec<u64>>,
    lo: usize,
    hi: usize,
    theta: u64,
    t1: usize,
) -> (cands: Vec<DuplexEntry>)
    requires
        tree_wf(old(tree)@),
        times_le(old(tree)@, t1 as int),
        labels_lt(old(tree)@, row1@.len() as int),
        forall|i: int| 0 <= i < beam@.len() ==> (#[trigger] beam@[i]).node < old(tree)@.len(),
        row1@.len() >= 1,
        rectangular(mat_view(*net2), row1@.len() as int),
        hi <= net2@.len(),
    ensures
        tree_wf(final(tree)@),
        times_le(final(tree)@, t1 as int),
        labels_lt(final(tree)@, row1@.len() as int),
        final(tree)@.len() >= old(tree)@.len(),
        forall|x: int|
            0 <= x < cands@.len() ==> (#[trigger] cands@[x]).node < final(tree)@.len(),
        beam@.len() > 0 && row1@[0] > theta ==> cands@.len() > 0,
        row_wipeout(row1@, theta) ==> cands@.len() == 0,
        tree_abs(final(tree)@) == dexpand_spec(
            tree_abs(old(tree)@),
            beam@,
            row1@,
            mat_view(*net2),
            lo as int,
            hi as int,
            theta,
            t1,
        ).0,
        cands@ == dexpand_spec(
            tree_abs(old(tree)@),
            beam@,
            row1@,
            mat_view(*net2),
            lo as int,
            hi as int,
            theta,
            t1,
        ).1,
{
    let mut cands: Vec<DuplexEntry> = Vec::new();
    let n = beam.len();
    let w = row1.len();
    let ghost tr0 = tree_abs(old(tree)@);
    let ghost m2v = mat_view(*net2);
    let mut i: usize = 0;
    while i < n
        invariant
            i <= n,
            tree_wf(tree@),
            times_le(tree@, t1 as int),
            labels_lt(tree@, w as int),
            tree@.len() >= old(tree)@.len(),
            forall|x: int| 0 <= x < beam@.len() ==> (#[trigger] beam@[x]).node < tree@.len(),
            forall|x: int| 0 <= x < cands@.len() ==> (#[trigger] cands@[x]).node < tree@.len(),
            i > 0 && row1@[0] > theta ==> cands@.len() > 0,
            row_wipeout(row1@, theta) ==> cands@.len() == 0,
            tree_abs(tree@) == dexpand_upto(
                tr0,
                beam@,
                row1@,
                m2v,
                lo as int,
                hi as int,
                theta,
                t1,
                i as int,
            ).0,
            cands@ == dexpand_upto(
                tr0,
                beam@,
                row1@,
                m2v,
                lo as int,
                hi as int,
                theta,
                t1,
                i as int,
            ).1,
        decreases n - i,
    {
        let e = beam[i];
        let ghost tr_i = tree_abs(tree@);
        let ghost cs_i = cands@;
        let mut k: usize = 0;
        while k < w
            invariant
                k <= w,
                i < n,
                e == beam@[i as int],
                tree_wf(tree@),
                times_le(tree@, t1 as int),
                labels_lt(tree@, w as int),
                tree@.len() >= old(tree)@.len(),
                e.node < tree@.len(),
                forall|x: int| 0 <= x < beam@.len() ==> (#[trigger] beam@[x]).node < tree@.len(),
                forall|x: int| 0 <= x < cands@.len() ==> (#[trigger] cands@[x]).node < tree@.len(),
                (i > 0 || k > 0) && row1@[0] > theta ==> cands@.len() > 0,
                row_wipeout(row1@, theta) ==> cands@.len() == 0,
                tr_i == dexpand_upto(
                    tr0,
                    beam@,
                    row1@,
                    m2v,
                    lo as int,
                    hi as int,
                    theta,
                    t1,
                    i as int,
                ).0,
                cs_i == dexpand_upto(
                    tr0,
                    beam@,
                    row1@,
                    m2v,
                    lo as int,
                    hi as int,
                    theta,
                    t1,
                    i as int,
                ).1,
                tree_abs(tree@) == dentry_routes(
                    tr_i,
                    cs_i,
                    e,
                    row1@,
                    m2v,
                    lo as int,
                    hi as int,
                    theta,
                    t1,
                    k as int,
                ).0,
                cands@ == dentry_routes(
                    tr_i,
                    cs_i,
                    e,
                    row1@,
                    m2v,
                    lo as int,
                    hi as int,
                    theta,
                    t1,
                    k as int,
                ).1,
            decreases w - k,
        {
            droute_exec(tree, &mut cands, e, k, row1, net2, lo, hi, theta, t1);
            k += 1;
        }
        i += 1;
    }
    cands
}

/// Routes an extension's joint mass `m1` through every admissible row of
/// the second matrix's window: row `u` receives the mass weighted by the
/// blank probabilities of the rows skipped since `base` and by the row's
/// own probability for the extending label, and moves the alignment
/// position to `u + 1`. The result is exactly [`window_upto`] over the
/// window's rows.
#[verifier::rlimit(100)]
#[verifier::loop_isolation(false)]
fn extend_into_window(
    cands: &mut Vec<DuplexEntry>,
    tree: &mut SuffixTree,
    node: usize,
    k: usize,
    m1: u64,
    net2: &Vec<Vec<u64>>,
    base: usize,
    hi: usize,
    theta: u64,
    t1: usize,
    w: usize,
)
    requires
        tree_wf(old(tree)@),
        times_le(old(tree)@, t1 as int),
        labels_lt(old(tree)@, w as int),
        node < old(tree)@.len(),
        1 <= k < w,
        hi <= net2@.len(),
        rectangular(mat_view(*net2), w as int),
        forall|x: int|
            0 <= x < old(cands)@.len() ==> (#[trigger] old(cands)@[x]).node < old(tree)@.len(),
    ensures
        tree_wf(final(tree)@),
        times_le(final(tree)@, t1 as int),
        labels_lt(final(tree)@, w as int),
        final(tree)@.len() >= old(tree)@.len(),
        forall|x: int|
            0 <= x < final(cands)@.len() ==> (#[trigger] final(cands)@[x]).node < final(tree)@.len(),
        final(cands)@.len() >= old(cands)@.len(),
        forall|i: int|
            0 <= i < old(tree)@.len() ==> {
                &&& (#[trigger] final(tree)@[i]).parent == old(tree)@[i].parent
                &&& final(tree)@[i].label == old(tree)@[i].label
                &&& final(tree)@[i].time == old(tree)@[i].time
            },
        ({
            let cnt = if hi > base {
                hi - base
            } else {
                0int
            };
            let wr = window_upto(
                tree_abs(old(tree)@),
                old(cands)@,
                node,
                k,
                m1,
                mat_view(*net2),
                base as int,
                cnt,
                theta,
                t1,
            );
            tree_abs(final(tree)@) == wr.0 && final(cands)@ == wr.1
        }),
{
    let ghost tr0 = tree_abs(tree@);
    let ghost cs0 = cands@;
    let ghost m2v = mat_view(*net2);
    let mut gap: u64 = PROB_ONE;
    let mut u = base;
    if u < hi {
        while u < hi
            invariant
                base <= u <= hi,
                tree_wf(tree@),
                times_le(tree@, t1 as int),
                labels_lt(tree@, w as int),
                tree@.len() >= old(tree)@.len(),
                node < tree@.len(),
                forall|x: int|
                    0 <= x < cands@.len() ==> (#[trigger] cands@[x]).node < tree@.len(),
                cands@.len() >= old(cands)@.len(),
                forall|i: int|
                    0 <= i < old(tree)@.len() ==> {
                        &&& (#[trigger] tree@[i]).parent == old(tree)@[i].parent
                        &&& tree@[i].label == old(tree)@[i].label
                        &&& tree@[i].time == old(tree)@[i].time
                    },
                tree_abs(tree@) == window_upto(
                    tr0,
                    cs0,
                    node,
                    k,
                    m1,
                    m2v,
                    base as int,
                    u - base,
                    theta,
                    t1,
                ).0,
                cands@ == window_upto(
                    tr0,
                    cs0,
                    node,
                    k,
                    m1,
                    m2v,
                    base as int,
                    u - base,
                    theta,
                    t1,
                ).1,
                gap == window_upto(
                    tr0,
                    cs0,
                    node,
                    k,
                    m1,
                    m2v,
                    base as int,
                    u - base,
                    theta,
                    t1,
                ).2,
            decreases hi - u,
        {
            let ghost pre_tr = tree_abs(tree@);
            let ghost pre_cs = cands@;
            let ghost pre_gap = gap;
            proof {
                assert(m2v[u as int].len() == w);
            }
            let row2 = &net2[u];
            let p2 = row2[k];
            if p2 > theta {
                let m2 = prob_mul(gap, p2);
                let j = prob_mul(m1, m2);
                if j > 0 {
                    let child = tree.get_or_create_child(node, k, t1);
                    dadd_mass(cands, child, u + 1, 0, j);
                    proof {
                        assert(tree_abs(tree@) == child_step(pre_tr, node, k, t1).0);
                        assert(child == child_step(pre_tr, node, k, t1).1);
                    }
                }
            }
            gap = prob_mul(gap, row2[0]);
            proof {
                let st = wrow(pre_tr, pre_cs, pre_gap, node, k, m1, m2v[u as int], u as int, theta, t1);
                assert(tree_abs(tree@) == st.0);
                assert(cands@ == st.1);
                assert(gap == spec_prob_mul(pre_gap, m2v[u as int][0]));
            }
            u += 1;
        }
    }
}

/// True exactly when the envelope is valid for the two matrix lengths.
#[verifier::rlimit(50)]
#[verifier::loop_isolation(false)]
fn envelope_valid(env: &Vec<(usize, usize)>, t1len: usize, t2len: usize) -> (r: bool)
    ensures
        r == envelope_ok(env@, t1len as int, t2len as int),
{
    if env.len() != t1len {
        return false;
    }
    let mut i: usize = 0;
    while i < t1len
        invariant
            i <= t1len,
            env@.len() == t1len,
            forall|x: int|
                0 <= x < i ==> (#[trigger] env@[x]).0 <= env@[x].1 && env@[x].1 <= t2len,
            forall|x: int|
                0 <= x < i - 1 ==> (#[trigger] env@[x]).0 <= env@[x + 1].0 && env@[x].1 <= env@[x
                    + 1].1,
        decreases t1len - i,
    {
        let e = env[i];
        if e.0 > e.1 || e.1 > t2len {
            proof {
                assert(!((env@[i as int]).0 <= env@[i as int].1 && env@[i as int].1 <= t2len));
                assert(!envelope_rows_ok(env@, t2len as int));
            }
            return false;
        }
        if i > 0 {
            let prev = env[i - 1];
            if prev.0 > e.0 || prev.1 > e.1 {
                proof {
                    let x = i - 1;
                    assert(!((env@[x]).0 <= env@[x + 1].0 && env@[x].1 <= env@[x + 1].1));
                    assert(!envelope_rows_ok(env@, t2len as int));
                }
                return false;
            }
        }
        i += 1;
    }
    if t1len > 0 {
        let first = env[0];
        let last = env[t1len - 1];
        if first.0 != 0 || last.1 != t2len {
            proof {
                assert(!envelope_rows_ok(env@, t2len as int));
            }
            return false;
        }
    }
    proof {
        assert(envelope_rows_ok(env@, t2len as int));
    }
    true
}


/// The joint decoder's state at the start of a decode: a root-only tree
/// and the root prefix, aligned at the start of the second matrix, with
/// unit blank mass.
pub open spec fn dinit_state() -> (Seq<(usize, usize, usize)>, Seq<DuplexEntry>) {
    (
        seq![(0usize, 0usize, 0usize)],
        seq![DuplexEntry { node: 0usize, pos2: 0usize, pb: PROB_ONE, pnb: 0u64 }],
    )
}

/// The abstract joint decoder state after the first `t` timesteps of the
/// first matrix, under the windows of `env`; `None` once the beam has
/// died.
pub open spec fn ddecode_upto(
    m1: Seq<Seq<u64>>,
    m2: Seq<Seq<u64>>,
    env: Seq<(usize, usize)>,
    theta: u64,
    beam_size: usize,
    t: int,
) -> Option<(Seq<(usize, usize, usize)>, Seq<DuplexEntry>)>
    decreases t,
{
    if t <= 0 {
        Some(dinit_state())
    } else {
        match ddecode_upto(m1, m2, env, theta, beam_size, t - 1) {
            None => None,
            Some(pr) => {
                let ex = dexpand_spec(
                    pr.0,
                    pr.1,
                    m1[t - 1],
                    m2,
                    env[t - 1].0 as int,
                    env[t - 1].1 as int,
                    theta,
                    (t - 1) as usize,
                );
                if ex.1.len() == 0 {
                    None
                } else {
                    Some((ex.0, dprune_spec(ex.1, beam_size as int)))
                }
            },
        }
    }
}

/// A dead joint beam stays dead for every later timestep.
proof fn lemma_ddecode_dead(
    m1: Seq<Seq<u64>>,
    m2: Seq<Seq<u64>>,
    env: Seq<(usize, usize)>,
    theta: u64,
    beam_size: usize,
    t1: int,
    t2: int,
)
    requires
        0 <= t1 <= t2,
        ddecode_upto(m1, m2, env, theta, beam_size, t1) is None,
    ensures
        ddecode_upto(m1, m2, env, theta, beam_size, t2) is None,
    decreases t2 - t1,
{
    if t2 > t1 {
        lemma_ddecode_dead(m1, m2, env, theta, beam_size, t1, t2 - 1);
    }
}

/// The windows the decode runs under: the given envelope, or one
/// whole-matrix window per row of the first matrix.
pub open spec fn effective_env(
    ev: Option<Seq<(usize, usize)>>,
    t1len: int,
    t2len: usize,
) -> Seq<(usize, usize)> {
    match ev {
        Some(e) => e,
        None => Seq::new(t1len as nat, |i: int| (0usize, t2len)),
    }
}

/// The envelope argument as a mathematical value.
pub open spec fn env_view(e: Option<&Vec<(usize, usize)>>) -> Option<Seq<(usize, usize)>> {
    match e {
        Some(v) => Some(v@),
        None => None,
    }
}

/// Jointly decodes two network outputs that describe the same sequence.
///
/// Both matrices share `alphabet` (first symbol the blank). `envelope`,
/// when given, must hold one `[lo, hi)` window per row of the first
/// matrix, bounding which rows of the second matrix may be aligned with
/// it; when omitted, the whole of the second matrix is searched at every
/// step. Returns the winning joint labelling; no timesteps are returned.
#[verifier::rlimit(100)]
#[verifier::loop_isolation(false)]
pub fn beam_search_duplex(
    network_output_1: &Vec<Vec<u64>>,
    network_output_2: &Vec<Vec<u64>>,
    alphabet: &Vec<String>,
    envelope: Option<&Vec<(usize, usize)>>,
    beam_size: usize,
    beam_cut_threshold: u64,
) -> (r: Result<String, SearchError>)
    ensures
        ({
            let m1 = mat_view(*network_output_1);
            let m2 = mat_view(*network_output_2);
            let a = alpha_view(*alphabet);
            let ev = env_view(envelope);
            &&& (validate_duplex(m1, m2, a.len() as int, beam_size, beam_cut_threshold, ev)
                matches Some(e) ==> r == Err::<String, SearchError>(e))
            &&& (validate_duplex(m1, m2, a.len() as int, beam_size, beam_cut_threshold, ev)
                is None ==> {
                &&& (any_wipeout(m1, beam_cut_threshold) ==> r == Err::<String, SearchError>(
                    SearchError::RanOutOfBeam,
                ))
                &&& (r is Err ==> r == Err::<String, SearchError>(SearchError::RanOutOfBeam)
                    && exists|t: int|
                    0 <= t < m1.len() && #[trigger] m1[t][0] <= beam_cut_threshold)
                &&& ((forall|t: int| 0 <= t < m1.len() ==> #[trigger] m1[t][0] > beam_cut_threshold)
                    ==> r is Ok)
                &&& (r matches Ok(s) ==> duplex_output_ok(a, s@))
                &&& (m1.len() == 0 ==> (r matches Ok(s) && s@ == Seq::<char>::empty()))
                &&& (r is Err <==> ddecode_upto(
                    m1,
                    m2,
                    effective_env(ev, m1.len() as int, m2.len() as usize),
                    beam_cut_threshold,
                    beam_size,
                    m1.len() as int,
                ) is None)
                &&& (ddecode_upto(
                    m1,
                    m2,
                    effective_env(ev, m1.len() as int, m2.len() as usize),
                    beam_cut_threshold,
                    beam_size,
                    m1.len() as int,
                ) matches Some(st) ==> (r matches Ok(s) && s@ == path_chars(
                    a,
                    path_abs(st.0, st.1[dbest_of(st.1, 0)].node as int),
                )))
            })
        }),
{
    let theta = beam_cut_threshold;
    let w = alphabet.len();
    let tlen1 = network_output_1.len();
    let tlen2 = network_output_2.len();
    let ghost m1 = mat_view(*network_output_1);
    let ghost m2 = mat_view(*network_output_2);
    let ghost a = alpha_view(*alphabet);
    let ghost ev = env_view(envelope);

    // argument validation, in a fixed order, before any decode work
    if w < 2 {
        return Err(SearchError::InvalidAlphabet);
    }
    if !matrix_rect(network_output_1, w) {
        return Err(SearchError::InvalidAlphabet);
    }
    if !matrix_rect(network_output_2, w) {
        return Err(SearchError::InvalidAlphabet);
    }
    if beam_size == 0 {
        return Err(SearchError::InvalidBeamSize);
    }
    proof {
        assert(theta * w <= 0xFFFF_FFFF_FFFF_FFFFu64 * 0xFFFF_FFFF_FFFF_FFFFu64) by (nonlinear_arith)
            requires theta <= 0xFFFF_FFFF_FFFF_FFFFu64, w <= 0xFFFF_FFFF_FFFF_FFFFu64,
        ;
    }
    if (theta as u128) * (w as u128) >= PROB_ONE as u128 {
        return Err(SearchError::InvalidThreshold);
    }
    if !matrix_clean(network_output_1) {
        return Err(SearchError::IncomparableValues);
    }
    if !matrix_clean(network_output_2) {
        return Err(SearchError::IncomparableValues);
    }

    // envelope validation, or the default whole-matrix windows
    let mut default_env: Vec<(usize, usize)> = Vec::new();
    let env_rows: &Vec<(usize, usize)> = match envelope {
        Some(env) => {
            if !envelope_valid(env, tlen1, tlen2) {
                return Err(SearchError::InvalidEnvelope);
            }
            env
        },
        None => {
            let mut i: usize = 0;
            while i < tlen1
                invariant
                    i <= tlen1,
                    default_env@.len() == i,
                    forall|x: int| 0 <= x < i ==> #[trigger] default_env@[x] == (0usize, tlen2),
                decreases tlen1 - i,
            {
                default_env.push((0, tlen2));
                i += 1;
            }
            assert(envelope_ok(default_env@, tlen1 as int, tlen2 as int));
            &default_env
        },
    };
    assert(validate_duplex(m1, m2, a.len() as int, beam_size, theta, ev) is None);
    proof {
        assert(m2.len() as usize == tlen2);
        assert(env_rows@ =~= effective_env(ev, m1.len() as int, m2.len() as usize));
    }

    // the decode proper
    let mut tree = SuffixTree::new();
    let mut beam: Vec<DuplexEntry> = Vec::new();
    beam.push(DuplexEntry { node: 0, pos2: 0, pb: PROB_ONE, pnb: 0 });
    proof {
        assert(tree_abs(tree@) =~= dinit_state().0);
        assert(beam@ =~= dinit_state().1);
    }
    let mut t: usize = 0;
    while t < tlen1
        invariant
            t <= tlen1,
            envelope_ok(env_rows@, tlen1 as int, tlen2 as int),
            tree_wf(tree@),
            labels_lt(tree@, w as int),
            times_le(tree@, if t == 0 { 0int } else { t - 1 }),
            beam@.len() >= 1,
            forall|x: int| 0 <= x < beam@.len() ==> (#[trigger] beam@[x]).node < tree@.len(),
            forall|t2: int| 0 <= t2 < t ==> !row_wipeout(#[trigger] m1[t2], theta),
            t == 0 ==> tree@.len() == 1 && beam@.len() == 1 && beam@[0].node == 0,
            Some((tree_abs(tree@), beam@)) == ddecode_upto(
                m1,
                m2,
                env_rows@,
                theta,
                beam_size,
                t as int,
            ),
        decreases tlen1 - t,
    {
        let row1 = &network_output_1[t];
        let window = env_rows[t];
        proof {
            assert(row1@ == m1[t as int]);
            assert(times_le(tree@, t as int));
            assert((env_rows@[t as int]).0 <= env_rows@[t as int].1 && env_rows@[t as int].1
                <= tlen2);
        }
        let ghost pre_tr = tree_abs(tree@);
        let cands = dexpand(&mut tree, &beam, row1, network_output_2, window.0, window.1, theta, t);
        if cands.len() == 0 {
            proof {
                assert(m1[t as int][0] <= theta);
                assert(ddecode_upto(m1, m2, env_rows@, theta, beam_size, t + 1) is None);
                lemma_ddecode_dead(m1, m2, env_rows@, theta, beam_size, t + 1, m1.len() as int);
            }
            return Err(SearchError::RanOutOfBeam);
        }
        proof {
            assert(!row_wipeout(m1[t as int], theta));
        }
        beam = dprune(&cands, beam_size);
        proof {
            assert(Some((tree_abs(tree@), beam@)) == ddecode_upto(
                m1,
                m2,
                env_rows@,
                theta,
                beam_size,
                t + 1,
            ));
        }
        t += 1;
    }

    proof {
        assert(!any_wipeout(m1, theta));
    }

    // finalise: take the winning joint prefix and materialise its labels
    let b = dbest_index(&beam);
    let node = beam[b].node;
    let p = tree.path(node);
    proof {
        lemma_path_wf(tree@, node as int);
    }
    let plen = p.len();
    let mut labels = String::new();
    let mut x: usize = 0;
    while x < plen
        invariant
            x <= plen,
            plen == p@.len(),
            p@ == path_spec(tree@, node as int),
            node < tree@.len(),
            tree_wf(tree@),
            labels_lt(tree@, w as int),
            labels@ == path_chars(a, p@.take(x as int)),
        decreases plen - x,
    {
        let e = p[x];
        proof {
            assert(p@[x as int].0 >= 1 && p@[x as int].0 < w);
            assert(p@.take(x + 1).drop_last() =~= p@.take(x as int));
            assert(p@.take(x + 1).last() == p@[x as int]);
            assert(a[e.0 as int] == alphabet@[e.0 as int]@);
        }
        labels.append(alphabet[e.0].as_str());
        x += 1;
    }
    proof {
        assert(p@.take(plen as int) =~= p@);
        assert(path_chars(a, p@) == labels@);
        assert(duplex_output_ok(a, labels@));
        lemma_path_abs(tree@, node as int);
        assert(ddecode_upto(
            m1,
            m2,
            effective_env(ev, m1.len() as int, m2.len() as usize),
            theta,
            beam_size,
            m1.len() as int,
        ) matches Some(st) && st.0 == tree_abs(tree@) && st.1 == beam@);
        if m1.len() == 0 {
            assert(tree@.len() == 1 && node == 0);
            assert(p@ =~= Seq::<(usize, usize)>::empty());
            assert(labels@ =~= Seq::<char>::empty());
        }
    }
    Ok(labels)
}

} // verus!
