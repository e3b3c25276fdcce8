//! Turning an evaluator's policy into the priors of a new node's edges.
use vstd::prelude::*;
use crate::chess::{legal_moves_at, side_to_move, GameResult, GameState};
use crate::puct::{PRIOR_ONE, PROB_ONE, VALUE_MAX};
use crate::tree::{LeafEval, Tree};

verus! {

/// The sum of a sequence of masses.
pub open spec fn mass_sum(s: Seq<u32>) -> int
    decreases s.len(),
{
    if s.len() == 0 {
        0
    } else {
        mass_sum(s.drop_last()) + s.last()
    }
}

/// The policy mass of each legal move, in the order of `moves`.
pub open spec fn legal_masses(policy: Seq<u32>, moves: Seq<usize>) -> Seq<u32>
    recommends
        forall|i: int| 0 <= i < moves.len() ==> moves[i] < policy.len(),
{
    Seq::new(moves.len(), |i: int| policy[moves[i] as int])
}

/// The prior of a move with mass `m` out of `total`, over `n` moves: its share
/// of `PRIOR_ONE`, or an equal share when all masses are zero.
pub open spec fn prior_of(m: int, total: int, n: int) -> int {
    if total == 0 {
        PRIOR_ONE as int / n
    } else {
        m * PRIOR_ONE as int / total
    }
}

proof fn lemma_mass_sum_nonneg(s: Seq<u32>)
    ensures
        mass_sum(s) >= 0,
    decreases s.len(),
{
    if s.len() > 0 {
        lemma_mass_sum_nonneg(s.drop_last());
    }
}

proof fn lemma_mass_le_sum(s: Seq<u32>, i: int)
    requires
        0 <= i < s.len(),
    ensures
        s[i] <= mass_sum(s),
    decreases s.len(),
{
    lemma_mass_sum_nonneg(s.drop_last());
    if i < s.len() - 1 {
        lemma_mass_le_sum(s.drop_last(), i);
    }
}

proof fn lemma_mass_sum_bound(s: Seq<u32>)
    ensures
        mass_sum(s) <= s.len() * 4_294_967_295,
    decreases s.len(),
{
    if s.len() > 0 {
        lemma_mass_sum_bound(s.drop_last());
    }
}

/// The share of each mass before the rounding remainder is handed out.
pub open spec fn base_priors(masses: Seq<u32>) -> Seq<u32> {
    Seq::new(masses.len(), |i: int| prior_of(masses[i] as int, mass_sum(masses), masses.len() as int) as u32)
}

/// `t` is the first index of a largest mass.
pub open spec fn is_top(masses: Seq<u32>, t: int) -> bool {
    &&& 0 <= t < masses.len()
    &&& forall|j: int| 0 <= j < masses.len() ==> masses[j] <= masses[t]
    &&& forall|j: int| 0 <= j < t ==> masses[j] < masses[t]
}

/// The priors of `masses`: each mass's share of `PRIOR_ONE`, rounded down (equal
/// shares when all masses are zero), with what the rounding left over added to
/// the first largest mass, so that the priors sum to exactly `PRIOR_ONE`.
pub open spec fn priors_of(masses: Seq<u32>, t: int) -> Seq<u32> {
    let b = base_priors(masses);
    b.update(t, (b[t] + (PRIOR_ONE - mass_sum(b))) as u32)
}

proof fn lemma_mass_sum_update(s: Seq<u32>, i: int, v: u32)
    requires
        0 <= i < s.len(),
    ensures
        mass_sum(s.update(i, v)) == mass_sum(s) - s[i] + v,
    decreases s.len(),
{
    if i < s.len() - 1 {
        assert(s.update(i, v).drop_last() =~= s.drop_last().update(i, v));
        lemma_mass_sum_update(s.drop_last(), i, v);
    } else {
        assert(s.update(i, v).drop_last() =~= s.drop_last());
    }
}

/// The rounded-down shares never exceed the whole.
proof fn lemma_base_sum(masses: Seq<u32>, k: int)
    requires
        0 <= k <= masses.len(),
        masses.len() > 0,
    ensures
        mass_sum(base_priors(masses).take(k)) * (if mass_sum(masses) == 0 {
            masses.len() as int
        } else {
            mass_sum(masses)
        }) <= PRIOR_ONE * (if mass_sum(masses) == 0 {
            k
        } else {
            mass_sum(masses.take(k))
        }),
        mass_sum(base_priors(masses).take(k)) >= 0,
    decreases k,
{
    let b = base_priors(masses);
    let n = masses.len() as int;
    let total = mass_sum(masses);
    if k > 0 {
        lemma_base_sum(masses, k - 1);
        assert(b.take(k).drop_last() =~= b.take(k - 1));
        assert(masses.take(k).drop_last() =~= masses.take(k - 1));
        lemma_mass_sum_nonneg(masses);
        lemma_mass_sum_nonneg(masses.take(k - 1));
        let bs = mass_sum(b.take(k - 1));
        if total == 0 {
            let x = PRIOR_ONE as int / n;
            assert(x * n <= PRIOR_ONE) by (nonlinear_arith)
                requires
                    x == 10_000int / n,
                    n > 0,
            ;
            assert(0 <= x <= PRIOR_ONE) by (nonlinear_arith)
                requires
                    x == 10_000int / n,
                    n > 0,
            ;
            assert(b[k - 1] == x);
            assert((bs + x) * n <= PRIOR_ONE * k) by (nonlinear_arith)
                requires
                    bs * n <= 10_000 * (k - 1),
                    x * n <= 10_000,
            ;
        } else {
            lemma_mass_le_sum(masses, k - 1);
            let m = masses[k - 1] as int;
            let x = m * PRIOR_ONE / total;
            assert(x * total <= m * PRIOR_ONE && 0 <= x <= PRIOR_ONE) by (nonlinear_arith)
                requires
                    x == m * 10_000 / total,
                    total > 0,
                    0 <= m <= total,
            ;
            assert(b[k - 1] == x);
            let ms = mass_sum(masses.take(k - 1));
            assert((bs + x) * total <= PRIOR_ONE * (ms + m)) by (nonlinear_arith)
                requires
                    bs * total <= 10_000 * ms,
                    x * total <= m * 10_000,
            ;
        }
    }
}

/// Renormalizes masses into priors that sum to exactly `PRIOR_ONE`: each mass's
/// share rounded down (equal shares when the total is zero), and the remainder
/// added to the first largest mass.
pub fn normalize_priors(masses: &Vec<u32>) -> (r: Vec<u32>)
    requires
        masses.len() > 0,
    ensures
        exists|t: int| is_top(masses@, t) && r@ == priors_of(masses@, t),
        r.len() == masses.len(),
        mass_sum(r@) == PRIOR_ONE,
        forall|i: int| 0 <= i < r.len() ==> r[i] <= PRIOR_ONE,
{
    let n = masses.len();
    let mut total: u128 = 0;
    let mut top: usize = 0;
    let mut i: usize = 0;
    while i < n
        invariant
            n == masses.len(),
            n > 0,
            i <= n,
            total == mass_sum(masses@.take(i as int)),
            total <= i * 4_294_967_295,
            i == 0 ==> top == 0,
            i > 0 ==> top < i && (forall|j: int| 0 <= j < i ==> masses[j] <= masses[top as int])
                && (forall|j: int| 0 <= j < top ==> masses[j] < masses[top as int]),
        decreases n - i,
    {
        assert(masses@.take(i + 1).drop_last() =~= masses@.take(i as int));
        assert(total + masses[i as int] <= (i + 1) * 4_294_967_295) by (nonlinear_arith)
            requires
                total <= i * 4_294_967_295,
                masses[i as int] <= 4_294_967_295,
        ;
        assert((i + 1) * 4_294_967_295 < 340282366920938463463374607431768211455) by (nonlinear_arith)
            requires
                i < n,
                n <= usize::MAX,
        ;
        if i > 0 && masses[i] > masses[top] {
            top = i;
        }
        total = total + masses[i] as u128;
        i = i + 1;
    }
    assert(masses@.take(n as int) =~= masses@);
    let ghost b = base_priors(masses@);
    let mut r: Vec<u32> = Vec::new();
    let mut sum: u128 = 0;
    let mut j: usize = 0;
    proof {
        lemma_base_sum(masses@, n as int);
    }
    while j < n
        invariant
            n == masses.len(),
            n > 0,
            j <= n,
            total == mass_sum(masses@),
            b == base_priors(masses@),
            r@ == b.take(j as int),
            sum == mass_sum(b.take(j as int)),
            sum <= j * 10_000,
        decreases n - j,
    {
        let p: u32;
        if total == 0 {
            let q: u64 = (PRIOR_ONE as u64) / (n as u64);
            assert(q <= 10_000) by (nonlinear_arith)
                requires
                    q == 10_000int / (n as int),
                    n >= 1,
            ;
            p = q as u32;
        } else {
            proof {
                lemma_mass_le_sum(masses@, j as int);
            }
            let m = masses[j] as u128;
            assert((m * 10_000) as int / total as int <= 10_000) by (nonlinear_arith)
                requires
                    m <= total,
                    total > 0,
            ;
            p = ((m * 10_000) / total) as u32;
        }
        assert(p == b[j as int]);
        assert(b.take(j + 1).drop_last() =~= b.take(j as int));
        r.push(p);
        assert(sum + p <= (j + 1) * 10_000) by (nonlinear_arith)
            requires
                sum <= j * 10_000,
                p <= 10_000,
        ;
        sum = sum + p as u128;
        j = j + 1;
        assert(r@ =~= b.take(j as int));
    }
    assert(b.take(n as int) =~= b);
    proof {
        lemma_mass_sum_nonneg(masses@);
        if mass_sum(masses@) == 0 {
            assert(sum * n <= 10_000 * n);
            assert(sum <= 10_000) by (nonlinear_arith)
                requires
                    sum * n <= 10_000 * n,
                    n > 0,
            ;
        } else {
            assert(sum * total <= 10_000 * total);
            assert(sum <= 10_000) by (nonlinear_arith)
                requires
                    sum * total <= 10_000 * total,
                    total > 0,
            ;
        }
    }
    let rem: u64 = (PRIOR_ONE as u128 - sum) as u64;
    let old_top = r[top];
    proof {
        lemma_mass_le_sum(r@, top as int);
    }
    assert(old_top + rem <= 10_000);
    let topped = (old_top as u64 + rem) as u32;
    r.set(top, topped);
    proof {
        lemma_mass_sum_update(b, top as int, topped);
        assert(r@ == priors_of(masses@, top as int));
        assert(is_top(masses@, top as int));
        assert forall|i: int| 0 <= i < r.len() implies r[i] <= PRIOR_ONE by {
            lemma_mass_le_sum(r@, i);
        }
    }
    r
}

/// The priors of the legal moves `moves` (indices into `policy`): the policy
/// mass of each, with the mass of all other entries discarded, renormalized.
pub fn legal_priors(policy: &Vec<u32>, moves: &Vec<usize>) -> (r: Vec<u32>)
    requires
        moves.len() > 0,
        forall|i: int| 0 <= i < moves.len() ==> moves[i] < policy.len(),
    ensures
        r.len() == moves.len(),
        exists|t: int| is_top(legal_masses(policy@, moves@), t) && r@ == priors_of(legal_masses(policy@, moves@), t),
        mass_sum(r@) == PRIOR_ONE,
        forall|i: int| 0 <= i < r.len() ==> r[i] <= PRIOR_ONE,
{
    let mut masses: Vec<u32> = Vec::new();
    let mut i: usize = 0;
    while i < moves.len()
        invariant
            i <= moves.len(),
            forall|k: int| 0 <= k < moves.len() ==> moves[k] < policy.len(),
            masses@ == legal_masses(policy@, moves@).take(i as int),
        decreases moves.len() - i,
    {
        masses.push(policy[moves[i]]);
        i = i + 1;
        assert(masses@ =~= legal_masses(policy@, moves@).take(i as int));
    }
    assert(masses@ =~= legal_masses(policy@, moves@));
    normalize_priors(&masses)
}

/// `order` lists the indices of `priors` from the highest prior down, equal
/// priors in index order, each index once.
pub open spec fn is_prior_order(priors: Seq<u32>, order: Seq<u32>) -> bool {
    &&& order.len() == priors.len()
    &&& forall|i: int| 0 <= i < order.len() ==> order[i] < priors.len()
    &&& forall|i: int, j: int| 0 <= i < j < order.len() ==> order[i] != order[j]
    &&& forall|i: int, j: int|
        0 <= i < j < order.len() ==> priors[order[i] as int] > priors[order[j] as int] || (
        priors[order[i] as int] == priors[order[j] as int] && order[i] < order[j])
}

/// The indices of `priors`, from the highest prior down, equal priors in index order.
pub fn order_by_prior(priors: &Vec<u32>) -> (order: Vec<u32>)
    requires
        priors.len() <= u32::MAX,
    ensures
        is_prior_order(priors@, order@),
{
    let n = priors.len();
    let mut order: Vec<u32> = Vec::new();
    let mut k: usize = 0;
    while k < n
        invariant
            n == priors.len(),
            n <= u32::MAX,
            k <= n,
            order.len() == k,
            forall|i: int| 0 <= i < order.len() ==> order[i] < k,
            forall|i: int, j: int| 0 <= i < j < order.len() ==> order[i] != order[j],
            forall|i: int, j: int|
                0 <= i < j < order.len() ==> priors[order[i] as int] > priors[order[j] as int] || (
                priors[order[i] as int] == priors[order[j] as int] && order[i] < order[j]),
        decreases n - k,
    {
        let pk = priors[k];
        let mut pos: usize = 0;
        while pos < order.len() && priors[order[pos] as usize] >= pk
            invariant
                n == priors.len(),
                k < n,
                pk == priors[k as int],
                pos <= order.len(),
                forall|i: int| 0 <= i < order.len() ==> order[i] < k,
                forall|i: int| 0 <= i < pos ==> priors[order[i] as int] >= pk,
            decreases order.len() - pos,
        {
            pos = pos + 1;
        }
        let ghost old_order = order@;
        proof {
            assert forall|i: int| pos <= i < old_order.len() implies priors[old_order[i] as int] < pk by {
                if pos < old_order.len() {
                    if i > pos {
                        assert(priors[old_order[pos as int] as int] > priors[old_order[i] as int] || priors[old_order[pos as int] as int] == priors[old_order[i] as int]);
                    }
                }
            }
        }
        order.insert(pos, k as u32);
        proof {
            assert forall|i: int| 0 <= i < order.len() implies order[i] < k + 1 by {
                if i < pos {
                    assert(order[i] == old_order[i]);
                } else if i > pos {
                    assert(order[i] == old_order[i - 1]);
                }
            }
            assert forall|i: int, j: int| 0 <= i < j < order.len() implies order[i] != order[j] by {
                if i < pos && j < pos {
                    assert(order[i] == old_order[i] && order[j] == old_order[j]);
                } else if i < pos && j == pos {
                    assert(order[i] == old_order[i]);
                } else if i < pos && j > pos {
                    assert(order[i] == old_order[i] && order[j] == old_order[j - 1]);
                } else if i == pos {
                    assert(order[j] == old_order[j - 1]);
                } else {
                    assert(order[i] == old_order[i - 1] && order[j] == old_order[j - 1]);
                }
            }
            assert forall|i: int, j: int| 0 <= i < j < order.len() implies priors[order[i] as int]
                > priors[order[j] as int] || (priors[order[i] as int] == priors[order[j] as int] && order[i]
                < order[j]) by {
                if i < pos && j < pos {
                    assert(order[i] == old_order[i] && order[j] == old_order[j]);
                } else if i < pos && j == pos {
                    assert(order[i] == old_order[i]);
                } else if i < pos && j > pos {
                    assert(order[i] == old_order[i] && order[j] == old_order[j - 1]);
                } else if i == pos {
                    assert(order[j] == old_order[j - 1]);
                } else {
                    assert(order[i] == old_order[i - 1] && order[j] == old_order[j - 1]);
                }
            }
        }
        k = k + 1;
    }
    order
}

/// The evaluation of a leaf whose position is `state`. A finished game keeps
/// its fixed result and gets no edges, whatever the evaluator gave; otherwise
/// the edges are the legal moves (as indices in the rules engine's order),
/// ordered from the highest prior down, with priors renormalized from `masses`
/// (one per legal move). `None` when an open
/// position's `masses` does not hold one mass per legal move.
pub fn leaf_eval_for(state: &GameState, value: u64, draw: u32, masses: &Vec<u32>) -> (r: Option<LeafEval>)
    requires
        value <= VALUE_MAX,
        draw <= PROB_ONE,
    ensures
        r is Some <==> (!(state.spec_result() is NonTerminal) || (masses.len() == legal_moves_at(
            state.position,
        ).len() && masses.len() > 0 && masses.len() <= u32::MAX)),
        r matches Some(e) ==> {
            &&& e.wf()
            &&& e.result == state.spec_result()
            &&& e.to_move == side_to_move(state.position)
            &&& e.result is NonTerminal ==> {
                &&& e.value == value
                &&& e.draw == draw
                &&& e.moves.len() == masses.len()
                &&& exists|t: int|
                    {
                        &&& is_top(masses@, t)
                        &&& is_prior_order(priors_of(masses@, t), e.moves@)
                        &&& forall|i: int|
                            0 <= i < e.priors.len() ==> e.priors[i] == priors_of(masses@, t)[e.moves[i] as int]
                    }
            }
            &&& !(e.result is NonTerminal) ==> e.moves.len() == 0
        },
{
    let result = state.compute_game_result();
    let to_move = state.turn();
    match result {
        GameResult::NonTerminal => {
            let n = state.legal_moves().len();
            if n == 0 || masses.len() != n || n > 4_294_967_295 {
                return None;
            }
            let shares = normalize_priors(masses);
            let moves = order_by_prior(&shares);
            let mut priors: Vec<u32> = Vec::new();
            let mut i: usize = 0;
            while i < n
                invariant
                    i <= n,
                    n == shares.len(),
                    is_prior_order(shares@, moves@),
                    forall|k: int| 0 <= k < shares.len() ==> shares[k] <= PRIOR_ONE,
                    priors.len() == i,
                    forall|k: int| 0 <= k < i ==> priors[k] == shares[moves[k] as int],
                decreases n - i,
            {
                priors.push(shares[moves[i] as usize]);
                i = i + 1;
            }
            Some(LeafEval { result, to_move, value, draw, moves, priors })
        },
        _ => Some(
            LeafEval { result, to_move, value: 0, draw: 0, moves: Vec::new(), priors: Vec::new() },
        ),
    }
}

impl Tree {
    /// The moves of the path of slot `slot`, as indices among each position's legal moves.
    pub fn path_moves(&self, slot: usize) -> (r: Vec<u32>)
        requires
            self.wf(),
            self.is_live(slot as int),
        ensures
            r.len() == self.paths[slot as int].len(),
            forall|i: int| 0 <= i < r.len() ==> r[i] == self.edges[self.paths[slot as int][i] as int].mv,
    {
        let path = &self.paths[slot];
        proof {
            assert(self.is_pending_path(path@));
        }
        let mut r: Vec<u32> = Vec::new();
        let mut i: usize = 0;
        while i < path.len()
            invariant
                path == &self.paths[slot as int],
                self.is_chain(path@),
                i <= path.len(),
                r.len() == i,
                forall|k: int| 0 <= k < i ==> r[k] == self.edges[path[k] as int].mv,
            decreases path.len() - i,
        {
            assert(path@[i as int] < self.edges.len());
            r.push(self.edges[path[i]].mv);
            i = i + 1;
        }
        r
    }
}

} // verus!
