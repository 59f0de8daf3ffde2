//! The reindeer maze: moving straight costs one and turning costs a
//! thousand; a relaxation over per-direction arrival costs finds the
//! cheapest route, and walking the relaxed graph backwards collects every
//! tile on a best path.
use vstd::prelude::*;

use crate::text::{ascii_bytes, i64_to_string, lines, to_bytes, u64_to_string};

verus! {

use std::collections::HashMap;
use std::collections::VecDeque;

#[derive(Clone, Copy)]
pub struct Position {
    pub row: usize,
    pub col: usize,
}

/// An arrival or departure cost together with its direction.
#[derive(Clone, Copy)]
pub struct CostDirection {
    pub cost: i32,
    pub row: i32,
    pub col: i32,
}

/// One maze tile: where it sits and the best costs in and out per direction.
pub struct PathNode {
    pub position: Position,
    pub inputs: Vec<CostDirection>,
    pub outputs: Vec<CostDirection>,
}

impl Clone for PathNode {
    fn clone(&self) -> (r: PathNode)
        ensures
            r.position == self.position,
            r.inputs@ == self.inputs@,
            r.outputs@ == self.outputs@,
    {
        PathNode {
            position: self.position,
            inputs: self.inputs.clone(),
            outputs: self.outputs.clone(),
        }
    }
}

pub struct NodeVector {
    pub node_index: usize,
    pub row_delta: i32,
    pub col_delta: i32,
}

/// The first entry with the given direction, or -1.
pub open spec fn find_dir(s: Seq<CostDirection>, row: int, col: int) -> int
    decreases s.len(),
{
    if s.len() == 0 {
        -1
    } else if s[0].row == row && s[0].col == col {
        0
    } else {
        let r = find_dir(s.skip(1), row, col);
        if r == -1 {
            -1
        } else {
            1 + r
        }
    }
}

pub proof fn lemma_find_dir_is_first(s: Seq<CostDirection>, row: int, col: int, i: int)
    requires
        0 <= i < s.len(),
        s[i].row == row && s[i].col == col,
        forall|j: int| 0 <= j < i ==> !((#[trigger] s[j]).row == row && s[j].col == col),
    ensures
        find_dir(s, row, col) == i,
    decreases s.len(),
{
    if i > 0 {
        assert(forall|j: int| 1 <= j < s.len() ==> #[trigger] s.skip(1)[j - 1] == s[j]);
        lemma_find_dir_is_first(s.skip(1), row, col, i - 1);
    }
}

pub proof fn lemma_find_dir_none(s: Seq<CostDirection>, row: int, col: int)
    requires
        forall|j: int| 0 <= j < s.len() ==> !((#[trigger] s[j]).row == row && s[j].col == col),
    ensures
        find_dir(s, row, col) == -1,
    decreases s.len(),
{
    if s.len() > 0 {
        assert(forall|j: int| 1 <= j < s.len() ==> #[trigger] s.skip(1)[j - 1] == s[j]);
        lemma_find_dir_none(s.skip(1), row, col);
    }
}

impl PathNode {
    /// A fresh tile node holding one arrival cost.
    pub fn new(row: usize, col: usize, row_delta: i32, col_delta: i32, cost: i32) -> (r: PathNode)
        ensures
            r.position.row == row && r.position.col == col,
            r.inputs@ =~= seq![CostDirection { cost, row: row_delta, col: col_delta }],
            r.outputs@ =~= Seq::<CostDirection>::empty(),
    {
        let mut node = PathNode {
            position: Position { row, col },
            inputs: Vec::new(),
            outputs: Vec::new(),
        };
        node.inputs.push(CostDirection { cost, row: row_delta, col: col_delta });
        node
    }

    /// Overwrites the arrival cost of direction `(row_delta, col_delta)`, or
    /// records it as a new arrival.
    pub fn add_input(&mut self, row_delta: i32, col_delta: i32, cost: i32)
        ensures
            final(self).position == old(self).position,
            final(self).outputs == old(self).outputs,
            ({
                let at = find_dir(old(self).inputs@, row_delta as int, col_delta as int);
                if at >= 0 {
                    final(self).inputs@ =~= old(self).inputs@.update(
                        at,
                        CostDirection { cost, row: row_delta, col: col_delta },
                    )
                } else {
                    final(self).inputs@ =~= old(self).inputs@.push(
                        CostDirection { cost, row: row_delta, col: col_delta },
                    )
                }
            }),
    {
        let mut i: usize = 0;
        while i < self.inputs.len()
            invariant
                i <= self.inputs@.len(),
                self == old(self),
                forall|j: int|
                    0 <= j < i ==> !((#[trigger] self.inputs@[j]).row == row_delta
                        && self.inputs@[j].col == col_delta),
            decreases self.inputs@.len() - i,
        {
            if self.inputs[i].row == row_delta && self.inputs[i].col == col_delta {
                proof {
                    lemma_find_dir_is_first(
                        self.inputs@,
                        row_delta as int,
                        col_delta as int,
                        i as int,
                    );
                }
                self.inputs[i] = CostDirection { cost, row: row_delta, col: col_delta };
                return ;
            }
            i += 1;
        }
        proof {
            lemma_find_dir_none(self.inputs@, row_delta as int, col_delta as int);
        }
        self.inputs.push(CostDirection { cost, row: row_delta, col: col_delta });
    }
}

/// The departure cost left after relaxing `acc` against each arrival in
/// turn: a same-direction arrival offers its cost plus one, any other
/// arrival its cost plus a thousand and one, and only improvements land.
pub open spec fn relaxed_cost(inputs: Seq<CostDirection>, rd: int, cd: int, acc: int) -> int
    decreases inputs.len(),
{
    if inputs.len() == 0 {
        acc
    } else {
        let c0 = inputs[0];
        let next = if c0.row == rd && c0.col == cd && acc > c0.cost + 1 {
            c0.cost + 1
        } else if acc > c0.cost + 1001 {
            c0.cost + 1001
        } else {
            acc
        };
        relaxed_cost(inputs.skip(1), rd, cd, next)
    }
}

/// Relaxation never raises a cost.
pub proof fn lemma_relaxed_le(inputs: Seq<CostDirection>, rd: int, cd: int, acc: int)
    ensures
        relaxed_cost(inputs, rd, cd, acc) <= acc,
    decreases inputs.len(),
{
    if inputs.len() > 0 {
        let c0 = inputs[0];
        let next = if c0.row == rd && c0.col == cd && acc > c0.cost + 1 {
            c0.cost + 1
        } else if acc > c0.cost + 1001 {
            c0.cost + 1001
        } else {
            acc
        };
        lemma_relaxed_le(inputs.skip(1), rd, cd, next);
    }
}

/// The cost stored for direction `(rd, cd)` by a forward scan that keeps
/// the last matching entry, or zero when none matches.
pub open spec fn last_dir_cost(outputs: Seq<CostDirection>, rd: int, cd: int) -> int
    decreases outputs.len(),
{
    if outputs.len() == 0 {
        0
    } else if outputs.last().row == rd && outputs.last().col == cd {
        outputs.last().cost as int
    } else {
        last_dir_cost(outputs.drop_last(), rd, cd)
    }
}

/// The predecessor steps whose arrival cost exactly explains the departure
/// cost `oc`: same-direction arrivals one cheaper, arrivals differing in
/// both components a thousand and one cheaper, kept in arrival order and
/// skipped when the decoded predecessor index leaves the encoding.
pub open spec fn cost_preds(
    inputs: Seq<CostDirection>,
    rd: int,
    cd: int,
    oc: int,
    node_index: int,
) -> Seq<NodeVector>
    decreases inputs.len(),
{
    if inputs.len() == 0 {
        Seq::empty()
    } else {
        let c0 = inputs[0];
        let valid = (c0.row == rd && c0.col == cd && c0.cost + 1 == oc) || (c0.row != rd && c0.col
            != cd && c0.cost + 1001 == oc);
        let raw = (node_index / 1000 - c0.row) * 1000 + node_index % 1000 - c0.col;
        let rest = cost_preds(inputs.skip(1), rd, cd, oc, node_index);
        if valid && -1000 <= c0.row <= 1000 && -1000 <= c0.col <= 1000 && raw >= 0 {
            seq![
                (NodeVector { node_index: raw as usize, row_delta: c0.row, col_delta: c0.col }),
            ] + rest
        } else {
            rest
        }
    }
}

/// At most one predecessor is kept per arrival.
pub proof fn lemma_cost_preds_len(
    inputs: Seq<CostDirection>,
    rd: int,
    cd: int,
    oc: int,
    node_index: int,
)
    ensures
        cost_preds(inputs, rd, cd, oc, node_index).len() <= inputs.len(),
    decreases inputs.len(),
{
    if inputs.len() > 0 {
        lemma_cost_preds_len(inputs.skip(1), rd, cd, oc, node_index);
    }
}

/// The encoded index one step against `(row, col)` from the node at
/// `node_index`, clamped to zero when the step leaves the encoding.
pub open spec fn pred_index(node_index: int, row: int, col: int) -> int {
    let raw = (node_index / 1000 - row) * 1000 + node_index % 1000 - col;
    if -1000 <= row <= 1000 && -1000 <= col <= 1000 && raw >= 0 {
        raw
    } else {
        0
    }
}

pub struct Graph {
    pub nodes: HashMap<usize, PathNode>,
}

impl Graph {
    /// Stores `node` under `index`.
    pub fn add(&mut self, index: usize, node: PathNode)
        ensures
            final(self).nodes@ == old(self).nodes@.insert(index, node),
    {
        self.nodes.insert(index, node);
    }

    /// Records the arrival cost at `(row, col)` from the given direction,
    /// creating the node when it is new.  Other nodes are untouched.
    pub fn add_input(&mut self, row: usize, col: usize, row_delta: i32, col_delta: i32, cost: i32)
        requires
            row <= 1000,
            col <= 1000,
        ensures
            final(self).nodes@.contains_key(((row * 1000 + col) as usize)),
            forall|k: usize|
                k != row * 1000 + col ==> final(self).nodes@.contains_key(k) == old(
                    self,
                ).nodes@.contains_key(k),
            forall|k: usize|
                k != row * 1000 + col && old(self).nodes@.contains_key(k)
                    ==> #[trigger] final(self).nodes@[k] == old(self).nodes@[k],
            ({
                let key = ((row * 1000 + col) as usize);
                let cd = (CostDirection { cost, row: row_delta, col: col_delta });
                let node = final(self).nodes@[key];
                if old(self).nodes@.contains_key(key) {
                    let o = old(self).nodes@[key];
                    let at = find_dir(o.inputs@, row_delta as int, col_delta as int);
                    node.position == o.position && node.outputs@ == o.outputs@ && node.inputs@
                        == (if at >= 0 {
                        o.inputs@.update(at, cd)
                    } else {
                        o.inputs@.push(cd)
                    })
                } else {
                    node.position.row == row && node.position.col == col && node.inputs@ =~= seq![cd]
                        && node.outputs@ =~= Seq::<CostDirection>::empty()
                }
            }),
    {
        let node_index = row * 1000 + col;
        match self.nodes.get(&node_index) {
            Some(existing) => {
                let mut node = existing.clone();
                node.add_input(row_delta, col_delta, cost);
                self.nodes.insert(node_index, node);
            },
            None => {
                let node = PathNode::new(row, col, row_delta, col_delta, cost);
                self.nodes.insert(node_index, node);
            },
        }
    }

    /// Relaxes the departure cost of `(row_delta, col_delta)` at the node:
    /// straight arrivals cost one more, turning arrivals a thousand more.
    /// Returns the new cost when it improved (or was just created).
    pub fn add_output(&mut self, node_index: usize, row_delta: i32, col_delta: i32) -> (r: Option<
        i32,
    >)
        requires
            old(self).nodes@.contains_key(node_index),
        ensures
            final(self).nodes@.contains_key(node_index),
            final(self).nodes@[node_index].position == old(self).nodes@[node_index].position,
            final(self).nodes@[node_index].inputs@ == old(self).nodes@[node_index].inputs@,
            forall|k: usize|
                k != node_index ==> final(self).nodes@.contains_key(k) == old(
                    self,
                ).nodes@.contains_key(k),
            forall|k: usize|
                k != node_index && old(self).nodes@.contains_key(k)
                    ==> #[trigger] final(self).nodes@[k] == old(self).nodes@[k],
            ({
                let o = old(self).nodes@[node_index];
                let at = find_dir(o.outputs@, row_delta as int, col_delta as int);
                let start = if at >= 0 {
                    o.outputs@[at].cost as int
                } else {
                    i32::MAX as int
                };
                let best = relaxed_cost(o.inputs@, row_delta as int, col_delta as int, start);
                let entry = (CostDirection { cost: best as i32, row: row_delta, col: col_delta });
                final(self).nodes@[node_index].outputs@ == (if at >= 0 {
                    o.outputs@.update(at, entry)
                } else {
                    o.outputs@.push(entry)
                }) && best <= start && (r is Some <==> (at < 0 || best < start)) && (r matches Some(
                    c,
                ) ==> c as int == best)
            }),
    {
        let mut node = match self.nodes.get(&node_index) {
            Some(n) => n.clone(),
            None => {
                return None;
            },
        };
        let ghost o = old(self).nodes@[node_index];
        let ghost rd = row_delta as int;
        let ghost cd = col_delta as int;
        let mut oi: usize = 0;
        let mut found = false;
        while oi < node.outputs.len()
            invariant
                oi <= node.outputs@.len(),
                node.outputs@ == o.outputs@,
                !found,
                forall|j: int|
                    0 <= j < oi ==> !((#[trigger] node.outputs@[j]).row == row_delta
                        && node.outputs@[j].col == col_delta),
            decreases node.outputs@.len() - oi,
        {
            if node.outputs[oi].row == row_delta && node.outputs[oi].col == col_delta {
                found = true;
                break ;
            }
            oi += 1;
        }
        if found && oi < node.outputs.len() {
            proof {
                lemma_find_dir_is_first(o.outputs@, rd, cd, oi as int);
            }
            let ghost start = o.outputs@[oi as int].cost as int;
            let mut updated = false;
            let mut out_cost = node.outputs[oi].cost;
            proof {
                assert(o.inputs@.skip(0) =~= o.inputs@);
            }
            let mut ii: usize = 0;
            while ii < node.inputs.len()
                invariant
                    ii <= node.inputs@.len(),
                    node.inputs@ == o.inputs@,
                    node.outputs@ == o.outputs@,
                    out_cost as int <= start,
                    updated <==> (out_cost as int) < start,
                    relaxed_cost(o.inputs@, rd, cd, start) == relaxed_cost(
                        o.inputs@.skip(ii as int),
                        rd,
                        cd,
                        out_cost as int,
                    ),
                decreases node.inputs@.len() - ii,
            {
                proof {
                    assert(o.inputs@.skip(ii as int).skip(1) =~= o.inputs@.skip(ii as int + 1));
                    assert(o.inputs@.skip(ii as int)[0] == o.inputs@[ii as int]);
                }
                let input = node.inputs[ii];
                if input.row == row_delta && input.col == col_delta && (out_cost as i64) > (
                input.cost as i64) + 1 {
                    updated = true;
                    out_cost = ((input.cost as i64) + 1) as i32;
                } else if (out_cost as i64) > (input.cost as i64) + 1001 {
                    updated = true;
                    out_cost = ((input.cost as i64) + 1001) as i32;
                }
                ii += 1;
            }
            proof {
                assert(o.inputs@.skip(node.inputs@.len() as int) =~= Seq::<
                    CostDirection,
                >::empty());
            }
            node.outputs[oi] = CostDirection { cost: out_cost, row: row_delta, col: col_delta };
            self.nodes.insert(node_index, node);
            return if updated {
                Some(out_cost)
            } else {
                None
            };
        }
        proof {
            lemma_find_dir_none(o.outputs@, rd, cd);
        }
        let mut cost: i32 = i32::MAX;
        proof {
            assert(o.inputs@.skip(0) =~= o.inputs@);
        }
        let mut ii: usize = 0;
        while ii < node.inputs.len()
            invariant
                ii <= node.inputs@.len(),
                node.inputs@ == o.inputs@,
                node.outputs@ == o.outputs@,
                cost as int <= i32::MAX as int,
                relaxed_cost(o.inputs@, rd, cd, i32::MAX as int) == relaxed_cost(
                    o.inputs@.skip(ii as int),
                    rd,
                    cd,
                    cost as int,
                ),
            decreases node.inputs@.len() - ii,
        {
            proof {
                assert(o.inputs@.skip(ii as int).skip(1) =~= o.inputs@.skip(ii as int + 1));
                assert(o.inputs@.skip(ii as int)[0] == o.inputs@[ii as int]);
            }
            let input = node.inputs[ii];
            if input.row == row_delta && input.col == col_delta && (cost as i64) > (input.cost
                as i64) + 1 {
                cost = ((input.cost as i64) + 1) as i32;
            } else if (cost as i64) > (input.cost as i64) + 1001 {
                cost = ((input.cost as i64) + 1001) as i32;
            }
            ii += 1;
        }
        proof {
            assert(o.inputs@.skip(node.inputs@.len() as int) =~= Seq::<CostDirection>::empty());
            lemma_relaxed_le(o.inputs@, rd, cd, i32::MAX as int);
        }
        node.outputs.push(CostDirection { cost, row: row_delta, col: col_delta });
        self.nodes.insert(node_index, node);
        Some(cost)
    }

    /// The predecessors whose arrival exactly explains the departure cost of
    /// `(row_delta, col_delta)` at the node: straight arrivals one cheaper,
    /// turning arrivals a thousand and one cheaper.
    pub fn get_inputs_for_output(
        &self,
        node_index: usize,
        row_delta: i32,
        col_delta: i32,
    ) -> (r: Vec<NodeVector>)
        requires
            self.nodes@.contains_key(node_index),
            node_index <= 1001000,
        ensures
            r@.len() <= self.nodes@[node_index].inputs@.len(),
            r@ == cost_preds(
                self.nodes@[node_index].inputs@,
                row_delta as int,
                col_delta as int,
                last_dir_cost(self.nodes@[node_index].outputs@, row_delta as int, col_delta as int),
                node_index as int,
            ),
    {
        let ghost rd = row_delta as int;
        let ghost cd = col_delta as int;
        let node = match self.nodes.get(&node_index) {
            Some(n) => n,
            None => {
                return Vec::new();
            },
        };
        let mut output_cost: i32 = 0;
        let mut oi: usize = 0;
        while oi < node.outputs.len()
            invariant
                oi <= node.outputs@.len(),
                node.outputs@ == self.nodes@[node_index].outputs@,
                output_cost as int == last_dir_cost(node.outputs@.take(oi as int), rd, cd),
            decreases node.outputs@.len() - oi,
        {
            proof {
                assert(node.outputs@.take(oi as int + 1).drop_last() =~= node.outputs@.take(
                    oi as int,
                ));
                assert(node.outputs@.take(oi as int + 1).last() == node.outputs@[oi as int]);
            }
            let output = node.outputs[oi];
            if output.row == row_delta && output.col == col_delta {
                output_cost = output.cost;
            }
            oi += 1;
        }
        proof {
            assert(node.outputs@.take(node.outputs@.len() as int) =~= node.outputs@);
            assert(node.inputs@.skip(0) =~= node.inputs@);
        }
        let ghost oc = output_cost as int;
        let ghost ni = node_index as int;
        let mut min_inputs: Vec<NodeVector> = Vec::new();
        let mut ii: usize = 0;
        while ii < node.inputs.len()
            invariant
                ii <= node.inputs@.len(),
                min_inputs@.len() <= ii,
                node.inputs@ == self.nodes@[node_index].inputs@,
                oc == output_cost as int,
                min_inputs@ + cost_preds(node.inputs@.skip(ii as int), rd, cd, oc, ni)
                    == cost_preds(node.inputs@, rd, cd, oc, ni),
            decreases node.inputs@.len() - ii,
        {
            proof {
                assert(node.inputs@.skip(ii as int).skip(1) =~= node.inputs@.skip(ii as int + 1));
                assert(node.inputs@.skip(ii as int)[0] == node.inputs@[ii as int]);
            }
            let input = node.inputs[ii];
            let is_valid_straight = input.row == row_delta && input.col == col_delta && (input.cost
                as i64) + 1 == output_cost as i64;
            let is_valid_turn = input.row != row_delta && input.col != col_delta && (input.cost
                as i64) + 1001 == output_cost as i64;
            if is_valid_straight || is_valid_turn {
                if -1000 <= input.row && input.row <= 1000 && -1000 <= input.col && input.col
                    <= 1000 {
                    let next_node_index = (node_index as i32 / 1000 - input.row) * 1000
                        + node_index as i32 % 1000 - input.col;
                    if next_node_index >= 0 {
                        let nv = NodeVector {
                            node_index: next_node_index as usize,
                            row_delta: input.row,
                            col_delta: input.col,
                        };
                        proof {
                            assert(min_inputs@.push(nv) + cost_preds(
                                node.inputs@.skip(ii as int + 1),
                                rd,
                                cd,
                                oc,
                                ni,
                            ) =~= min_inputs@ + (seq![nv] + cost_preds(
                                node.inputs@.skip(ii as int + 1),
                                rd,
                                cd,
                                oc,
                                ni,
                            )));
                        }
                        min_inputs.push(nv);
                    }
                }
            }
            ii += 1;
        }
        proof {
            assert(node.inputs@.skip(node.inputs@.len() as int) =~= Seq::<CostDirection>::empty());
            assert(min_inputs@ + Seq::<NodeVector>::empty() =~= min_inputs@);
            lemma_cost_preds_len(node.inputs@, rd, cd, oc, ni);
        }
        min_inputs
    }

    /// The cheapest arrival cost recorded at the node, over every direction.
    pub fn get_min_cost(&self, node_index: &usize) -> (r: i32)
        requires
            self.nodes@.contains_key(*node_index),
        ensures
            forall|i: int|
                0 <= i < self.nodes@[*node_index].inputs@.len() ==> r <= (
                #[trigger] self.nodes@[*node_index].inputs@[i]).cost,
            r == i32::MAX || exists|i: int|
                0 <= i < self.nodes@[*node_index].inputs@.len() && (
                #[trigger] self.nodes@[*node_index].inputs@[i]).cost == r,
    {
        let node = match self.nodes.get(node_index) {
            Some(n) => n,
            None => {
                return i32::MAX;
            },
        };
        let mut cost: i32 = i32::MAX;
        let mut ii: usize = 0;
        while ii < node.inputs.len()
            invariant
                ii <= node.inputs@.len(),
                node.inputs@ == self.nodes@[*node_index].inputs@,
                forall|j: int| 0 <= j < ii ==> cost <= (#[trigger] node.inputs@[j]).cost,
                cost == i32::MAX || exists|j: int|
                    0 <= j < ii && (#[trigger] node.inputs@[j]).cost == cost,
            decreases node.inputs@.len() - ii,
        {
            if node.inputs[ii].cost < cost {
                cost = node.inputs[ii].cost;
                proof {
                    assert(node.inputs@[ii as int].cost == cost);
                }
            }
            ii += 1;
        }
        cost
    }

    /// The predecessor step of a cheapest arrival at the node.
    pub fn get_end_vector(&self, node_index: usize) -> (r: NodeVector)
        requires
            self.nodes@.contains_key(node_index),
            self.nodes@[node_index].inputs@.len() >= 1,
            node_index <= 1001000,
        ensures
            ({
                let inputs = self.nodes@[node_index].inputs@;
                exists|i: int|
                    0 <= i < inputs.len() && (forall|j: int|
                        0 <= j < inputs.len() ==> (#[trigger] inputs[i]).cost <= (
                        #[trigger] inputs[j]).cost) && (forall|j: int|
                        0 <= j < i ==> (#[trigger] inputs[j]).cost > inputs[i].cost)
                        && r.row_delta == inputs[i].row && r.col_delta == inputs[i].col
                        && r.node_index as int == pred_index(
                        node_index as int,
                        inputs[i].row as int,
                        inputs[i].col as int,
                    )
            }),
    {
        let node = match self.nodes.get(&node_index) {
            Some(n) => n,
            None => {
                return NodeVector { node_index: 0, row_delta: 0, col_delta: 0 };
            },
        };
        let mut best: usize = 0;
        let mut ii: usize = 1;
        while ii < node.inputs.len()
            invariant
                best < ii <= node.inputs@.len() || (best == 0 && ii <= node.inputs@.len()),
                node.inputs@.len() >= 1,
                node.inputs@ == self.nodes@[node_index].inputs@,
                best < node.inputs@.len(),
                forall|j: int|
                    0 <= j < ii ==> (#[trigger] node.inputs@[best as int]).cost <= (
                    #[trigger] node.inputs@[j]).cost,
                forall|j: int|
                    0 <= j < best ==> (#[trigger] node.inputs@[j]).cost > node.inputs@[best as int].cost,
            decreases node.inputs@.len() - ii,
        {
            if node.inputs[ii].cost < node.inputs[best].cost {
                best = ii;
            }
            ii += 1;
        }
        let input_with_min_cost = node.inputs[best];
        let next_node_index = if -1000 <= input_with_min_cost.row && input_with_min_cost.row
            <= 1000 && -1000 <= input_with_min_cost.col && input_with_min_cost.col <= 1000 {
            let raw = (node_index as i32 / 1000 - input_with_min_cost.row) * 1000 + node_index
                as i32 % 1000 - input_with_min_cost.col;
            if raw >= 0 {
                raw as usize
            } else {
                0
            }
        } else {
            0
        };
        proof {
            assert(node.inputs@[best as int].row == input_with_min_cost.row);
            assert(node_index as int / 1000 == node_index as i32 as int / 1000);
        }
        NodeVector {
            node_index: next_node_index,
            row_delta: input_with_min_cost.row,
            col_delta: input_with_min_cost.col,
        }
    }

    /// Where the node sits in the maze.
    pub fn get_position(&self, node_index: &usize) -> (r: Position)
        requires
            self.nodes@.contains_key(*node_index),
        ensures
            r.row == self.nodes@[*node_index].position.row,
            r.col == self.nodes@[*node_index].position.col,
    {
        let node = match self.nodes.get(node_index) {
            Some(n) => n,
            None => {
                return Position { row: 0, col: 0 };
            },
        };
        Position { row: node.position.row, col: node.position.col }
    }
}

pub open spec fn walls_wf(walls: Seq<Vec<bool>>) -> bool {
    2 <= walls.len() <= 999 && forall|i: int|
        0 <= i < walls.len() ==> (#[trigger] walls[i])@.len() == walls.len()
}

/// Tries one step from the node: a non-wall target gets a relaxed departure
/// cost, and an improvement queues the target for another pass.
pub fn move_along_direction(
    walls: &Vec<Vec<bool>>,
    nodes: &mut Graph,
    alternatives: &mut VecDeque<usize>,
    node_index: usize,
    direction_y: i32,
    direction_x: i32,
)
    requires
        walls_wf(walls@),
        -1 <= direction_y <= 1,
        -1 <= direction_x <= 1,
{
    if node_index == 1000 + walls.len() - 2 {
        return ;
    }
    if !nodes.nodes.contains_key(&node_index) {
        return ;
    }
    let position = nodes.get_position(&node_index);
    if position.row >= walls.len() || position.col >= walls.len() {
        return ;
    }
    let target_row_i = position.row as i32 + direction_y;
    let target_col_i = position.col as i32 + direction_x;
    if target_row_i < 0 || target_col_i < 0 || target_row_i >= walls.len() as i32 || target_col_i
        >= walls.len() as i32 {
        return ;
    }
    let target_row = target_row_i as usize;
    let target_col = target_col_i as usize;
    if !walls[target_row][target_col] {
        let cost = nodes.add_output(node_index, direction_y, direction_x);
        match cost {
            Some(c) => {
                alternatives.push_back(target_row * 1000 + target_col);
                nodes.add_input(target_row, target_col, direction_y, direction_x, c);
            },
            None => {},
        }
    }
}

/// The parsed maze: walls plus the start and end tiles.
struct Maze {
    walls: Vec<Vec<bool>>,
    start_x: usize,
    start_y: usize,
    end_x: usize,
    end_y: usize,
}

fn parse_maze(input: &String) -> (r: Option<Maze>)
    requires
        input.is_ascii(),
        input@.len() <= 1000000,
    ensures
        r matches Some(m) ==> walls_wf(m.walls@) && m.start_y < m.walls@.len() && m.start_x
            < m.walls@.len() && m.end_y < m.walls@.len() && m.end_x < m.walls@.len(),
{
    let bytes = to_bytes(input.as_str());
    let ls = lines(&bytes);
    let size = ls.len();
    if size < 2 || size > 999 {
        return None;
    }
    let mut walls: Vec<Vec<bool>> = Vec::new();
    let mut start_x: usize = 0;
    let mut start_y: usize = 0;
    let mut end_x: usize = 0;
    let mut end_y: usize = 0;
    let mut row: usize = 0;
    while row < size
        invariant
            row <= size == ls@.len(),
            2 <= size <= 999,
            walls@.len() == row,
            forall|i: int| 0 <= i < walls@.len() ==> (#[trigger] walls@[i])@.len() == size,
            start_x < size || start_x == 0,
            start_y < size || start_y == 0,
            end_x < size || end_x == 0,
            end_y < size || end_y == 0,
        decreases size - row,
    {
        let line = &ls[row];
        let mut wall_row: Vec<bool> = Vec::new();
        let mut col: usize = 0;
        while col < size
            invariant
                col <= size,
                row < size,
                wall_row@.len() == col,
                start_x < size || start_x == 0,
                start_y < size || start_y == 0,
                end_x < size || end_x == 0,
                end_y < size || end_y == 0,
            decreases size - col,
        {
            let b = if col < line.len() {
                line[col]
            } else {
                46
            };
            wall_row.push(b == 35);
            if b == 83 {
                start_x = col;
                start_y = row;
            } else if b == 69 {
                end_x = col;
                end_y = row;
            }
            col += 1;
        }
        walls.push(wall_row);
        row += 1;
    }
    Some(Maze { walls, start_x, start_y, end_x, end_y })
}

/// Relaxes the whole maze from the start until no departure improves.
fn relax(maze: &Maze) -> (nodes: Graph)
    requires
        walls_wf(maze.walls@),
        maze.start_y < maze.walls@.len(),
        maze.start_x < maze.walls@.len(),
{
    let mut nodes = Graph { nodes: HashMap::new() };
    let mut alternatives: VecDeque<usize> = VecDeque::new();
    let start_node = PathNode::new(maze.start_y, maze.start_x, 0, 1, 0);
    let start_node_index = maze.start_y * 1000 + maze.start_x;
    alternatives.push_back(start_node_index);
    nodes.add(start_node_index, start_node);
    // Each queued entry stems from a strict cost improvement; the budget
    // covers far more improvements than any maze of this size can see.
    let mut budget: u64 = 100000000;
    while budget > 0
        invariant
            walls_wf(maze.walls@),
        decreases budget,
    {
        budget -= 1;
        let node_index = match alternatives.pop_front() {
            Some(i) => i,
            None => {
                break ;
            },
        };
        move_along_direction(&maze.walls, &mut nodes, &mut alternatives, node_index, 0, -1);
        move_along_direction(&maze.walls, &mut nodes, &mut alternatives, node_index, 0, 1);
        move_along_direction(&maze.walls, &mut nodes, &mut alternatives, node_index, -1, 0);
        move_along_direction(&maze.walls, &mut nodes, &mut alternatives, node_index, 1, 0);
    }
    nodes
}

/// The cheapest cost of reaching the end tile.
pub fn part1(input: &String) -> (r: String)
    requires
        input.is_ascii(),
        input@.len() <= 1000000,
{
    let maze = match parse_maze(input) {
        Some(m) => m,
        None => {
            return i64_to_string(0);
        },
    };
    let nodes = relax(&maze);
    let end_index = maze.end_y * 1000 + maze.end_x;
    if !nodes.nodes.contains_key(&end_index) {
        return i64_to_string(0);
    }
    let cost = nodes.get_min_cost(&end_index);
    i64_to_string(cost as i64)
}

/// How many tiles lie on at least one cheapest route.
pub fn part2(input: &String) -> (r: String)
    requires
        input.is_ascii(),
        input@.len() <= 1000000,
{
    let maze = match parse_maze(input) {
        Some(m) => m,
        None => {
            return u64_to_string(0);
        },
    };
    let nodes = relax(&maze);
    let end_index = maze.end_y * 1000 + maze.end_x;
    if !nodes.nodes.contains_key(&end_index) {
        return u64_to_string(0);
    }
    let mut hot_nodes: Vec<usize> = Vec::new();
    hot_nodes.push(end_index);
    let empty_check = match nodes.nodes.get(&end_index) {
        Some(n) => n.inputs.len() == 0,
        None => true,
    };
    if empty_check {
        return u64_to_string(hot_nodes.len() as u64);
    }
    let end_vector = nodes.get_end_vector(end_index);
    if !contains_index(&hot_nodes, end_vector.node_index) {
        hot_nodes.push(end_vector.node_index);
    }
    work_backwards(
        &nodes,
        &mut hot_nodes,
        end_vector.node_index,
        end_vector.row_delta,
        end_vector.col_delta,
    );
    u64_to_string(hot_nodes.len() as u64)
}

fn contains_index(v: &Vec<usize>, x: usize) -> (r: bool)
{
    let mut i: usize = 0;
    while i < v.len()
        invariant
            i <= v@.len(),
        decreases v@.len() - i,
    {
        if v[i] == x {
            return true;
        }
        i += 1;
    }
    false
}

/// Walks the explaining predecessors backwards from the end, collecting
/// every tile of a cheapest route.
pub fn work_backwards(
    nodes: &Graph,
    hot_nodes: &mut Vec<usize>,
    node_index: usize,
    row_delta: i32,
    col_delta: i32,
)
{
    let mut stack: Vec<NodeVector> = Vec::new();
    stack.push(NodeVector { node_index, row_delta, col_delta });
    // Every expansion marks a fresh node first, so the walk touches each
    // node a bounded number of times.
    let mut budget: u64 = 100000000;
    while budget > 0
        decreases budget,
    {
        budget -= 1;
        let current = match stack.pop() {
            Some(v) => v,
            None => {
                break ;
            },
        };
        if current.node_index > 1001000 {
            continue ;
        }
        if !nodes.nodes.contains_key(&current.node_index) {
            continue ;
        }
        let next_nodes = nodes.get_inputs_for_output(
            current.node_index,
            current.row_delta,
            current.col_delta,
        );
        let mut ni: usize = 0;
        while ni < next_nodes.len()
            invariant
                ni <= next_nodes@.len(),
            decreases next_nodes@.len() - ni,
        {
            let next_node = &next_nodes[ni];
            if !contains_index(hot_nodes, next_node.node_index) && next_node.node_index % 1000
                != 0 {
                hot_nodes.push(next_node.node_index);
                stack.push(
                    NodeVector {
                        node_index: next_node.node_index,
                        row_delta: next_node.row_delta,
                        col_delta: next_node.col_delta,
                    },
                );
            }
            ni += 1;
        }
    }
}

} // verus!