//! The chain rule: what a reverse sweep conserves.
use crate::autodiff::{
    added, exprs_of, final_gradients, lemma_collected, lemma_stepped_shaped, lemma_well_wired,
    on_path, requested, reverse_gradients, seed_of, seeded, shaped, stepped, swept, well_wired,
    Known,
};
use crate::gradients::{contributions_have_operand_extents, fits_operand, rule, Parts};
use crate::graph::{Expr, Graph, Tensor, Value};
use crate::indexing::collect;
use vstd::prelude::*;

verus! {

/// A number for every gradient of the value at a position, such as its inner
/// product with a direction in which that value moves.
pub type Pairing = spec_fn(int, Value) -> real;

/// Whether gradients add up under a pairing, at one position.
pub open spec fn adds_at(pair: Pairing, at: int, a: Value, b: Value) -> bool {
    Expr::Is(a).add(Expr::Is(b)) matches Expr::Is(c) ==> pair(at, c) == pair(at, a) + pair(at, b)
}

/// Whether gradients add up under a pairing.
pub open spec fn sums(pair: Pairing) -> bool {
    forall|at: int, a: Value, b: Value| #[trigger] adds_at(pair, at, a, b)
}

/// The pairings of the first contributions, added up.
pub open spec fn handed(pair: Pairing, wires: Seq<usize>, parts: Parts, count: nat) -> real
    decreases count,
{
    if count == 0 {
        0 as real
    } else {
        handed(pair, wires, parts, (count - 1) as nat) + pair(
            wires[parts[count - 1].0 as int] as int,
            parts[count - 1].1->Is_0,
        )
    }
}

/// Whether what an operation hands to its operands has the pairing of the
/// gradient of its result.
pub open spec fn conserves(
    pair: Pairing,
    values: Seq<Value>,
    wires: Seq<Seq<usize>>,
    at: int,
    dy: Value,
) -> bool {
    let parts = rule(values[at], dy);
    (forall|j: int| 0 <= j < parts.len() ==> (#[trigger] parts[j]).1 is Is) ==> pair(at, dy)
        == handed(pair, wires[at], parts, parts.len())
}

/// The pairing of what is known at a position.
pub open spec fn held(pair: Pairing, known: Known, at: int) -> real {
    match known[at] {
        None => 0 as real,
        Some(g) => pair(at, g),
    }
}

/// The pairings of what is known at the positions below a bound, added up, at
/// the chosen positions alone or at all of them.
pub open spec fn held_below(
    pair: Pairing,
    chosen: spec_fn(int) -> bool,
    known: Known,
    bound: nat,
) -> real
    decreases bound,
{
    if bound == 0 {
        0 as real
    } else {
        held_below(pair, chosen, known, (bound - 1) as nat) + if chosen(bound - 1) {
            held(pair, known, bound - 1)
        } else {
            0 as real
        }
    }
}

/// Another gradient at one position changes the total by the difference there.
proof fn lemma_changed(
    pair: Pairing,
    chosen: spec_fn(int) -> bool,
    known: Known,
    at: int,
    g: Value,
    bound: nat,
)
    requires
        0 <= at < known.len(),
        bound <= known.len(),
    ensures
        held_below(pair, chosen, known.update(at, Some(g)), bound) == held_below(
            pair,
            chosen,
            known,
            bound,
        ) + if at < bound && chosen(at) {
            pair(at, g) - held(pair, known, at)
        } else {
            0 as real
        },
    decreases bound,
{
    if bound > 0 {
        lemma_changed(pair, chosen, known, at, g, (bound - 1) as nat);
    }
}

/// Contributions raise the total by their pairings.
proof fn lemma_added(
    pair: Pairing,
    known: Known,
    wires: Seq<usize>,
    parts: Parts,
    count: nat,
    bound: nat,
)
    requires
        sums(pair),
        count <= parts.len(),
        bound <= known.len(),
        forall|j: int|
            0 <= j < parts.len() ==> (#[trigger] parts[j]).1 is Is && parts[j].0 < wires.len()
                && wires[parts[j].0 as int] < bound,
        added(known, wires, parts, count) is Ok,
    ensures
        ({
            let next = added(known, wires, parts, count)->Ok_0;
            &&& next.len() == known.len()
            &&& forall|k: int| bound <= k < known.len() ==> #[trigger] next[k] == known[k]
            &&& held_below(pair, |k: int| true, next, bound) == held_below(
                pair,
                |k: int| true,
                known,
                bound,
            ) + handed(pair, wires, parts, count)
        }),
    decreases count,
{
    if count > 0 {
        let all = |k: int| true;
        lemma_added(pair, known, wires, parts, (count - 1) as nat, bound);
        let before = added(known, wires, parts, (count - 1) as nat)->Ok_0;
        let part = parts[count - 1];
        assert(part.1 is Is);
        let at = wires[part.0 as int] as int;
        let next = added(known, wires, parts, count)->Ok_0;
        let v = match before[at] {
            None => part.1->Is_0,
            Some(previous) => Expr::Is(previous).add(part.1)->Is_0,
        };
        assert(next == before.update(at, Some(v)));
        if let Some(previous) = before[at] {
            assert(adds_at(pair, at, previous, part.1->Is_0));
        }
        lemma_changed(pair, all, before, at, v, bound);
        assert(held_below(pair, |k: int| true, before, bound) == held_below(
            pair,
            all,
            before,
            bound,
        ));
    }
}

/// A sweep moves what the positions below a bound hold to those of them that
/// keep it, and leaves the positions from the bound on as they are.
proof fn lemma_sweep(
    pair: Pairing,
    sources: spec_fn(int) -> bool,
    known: Known,
    values: Seq<Value>,
    wires: Seq<Seq<usize>>,
    graph: u64,
    root: int,
    count: nat,
)
    requires
        sums(pair),
        well_wired(values, wires, graph),
        shaped(known, values, wires, graph, root),
        count <= values.len(),
        root < values.len(),
        forall|at: int, dy: Value|
            0 <= at < values.len() && !sources(at) ==> #[trigger] conserves(
                pair,
                values,
                wires,
                at,
                dy,
            ),
        forall|at: int, dy: Value|
            0 <= at < values.len() && sources(at) ==> (#[trigger] rule(values[at], dy)).len() == 0,
        swept(values, wires, known, count) is Ok,
    ensures
        ({
            let last = swept(values, wires, known, count)->Ok_0;
            &&& last.len() == known.len()
            &&& forall|k: int| count <= k < known.len() ==> #[trigger] last[k] == known[k]
            &&& held_below(pair, sources, last, count) == held_below(
                pair,
                |k: int| true,
                known,
                count,
            )
        }),
    decreases count,
{
    let all = |k: int| true;
    if count > 0 {
        let at = count - 1;
        let rest = (count - 1) as nat;
        let last = swept(values, wires, known, count)->Ok_0;
        assert(held_below(pair, |k: int| true, known, count) == held_below(pair, all, known, count));
        match known[at] {
            None => {
                lemma_sweep(pair, sources, known, values, wires, graph, root, rest);
                assert(last[at] == known[at]);
                assert(held_below(pair, |k: int| true, known, rest) == held_below(
                    pair,
                    all,
                    known,
                    rest,
                ));
            },
            Some(dy) => {
                let parts = rule(values[at], dy);
                let next = stepped(known, wires[at], parts)->Ok_0;
                lemma_stepped_shaped(known, values, wires, graph, root, at);
                lemma_collected(exprs_of(parts));
                assert(values[at].graph == graph);
                contributions_have_operand_extents(values[at], dy);
                assert forall|j: int| 0 <= j < parts.len() implies (#[trigger] parts[j]).1 is Is
                    && parts[j].0 < wires[at].len() && wires[at][parts[j].0 as int] < rest by {
                    assert(fits_operand(values[at], parts[j]));
                    assert(exprs_of(parts)[j] == parts[j].1);
                }
                lemma_added(pair, known, wires[at], parts, parts.len(), rest);
                assert(next[at] == known[at]);
                lemma_sweep(pair, sources, next, values, wires, graph, root, rest);
                assert(last[at] == next[at]);
                assert(conserves(pair, values, wires, at, dy) || sources(at));
                assert(held_below(pair, |k: int| true, next, rest) == held_below(
                    pair,
                    all,
                    next,
                    rest,
                ));
                assert(held_below(pair, |k: int| true, known, rest) == held_below(
                    pair,
                    all,
                    known,
                    rest,
                ));
                assert forall|k: int| count <= k < known.len() implies #[trigger] last[k]
                    == known[k] by {
                    assert(next[k] == known[k]);
                }
            },
        }
    }
}

/// Only the root holds anything at first.
proof fn lemma_seeded(pair: Pairing, count: nat, root: int, seed: Value, bound: nat)
    requires
        0 <= root < count,
        bound <= count,
    ensures
        held_below(pair, |k: int| true, seeded(count, root, seed), bound) == if root < bound {
            pair(root, seed)
        } else {
            0 as real
        },
    decreases bound,
{
    let all = |k: int| true;
    let known = seeded(count, root, seed);
    assert(held_below(pair, |k: int| true, known, bound) == held_below(pair, all, known, bound));
    if bound > 0 {
        lemma_seeded(pair, count, root, seed, (bound - 1) as nat);
        assert(held_below(pair, |k: int| true, known, (bound - 1) as nat) == held_below(
            pair,
            all,
            known,
            (bound - 1) as nat,
        ));
        assert(known[bound - 1] is Some <==> bound - 1 == root);
    }
}

/// The chain rule. Let every gradient have a number, such as its inner product
/// with the direction in which its value moves, that adds up where gradients do
/// and that every operation but the sources passes on undiminished to its
/// operands. Then the sources together receive the number of the cotangent: the
/// gradients of the inputs, paired with how the inputs move, make up how the
/// result moves.
pub proof fn sources_receive_the_whole_cotangent(
    pair: Pairing,
    sources: spec_fn(int) -> bool,
    graph: Graph,
    loss: Tensor,
    seed: Value,
)
    requires
        graph.wf(),
        graph.owns(loss),
        seed.graph == graph.key(),
        seed.dims == loss@.dims,
        sums(pair),
        forall|at: int, dy: Value|
            0 <= at < graph.model().len() && !sources(at) ==> #[trigger] conserves(
                pair,
                graph.model(),
                graph.wires(),
                at,
                dy,
            ),
        forall|at: int, dy: Value|
            0 <= at < graph.model().len() && sources(at) ==> (#[trigger] rule(
                graph.model()[at],
                dy,
            )).len() == 0,
        final_gradients(graph, loss, seed) is Ok,
    ensures
        held_below(
            pair,
            sources,
            final_gradients(graph, loss, seed)->Ok_0,
            graph.model().len(),
        ) == pair(loss.id() as int, seed),
{
    let values = graph.model();
    let root = loss.id() as int;
    let known = seeded(values.len(), root, seed);
    lemma_well_wired(graph);
    assert(shaped(known, values, graph.wires(), graph.key(), root)) by {
        assert forall|k: int| 0 <= k < known.len() && (#[trigger] known[k]) is Some implies known[k]->0.dims
            == values[k].dims && known[k]->0.graph == graph.key() && k <= root && on_path(
            values,
            graph.wires(),
            root,
            k,
        ) by {
            assert(k == root);
        }
    }
    lemma_sweep(pair, sources, known, values, graph.wires(), graph.key(), root, values.len());
    lemma_seeded(pair, values.len(), root, seed, values.len());
}

/// The gradients that are handed out are those that the sweep reached, and zeros
/// where it reached nothing.
pub proof fn requested_gradients_are_those_reached(
    graph: Graph,
    loss: Tensor,
    inputs: Seq<Tensor>,
    cotangent: Option<Value>,
    k: int,
)
    requires
        graph.wf(),
        graph.owns(loss),
        0 <= k < inputs.len(),
        reverse_gradients(graph, loss, inputs, cotangent) is Ok,
    ensures
        ({
            let seed = seed_of(graph, cotangent)->Is_0;
            let result = reverse_gradients(graph, loss, inputs, cotangent)->Ok_0;
            &&& final_gradients(graph, loss, seed) is Ok
            &&& result.len() == inputs.len()
            &&& final_gradients(graph, loss, seed)->Ok_0[inputs[k].id() as int] matches Some(g)
                ==> result[k] == g
        }),
{
    let seed = seed_of(graph, cotangent)->Is_0;
    let known = final_gradients(graph, loss, seed)->Ok_0;
    let exprs = requested(graph.key(), known, inputs);
    lemma_collected(exprs);
    assert(exprs[k] == Expr::Is(collect(exprs)->Ok_0[k]));
}

} // verus!
