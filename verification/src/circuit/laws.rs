//! What holds of every builder, whatever components it is handed: when a
//! sequence of components is accepted and builds a circuit, and which memory
//! index a node gets.

use crate::circuit::builder::{
    assign, available, first_driven_input, lemma_assign_concat, lemma_next_index_keeps_dense,
    lemma_no_clash, lemma_no_driven_input, lemma_none_unavailable, lemma_one_more_node,
    rejection, unused_inputs, CircuitBuilder,
};
use crate::circuit::generic::dense;
use crate::circuit::memory::CircuitMemory;
use crate::model::{Component, Executable};
use vstd::prelude::*;

verus! {

/// The nodes of one component, as a builder is handed them.
pub struct Wiring {
    pub inputs: Seq<usize>,
    pub outputs: Seq<usize>,
}

/// The nodes that the components write.
pub open spec fn produced_by(gates: Seq<Wiring>) -> Set<usize>
    decreases gates.len(),
{
    if gates.len() == 0 {
        Set::empty()
    } else {
        produced_by(gates.drop_last()).union(gates.last().outputs.to_set())
    }
}

/// The nodes that the components read.
pub open spec fn consumed_by(gates: Seq<Wiring>) -> Set<usize>
    decreases gates.len(),
{
    if gates.len() == 0 {
        Set::empty()
    } else {
        consumed_by(gates.drop_last()).union(gates.last().inputs.to_set())
    }
}

/// The nodes in the order in which a builder meets them: component by
/// component, the inputs of each before its outputs.
pub open spec fn encounter_order(gates: Seq<Wiring>) -> Seq<usize>
    decreases gates.len(),
{
    if gates.len() == 0 {
        Seq::empty()
    } else {
        encounter_order(gates.drop_last()) + gates.last().inputs + gates.last().outputs
    }
}

/// A builder with these declared inputs accepts the components one after
/// the other.
pub open spec fn accepted(declared: Seq<usize>, gates: Seq<Wiring>) -> bool
    decreases gates.len(),
{
    gates.len() == 0 || {
        &&& accepted(declared, gates.drop_last())
        &&& rejection(
            declared,
            produced_by(gates.drop_last()),
            gates.last().inputs,
            gates.last().outputs,
        ) is None
    }
}

/// Every component has an input and an output.
pub open spec fn connected(gates: Seq<Wiring>) -> bool {
    forall|i: int|
        0 <= i < gates.len() ==> (#[trigger] gates[i]).inputs.len() > 0 && gates[i].outputs.len()
            > 0
}

/// Every input of every component is a declared circuit input or an output
/// of a strictly earlier component, and no output is a declared circuit
/// input, an output of an earlier component or an earlier output of the
/// same component.
pub open spec fn legal(declared: Seq<usize>, gates: Seq<Wiring>) -> bool {
    &&& forall|i: int, k: int|
        #![trigger gates[i].inputs[k]]
        0 <= i < gates.len() && 0 <= k < gates[i].inputs.len() ==> available(
            declared,
            produced_by(gates.take(i)),
            gates[i].inputs[k],
        )
    &&& forall|i: int, k: int|
        #![trigger gates[i].outputs[k]]
        0 <= i < gates.len() && 0 <= k < gates[i].outputs.len() ==> {
            &&& !declared.contains(gates[i].outputs[k])
            &&& !produced_by(gates.take(i)).contains(gates[i].outputs[k])
            &&& !gates[i].outputs.take(k).contains(gates[i].outputs[k])
        }
}

/// A builder that is handed the declared inputs, each once, and then the
/// components builds a circuit.
pub open spec fn builds(declared: Seq<usize>, gates: Seq<Wiring>) -> bool {
    &&& gates.len() > 0
    &&& accepted(declared, gates)
    &&& unused_inputs(declared, consumed_by(gates)).len() == 0
    &&& first_driven_input(declared, produced_by(gates)) is None
}

/// What the components write is an output of one of them.
pub proof fn lemma_produced_by_one(gates: Seq<Wiring>, node: usize)
    requires
        produced_by(gates).contains(node),
    ensures
        exists|i: int, k: int|
            0 <= i < gates.len() && 0 <= k < gates[i].outputs.len() && #[trigger] gates[i].outputs[k]
                == node,
    decreases gates.len(),
{
    if gates.len() > 0 {
        let last = gates.len() - 1;
        if gates.last().outputs.to_set().contains(node) {
            let k = choose|k: int| 0 <= k < gates[last].outputs.len() && gates[last].outputs[k] == node;
            assert(gates[last].outputs[k] == node);
        } else {
            lemma_produced_by_one(gates.drop_last(), node);
            let (i, k) = choose|i: int, k: int|
                0 <= i < gates.drop_last().len() && 0 <= k < gates.drop_last()[i].outputs.len()
                    && #[trigger] gates.drop_last()[i].outputs[k] == node;
            assert(gates[i].outputs[k] == node);
        }
    }
}

/// A sequence of components that each have an input and an output is
/// accepted exactly where it is legal.
pub proof fn law_accepted_iff_legal(declared: Seq<usize>, gates: Seq<Wiring>)
    requires
        connected(gates),
    ensures
        accepted(declared, gates) <==> legal(declared, gates),
    decreases gates.len(),
{
    if gates.len() > 0 {
        let earlier = gates.drop_last();
        let last = gates.last();
        let n = gates.len() - 1;
        assert(gates.take(n) == earlier);
        assert(connected(earlier)) by {
            assert forall|i: int| 0 <= i < earlier.len() implies (#[trigger] earlier[i]).inputs.len()
                > 0 && earlier[i].outputs.len() > 0 by {
                assert(earlier[i] == gates[i]);
            }
        }
        law_accepted_iff_legal(declared, earlier);
        lemma_none_unavailable(declared, produced_by(earlier), last.inputs);
        lemma_no_clash(declared, produced_by(earlier), last.outputs);
        assert(gates[n] == last);
        assert forall|i: int| 0 <= i < n implies earlier.take(i) == gates.take(i) by {}
        if accepted(declared, gates) {
            assert(legal(declared, earlier));
            assert forall|i: int, k: int|
                #![trigger gates[i].inputs[k]]
                0 <= i < gates.len() && 0 <= k < gates[i].inputs.len() implies available(
                declared,
                produced_by(gates.take(i)),
                gates[i].inputs[k],
            ) by {
                if i < n {
                    assert(earlier[i] == gates[i]);
                    assert(earlier.take(i) == gates.take(i));
                    assert(available(declared, produced_by(earlier.take(i)), earlier[i].inputs[k]));
                } else {
                    assert(available(declared, produced_by(earlier), last.inputs[k]));
                }
            }
            assert forall|i: int, k: int|
                #![trigger gates[i].outputs[k]]
                0 <= i < gates.len() && 0 <= k < gates[i].outputs.len() implies {
                &&& !declared.contains(gates[i].outputs[k])
                &&& !produced_by(gates.take(i)).contains(gates[i].outputs[k])
                &&& !gates[i].outputs.take(k).contains(gates[i].outputs[k])
            } by {
                if i < n {
                    assert(earlier[i] == gates[i]);
                    assert(earlier.take(i) == gates.take(i));
                    assert(!declared.contains(earlier[i].outputs[k]));
                } else {
                    assert(!declared.contains(last.outputs[k]));
                }
            }
        }
        if legal(declared, gates) {
            assert(legal(declared, earlier)) by {
                assert forall|i: int, k: int|
                    #![trigger earlier[i].inputs[k]]
                    0 <= i < earlier.len() && 0 <= k < earlier[i].inputs.len() implies available(
                    declared,
                    produced_by(earlier.take(i)),
                    earlier[i].inputs[k],
                ) by {
                    assert(earlier[i] == gates[i]);
                    assert(earlier.take(i) == gates.take(i));
                    assert(available(declared, produced_by(gates.take(i)), gates[i].inputs[k]));
                }
                assert forall|i: int, k: int|
                    #![trigger earlier[i].outputs[k]]
                    0 <= i < earlier.len() && 0 <= k < earlier[i].outputs.len() implies {
                    &&& !declared.contains(earlier[i].outputs[k])
                    &&& !produced_by(earlier.take(i)).contains(earlier[i].outputs[k])
                    &&& !earlier[i].outputs.take(k).contains(earlier[i].outputs[k])
                } by {
                    assert(earlier[i] == gates[i]);
                    assert(earlier.take(i) == gates.take(i));
                    assert(!declared.contains(gates[i].outputs[k]));
                }
            }
            assert forall|k: int| 0 <= k < last.inputs.len() implies available(
                declared,
                produced_by(earlier),
                #[trigger] last.inputs[k],
            ) by {
                assert(available(declared, produced_by(gates.take(n)), gates[n].inputs[k]));
            }
            assert forall|k: int|
                #![trigger last.outputs[k]]
                0 <= k < last.outputs.len() implies !declared.contains(last.outputs[k])
                && !produced_by(earlier).contains(last.outputs[k]) && !last.outputs.take(k).contains(
                last.outputs[k],
            ) by {
                assert(!declared.contains(gates[n].outputs[k]));
            }
        }
    }
}

/// Where every component has an input and an output, there is at least
/// one component and every declared input is read by some component, a
/// circuit is built exactly where the sequence of components is legal.
pub proof fn law_builds_iff_legal(declared: Seq<usize>, gates: Seq<Wiring>)
    requires
        gates.len() > 0,
        connected(gates),
        forall|k: int| 0 <= k < declared.len() ==> consumed_by(gates).contains(#[trigger] declared[k]),
    ensures
        builds(declared, gates) <==> legal(declared, gates),
{
    law_accepted_iff_legal(declared, gates);
    if legal(declared, gates) {
        assert forall|at: int| 0 <= at < declared.len() implies !produced_by(gates).contains(
            #[trigger] declared[at],
        ) by {
            if produced_by(gates).contains(declared[at]) {
                lemma_produced_by_one(gates, declared[at]);
                let (i, k) = choose|i: int, k: int|
                    0 <= i < gates.len() && 0 <= k < gates[i].outputs.len()
                        && #[trigger] gates[i].outputs[k] == declared[at];
                assert(!declared.contains(gates[i].outputs[k]));
            }
        }
        lemma_no_driven_input(declared, produced_by(gates));
    }
    let consumed = consumed_by(gates);
    let unused = |node: usize| !consumed.contains(node);
    let left = declared.filter(unused);
    if left.len() > 0 {
        declared.lemma_filter_pred(unused, 0);
        assert(left.contains(left[0]));
        declared.lemma_filter_contains_rev(unused, left[0]);
        let k = choose|k: int| 0 <= k < declared.len() && declared[k] == left[0];
        assert(consumed.contains(declared[k]));
    }
}

/// Meeting nodes only ever adds entries to the map: after the first `upto`
/// nodes it has no more entries than after all of them.
pub proof fn lemma_assign_grows(map: Map<usize, usize>, ids: Seq<usize>, upto: int)
    requires
        map.dom().finite(),
        0 <= upto <= ids.len(),
    ensures
        assign(map, ids).dom().finite(),
        assign(map, ids.take(upto)).dom().finite(),
        assign(map, ids.take(upto)).len() <= assign(map, ids).len(),
    decreases ids.len(),
{
    if ids.len() == 0 {
        assert(ids.take(upto) == ids);
    } else {
        let shorter = ids.drop_last();
        let before = assign(map, shorter);
        if upto < ids.len() {
            lemma_assign_grows(map, shorter, upto);
            assert(shorter.take(upto) == ids.take(upto));
        } else {
            lemma_assign_grows(map, shorter, upto - 1);
            assert(ids.take(upto) == ids);
        }
        if !before.contains_key(ids.last()) {
            assert(assign(map, ids).dom() =~= before.dom().insert(ids.last()));
        }
    }
}

/// Meeting further nodes keeps every index that was given, keeps the map
/// dense, and indexes exactly the nodes that were met, as long as the
/// machine can count them.
pub proof fn lemma_assign_extends(map: Map<usize, usize>, ids: Seq<usize>)
    requires
        dense(map),
        assign(map, ids).len() <= usize::MAX,
    ensures
        dense(assign(map, ids)),
        map.submap_of(assign(map, ids)),
        assign(map, ids).dom() == map.dom().union(ids.to_set()),
    decreases ids.len(),
{
    if ids.len() == 0 {
        assert(map.dom().union(ids.to_set()) =~= map.dom());
    } else {
        let shorter = ids.drop_last();
        let node = ids.last();
        let before = assign(map, shorter);
        lemma_assign_grows(map, ids, ids.len() - 1);
        assert(ids.take(ids.len() - 1) == shorter);
        lemma_assign_extends(map, shorter);
        let after = assign(map, ids);
        assert(ids.to_set() =~= shorter.to_set().insert(node)) by {
            lemma_one_more_node(ids, ids.len() - 1);
            assert(ids.take(ids.len() as int) == ids);
        }
        if !before.contains_key(node) {
            assert(after.dom() =~= before.dom().insert(node));
            lemma_next_index_keeps_dense(before, node);
        }
        assert(after.dom() =~= map.dom().union(ids.to_set()));
        assert forall|other: usize| map.dom().contains(other) implies #[trigger] after.dom().contains(
            other,
        ) && map[other] == after[other] by {
            assert(before.dom().contains(other));
        }
    }
}

/// A node that has no memory index yet gets, where it is first met, the
/// number of nodes that have one by then: those of the map and the
/// different new nodes that were met before it. Nothing else enters: not
/// what the nodes are called, not what the components compute, not the type
/// of the values.
pub proof fn law_new_nodes_are_numbered_as_met(map: Map<usize, usize>, ids: Seq<usize>, k: int)
    requires
        dense(map),
        assign(map, ids).len() <= usize::MAX,
        0 <= k < ids.len(),
        !map.contains_key(ids[k]),
        forall|j: int| 0 <= j < k ==> ids[j] != ids[k],
    ensures
        assign(map, ids).contains_key(ids[k]),
        assign(map, ids)[ids[k]] == map.len() + ids.take(k).to_set().difference(map.dom()).len(),
{
    let node = ids[k];
    let met = ids.take(k);
    let before = assign(map, met);
    let with_node = assign(map, ids.take(k + 1));
    lemma_assign_grows(map, ids, k);
    lemma_assign_grows(map, ids, k + 1);
    lemma_assign_extends(map, met);
    assert(!before.contains_key(node)) by {
        if met.to_set().contains(node) {
            let j = choose|j: int| 0 <= j < met.len() && met[j] == node;
            assert(ids[j] == node);
        }
    }
    assert(ids.take(k + 1).drop_last() == met);
    assert(ids.take(k + 1).last() == node);
    assert(with_node == before.insert(node, before.len() as usize));
    assert(before.len() == map.len() + met.to_set().difference(map.dom()).len()) by {
        let fresh = met.to_set().difference(map.dom());
        vstd::seq_lib::seq_to_set_is_finite(met);
        vstd::set_lib::lemma_set_disjoint_lens(map.dom(), fresh);
        assert(map.dom().disjoint(fresh));
        assert(map.dom() + fresh =~= before.dom());
    }
    lemma_assign_extends(map, ids.take(k + 1));
    lemma_assign_concat(map, ids.take(k + 1), ids.skip(k + 1));
    assert(ids.take(k + 1) + ids.skip(k + 1) == ids);
    lemma_assign_extends(with_node, ids.skip(k + 1));
    assert(with_node.dom().contains(node));
    assert(assign(map, ids).dom().contains(node));
}

/// The memory index of a node is the number of different nodes that were
/// met before it was first met.
pub proof fn law_index_is_encounter_rank(ids: Seq<usize>, k: int)
    requires
        assign(Map::empty(), ids).len() <= usize::MAX,
        0 <= k < ids.len(),
        forall|j: int| 0 <= j < k ==> ids[j] != ids[k],
    ensures
        assign(Map::empty(), ids).contains_key(ids[k]),
        assign(Map::empty(), ids)[ids[k]] == ids.take(k).to_set().len(),
{
    let nothing = Map::<usize, usize>::empty();
    law_new_nodes_are_numbered_as_met(nothing, ids, k);
    assert(ids.take(k).to_set().difference(nothing.dom()) =~= ids.take(k).to_set());
}

/// The builder is where a new builder gets when it is handed the inputs
/// `declared` and the components with the nodes `gates`, and accepts them.
pub open spec fn reflects<T, U>(
    builder: CircuitBuilder<T, U>,
    declared: Seq<usize>,
    gates: Seq<Wiring>,
) -> bool where T: Component + Executable<U, CircuitMemory<U>>, U: Copy {
    &&& builder.declared_inputs() == declared
    &&& builder.components().len() == gates.len()
    &&& builder.consumed() == consumed_by(gates)
    &&& builder.produced() == produced_by(gates)
    &&& builder.index_map() == assign(Map::empty(), encounter_order(gates))
}

/// Accepting one more component takes a builder from one sequence of
/// components to the sequence with that component at its end: what the
/// builder holds, and so what it accepts next and whether it builds, is told
/// by the declared inputs and the nodes of the components it accepted.
pub proof fn law_builder_follows_its_components<T, U>(
    before: CircuitBuilder<T, U>,
    after: CircuitBuilder<T, U>,
    declared: Seq<usize>,
    gates: Seq<Wiring>,
    inputs: Seq<usize>,
    outputs: Seq<usize>,
) where T: Component + Executable<U, CircuitMemory<U>>, U: Copy
    requires
        reflects(before, declared, gates),
        after.declared_inputs() == before.declared_inputs(),
        after.components().len() == before.components().len() + 1,
        after.consumed() == before.consumed().union(inputs.to_set()),
        after.produced() == before.produced().union(outputs.to_set()),
        after.index_map() == assign(before.index_map(), inputs + outputs),
    ensures
        reflects(after, declared, gates.push(Wiring { inputs, outputs })),
        accepted(declared, gates) && rejection(declared, before.produced(), inputs, outputs)
            is None ==> accepted(declared, gates.push(Wiring { inputs, outputs })),
{
    let longer = gates.push(Wiring { inputs, outputs });
    assert(longer.drop_last() == gates);
    assert(longer.last() == Wiring { inputs, outputs });
    lemma_assign_concat(Map::empty(), encounter_order(gates), inputs + outputs);
    assert(encounter_order(longer) == encounter_order(gates) + (inputs + outputs));
}

} // verus!
