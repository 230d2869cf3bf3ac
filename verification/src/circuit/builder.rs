//! The builder: it accepts components one at a time, in an order in which
//! every value is produced before it is consumed, and gives each node a
//! memory index.

use crate::circuit::generic::{
    dense, driven_before, in_order, indexes_one_of, indices_fit, read_by_some, GenericCircuit,
};
use crate::circuit::memory::CircuitMemory;
use crate::model::{Component, Executable};
use std::collections::{HashMap, HashSet};
use std::marker::PhantomData;
use vstd::prelude::*;

verus! {

/// Why a builder refuses a component, or a build.
#[derive(Debug, PartialEq, Eq)]
pub enum CircuitBuilderError {
    EmptyBuilder,
    DisconnectedComponent,
    TopologicalOrderError(usize),
    OutputsConnection(usize),
    OutputIsACircuitInput(usize),
    UnusedInputs(Vec<usize>),
}

/// Whether a component may read `node`: it is a declared circuit input or
/// the output of a component that was accepted before.
pub open spec fn available(declared: Seq<usize>, produced: Set<usize>, node: usize) -> bool {
    produced.contains(node) || declared.contains(node)
}

/// The first of `inputs` that no component may read yet.
pub open spec fn first_unavailable(
    declared: Seq<usize>,
    produced: Set<usize>,
    inputs: Seq<usize>,
) -> Option<usize>
    decreases inputs.len(),
{
    if inputs.len() == 0 {
        None
    } else if available(declared, produced, inputs.first()) {
        first_unavailable(declared, produced, inputs.drop_first())
    } else {
        Some(inputs.first())
    }
}

/// The error for the first of `outputs` that is a declared circuit input or
/// is driven already, by an earlier component or by an earlier output of the
/// same one.
pub open spec fn first_output_clash(
    declared: Seq<usize>,
    produced: Set<usize>,
    outputs: Seq<usize>,
) -> Option<CircuitBuilderError>
    decreases outputs.len(),
{
    if outputs.len() == 0 {
        None
    } else if declared.contains(outputs.first()) {
        Some(CircuitBuilderError::OutputIsACircuitInput(outputs.first()))
    } else if produced.contains(outputs.first()) {
        Some(CircuitBuilderError::OutputsConnection(outputs.first()))
    } else {
        first_output_clash(declared, produced.insert(outputs.first()), outputs.drop_first())
    }
}

/// The error with which a builder that has `declared` inputs and `produced`
/// outputs refuses a component with these nodes; `None` where it accepts it.
pub open spec fn rejection(
    declared: Seq<usize>,
    produced: Set<usize>,
    inputs: Seq<usize>,
    outputs: Seq<usize>,
) -> Option<CircuitBuilderError> {
    if inputs.len() == 0 || outputs.len() == 0 {
        Some(CircuitBuilderError::DisconnectedComponent)
    } else {
        match first_unavailable(declared, produced, inputs) {
            Some(node) => Some(CircuitBuilderError::TopologicalOrderError(node)),
            None => first_output_clash(declared, produced, outputs),
        }
    }
}

/// The index map after the nodes `ids` were met in this order: a node that
/// has no index yet gets the next unused one, which is the number of nodes
/// indexed so far.
pub open spec fn assign(map: Map<usize, usize>, ids: Seq<usize>) -> Map<usize, usize>
    decreases ids.len(),
{
    if ids.len() == 0 {
        map
    } else {
        let before = assign(map, ids.drop_last());
        if before.contains_key(ids.last()) {
            before
        } else {
            before.insert(ids.last(), before.len() as usize)
        }
    }
}

/// The memory indices of the nodes `ids`.
pub open spec fn relabel(map: Map<usize, usize>, ids: Seq<usize>) -> Seq<usize> {
    ids.map_values(|node: usize| map[node])
}

/// The nodes of a row that is one longer are those of the row and the node
/// at its end.
pub proof fn lemma_one_more_node(ids: Seq<usize>, upto: int)
    requires
        0 <= upto < ids.len(),
    ensures
        ids.take(upto + 1).to_set() == ids.take(upto).to_set().insert(ids[upto]),
{
    assert(ids.take(upto + 1) == ids.take(upto).push(ids[upto]));
    ids.take(upto).lemma_push_to_set_commute(ids[upto]);
}

fn contains_id(ids: &[usize], upto: usize, id: usize) -> (found: bool)
    requires
        upto <= ids@.len(),
    ensures
        found == ids@.take(upto as int).contains(id),
{
    let mut i: usize = 0;
    while i < upto
        invariant
            i <= upto <= ids@.len(),
            !ids@.take(i as int).contains(id),
        decreases upto - i,
    {
        if ids[i] == id {
            assert(ids@.take(upto as int)[i as int] == id);
            return true;
        }
        assert(ids@.take(i + 1) == ids@.take(i as int).push(ids@[i as int]));
        i += 1;
    }
    false
}

/// Giving a node that has no index yet the next unused one keeps the map
/// dense.
pub proof fn lemma_next_index_keeps_dense(map: Map<usize, usize>, node: usize)
    requires
        dense(map),
        !map.contains_key(node),
        map.len() < usize::MAX,
    ensures
        dense(map.insert(node, map.len() as usize)),
        map.insert(node, map.len() as usize).len() == map.len() + 1,
{
    let after = map.insert(node, map.len() as usize);
    assert(after.dom() =~= map.dom().insert(node));
    assert forall|a: usize, b: usize|
        #![trigger after[a], after[b]]
        after.contains_key(a) && after.contains_key(b) && after[a] == after[b] implies a == b by {
        if a != node && b != node {
            assert(map.contains_key(a) && map.contains_key(b) && map[a] == map[b]);
        }
    }
}

/// Meeting `first` and then `second` is meeting the two in a row.
pub proof fn lemma_assign_concat(map: Map<usize, usize>, first: Seq<usize>, second: Seq<usize>)
    ensures
        assign(assign(map, first), second) == assign(map, first + second),
    decreases second.len(),
{
    if second.len() == 0 {
        assert(first + second == first);
    } else {
        lemma_assign_concat(map, first, second.drop_last());
        assert((first + second).drop_last() == first + second.drop_last());
        assert((first + second).last() == second.last());
    }
}

/// Where no input is unavailable, each of them is available.
pub proof fn lemma_all_available(declared: Seq<usize>, produced: Set<usize>, inputs: Seq<usize>)
    requires
        first_unavailable(declared, produced, inputs) is None,
    ensures
        forall|k: int| 0 <= k < inputs.len() ==> available(declared, produced, #[trigger] inputs[k]),
    decreases inputs.len(),
{
    if inputs.len() > 0 {
        lemma_all_available(declared, produced, inputs.drop_first());
        assert forall|k: int| 0 <= k < inputs.len() implies available(
            declared,
            produced,
            #[trigger] inputs[k],
        ) by {
            if k > 0 {
                assert(inputs.drop_first()[k - 1] == inputs[k]);
            }
        }
    }
}

/// No input is unavailable exactly where each of them is available.
pub proof fn lemma_none_unavailable(declared: Seq<usize>, produced: Set<usize>, inputs: Seq<usize>)
    ensures
        first_unavailable(declared, produced, inputs) is None <==> forall|k: int|
            0 <= k < inputs.len() ==> available(declared, produced, #[trigger] inputs[k]),
    decreases inputs.len(),
{
    if inputs.len() > 0 {
        lemma_none_unavailable(declared, produced, inputs.drop_first());
        if first_unavailable(declared, produced, inputs) is None {
            lemma_all_available(declared, produced, inputs);
        }
        if forall|k: int| 0 <= k < inputs.len() ==> available(declared, produced, #[trigger] inputs[k]) {
            assert(available(declared, produced, inputs[0]));
            assert forall|k: int| 0 <= k < inputs.drop_first().len() implies available(
                declared,
                produced,
                #[trigger] inputs.drop_first()[k],
            ) by {
                assert(inputs.drop_first()[k] == inputs[k + 1]);
            }
        }
    }
}

/// No output clashes exactly where none is a declared input, none is
/// produced already and no two are the same.
pub proof fn lemma_no_clash(declared: Seq<usize>, produced: Set<usize>, outputs: Seq<usize>)
    ensures
        first_output_clash(declared, produced, outputs) is None <==> forall|k: int|
            #![trigger outputs[k]]
            0 <= k < outputs.len() ==> !declared.contains(outputs[k]) && !produced.contains(
                outputs[k],
            ) && !outputs.take(k).contains(outputs[k]),
    decreases outputs.len(),
{
    if outputs.len() > 0 {
        let head = outputs.first();
        let rest = outputs.drop_first();
        lemma_no_clash(declared, produced.insert(head), rest);
        assert(outputs.take(0) =~= Seq::<usize>::empty());
        if first_output_clash(declared, produced, outputs) is None {
            assert forall|k: int|
                #![trigger outputs[k]]
                0 <= k < outputs.len() implies !declared.contains(outputs[k])
                && !produced.contains(outputs[k]) && !outputs.take(k).contains(outputs[k]) by {
                if k > 0 {
                    assert(rest[k - 1] == outputs[k]);
                    assert(!produced.insert(head).contains(rest[k - 1]));
                    if outputs.take(k).contains(outputs[k]) {
                        let j = choose|j: int| 0 <= j < outputs.take(k).len() && outputs.take(k)[j] == outputs[k];
                        if j > 0 {
                            assert(rest.take(k - 1)[j - 1] == outputs[k]);
                        }
                    }
                }
            }
        }
        if forall|k: int|
            #![trigger outputs[k]]
            0 <= k < outputs.len() ==> !declared.contains(outputs[k]) && !produced.contains(
                outputs[k],
            ) && !outputs.take(k).contains(outputs[k]) {
            assert(!declared.contains(outputs[0]) && !produced.contains(outputs[0]));
            assert forall|k: int|
                #![trigger rest[k]]
                0 <= k < rest.len() implies !declared.contains(rest[k]) && !produced.insert(
                head,
            ).contains(rest[k]) && !rest.take(k).contains(rest[k]) by {
                assert(rest[k] == outputs[k + 1]);
                if rest[k] == head {
                    assert(outputs.take(k + 1)[0] == head);
                }
                if rest.take(k).contains(rest[k]) {
                    let j = choose|j: int| 0 <= j < rest.take(k).len() && rest.take(k)[j] == rest[k];
                    assert(outputs.take(k + 1)[j + 1] == rest[k]);
                }
            }
        }
    }
}

/// The stored components and the sets of nodes tell the same story: what a
/// component reads is the index of a consumed node, what it writes is the
/// index of a produced node, and every produced node is written by one.
pub open spec fn linked<T: Component>(
    components: Seq<T>,
    map: Map<usize, usize>,
    consumed: Set<usize>,
    produced: Set<usize>,
) -> bool {
    &&& forall|c: int, k: int|
        #![trigger components[c].input_ids()[k]]
        0 <= c < components.len() && 0 <= k < components[c].input_ids().len() ==> indexes_one_of(
            map,
            consumed,
            components[c].input_ids()[k],
        )
    &&& forall|c: int, k: int|
        #![trigger components[c].output_ids()[k]]
        0 <= c < components.len() && 0 <= k < components[c].output_ids().len() ==> indexes_one_of(
            map,
            produced,
            components[c].output_ids()[k],
        )
    &&& forall|node: usize| #[trigger]
        produced.contains(node) ==> map.contains_key(node) && driven_before(
            components,
            components.len() as int,
            map[node],
        )
}

/// An index of one of some nodes stays one when the map is extended and
/// nodes are added.
proof fn lemma_index_kept(
    map: Map<usize, usize>,
    longer: Map<usize, usize>,
    nodes: Set<usize>,
    more: Set<usize>,
    index: usize,
)
    requires
        map.submap_of(longer),
        nodes.subset_of(more),
        indexes_one_of(map, nodes, index),
    ensures
        indexes_one_of(longer, more, index),
{
    let node = choose|node: usize| #[trigger]
        nodes.contains(node) && map.contains_key(node) && map[node] == index;
    assert(map.dom().contains(node));
    assert(longer.dom().contains(node));
    assert(more.contains(node) && longer.contains_key(node) && longer[node] == index);
}

/// What is written before a position stays written before it, and before
/// every later one, when components are added at the end.
proof fn lemma_driven_kept<T: Component>(
    components: Seq<T>,
    longer: Seq<T>,
    upto: int,
    later: int,
    index: usize,
)
    requires
        components.len() <= longer.len(),
        forall|c: int| 0 <= c < components.len() ==> components[c] == longer[c],
        upto <= later,
        driven_before(components, upto, index),
    ensures
        driven_before(longer, later, index),
{
    let (c, k) = choose|c: int, k: int|
        0 <= c < upto && c < components.len() && 0 <= k < components[c].output_ids().len()
            && #[trigger] components[c].output_ids()[k] == index;
    assert(longer[c] == components[c]);
    assert(0 <= c < later && c < longer.len() && 0 <= k < longer[c].output_ids().len()
        && longer[c].output_ids()[k] == index);
}

/// Declaring further inputs keeps the components in order.
proof fn lemma_order_with_more_inputs<T: Component>(
    components: Seq<T>,
    map: Map<usize, usize>,
    inputs: Set<usize>,
    more: Set<usize>,
)
    requires
        in_order(components, map, inputs),
        inputs.subset_of(more),
    ensures
        in_order(components, map, more),
{
    assert forall|c: int, k: int|
        #![trigger components[c].input_ids()[k]]
        0 <= c < components.len() && 0 <= k < components[c].input_ids().len() implies {
        &&& components[c].input_ids()[k] < map.len()
        &&& indexes_one_of(map, more, components[c].input_ids()[k]) || driven_before(
            components,
            c,
            components[c].input_ids()[k],
        )
    } by {
        let index = components[c].input_ids()[k];
        if indexes_one_of(map, inputs, index) {
            lemma_index_kept(map, map, inputs, more, index);
        }
    }
}

/// A component that the builder accepts, stored behind the others with its
/// nodes replaced by their memory indices, keeps the components in order
/// and linked to the sets of nodes.
proof fn lemma_order_with_one_more<T: Component>(
    components: Seq<T>,
    added: T,
    map: Map<usize, usize>,
    longer: Map<usize, usize>,
    declared: Set<usize>,
    consumed: Set<usize>,
    produced: Set<usize>,
    inputs: Seq<usize>,
    outputs: Seq<usize>,
)
    requires
        in_order(components, map, declared),
        linked(components, map, consumed, produced),
        dense(map),
        dense(longer),
        map.submap_of(longer),
        longer.dom() == map.dom().union(inputs.to_set()).union(outputs.to_set()),
        inputs.len() > 0,
        outputs.len() > 0,
        forall|k: int|
            0 <= k < inputs.len() ==> produced.contains(#[trigger] inputs[k]) || declared.contains(
                inputs[k],
            ),
        forall|k: int|
            #![trigger outputs[k]]
            0 <= k < outputs.len() ==> !produced.contains(outputs[k]) && !outputs.take(k).contains(
                outputs[k],
            ),
        added.input_ids() == relabel(longer, inputs),
        added.output_ids() == relabel(longer, outputs),
    ensures
        in_order(components.push(added), longer, declared),
        linked(
            components.push(added),
            longer,
            consumed.union(inputs.to_set()),
            produced.union(outputs.to_set()),
        ),
{
    let after = components.push(added);
    let n = components.len() as int;
    let consumed_after = consumed.union(inputs.to_set());
    let produced_after = produced.union(outputs.to_set());
    vstd::set_lib::lemma_len_subset(map.dom(), longer.dom());
    assert(map.len() <= longer.len());
    assert forall|k: int| 0 <= k < inputs.len() implies longer.contains_key(#[trigger] inputs[k]) by {
        assert(inputs.to_set().contains(inputs[k]));
    }
    assert forall|k: int| 0 <= k < outputs.len() implies longer.contains_key(
        #[trigger] outputs[k],
    ) by {
        assert(outputs.to_set().contains(outputs[k]));
    }
    // What the components read.
    assert forall|c: int, k: int|
        #![trigger after[c].input_ids()[k]]
        0 <= c < after.len() && 0 <= k < after[c].input_ids().len() implies {
        &&& after[c].input_ids()[k] < longer.len()
        &&& indexes_one_of(longer, declared, after[c].input_ids()[k]) || driven_before(
            after,
            c,
            after[c].input_ids()[k],
        )
        &&& indexes_one_of(longer, consumed_after, after[c].input_ids()[k])
    } by {
        let index = after[c].input_ids()[k];
        if c < n {
            assert(after[c] == components[c]);
            assert(index == components[c].input_ids()[k]);
            lemma_index_kept(map, longer, consumed, consumed_after, index);
            if indexes_one_of(map, declared, index) {
                lemma_index_kept(map, longer, declared, declared, index);
            } else {
                lemma_driven_kept(components, after, c, c, index);
            }
        } else {
            let node = inputs[k];
            assert(index == longer[node]);
            assert(inputs.to_set().contains(node));
            assert(consumed_after.contains(node) && longer.contains_key(node));
            if declared.contains(node) {
                assert(indexes_one_of(longer, declared, index));
            } else {
                assert(produced.contains(node));
                assert(map.dom().contains(node));
                assert(longer.dom().contains(node));
                assert(map[node] == longer[node]);
                lemma_driven_kept(components, after, n, n, index);
            }
        }
    }
    // What the components write.
    assert forall|c: int, k: int|
        #![trigger after[c].output_ids()[k]]
        0 <= c < after.len() && 0 <= k < after[c].output_ids().len() implies {
        &&& after[c].output_ids()[k] < longer.len()
        &&& indexes_one_of(longer, produced_after, after[c].output_ids()[k])
    } by {
        let index = after[c].output_ids()[k];
        if c < n {
            assert(after[c] == components[c]);
            assert(index == components[c].output_ids()[k]);
            lemma_index_kept(map, longer, produced, produced_after, index);
        } else {
            let node = outputs[k];
            assert(index == longer[node]);
            assert(outputs.to_set().contains(node));
            assert(produced_after.contains(node) && longer.contains_key(node));
        }
    }
    // No two outputs are written at the same index.
    assert forall|c: int, k: int, d: int, j: int|
        #![trigger after[c].output_ids()[k], after[d].output_ids()[j]]
        0 <= c < after.len() && 0 <= k < after[c].output_ids().len() && 0 <= d < after.len() && 0
            <= j < after[d].output_ids().len() && (c != d || k != j) implies after[c].output_ids()[k]
        != after[d].output_ids()[j] by {
        if c < n && d < n {
            assert(after[c] == components[c] && after[d] == components[d]);
            assert(components[c].output_ids()[k] != components[d].output_ids()[j]);
        } else if c == n && d == n {
            assert(after[c].output_ids()[k] == longer[outputs[k]]);
            assert(after[d].output_ids()[j] == longer[outputs[j]]);
            if k < j {
                if outputs[k] == outputs[j] {
                    assert(outputs.take(j)[k] == outputs[j]);
                }
            } else {
                if outputs[k] == outputs[j] {
                    assert(outputs.take(k)[j] == outputs[k]);
                }
            }
            assert(outputs[k] != outputs[j]);
        } else {
            let (old_c, old_k, new_k) = if c < n {
                (c, k, j)
            } else {
                (d, j, k)
            };
            assert(after[old_c] == components[old_c]);
            let old_index = components[old_c].output_ids()[old_k];
            assert(indexes_one_of(map, produced, old_index));
            let node = choose|node: usize| #[trigger]
                produced.contains(node) && map.contains_key(node) && map[node] == old_index;
            assert(map.dom().contains(node));
            assert(longer.dom().contains(node));
            assert(longer[node] == old_index);
            assert(after[n].output_ids()[new_k] == longer[outputs[new_k]]);
            assert(node != outputs[new_k]);
        }
    }
    // Every produced node is written by a component.
    assert forall|node: usize| #[trigger] produced_after.contains(node) implies longer.contains_key(
        node,
    ) && driven_before(after, after.len() as int, longer[node]) by {
        if produced.contains(node) {
            assert(map.dom().contains(node));
            assert(longer.dom().contains(node));
            assert(map[node] == longer[node]);
            lemma_driven_kept(components, after, n, n + 1, map[node]);
        } else {
            let k = choose|k: int| 0 <= k < outputs.len() && outputs[k] == node;
            assert(after[n].output_ids()[k] == longer[node]);
        }
    }
    assert forall|c: int| 0 <= c < after.len() implies (#[trigger] after[c]).input_ids().len() > 0
        && after[c].output_ids().len() > 0 by {
        if c < n {
            assert(after[c] == components[c]);
        }
    }
}

/// Adds `ids` to `set`.
fn record(set: &mut HashSet<usize>, ids: &[usize])
    ensures
        final(set)@ == old(set)@.union(ids@.to_set()),
{
    broadcast use vstd::std_specs::hash::group_hash_axioms;

    let mut i: usize = 0;
    assert(old(set)@.union(ids@.take(0).to_set()) =~= old(set)@);
    while i < ids.len()
        invariant
            i <= ids@.len(),
            set@ == old(set)@.union(ids@.take(i as int).to_set()),
        decreases ids@.len() - i,
    {
        let node = ids[i];
        set.insert(node);
        proof {
            lemma_one_more_node(ids@, i as int);
            assert(set@ =~= old(set)@.union(ids@.take(i + 1).to_set()));
        }
        i += 1;
    }
    assert(ids@.take(i as int) == ids@);
}

/// The declared inputs after the nodes `ids` were declared in this order: a
/// node that is declared already is not declared again.
pub open spec fn declare(declared: Seq<usize>, ids: Seq<usize>) -> Seq<usize>
    decreases ids.len(),
{
    if ids.len() == 0 {
        declared
    } else {
        let before = declare(declared, ids.drop_last());
        if before.contains(ids.last()) {
            before
        } else {
            before.push(ids.last())
        }
    }
}

/// The first declared input that some component writes.
pub open spec fn first_driven_input(declared: Seq<usize>, produced: Set<usize>) -> Option<usize>
    decreases declared.len(),
{
    if declared.len() == 0 {
        None
    } else if produced.contains(declared.first()) {
        Some(declared.first())
    } else {
        first_driven_input(declared.drop_first(), produced)
    }
}

/// Where no declared input is written, none of them is produced.
pub proof fn lemma_no_driven_input(declared: Seq<usize>, produced: Set<usize>)
    ensures
        first_driven_input(declared, produced) is None <==> forall|k: int|
            0 <= k < declared.len() ==> !produced.contains(#[trigger] declared[k]),
    decreases declared.len(),
{
    if declared.len() > 0 {
        let rest = declared.drop_first();
        lemma_no_driven_input(rest, produced);
        if first_driven_input(declared, produced) is None {
            assert forall|k: int| 0 <= k < declared.len() implies !produced.contains(
                #[trigger] declared[k],
            ) by {
                if k > 0 {
                    assert(rest[k - 1] == declared[k]);
                }
            }
        }
        if forall|k: int| 0 <= k < declared.len() ==> !produced.contains(#[trigger] declared[k]) {
            assert(!produced.contains(declared[0]));
            assert forall|k: int| 0 <= k < rest.len() implies !produced.contains(
                #[trigger] rest[k],
            ) by {
                assert(rest[k] == declared[k + 1]);
            }
        }
    }
}

/// The declared inputs that no component reads, in the order in which they
/// were declared.
pub open spec fn unused_inputs(declared: Seq<usize>, consumed: Set<usize>) -> Seq<usize> {
    declared.filter(|node: usize| !consumed.contains(node))
}

/// Circuit builder generic over the component type and the stored value type.
#[derive(Debug, PartialEq, Eq)]
pub struct CircuitBuilder<T, U> {
    components: Vec<T>,
    circuit_inputs: Vec<usize>,
    component_inputs: HashSet<usize>,
    component_outputs: HashSet<usize>,
    index_map: HashMap<usize, usize>,
    next_index: usize,
    _phantom: PhantomData<U>,
}

impl<T, U> CircuitBuilder<T, U> where T: Component + Executable<U, CircuitMemory<U>>, U: Copy {
    /// The components accepted so far, in the order they were added.
    pub closed spec fn components(&self) -> Seq<T> {
        self.components@
    }

    /// The declared circuit inputs, in the order they were declared.
    pub closed spec fn declared_inputs(&self) -> Seq<usize> {
        self.circuit_inputs@
    }

    /// The nodes that some accepted component reads.
    pub closed spec fn consumed(&self) -> Set<usize> {
        self.component_inputs@
    }

    /// The nodes that some accepted component writes.
    pub closed spec fn produced(&self) -> Set<usize> {
        self.component_outputs@
    }

    /// The memory index of every node that an accepted component names.
    pub closed spec fn index_map(&self) -> Map<usize, usize> {
        self.index_map@
    }

    /// What every builder keeps: the index map is dense and indexes exactly
    /// the nodes that accepted components name, whatever a component reads
    /// was available to it, and the stored components, which name memory
    /// indices, are in an order in which they can run.
    pub closed spec fn well_formed(&self) -> bool {
        &&& self.next_index == self.index_map@.len()
        &&& dense(self.index_map@)
        &&& self.index_map@.dom() =~= self.component_inputs@.union(self.component_outputs@)
        &&& forall|node: usize|
            self.component_inputs@.contains(node) ==> available(
                self.circuit_inputs@,
                self.component_outputs@,
                node,
            )
        &&& in_order(self.components@, self.index_map@, self.circuit_inputs@.to_set())
        &&& linked(
            self.components@,
            self.index_map@,
            self.component_inputs@,
            self.component_outputs@,
        )
        &&& self.circuit_inputs@.no_duplicates()
        &&& self.components@.len() > 0 ==> exists|node: usize| #[trigger]
            self.component_outputs@.contains(node) && !self.component_inputs@.contains(node)
    }

    /// What a well-formed builder holds: its index map is dense and indexes
    /// exactly the nodes that its components read or write, no input is
    /// declared twice, whatever a component reads is a declared input or
    /// written by a component, the stored components are in an order in
    /// which they can run, and where there is a component, some node is
    /// written and not read.
    pub proof fn well_formed_builder_holds(&self)
        requires
            self.well_formed(),
        ensures
            dense(self.index_map()),
            self.index_map().len() <= usize::MAX,
            self.index_map().dom() == self.consumed().union(self.produced()),
            self.declared_inputs().no_duplicates(),
            forall|node: usize| #[trigger]
                self.consumed().contains(node) ==> available(
                    self.declared_inputs(),
                    self.produced(),
                    node,
                ),
            in_order(self.components(), self.index_map(), self.declared_inputs().to_set()),
            self.components().len() > 0 ==> !self.produced().difference(self.consumed()).is_empty(),
    {
        if self.components().len() > 0 {
            let node = choose|node: usize| #[trigger]
                self.component_outputs@.contains(node) && !self.component_inputs@.contains(node);
            assert(self.produced().difference(self.consumed()).contains(node));
        }
    }

    /// Creates a new circuit builder.
    pub fn new() -> (builder: Self)
        ensures
            builder.well_formed(),
            builder.components() == Seq::<T>::empty(),
            builder.declared_inputs() == Seq::<usize>::empty(),
            builder.consumed() == Set::<usize>::empty(),
            builder.produced() == Set::<usize>::empty(),
            builder.index_map() == Map::<usize, usize>::empty(),
    {
        Self {
            components: Vec::new(),
            circuit_inputs: Vec::new(),
            index_map: HashMap::new(),
            component_inputs: HashSet::new(),
            component_outputs: HashSet::new(),
            next_index: 0,
            _phantom: PhantomData,
        }
    }

    /// Adds circuit inputs to the builder. An input that is declared already
    /// is not declared again: each input counts once, where it was declared
    /// first.
    pub fn add_inputs(&mut self, inputs: &[usize]) -> (builder: &mut Self)
        requires
            old(self).well_formed(),
        ensures
            builder.well_formed(),
            builder.components() == old(self).components(),
            builder.declared_inputs() == declare(old(self).declared_inputs(), inputs@),
            builder.consumed() == old(self).consumed(),
            builder.produced() == old(self).produced(),
            builder.index_map() == old(self).index_map(),
            *final(self) == *final(builder),
    {
        let mut i: usize = 0;
        while i < inputs.len()
            invariant
                i <= inputs.len(),
                self.components@ == old(self).components@,
                self.circuit_inputs@ == declare(old(self).circuit_inputs@, inputs@.take(i as int)),
                self.circuit_inputs@.no_duplicates(),
                forall|node: usize|
                    old(self).circuit_inputs@.contains(node) ==> self.circuit_inputs@.contains(node),
                self.component_inputs@ == old(self).component_inputs@,
                self.component_outputs@ == old(self).component_outputs@,
                self.index_map@ == old(self).index_map@,
                self.next_index == old(self).next_index,
            decreases inputs.len() - i,
        {
            let node = inputs[i];
            let ghost before = self.circuit_inputs@;
            proof {
                assert(inputs@.take(i + 1).drop_last() == inputs@.take(i as int));
                assert(inputs@.take(i + 1).last() == node);
                assert(before.take(before.len() as int) == before);
            }
            if !contains_id(self.circuit_inputs.as_slice(), self.circuit_inputs.len(), node) {
                self.circuit_inputs.push(node);
                proof {
                    assert forall|other: usize| before.contains(other) implies self.circuit_inputs@.contains(
                        other,
                    ) by {
                        let k = choose|k: int| 0 <= k < before.len() && before[k] == other;
                        assert(self.circuit_inputs@[k] == other);
                    }
                }
            }
            i += 1;
        }
        assert(inputs@.take(i as int) == inputs@);
        proof {
            lemma_order_with_more_inputs(
                self.components@,
                self.index_map@,
                old(self).circuit_inputs@.to_set(),
                self.circuit_inputs@.to_set(),
            );
        }
        self
    }

    /// Gives each of `ids` that has no memory index yet the next unused one,
    /// and returns the indices of all of them.
    fn index_nodes(&mut self, ids: &[usize]) -> (indices: Vec<usize>)
        requires
            old(self).next_index == old(self).index_map@.len(),
            dense(old(self).index_map@),
        ensures
            final(self).index_map@ == assign(old(self).index_map@, ids@),
            final(self).next_index == final(self).index_map@.len(),
            dense(final(self).index_map@),
            old(self).index_map@.submap_of(final(self).index_map@),
            final(self).index_map@.dom() == old(self).index_map@.dom().union(ids@.to_set()),
            indices@ == relabel(final(self).index_map@, ids@),
            final(self).components@ == old(self).components@,
            final(self).circuit_inputs@ == old(self).circuit_inputs@,
            final(self).component_inputs@ == old(self).component_inputs@,
            final(self).component_outputs@ == old(self).component_outputs@,
    {
        broadcast use vstd::std_specs::hash::group_hash_axioms;

        let mut indices: Vec<usize> = Vec::new();
        let mut i: usize = 0;
        assert(old(self).index_map@.dom().union(ids@.take(0).to_set()) =~= old(self).index_map@.dom());
        while i < ids.len()
            invariant
                i <= ids@.len(),
                self.index_map@ == assign(old(self).index_map@, ids@.take(i as int)),
                self.next_index == self.index_map@.len(),
                dense(self.index_map@),
                old(self).index_map@.submap_of(self.index_map@),
                self.index_map@.dom() == old(self).index_map@.dom().union(
                    ids@.take(i as int).to_set(),
                ),
                indices@.len() == i,
                forall|k: int| 0 <= k < i ==> indices@[k] == self.index_map@[#[trigger] ids@[k]],
                self.components@ == old(self).components@,
                self.circuit_inputs@ == old(self).circuit_inputs@,
                self.component_inputs@ == old(self).component_inputs@,
                self.component_outputs@ == old(self).component_outputs@,
            decreases ids@.len() - i,
        {
            let node = ids[i];
            let ghost before = self.index_map@;
            let ghost shorter = ids@.take(i as int);
            let ghost longer = ids@.take(i + 1);
            assert(longer.drop_last() == shorter);
            assert(longer.last() == node);
            let known = match self.index_map.get(&node) {
                Some(index) => Some(*index),
                None => None,
            };
            let index = match known {
                Some(index) => index,
                None => {
                    let index = self.next_index;
                    self.index_map.insert(node, index);
                    proof {
                        vstd::std_specs::hash::axiom_spec_hash_map_len(&self.index_map);
                        assert(self.index_map@.dom() =~= before.dom().insert(node));
                        lemma_next_index_keeps_dense(before, node);
                    }
                    self.next_index = index + 1;
                    index
                },
            };
            indices.push(index);
            proof {
                assert(self.index_map@.dom() =~= old(self).index_map@.dom().union(longer.to_set())) by {
                    lemma_one_more_node(ids@, i as int);
                }
                assert forall|k: int| 0 <= k < i + 1 implies indices@[k] == self.index_map@[#[trigger] ids@[k]] by {
                    if k < i {
                        assert(shorter[k] == ids@[k]);
                        assert(shorter.to_set().contains(ids@[k]));
                        assert(before.contains_key(ids@[k]));
                    }
                }
            }
            i += 1;
        }
        assert(ids@.take(i as int) == ids@);
        assert(indices@ =~= relabel(self.index_map@, ids@));
        indices
    }

    /// Adds a component to the builder.
    ///
    /// A component is refused where it has no input or no output, where one
    /// of its inputs is neither a declared circuit input nor an output of a
    /// component added before, and where one of its outputs is a declared
    /// circuit input or is driven already. A refused component leaves the
    /// builder as it was. An accepted one is stored with its nodes replaced
    /// by their memory indices.
    pub fn add_component(&mut self, component: T) -> (result: Result<
        &mut Self,
        CircuitBuilderError,
    >)
        requires
            old(self).well_formed(),
        ensures
            match result {
                Ok(builder) => {
                    let inputs = component.input_ids();
                    let outputs = component.output_ids();
                    &&& rejection(
                        old(self).declared_inputs(),
                        old(self).produced(),
                        inputs,
                        outputs,
                    ) is None
                    &&& builder.well_formed()
                    &&& builder.declared_inputs() == old(self).declared_inputs()
                    &&& builder.consumed() == old(self).consumed().union(inputs.to_set())
                    &&& builder.produced() == old(self).produced().union(outputs.to_set())
                    &&& builder.index_map() == assign(old(self).index_map(), inputs + outputs)
                    &&& old(self).index_map().submap_of(builder.index_map())
                    &&& builder.index_map().dom() == old(self).index_map().dom().union(
                        (inputs + outputs).to_set(),
                    )
                    &&& builder.components().len() == old(self).components().len() + 1
                    &&& builder.components().drop_last() == old(self).components()
                    &&& builder.components().last().input_ids() == relabel(
                        builder.index_map(),
                        inputs,
                    )
                    &&& builder.components().last().output_ids() == relabel(
                        builder.index_map(),
                        outputs,
                    )
                    &&& *final(self) == *final(builder)
                },
                Err(error) => {
                    &&& Some(error) == rejection(
                        old(self).declared_inputs(),
                        old(self).produced(),
                        component.input_ids(),
                        component.output_ids(),
                    )
                    &&& *final(self) == *old(self)
                },
            },
    {
        let ghost inputs = component.input_ids();
        let ghost outputs = component.output_ids();
        let mut component = component;
        if let Some(error) = self.refusal(component.inputs(), component.outputs()) {
            return Err(error);
        }
        record(&mut self.component_inputs, component.inputs());
        let input_indices = self.index_nodes(component.inputs());
        let ghost halfway = self.index_map@;
        record(&mut self.component_outputs, component.outputs());
        let output_indices = self.index_nodes(component.outputs());
        proof {
            lemma_assign_concat(old(self).index_map@, inputs, outputs);
            lemma_all_available(old(self).circuit_inputs@, old(self).component_outputs@, inputs);
            assert(input_indices@ =~= relabel(self.index_map@, inputs)) by {
                assert(input_indices@ == relabel(halfway, inputs));
                assert forall|k: int| 0 <= k < inputs.len() implies input_indices@[k]
                    == self.index_map@[inputs[k]] by {
                    assert(inputs.to_set().contains(inputs[k]));
                    assert(halfway.dom().contains(inputs[k]));
                    assert(self.index_map@.dom().contains(inputs[k]));
                    assert(relabel(halfway, inputs)[k] == halfway[inputs[k]]);
                }
            }
            assert forall|node: usize| self.component_inputs@.contains(node) implies available(
                self.circuit_inputs@,
                self.component_outputs@,
                node,
            ) by {
                if inputs.to_set().contains(node) {
                    let k = choose|k: int| 0 <= k < inputs.len() && inputs[k] == node;
                    assert(available(old(self).circuit_inputs@, old(self).component_outputs@, inputs[k]));
                }
            }
        }
        component.set_inputs(input_indices);
        component.set_outputs(output_indices);
        proof {
            let declared = self.circuit_inputs@;
            let produced = old(self).component_outputs@;
            lemma_no_clash(declared, produced, outputs);
            assert forall|k: int| 0 <= k < inputs.len() implies produced.contains(
                #[trigger] inputs[k],
            ) || declared.to_set().contains(inputs[k]) by {
                assert(available(declared, produced, inputs[k]));
            }
            assert(old(self).index_map@.submap_of(self.index_map@)) by {
                assert forall|node: usize|
                    old(self).index_map@.dom().contains(node) implies #[trigger] self.index_map@.dom().contains(
                    node,
                ) && old(self).index_map@[node] == self.index_map@[node] by {
                    assert(halfway.dom().contains(node));
                    assert(self.index_map@.dom().contains(node));
                }
            }
            assert(self.index_map@.dom() =~= old(self).index_map@.dom().union(
                inputs.to_set(),
            ).union(outputs.to_set()));
            assert((inputs + outputs).to_set() =~= inputs.to_set().union(outputs.to_set())) by {
                vstd::seq_lib::seq_to_set_distributes_over_add(inputs, outputs);
            }
            assert(self.component_outputs@.contains(outputs[0]) && !self.component_inputs@.contains(
                outputs[0],
            )) by {
                assert(outputs.to_set().contains(outputs[0]));
                assert(!available(declared, produced, outputs[0]));
                if inputs.to_set().contains(outputs[0]) {
                    let k = choose|k: int| 0 <= k < inputs.len() && inputs[k] == outputs[0];
                    assert(available(declared, produced, inputs[k]));
                }
            }
            lemma_order_with_one_more(
                old(self).components@,
                component,
                old(self).index_map@,
                self.index_map@,
                declared.to_set(),
                old(self).component_inputs@,
                produced,
                inputs,
                outputs,
            );
        }
        self.components.push(component);
        Ok(self)
    }

    /// Builds the circuit.
    ///
    /// A builder without components is refused, and so is one with declared
    /// inputs that no component reads, and one with a declared input that a
    /// component writes, which can only be an input that was declared after
    /// that component was added. The circuit's outputs are the nodes that
    /// some component writes and none reads, each once, in no particular
    /// order; there is at least one.
    pub fn build(self) -> (result: Result<GenericCircuit<T, U>, CircuitBuilderError>)
        requires
            self.well_formed(),
        ensures
            match result {
                Ok(circuit) => {
                    &&& self.components().len() > 0
                    &&& unused_inputs(self.declared_inputs(), self.consumed()).len() == 0
                    &&& first_driven_input(self.declared_inputs(), self.produced()) is None
                    &&& circuit.components() == self.components()
                    &&& circuit.index_map() == self.index_map()
                    &&& circuit.input_ids() == self.declared_inputs()
                    &&& circuit.input_ids().no_duplicates()
                    &&& circuit.output_ids().len() > 0
                    &&& circuit.output_ids().no_duplicates()
                    &&& circuit.output_ids().to_set() == self.produced().difference(self.consumed())
                    &&& circuit.well_ordered()
                    &&& indices_fit(circuit.index_map())
                },
                Err(CircuitBuilderError::EmptyBuilder) => self.components().len() == 0,
                Err(CircuitBuilderError::UnusedInputs(ids)) => {
                    &&& self.components().len() > 0
                    &&& ids@.len() > 0
                    &&& ids@ == unused_inputs(self.declared_inputs(), self.consumed())
                },
                Err(CircuitBuilderError::OutputIsACircuitInput(id)) => {
                    &&& self.components().len() > 0
                    &&& unused_inputs(self.declared_inputs(), self.consumed()).len() == 0
                    &&& first_driven_input(self.declared_inputs(), self.produced()) == Some(id)
                },
                Err(_) => false,
            },
    {
        broadcast use vstd::std_specs::hash::group_hash_axioms;

        if self.components.len() == 0 {
            return Err(CircuitBuilderError::EmptyBuilder);
        }
        // Validate that all inputs are used by at least one component

        let ghost consumed = self.component_inputs@;
        let ghost unused = |node: usize| !consumed.contains(node);
        let mut unused_inputs: Vec<usize> = Vec::new();
        let mut i: usize = 0;
        assert(self.circuit_inputs@.take(0).filter(unused) == Seq::<usize>::empty()) by {
            reveal(Seq::filter);
        }
        while i < self.circuit_inputs.len()
            invariant
                i <= self.circuit_inputs@.len(),
                consumed == self.component_inputs@,
                unused == |node: usize| !consumed.contains(node),
                unused_inputs@ == self.circuit_inputs@.take(i as int).filter(unused),
            decreases self.circuit_inputs@.len() - i,
        {
            let node = self.circuit_inputs[i];
            proof {
                reveal(Seq::filter);
                assert(self.circuit_inputs@.take(i + 1).drop_last() == self.circuit_inputs@.take(
                    i as int,
                ));
                assert(self.circuit_inputs@.take(i + 1).last() == node);
            }
            if !self.component_inputs.contains(&node) {
                unused_inputs.push(node);
            }
            i += 1;
        }
        assert(self.circuit_inputs@.take(i as int) == self.circuit_inputs@);
        if unused_inputs.len() != 0 {
            return Err(CircuitBuilderError::UnusedInputs(unused_inputs));
        }
        // No input may be written by a component

        let ghost driven = self.component_outputs@;
        let ghost declared = self.circuit_inputs@;
        assert(declared.skip(0) == declared);
        let mut i: usize = 0;
        while i < self.circuit_inputs.len()
            invariant
                i <= self.circuit_inputs@.len(),
                declared == self.circuit_inputs@,
                driven == self.component_outputs@,
                self.components@.len() > 0,
                unused_inputs@.len() == 0,
                unused_inputs@ == declared.filter(|node: usize| !self.component_inputs@.contains(node)),
                first_driven_input(declared, driven) == first_driven_input(
                    declared.skip(i as int),
                    driven,
                ),
            decreases self.circuit_inputs@.len() - i,
        {
            let node = self.circuit_inputs[i];
            proof {
                assert(declared.skip(i as int).first() == node);
                assert(declared.skip(i as int).drop_first() == declared.skip(i + 1));
            }
            if self.component_outputs.contains(&node) {
                return Err(CircuitBuilderError::OutputIsACircuitInput(node));
            }
            i += 1;
        }
        proof {
            lemma_no_driven_input(declared, driven);
        }
        // Determine the circuit outputs

        let ghost produced = self.component_outputs@;
        let ghost all: Seq<usize> = vstd::std_specs::hash::into_iter_hash_keys(
            vstd::std_specs::hash::spec_hash_keys_iter(&self.component_outputs),
        );
        let mut circuit_outputs: Vec<usize> = Vec::new();
        for node in iter: self.component_outputs.iter()
            invariant
                consumed == self.component_inputs@,
                produced == self.component_outputs@,
                all == iter.seq().unref(),
                all.to_set() == produced,
                all.no_duplicates(),
                circuit_outputs@.no_duplicates(),
                forall|k: int|
                    0 <= k < circuit_outputs@.len() ==> !consumed.contains(
                        #[trigger] circuit_outputs@[k],
                    ) && all.take(iter.index()).contains(circuit_outputs@[k]),
                forall|k: int|
                    0 <= k < iter.index() && !consumed.contains(#[trigger] all[k])
                        ==> circuit_outputs@.contains(all[k]),
        {
            let ghost before = circuit_outputs@;
            let ghost position = iter.index();
            assert(all[position] == *node);
            assert(all.take(position + 1) == all.take(position).push(*node));
            if !self.component_inputs.contains(node) {
                circuit_outputs.push(*node);
                proof {
                    assert forall|k: int| 0 <= k < before.len() implies before[k] != *node by {
                        let earlier = choose|earlier: int|
                            0 <= earlier < all.take(position).len() && all.take(position)[earlier]
                                == before[k];
                        assert(all[earlier] == before[k]);
                    }
                    assert(circuit_outputs@[before.len() as int] == *node);
                    assert forall|k: int|
                        0 <= k < position + 1 && !consumed.contains(
                            #[trigger] all[k],
                        ) implies circuit_outputs@.contains(all[k]) by {
                        if k < position {
                            let at = choose|at: int| 0 <= at < before.len() && before[at] == all[k];
                            assert(circuit_outputs@[at] == all[k]);
                        }
                    }
                }
            }
            proof {
                assert forall|k: int| 0 <= k < circuit_outputs@.len() implies all.take(
                    position + 1,
                ).contains(#[trigger] circuit_outputs@[k]) by {
                    if k < before.len() {
                        let earlier = choose|earlier: int|
                            0 <= earlier < all.take(position).len() && all.take(position)[earlier]
                                == before[k];
                        assert(all.take(position + 1)[earlier] == before[k]);
                    } else {
                        assert(all.take(position + 1)[position] == *node);
                    }
                }
            }
        }
        proof {
            assert(circuit_outputs@.to_set() =~= produced.difference(consumed)) by {
                assert forall|node: usize| circuit_outputs@.to_set().contains(node) implies produced.difference(
                    consumed,
                ).contains(node) by {
                    let k = choose|k: int| 0 <= k < circuit_outputs@.len() && circuit_outputs@[k] == node;
                    assert(!consumed.contains(circuit_outputs@[k]));
                    let at = choose|at: int|
                        0 <= at < all.take(all.len() as int).len() && all.take(all.len() as int)[at]
                            == circuit_outputs@[k];
                    assert(all[at] == node);
                    assert(all.to_set().contains(node));
                }
                assert forall|node: usize| produced.difference(consumed).contains(
                    node,
                ) implies circuit_outputs@.to_set().contains(node) by {
                    assert(all.to_set().contains(node));
                    let k = choose|k: int| 0 <= k < all.len() && all[k] == node;
                    assert(!consumed.contains(all[k]));
                    assert(circuit_outputs@.contains(all[k]));
                }
            }
            assert forall|node: usize| #[trigger]
                self.index_map@.contains_key(node) implies self.index_map@[node] < usize::MAX by {}
            let map = self.index_map@;
            let components = self.components@;
            assert forall|k: int| 0 <= k < circuit_outputs@.len() implies {
                let node = #[trigger] circuit_outputs@[k];
                &&& map.contains_key(node)
                &&& driven_before(components, components.len() as int, map[node])
                &&& !read_by_some(components, map[node])
            } by {
                let node = circuit_outputs@[k];
                assert(circuit_outputs@.to_set().contains(node));
                assert(produced.contains(node) && !consumed.contains(node));
                if read_by_some(components, map[node]) {
                    let (c, at) = choose|c: int, at: int|
                        0 <= c < components.len() && 0 <= at < components[c].input_ids().len()
                            && #[trigger] components[c].input_ids()[at] == map[node];
                    assert(indexes_one_of(map, consumed, components[c].input_ids()[at]));
                    let other = choose|other: usize| #[trigger]
                        consumed.contains(other) && map.contains_key(other) && map[other]
                            == map[node];
                    assert(map[other] == map[node]);
                    assert(other == node);
                }
            }
            assert(circuit_outputs@.len() > 0) by {
                let node = choose|node: usize| #[trigger]
                    produced.contains(node) && !consumed.contains(node);
                assert(produced.difference(consumed).contains(node));
                assert(circuit_outputs@.to_set().contains(node));
            }
            assert forall|k: int| 0 <= k < self.circuit_inputs@.len() implies !driven_before(
                components,
                components.len() as int,
                map[#[trigger] self.circuit_inputs@[k]],
            ) by {
                let node = self.circuit_inputs@[k];
                if driven_before(components, components.len() as int, map[node]) {
                    let (c, at) = choose|c: int, at: int|
                        0 <= c < components.len() && c < components.len() && 0 <= at
                            < components[c].output_ids().len()
                            && #[trigger] components[c].output_ids()[at] == map[node];
                    assert(indexes_one_of(map, produced, components[c].output_ids()[at]));
                    let other = choose|other: usize| #[trigger]
                        produced.contains(other) && map.contains_key(other) && map[other]
                            == map[node];
                    if !consumed.contains(node) {
                        self.circuit_inputs@.lemma_filter_contains(unused, k);
                    }
                    assert(map.dom().contains(node));
                    assert(map[other] == map[node]);
                    assert(other == node);
                    assert(!produced.contains(declared[k]));
                }
            }
            assert forall|k: int| 0 <= k < self.circuit_inputs@.len() implies map.contains_key(
                #[trigger] self.circuit_inputs@[k],
            ) by {
                let node = self.circuit_inputs@[k];
                if !consumed.contains(node) {
                    self.circuit_inputs@.lemma_filter_contains(unused, k);
                    assert(false);
                }
                assert(map.dom().contains(node));
            }
        }
        Ok(GenericCircuit::new(self.components, self.index_map, self.circuit_inputs, circuit_outputs))
    }

    /// The error with which the builder refuses a component with these
    /// nodes, if it does.
    fn refusal(&self, inputs: &[usize], outputs: &[usize]) -> (error: Option<CircuitBuilderError>)
        ensures
            error == rejection(self.declared_inputs(), self.produced(), inputs@, outputs@),
    {
        broadcast use vstd::std_specs::hash::group_hash_axioms;

        if inputs.len() == 0 || outputs.len() == 0 {
            return Some(CircuitBuilderError::DisconnectedComponent);
        }
        let ghost declared = self.circuit_inputs@;
        let ghost produced = self.component_outputs@;
        assert(declared.take(declared.len() as int) == declared);
        assert(inputs@.skip(0) == inputs@);
        let mut i: usize = 0;
        while i < inputs.len()
            invariant
                i <= inputs@.len(),
                inputs@.len() > 0,
                outputs@.len() > 0,
                declared == self.circuit_inputs@,
                produced == self.component_outputs@,
                declared.take(declared.len() as int) == declared,
                first_unavailable(declared, produced, inputs@) == first_unavailable(
                    declared,
                    produced,
                    inputs@.skip(i as int),
                ),
            decreases inputs@.len() - i,
        {
            let node = inputs[i];
            assert(inputs@.skip(i as int).first() == node);
            assert(inputs@.skip(i as int).drop_first() == inputs@.skip(i + 1));
            if !self.component_outputs.contains(&node) && !contains_id(
                self.circuit_inputs.as_slice(),
                self.circuit_inputs.len(),
                node,
            ) {
                return Some(CircuitBuilderError::TopologicalOrderError(node));
            }
            i += 1;
        }
        assert(outputs@.take(0).to_set() =~= Set::<usize>::empty());
        assert(produced.union(Set::<usize>::empty()) =~= produced);
        assert(outputs@.skip(0) == outputs@);
        let mut j: usize = 0;
        while j < outputs.len()
            invariant
                j <= outputs@.len(),
                inputs@.len() > 0,
                outputs@.len() > 0,
                first_unavailable(declared, produced, inputs@) is None,
                declared == self.circuit_inputs@,
                produced == self.component_outputs@,
                declared.take(declared.len() as int) == declared,
                first_output_clash(declared, produced, outputs@) == first_output_clash(
                    declared,
                    produced.union(outputs@.take(j as int).to_set()),
                    outputs@.skip(j as int),
                ),
            decreases outputs@.len() - j,
        {
            let node = outputs[j];
            assert(outputs@.skip(j as int).first() == node);
            assert(outputs@.skip(j as int).drop_first() == outputs@.skip(j + 1));
            if contains_id(self.circuit_inputs.as_slice(), self.circuit_inputs.len(), node) {
                return Some(CircuitBuilderError::OutputIsACircuitInput(node));
            }
            if self.component_outputs.contains(&node) || contains_id(outputs, j, node) {
                return Some(CircuitBuilderError::OutputsConnection(node));
            }
            assert(outputs@.take(j + 1) == outputs@.take(j as int).push(node));
            assert(produced.union(outputs@.take(j as int).to_set()).insert(node) =~= produced.union(
                outputs@.take(j + 1).to_set(),
            )) by {
                lemma_one_more_node(outputs@, j as int);
            }
            j += 1;
        }
        None
    }
}

impl<T, U> Default for CircuitBuilder<T, U> where
    T: Component + Executable<U, CircuitMemory<U>>,
    U: Copy,
 {
    /// A new circuit builder.
    fn default() -> (builder: Self)
        ensures
            builder.well_formed(),
            builder.components() == Seq::<T>::empty(),
            builder.declared_inputs() == Seq::<usize>::empty(),
            builder.consumed() == Set::<usize>::empty(),
            builder.produced() == Set::<usize>::empty(),
            builder.index_map() == Map::<usize, usize>::empty(),
    {
        Self::new()
    }
}

} // verus!
