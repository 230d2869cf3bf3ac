//! Evaluation of an arithmetic circuit on named input values.

use crate::arithmetic_circuit::{ArithmeticCircuit, ArithmeticGate, CircuitInfo, ConstantInfo};
use crate::number::{Number, NumberError};
use vstd::prelude::*;

verus! {

/// Why an evaluation fails: an input has no value, or a number could not be
/// read or computed.
pub enum Failure {
    Missing(Seq<char>),
    Number(NumberError),
}

/// A clone of a number is the number.
pub open spec fn clone_is_exact<N: Clone>() -> bool {
    forall|number: N, copy: N| cloned::<N>(number, copy) ==> number == copy
}

/// A table of named values, with each name as a sequence of characters.
pub open spec fn named<V>(table: Seq<(String, V)>) -> Seq<(Seq<char>, V)> {
    Seq::new(table.len(), |k: int| (table[k].0@, table[k].1))
}

/// The constants of a table: the text and the wire of each.
pub open spec fn constants_of(table: Seq<(String, ConstantInfo)>) -> Seq<(Seq<char>, u32)> {
    Seq::new(table.len(), |k: int| (table[k].1.value@, table[k].1.wire_index))
}

/// No name occurs twice in the table: it is a map from names to values,
/// written down in some order.
pub open spec fn distinct_names<V>(table: Seq<(Seq<char>, V)>) -> bool {
    forall|i: int, j: int|
        #![trigger table[i], table[j]]
        0 <= i < j < table.len() ==> table[i].0 != table[j].0
}

/// The value that `binding` gives to this name: that of the first entry
/// with the name, which is the only one where the names are distinct.
pub open spec fn lookup<N>(binding: Seq<(Seq<char>, N)>, name: Seq<char>) -> Option<N>
    decreases binding.len(),
{
    if binding.len() == 0 {
        None
    } else if binding.first().0 == name {
        Some(binding.first().1)
    } else {
        lookup(binding.drop_first(), name)
    }
}

/// In a table without a name twice, each entry is what its name is looked up
/// to, wherever in the table it stands.
pub proof fn law_lookup_finds_the_entry<N>(binding: Seq<(Seq<char>, N)>, at: int)
    requires
        distinct_names(binding),
        0 <= at < binding.len(),
    ensures
        lookup(binding, binding[at].0) == Some(binding[at].1),
    decreases binding.len(),
{
    if at > 0 {
        let rest = binding.drop_first();
        assert(distinct_names(rest)) by {
            assert forall|i: int, j: int|
                #![trigger rest[i], rest[j]]
                0 <= i < j < rest.len() implies rest[i].0 != rest[j].0 by {
                assert(rest[i] == binding[i + 1] && rest[j] == binding[j + 1]);
            }
        }
        assert(rest[at - 1] == binding[at]);
        law_lookup_finds_the_entry(rest, at - 1);
        assert(binding[0].0 != binding[at].0);
    }
}

/// A name is looked up to nothing exactly where the table has no entry with
/// it.
pub proof fn law_lookup_misses_what_is_not_there<N>(binding: Seq<(Seq<char>, N)>, name: Seq<char>)
    ensures
        lookup(binding, name) is None <==> forall|at: int|
            0 <= at < binding.len() ==> (#[trigger] binding[at]).0 != name,
    decreases binding.len(),
{
    if binding.len() > 0 {
        let rest = binding.drop_first();
        law_lookup_misses_what_is_not_there(rest, name);
        if lookup(binding, name) is None {
            assert forall|at: int| 0 <= at < binding.len() implies (#[trigger] binding[at]).0
                != name by {
                if at > 0 {
                    assert(rest[at - 1] == binding[at]);
                }
            }
        }
        if forall|at: int| 0 <= at < binding.len() ==> (#[trigger] binding[at]).0 != name {
            assert(binding[0].0 != name);
            assert forall|at: int| 0 <= at < rest.len() implies (#[trigger] rest[at]).0 != name by {
                assert(rest[at] == binding[at + 1]);
            }
        }
    }
}

/// Tells whether no name occurs twice in the table.
pub fn has_distinct_names<V>(table: &Vec<(String, V)>) -> (distinct: bool)
    ensures
        distinct == distinct_names(named(table@)),
{
    let ghost names = named(table@);
    let mut j: usize = 0;
    while j < table.len()
        invariant
            j <= table@.len(),
            names == named(table@),
            forall|a: int, b: int|
                #![trigger names[a], names[b]]
                0 <= a < b < j ==> names[a].0 != names[b].0,
        decreases table@.len() - j,
    {
        let mut i: usize = 0;
        while i < j
            invariant
                i <= j < table@.len(),
                names == named(table@),
                forall|a: int| 0 <= a < i ==> (#[trigger] names[a]).0 != names[j as int].0,
            decreases j - i,
        {
            if table[i].0 == table[j].0 {
                assert(names[i as int].0 == names[j as int].0);
                return false;
            }
            i += 1;
        }
        j += 1;
    }
    true
}

impl CircuitInfo {
    /// Each of the three tables is a map: none has a name twice.
    pub open spec fn names_are_distinct(&self) -> bool {
        &&& distinct_names(named(self.input_name_to_wire_index@))
        &&& distinct_names(named(self.constants@))
        &&& distinct_names(named(self.output_name_to_wire_index@))
    }

    /// Tells whether none of the three tables has a name twice.
    pub fn has_distinct_names(&self) -> (distinct: bool)
        ensures
            distinct == self.names_are_distinct(),
    {
        has_distinct_names(&self.input_name_to_wire_index) && has_distinct_names(&self.constants)
            && has_distinct_names(&self.output_name_to_wire_index)
    }
}

/// The wires after each input of `table`, in order, got its value from
/// `binding`; the name of the first input that has none, where there is
/// one.
pub open spec fn with_inputs<N>(
    wires: Seq<N>,
    table: Seq<(Seq<char>, u32)>,
    binding: Seq<(Seq<char>, N)>,
) -> Result<Seq<N>, Failure>
    decreases table.len(),
{
    if table.len() == 0 {
        Ok(wires)
    } else {
        match with_inputs(wires, table.drop_last(), binding) {
            Err(failure) => Err(failure),
            Ok(before) => match lookup(binding, table.last().0) {
                Some(value) => Ok(before.update(table.last().1 as int, value)),
                None => Err(Failure::Missing(table.last().0)),
            },
        }
    }
}

/// The wires after each constant, in order, was read and put on its wire;
/// the error of the first that does not read as a number, where there is
/// one.
pub open spec fn with_constants<N: Number>(
    wires: Seq<N>,
    constants: Seq<(Seq<char>, u32)>,
) -> Result<Seq<N>, Failure>
    decreases constants.len(),
{
    if constants.len() == 0 {
        Ok(wires)
    } else {
        match with_constants(wires, constants.drop_last()) {
            Err(failure) => Err(failure),
            Ok(before) => match N::parsed(constants.last().0) {
                Ok(value) => Ok(before.update(constants.last().1 as int, value)),
                Err(error) => Err(Failure::Number(error)),
            },
        }
    }
}

/// The wires after each gate, in order, put its result on its output wire;
/// the error of the first gate that has none, where there is one.
pub open spec fn with_gates<N: Number>(wires: Seq<N>, gates: Seq<ArithmeticGate>) -> Result<
    Seq<N>,
    Failure,
>
    decreases gates.len(),
{
    if gates.len() == 0 {
        Ok(wires)
    } else {
        match with_gates(wires, gates.drop_last()) {
            Err(failure) => Err(failure),
            Ok(before) => {
                let gate = gates.last();
                match before[gate.lh_in as int].applied(gate.op, &before[gate.rh_in as int]) {
                    Ok(value) => Ok(before.update(gate.out as int, value)),
                    Err(error) => Err(Failure::Number(error)),
                }
            },
        }
    }
}

/// Each gate, when its turn comes, may be applied to the numbers on its
/// input wires.
pub open spec fn gates_admitted<N: Number>(wires: Seq<N>, gates: Seq<ArithmeticGate>) -> bool
    decreases gates.len(),
{
    gates.len() == 0 || {
        &&& gates_admitted(wires, gates.drop_last())
        &&& match with_gates(wires, gates.drop_last()) {
            Err(_) => true,
            Ok(before) => before[gates.last().lh_in as int].admits(
                gates.last().op,
                &before[gates.last().rh_in as int],
            ),
        }
    }
}

/// The named outputs with the values on their wires.
pub open spec fn outputs_of<N>(wires: Seq<N>, table: Seq<(Seq<char>, u32)>) -> Seq<
    (Seq<char>, N),
> {
    Seq::new(table.len(), |k: int| (table[k].0, wires[table[k].1 as int]))
}

/// The wires of the circuit when its gates are about to run: zero
/// everywhere, then the inputs, then the constants.
pub open spec fn prepared<N: Number>(
    circuit: ArithmeticCircuit,
    binding: Seq<(Seq<char>, N)>,
) -> Result<Seq<N>, Failure> {
    match with_inputs(
        Seq::new(circuit.wire_count as nat, |k: int| N::zero_value()),
        named(circuit.info.input_name_to_wire_index@),
        binding,
    ) {
        Err(failure) => Err(failure),
        Ok(wires) => with_constants(wires, constants_of(circuit.info.constants@)),
    }
}

/// What the circuit computes for the input values of `binding`: the value
/// of each named output, in the order of the circuit's table of outputs.
pub open spec fn simulated<N: Number>(
    circuit: ArithmeticCircuit,
    binding: Seq<(Seq<char>, N)>,
) -> Result<Seq<(Seq<char>, N)>, Failure> {
    match prepared(circuit, binding) {
        Err(failure) => Err(failure),
        Ok(wires) => match with_gates(wires, circuit.gates@) {
            Err(failure) => Err(failure),
            Ok(end) => Ok(outputs_of(end, named(circuit.info.output_name_to_wire_index@))),
        },
    }
}

/// Every gate of the circuit may be applied when its turn comes, for the
/// input values of `binding`.
pub open spec fn admitted<N: Number>(
    circuit: ArithmeticCircuit,
    binding: Seq<(Seq<char>, N)>,
) -> bool {
    match prepared(circuit, binding) {
        Err(_) => true,
        Ok(wires) => gates_admitted(wires, circuit.gates@),
    }
}

impl ArithmeticCircuit {
    /// Every wire that the circuit names is one of its `wire_count` wires.
    pub open spec fn wires_in_range(&self) -> bool {
        &&& forall|k: int|
            0 <= k < self.info.input_name_to_wire_index@.len() ==> (
            #[trigger] self.info.input_name_to_wire_index@[k]).1 < self.wire_count
        &&& forall|k: int|
            0 <= k < self.info.constants@.len() ==> (
            #[trigger] self.info.constants@[k]).1.wire_index < self.wire_count
        &&& forall|k: int|
            0 <= k < self.info.output_name_to_wire_index@.len() ==> (
            #[trigger] self.info.output_name_to_wire_index@[k]).1 < self.wire_count
        &&& forall|k: int|
            0 <= k < self.gates@.len() ==> {
                &&& (#[trigger] self.gates@[k]).lh_in < self.wire_count
                &&& self.gates@[k].rh_in < self.wire_count
                &&& self.gates@[k].out < self.wire_count
            }
    }

    /// Tells whether every wire that the circuit names is one of its wires.
    pub fn has_wires_in_range(&self) -> (in_range: bool)
        ensures
            in_range == self.wires_in_range(),
    {
        let inputs = &self.info.input_name_to_wire_index;
        let mut i: usize = 0;
        while i < inputs.len()
            invariant
                i <= inputs@.len(),
                inputs == &self.info.input_name_to_wire_index,
                forall|k: int| 0 <= k < i ==> (#[trigger] inputs@[k]).1 < self.wire_count,
            decreases inputs@.len() - i,
        {
            if inputs[i].1 >= self.wire_count {
                return false;
            }
            i += 1;
        }
        let constants = &self.info.constants;
        let mut i: usize = 0;
        while i < constants.len()
            invariant
                i <= constants@.len(),
                constants == &self.info.constants,
                forall|k: int| 0 <= k < i ==> (#[trigger] constants@[k]).1.wire_index < self.wire_count,
            decreases constants@.len() - i,
        {
            if constants[i].1.wire_index >= self.wire_count {
                return false;
            }
            i += 1;
        }
        let outputs = &self.info.output_name_to_wire_index;
        let mut i: usize = 0;
        while i < outputs.len()
            invariant
                i <= outputs@.len(),
                outputs == &self.info.output_name_to_wire_index,
                forall|k: int| 0 <= k < i ==> (#[trigger] outputs@[k]).1 < self.wire_count,
            decreases outputs@.len() - i,
        {
            if outputs[i].1 >= self.wire_count {
                return false;
            }
            i += 1;
        }
        let mut i: usize = 0;
        while i < self.gates.len()
            invariant
                i <= self.gates@.len(),
                forall|k: int|
                    0 <= k < i ==> {
                        &&& (#[trigger] self.gates@[k]).lh_in < self.wire_count
                        &&& self.gates@[k].rh_in < self.wire_count
                        &&& self.gates@[k].out < self.wire_count
                    },
            decreases self.gates@.len() - i,
        {
            let gate = &self.gates[i];
            if gate.lh_in >= self.wire_count || gate.rh_in >= self.wire_count || gate.out
                >= self.wire_count {
                return false;
            }
            i += 1;
        }
        true
    }
}

/// The value that the first entry of `binding` with the name `name` gives.
fn find<'a, N>(binding: &'a Vec<(String, N)>, name: &String) -> (found: Option<&'a N>)
    ensures
        match found {
            Some(value) => lookup(named(binding@), name@) == Some(*value),
            None => lookup(named(binding@), name@) is None,
        },
{
    let ghost table = named(binding@);
    let mut i: usize = 0;
    assert(table.skip(0) == table);
    while i < binding.len()
        invariant
            i <= binding@.len(),
            table == named(binding@),
            lookup(table, name@) == lookup(table.skip(i as int), name@),
        decreases binding@.len() - i,
    {
        assert(table.skip(i as int).first() == table[i as int]);
        assert(table.skip(i as int).drop_first() == table.skip(i + 1));
        if binding[i].0 == *name {
            return Some(&binding[i].1);
        }
        i += 1;
    }
    None
}

/// Once an input had no value, the inputs after it are not looked at.
proof fn lemma_inputs_stop<N>(
    wires: Seq<N>,
    table: Seq<(Seq<char>, u32)>,
    upto: int,
    binding: Seq<(Seq<char>, N)>,
)
    requires
        0 <= upto <= table.len(),
        with_inputs(wires, table.take(upto), binding) is Err,
    ensures
        with_inputs(wires, table, binding) == with_inputs(wires, table.take(upto), binding),
    decreases table.len() - upto,
{
    if upto < table.len() {
        assert(table.take(upto + 1).drop_last() == table.take(upto));
        lemma_inputs_stop(wires, table, upto + 1, binding);
    } else {
        assert(table.take(upto) == table);
    }
}

/// Once a constant did not read as a number, the constants after it are not
/// looked at.
proof fn lemma_constants_stop<N: Number>(wires: Seq<N>, constants: Seq<(Seq<char>, u32)>, upto: int)
    requires
        0 <= upto <= constants.len(),
        with_constants(wires, constants.take(upto)) is Err,
    ensures
        with_constants(wires, constants) == with_constants(wires, constants.take(upto)),
    decreases constants.len() - upto,
{
    if upto < constants.len() {
        assert(constants.take(upto + 1).drop_last() == constants.take(upto));
        lemma_constants_stop(wires, constants, upto + 1);
    } else {
        assert(constants.take(upto) == constants);
    }
}

/// Once a gate had no result, the gates after it do not run.
proof fn lemma_gates_stop<N: Number>(wires: Seq<N>, gates: Seq<ArithmeticGate>, upto: int)
    requires
        0 <= upto <= gates.len(),
        with_gates(wires, gates.take(upto)) is Err,
    ensures
        with_gates(wires, gates) == with_gates(wires, gates.take(upto)),
    decreases gates.len() - upto,
{
    if upto < gates.len() {
        assert(gates.take(upto + 1).drop_last() == gates.take(upto));
        lemma_gates_stop(wires, gates, upto + 1);
    } else {
        assert(gates.take(upto) == gates);
    }
}

/// Where all gates are admitted, so are the first `upto` of them.
proof fn lemma_admitted_so_far<N: Number>(wires: Seq<N>, gates: Seq<ArithmeticGate>, upto: int)
    requires
        0 <= upto <= gates.len(),
        gates_admitted(wires, gates),
    ensures
        gates_admitted(wires, gates.take(upto)),
    decreases gates.len() - upto,
{
    if upto < gates.len() {
        lemma_admitted_so_far(wires, gates, upto + 1);
        assert(gates.take(upto + 1).drop_last() == gates.take(upto));
    } else {
        assert(gates.take(upto) == gates);
    }
}

/// Evaluates the circuit on the input values of `inputs`, and returns the
/// value of each named output, in the order of the circuit's table of
/// outputs.
///
/// The tables of the circuit and `inputs` are maps from names: none has a
/// name twice. All wires start at zero. Each named input takes the value
/// that `inputs` gives to its name; then each constant is read and put on
/// its wire; then the gates run in order. The outputs are a map from names
/// again. An input without a value, a
/// constant that does not read as a number and a gate without a result end
/// the evaluation with their error.
pub fn simulate<N: Number>(circuit: &ArithmeticCircuit, inputs: &Vec<(String, N)>) -> (result:
    Result<Vec<(String, N)>, NumberError>)
    requires
        circuit.info.names_are_distinct(),
        distinct_names(named(inputs@)),
        circuit.wires_in_range(),
        clone_is_exact::<N>(),
        admitted(*circuit, named(inputs@)),
    ensures
        match simulated(*circuit, named(inputs@)) {
            Ok(values) => result matches Ok(outputs) && named(outputs@) == values
                && distinct_names(named(outputs@)),
            Err(Failure::Missing(name)) => result matches Err(NumberError::MissingInput(missing))
                && missing@ == name,
            Err(Failure::Number(error)) => result matches Err(found) && found == error,
        },
{
    let ghost binding = named(inputs@);
    let ghost zeros = Seq::new(circuit.wire_count as nat, |k: int| N::zero_value());
    let mut wires: Vec<N> = Vec::new();
    let mut made: u32 = 0;
    while made < circuit.wire_count
        invariant
            made <= circuit.wire_count,
            wires@ == Seq::new(made as nat, |k: int| N::zero_value()),
        decreases circuit.wire_count - made,
    {
        wires.push(N::zero());
        made += 1;
        assert(wires@ =~= Seq::new(made as nat, |k: int| N::zero_value()));
    }
    let input_table = &circuit.info.input_name_to_wire_index;
    let ghost input_names = named(input_table@);
    let mut i: usize = 0;
    while i < input_table.len()
        invariant
            i <= input_table@.len(),
            input_table == &circuit.info.input_name_to_wire_index,
            input_names == named(input_table@),
            binding == named(inputs@),
            circuit.wires_in_range(),
            clone_is_exact::<N>(),
            wires@.len() == circuit.wire_count,
            zeros == Seq::new(circuit.wire_count as nat, |k: int| N::zero_value()),
            with_inputs(zeros, input_names.take(i as int), binding) == Ok::<Seq<N>, Failure>(
                wires@,
            ),
        decreases input_table@.len() - i,
    {
        proof {
            assert(input_names.take(i + 1).drop_last() == input_names.take(i as int));
            assert(input_names.take(i + 1).last() == input_names[i as int]);
            assert(input_names[i as int] == (input_table@[i as int].0@, input_table@[i as int].1));
            assert(input_table@[i as int].1 < circuit.wire_count);
        }
        match find(inputs, &input_table[i].0) {
            Some(value) => {
                let copy = value.clone();
                assert(cloned::<N>(*value, copy));
                wires.set(input_table[i].1 as usize, copy);
            },
            None => {
                proof {
                    lemma_inputs_stop(zeros, input_names, i + 1, binding);
                }
                return Err(NumberError::MissingInput(input_table[i].0.clone()));
            },
        }
        i += 1;
    }
    assert(input_names.take(i as int) == input_names);
    let ghost bound = wires@;
    let constant_table = &circuit.info.constants;
    let ghost constants = constants_of(constant_table@);
    let mut i: usize = 0;
    while i < constant_table.len()
        invariant
            i <= constant_table@.len(),
            constant_table == &circuit.info.constants,
            constants == constants_of(constant_table@),
            binding == named(inputs@),
            circuit.wires_in_range(),
            wires@.len() == circuit.wire_count,
            with_inputs(zeros, input_names, binding) == Ok::<Seq<N>, Failure>(bound),
            input_names == named(circuit.info.input_name_to_wire_index@),
            zeros == Seq::new(circuit.wire_count as nat, |k: int| N::zero_value()),
            with_constants(bound, constants.take(i as int)) == Ok::<Seq<N>, Failure>(wires@),
        decreases constant_table@.len() - i,
    {
        proof {
            assert(constants.take(i + 1).drop_last() == constants.take(i as int));
            assert(constants.take(i + 1).last() == constants[i as int]);
            assert(constants[i as int] == (
                constant_table@[i as int].1.value@,
                constant_table@[i as int].1.wire_index,
            ));
            assert(constant_table@[i as int].1.wire_index < circuit.wire_count);
        }
        match N::from_str(constant_table[i].1.value.as_str()) {
            Ok(value) => {
                wires.set(constant_table[i].1.wire_index as usize, value);
            },
            Err(error) => {
                proof {
                    lemma_constants_stop(bound, constants, i + 1);
                }
                return Err(error);
            },
        }
        i += 1;
    }
    assert(constants.take(i as int) == constants);
    let ghost ready = wires@;
    assert(prepared(*circuit, binding) == Ok::<Seq<N>, Failure>(ready));
    let mut i: usize = 0;
    while i < circuit.gates.len()
        invariant
            i <= circuit.gates@.len(),
            binding == named(inputs@),
            circuit.wires_in_range(),
            wires@.len() == circuit.wire_count,
            prepared(*circuit, binding) == Ok::<Seq<N>, Failure>(ready),
            gates_admitted(ready, circuit.gates@),
            with_gates(ready, circuit.gates@.take(i as int)) == Ok::<Seq<N>, Failure>(wires@),
        decreases circuit.gates@.len() - i,
    {
        let gate = &circuit.gates[i];
        proof {
            assert(circuit.gates@.take(i + 1).drop_last() == circuit.gates@.take(i as int));
            assert(circuit.gates@.take(i + 1).last() == circuit.gates@[i as int]);
            lemma_admitted_so_far(ready, circuit.gates@, i + 1);
            assert(circuit.gates@[i as int].lh_in < circuit.wire_count);
        }
        let outcome = wires[gate.lh_in as usize].infix_op(gate.op, &wires[gate.rh_in as usize]);
        match outcome {
            Ok(value) => {
                wires.set(gate.out as usize, value);
            },
            Err(error) => {
                proof {
                    lemma_gates_stop(ready, circuit.gates@, i + 1);
                }
                return Err(error);
            },
        }
        i += 1;
    }
    assert(circuit.gates@.take(i as int) == circuit.gates@);
    let output_table = &circuit.info.output_name_to_wire_index;
    let ghost output_names = named(output_table@);
    let mut outputs: Vec<(String, N)> = Vec::new();
    let mut i: usize = 0;
    while i < output_table.len()
        invariant
            i <= output_table@.len(),
            output_table == &circuit.info.output_name_to_wire_index,
            output_names == named(output_table@),
            circuit.wires_in_range(),
            clone_is_exact::<N>(),
            wires@.len() == circuit.wire_count,
            outputs@.len() == i,
            forall|k: int|
                0 <= k < i ==> (#[trigger] outputs@[k]).0@ == output_names[k].0 && outputs@[k].1
                    == wires@[output_names[k].1 as int],
        decreases output_table@.len() - i,
    {
        proof {
            assert(output_table@[i as int].1 < circuit.wire_count);
        }
        let name = output_table[i].0.clone();
        let value = wires[output_table[i].1 as usize].clone();
        assert(cloned::<N>(wires@[output_table@[i as int].1 as int], value));
        assert(output_names[i as int] == (output_table@[i as int].0@, output_table@[i as int].1));
        outputs.push((name, value));
        i += 1;
    }
    assert(named(outputs@) =~= outputs_of(wires@, output_names));
    assert(distinct_names(named(outputs@))) by {
        let found = named(outputs@);
        assert forall|a: int, b: int|
            #![trigger found[a], found[b]]
            0 <= a < b < found.len() implies found[a].0 != found[b].0 by {
            assert(found[a].0 == output_names[a].0 && found[b].0 == output_names[b].0);
        }
    }
    Ok(outputs)
}

} // verus!
