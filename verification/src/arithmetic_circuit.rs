//! Arithmetic circuits: gates with two inputs and one output over numbered
//! wires, with named inputs, constants and outputs.

use crate::text::{
    chars_of, decimal_text, is_text, is_white_space, is_whitespace, numbered, parse_u32,
    parsed_u32, split_words, text_of, words,
};
use vstd::prelude::*;

verus! {

/// Types of gates that can be used in an arithmetic circuit.
#[derive(Debug, Clone, Copy, PartialEq, Eq, Structural)]
pub enum AGateType {
    AAdd,
    ADiv,
    AEq,
    AGEq,
    AGt,
    ALEq,
    ALt,
    AMul,
    ANeq,
    ASub,
    AXor,
    APow,
    AIntDiv,
    AMod,
    AShiftL,
    AShiftR,
    ABoolOr,
    ABoolAnd,
    ABitOr,
    ABitAnd,
}

/// Represents a circuit gate, with a left-hand input, right-hand input, and output node identifiers.
#[derive(Debug, PartialEq, Eq)]
pub struct ArithmeticGate {
    pub op: AGateType,
    pub lh_in: u32,
    pub rh_in: u32,
    pub out: u32,
}

/// A constant of a circuit: its text and the wire that carries it.
#[derive(Debug, PartialEq, Eq)]
pub struct ConstantInfo {
    pub value: String,
    pub wire_index: u32,
}

/// The names of a circuit: which wire each input, constant and output is
/// on. Each table is a map from names, written down in a fixed order: no
/// name occurs twice in it.
#[derive(Debug, PartialEq, Eq)]
pub struct CircuitInfo {
    pub input_name_to_wire_index: Vec<(String, u32)>,
    pub constants: Vec<(String, ConstantInfo)>,
    pub output_name_to_wire_index: Vec<(String, u32)>,
}

/// An arithmetic circuit: its gates in the order they are evaluated, the
/// number of its wires and its names.
#[derive(Debug, PartialEq, Eq)]
pub struct ArithmeticCircuit {
    pub wire_count: u32,
    pub info: CircuitInfo,
    pub gates: Vec<ArithmeticGate>,
}

/// The name of a gate type, as it is written in a circuit's text.
pub open spec fn gate_type_name(op: AGateType) -> Seq<char> {
    match op {
        AGateType::AAdd => "AAdd"@,
        AGateType::ADiv => "ADiv"@,
        AGateType::AEq => "AEq"@,
        AGateType::AGEq => "AGEq"@,
        AGateType::AGt => "AGt"@,
        AGateType::ALEq => "ALEq"@,
        AGateType::ALt => "ALt"@,
        AGateType::AMul => "AMul"@,
        AGateType::ANeq => "ANeq"@,
        AGateType::ASub => "ASub"@,
        AGateType::AXor => "AXor"@,
        AGateType::APow => "APow"@,
        AGateType::AIntDiv => "AIntDiv"@,
        AGateType::AMod => "AMod"@,
        AGateType::AShiftL => "AShiftL"@,
        AGateType::AShiftR => "AShiftR"@,
        AGateType::ABoolOr => "ABoolOr"@,
        AGateType::ABoolAnd => "ABoolAnd"@,
        AGateType::ABitOr => "ABitOr"@,
        AGateType::ABitAnd => "ABitAnd"@,
    }
}

/// The type of gate that `name` is the name of, letter for letter.
pub open spec fn gate_type_named(name: Seq<char>) -> Option<AGateType> {
    if name == "AAdd"@ {
        Some(AGateType::AAdd)
    } else if name == "ADiv"@ {
        Some(AGateType::ADiv)
    } else if name == "AEq"@ {
        Some(AGateType::AEq)
    } else if name == "AGEq"@ {
        Some(AGateType::AGEq)
    } else if name == "AGt"@ {
        Some(AGateType::AGt)
    } else if name == "ALEq"@ {
        Some(AGateType::ALEq)
    } else if name == "ALt"@ {
        Some(AGateType::ALt)
    } else if name == "AMul"@ {
        Some(AGateType::AMul)
    } else if name == "ANeq"@ {
        Some(AGateType::ANeq)
    } else if name == "ASub"@ {
        Some(AGateType::ASub)
    } else if name == "AXor"@ {
        Some(AGateType::AXor)
    } else if name == "APow"@ {
        Some(AGateType::APow)
    } else if name == "AIntDiv"@ {
        Some(AGateType::AIntDiv)
    } else if name == "AMod"@ {
        Some(AGateType::AMod)
    } else if name == "AShiftL"@ {
        Some(AGateType::AShiftL)
    } else if name == "AShiftR"@ {
        Some(AGateType::AShiftR)
    } else if name == "ABoolOr"@ {
        Some(AGateType::ABoolOr)
    } else if name == "ABoolAnd"@ {
        Some(AGateType::ABoolAnd)
    } else if name == "ABitOr"@ {
        Some(AGateType::ABitOr)
    } else if name == "ABitAnd"@ {
        Some(AGateType::ABitAnd)
    } else {
        None
    }
}

/// Writing a gate type as its name and reading the name gives it back: no
/// two gate types share a name.
pub proof fn law_gate_type_name_is_read_back(op: AGateType)
    ensures
        gate_type_named(gate_type_name(op)) == Some(op),
{
    reveal_strlit("AAdd");
    assert("AAdd"@.len() == 4);
    assert("AAdd"@[0] == 'A');
    assert("AAdd"@[1] == 'A');
    assert("AAdd"@[2] == 'd');
    assert("AAdd"@[3] == 'd');
    reveal_strlit("ADiv");
    assert("ADiv"@.len() == 4);
    assert("ADiv"@[0] == 'A');
    assert("ADiv"@[1] == 'D');
    assert("ADiv"@[2] == 'i');
    assert("ADiv"@[3] == 'v');
    reveal_strlit("AEq");
    assert("AEq"@.len() == 3);
    assert("AEq"@[0] == 'A');
    assert("AEq"@[1] == 'E');
    assert("AEq"@[2] == 'q');
    reveal_strlit("AGEq");
    assert("AGEq"@.len() == 4);
    assert("AGEq"@[0] == 'A');
    assert("AGEq"@[1] == 'G');
    assert("AGEq"@[2] == 'E');
    assert("AGEq"@[3] == 'q');
    reveal_strlit("AGt");
    assert("AGt"@.len() == 3);
    assert("AGt"@[0] == 'A');
    assert("AGt"@[1] == 'G');
    assert("AGt"@[2] == 't');
    reveal_strlit("ALEq");
    assert("ALEq"@.len() == 4);
    assert("ALEq"@[0] == 'A');
    assert("ALEq"@[1] == 'L');
    assert("ALEq"@[2] == 'E');
    assert("ALEq"@[3] == 'q');
    reveal_strlit("ALt");
    assert("ALt"@.len() == 3);
    assert("ALt"@[0] == 'A');
    assert("ALt"@[1] == 'L');
    assert("ALt"@[2] == 't');
    reveal_strlit("AMul");
    assert("AMul"@.len() == 4);
    assert("AMul"@[0] == 'A');
    assert("AMul"@[1] == 'M');
    assert("AMul"@[2] == 'u');
    assert("AMul"@[3] == 'l');
    reveal_strlit("ANeq");
    assert("ANeq"@.len() == 4);
    assert("ANeq"@[0] == 'A');
    assert("ANeq"@[1] == 'N');
    assert("ANeq"@[2] == 'e');
    assert("ANeq"@[3] == 'q');
    reveal_strlit("ASub");
    assert("ASub"@.len() == 4);
    assert("ASub"@[0] == 'A');
    assert("ASub"@[1] == 'S');
    assert("ASub"@[2] == 'u');
    assert("ASub"@[3] == 'b');
    reveal_strlit("AXor");
    assert("AXor"@.len() == 4);
    assert("AXor"@[0] == 'A');
    assert("AXor"@[1] == 'X');
    assert("AXor"@[2] == 'o');
    assert("AXor"@[3] == 'r');
    reveal_strlit("APow");
    assert("APow"@.len() == 4);
    assert("APow"@[0] == 'A');
    assert("APow"@[1] == 'P');
    assert("APow"@[2] == 'o');
    assert("APow"@[3] == 'w');
    reveal_strlit("AIntDiv");
    assert("AIntDiv"@.len() == 7);
    assert("AIntDiv"@[0] == 'A');
    assert("AIntDiv"@[1] == 'I');
    assert("AIntDiv"@[2] == 'n');
    assert("AIntDiv"@[3] == 't');
    assert("AIntDiv"@[4] == 'D');
    assert("AIntDiv"@[5] == 'i');
    assert("AIntDiv"@[6] == 'v');
    reveal_strlit("AMod");
    assert("AMod"@.len() == 4);
    assert("AMod"@[0] == 'A');
    assert("AMod"@[1] == 'M');
    assert("AMod"@[2] == 'o');
    assert("AMod"@[3] == 'd');
    reveal_strlit("AShiftL");
    assert("AShiftL"@.len() == 7);
    assert("AShiftL"@[0] == 'A');
    assert("AShiftL"@[1] == 'S');
    assert("AShiftL"@[2] == 'h');
    assert("AShiftL"@[3] == 'i');
    assert("AShiftL"@[4] == 'f');
    assert("AShiftL"@[5] == 't');
    assert("AShiftL"@[6] == 'L');
    reveal_strlit("AShiftR");
    assert("AShiftR"@.len() == 7);
    assert("AShiftR"@[0] == 'A');
    assert("AShiftR"@[1] == 'S');
    assert("AShiftR"@[2] == 'h');
    assert("AShiftR"@[3] == 'i');
    assert("AShiftR"@[4] == 'f');
    assert("AShiftR"@[5] == 't');
    assert("AShiftR"@[6] == 'R');
    reveal_strlit("ABoolOr");
    assert("ABoolOr"@.len() == 7);
    assert("ABoolOr"@[0] == 'A');
    assert("ABoolOr"@[1] == 'B');
    assert("ABoolOr"@[2] == 'o');
    assert("ABoolOr"@[3] == 'o');
    assert("ABoolOr"@[4] == 'l');
    assert("ABoolOr"@[5] == 'O');
    assert("ABoolOr"@[6] == 'r');
    reveal_strlit("ABoolAnd");
    assert("ABoolAnd"@.len() == 8);
    assert("ABoolAnd"@[0] == 'A');
    assert("ABoolAnd"@[1] == 'B');
    assert("ABoolAnd"@[2] == 'o');
    assert("ABoolAnd"@[3] == 'o');
    assert("ABoolAnd"@[4] == 'l');
    assert("ABoolAnd"@[5] == 'A');
    assert("ABoolAnd"@[6] == 'n');
    assert("ABoolAnd"@[7] == 'd');
    reveal_strlit("ABitOr");
    assert("ABitOr"@.len() == 6);
    assert("ABitOr"@[0] == 'A');
    assert("ABitOr"@[1] == 'B');
    assert("ABitOr"@[2] == 'i');
    assert("ABitOr"@[3] == 't');
    assert("ABitOr"@[4] == 'O');
    assert("ABitOr"@[5] == 'r');
    reveal_strlit("ABitAnd");
    assert("ABitAnd"@.len() == 7);
    assert("ABitAnd"@[0] == 'A');
    assert("ABitAnd"@[1] == 'B');
    assert("ABitAnd"@[2] == 'i');
    assert("ABitAnd"@[3] == 't');
    assert("ABitAnd"@[4] == 'A');
    assert("ABitAnd"@[5] == 'n');
    assert("ABitAnd"@[6] == 'd');
}

/// A name that is the name of no gate type.
#[derive(Debug, Clone, Copy, PartialEq, Eq)]
pub struct UnknownGateType;

impl std::str::FromStr for AGateType {
    type Err = UnknownGateType;

    /// Reads a gate type from its name: the one that has this name, letter
    /// for letter, and an error where there is none.
    fn from_str(name: &str) -> (result: Result<AGateType, UnknownGateType>)
        ensures
            result == match gate_type_named(name@) {
                Some(op) => Ok::<AGateType, UnknownGateType>(op),
                None => Err::<AGateType, UnknownGateType>(UnknownGateType),
            },
    {
        match AGateType::from_name(&chars_of(name)) {
            Some(op) => Ok(op),
            None => Err(UnknownGateType),
        }
    }
}

impl AGateType {
    /// Reads a gate type from its name.
    pub fn from_name(name: &Vec<char>) -> (op: Option<AGateType>)
        ensures
            op == gate_type_named(name@),
    {
        if is_text(name, "AAdd") {
            Some(AGateType::AAdd)
        } else if is_text(name, "ADiv") {
            Some(AGateType::ADiv)
        } else if is_text(name, "AEq") {
            Some(AGateType::AEq)
        } else if is_text(name, "AGEq") {
            Some(AGateType::AGEq)
        } else if is_text(name, "AGt") {
            Some(AGateType::AGt)
        } else if is_text(name, "ALEq") {
            Some(AGateType::ALEq)
        } else if is_text(name, "ALt") {
            Some(AGateType::ALt)
        } else if is_text(name, "AMul") {
            Some(AGateType::AMul)
        } else if is_text(name, "ANeq") {
            Some(AGateType::ANeq)
        } else if is_text(name, "ASub") {
            Some(AGateType::ASub)
        } else if is_text(name, "AXor") {
            Some(AGateType::AXor)
        } else if is_text(name, "APow") {
            Some(AGateType::APow)
        } else if is_text(name, "AIntDiv") {
            Some(AGateType::AIntDiv)
        } else if is_text(name, "AMod") {
            Some(AGateType::AMod)
        } else if is_text(name, "AShiftL") {
            Some(AGateType::AShiftL)
        } else if is_text(name, "AShiftR") {
            Some(AGateType::AShiftR)
        } else if is_text(name, "ABoolOr") {
            Some(AGateType::ABoolOr)
        } else if is_text(name, "ABoolAnd") {
            Some(AGateType::ABoolAnd)
        } else if is_text(name, "ABitOr") {
            Some(AGateType::ABitOr)
        } else if is_text(name, "ABitAnd") {
            Some(AGateType::ABitAnd)
        } else {
            None
        }
    }

    /// The name of this type of gate.
    pub fn name(&self) -> (name: &'static str)
        ensures
            name@ == gate_type_name(*self),
    {
        match self {
            AGateType::AAdd => "AAdd",
            AGateType::ADiv => "ADiv",
            AGateType::AEq => "AEq",
            AGateType::AGEq => "AGEq",
            AGateType::AGt => "AGt",
            AGateType::ALEq => "ALEq",
            AGateType::ALt => "ALt",
            AGateType::AMul => "AMul",
            AGateType::ANeq => "ANeq",
            AGateType::ASub => "ASub",
            AGateType::AXor => "AXor",
            AGateType::APow => "APow",
            AGateType::AIntDiv => "AIntDiv",
            AGateType::AMod => "AMod",
            AGateType::AShiftL => "AShiftL",
            AGateType::AShiftR => "AShiftR",
            AGateType::ABoolOr => "ABoolOr",
            AGateType::ABoolAnd => "ABoolAnd",
            AGateType::ABitOr => "ABitOr",
            AGateType::ABitAnd => "ABitAnd",
        }
    }

    /// The name of this type of gate, as text of its own.
    pub fn to_string(&self) -> (name: String)
        ensures
            name@ == gate_type_name(*self),
    {
        self.name().to_owned()
    }
}

/// The first position from `from` on that holds a character that is no
/// white space, or the length of `text` where there is none.
pub open spec fn first_ink(text: Seq<char>, from: int) -> int
    decreases text.len() - from,
{
    if from < 0 || from >= text.len() {
        text.len() as int
    } else if !is_white_space(text[from]) {
        from
    } else {
        first_ink(text, from + 1)
    }
}

/// The first position from `from` on that holds a line feed, or the length
/// of `text` where there is none.
pub open spec fn line_end(text: Seq<char>, from: int) -> int
    decreases text.len() - from,
{
    if from < 0 || from >= text.len() {
        text.len() as int
    } else if text[from] == '\n' {
        from
    } else {
        line_end(text, from + 1)
    }
}

/// The words of the first line at or after `from` that has any, with the
/// position behind that line; `None` where only white space is left.
pub open spec fn next_line(text: Seq<char>, from: int) -> Option<(Seq<Seq<char>>, int)> {
    let start = first_ink(text, from);
    if start >= text.len() {
        None
    } else {
        let end = line_end(text, start);
        Some(
            (
                words(text.subrange(start, end)),
                if end < text.len() {
                    end + 1
                } else {
                    end
                },
            ),
        )
    }
}

/// Where the ink starts and where the line ends lies within the text.
pub proof fn lemma_line_bounds(text: Seq<char>, from: int)
    requires
        0 <= from <= text.len(),
    ensures
        from <= first_ink(text, from) <= text.len(),
        from <= line_end(text, from) <= text.len(),
        first_ink(text, from) < text.len() ==> !is_white_space(text[first_ink(text, from)]),
        forall|i: int| from <= i < first_ink(text, from) ==> is_white_space(#[trigger] text[i]),
        line_end(text, from) < text.len() ==> text[line_end(text, from)] == '\n',
    decreases text.len() - from,
{
    if from < text.len() {
        lemma_line_bounds(text, from + 1);
    }
}

/// A text and a position in it: what is read, and what is left to read.
pub struct TextReader {
    text: Vec<char>,
    position: usize,
}

impl TextReader {
    #[verifier::type_invariant]
    spec fn within_text(self) -> bool {
        self.position <= self.text@.len()
    }

    /// The whole text.
    pub closed spec fn text(&self) -> Seq<char> {
        self.text@
    }

    /// The position of the next character to read.
    pub closed spec fn position(&self) -> int {
        self.position as int
    }

    /// A reader at the start of `text`.
    pub fn new(text: &str) -> (reader: Self)
        ensures
            reader.text() == text@,
            reader.position() == 0,
    {
        TextReader { text: chars_of(text), position: 0 }
    }

    /// Moves the reader behind the last character.
    pub fn skip_to_end(&mut self)
        ensures
            final(self).text() == old(self).text(),
            final(self).position() == old(self).text().len(),
    {
        self.position = self.text.len();
    }

    /// Tells whether only white space is left to read.
    pub fn at_end(&self) -> (done: bool)
        ensures
            done == (first_ink(self.text(), self.position()) >= self.text().len()),
    {
        proof {
            use_type_invariant(self);
        }
        let mut i: usize = self.position;
        while i < self.text.len()
            invariant
                self.position <= i <= self.text@.len(),
                first_ink(self.text@, self.position as int) == first_ink(self.text@, i as int),
            decreases self.text@.len() - i,
        {
            if !is_whitespace(self.text[i]) {
                return false;
            }
            i += 1;
        }
        true
    }
}

/// What a reading function returns, with the message of its error as a
/// sequence of characters.
pub open spec fn said<T>(result: Result<T, String>) -> Result<T, Seq<char>> {
    match result {
        Ok(value) => Ok(value),
        Err(message) => Err(message@),
    }
}

/// The message for a text that ends where a line is due.
pub open spec fn end_message() -> Seq<char> {
    "Unexpected end of input"@
}

/// The message for a line that has no part `index`.
pub open spec fn bounds_message(index: nat) -> Seq<char> {
    "Index "@ + decimal_text(index) + " out of bounds"@
}

/// The message for a part `index` that does not read as what is due there.
pub open spec fn conversion_message(index: nat) -> Seq<char> {
    "Failed to convert at index "@ + decimal_text(index) + ""@
}

/// The message for a line that should have `count` parts.
pub open spec fn parts_message(count: nat) -> Seq<char> {
    "Expected "@ + decimal_text(count) + " parts"@
}

/// The message for a part `index` that should be a one.
pub open spec fn one_message(index: nat) -> Seq<char> {
    "Expected 1 at index "@ + decimal_text(index) + ""@
}

/// Part `index` of a line, as it stands.
pub open spec fn part_text(parts: Seq<Seq<char>>, index: nat) -> Result<Seq<char>, Seq<char>> {
    if index < parts.len() {
        Ok(parts[index as int])
    } else {
        Err(bounds_message(index))
    }
}

/// Part `index` of a line, read as a number.
pub open spec fn part_u32(parts: Seq<Seq<char>>, index: nat) -> Result<u32, Seq<char>> {
    if index < parts.len() {
        match parsed_u32(parts[index as int]) {
            Some(number) => Ok(number),
            None => Err(conversion_message(index)),
        }
    } else {
        Err(bounds_message(index))
    }
}

/// Part `index` of a line, read as a gate type.
pub open spec fn part_gate_type(parts: Seq<Seq<char>>, index: nat) -> Result<
    AGateType,
    Seq<char>,
> {
    if index < parts.len() {
        match gate_type_named(parts[index as int]) {
            Some(op) => Ok(op),
            None => Err(conversion_message(index)),
        }
    } else {
        Err(bounds_message(index))
    }
}

/// The number of gates and the number of wires that a line gives.
pub open spec fn sizes_of(parts: Seq<Seq<char>>) -> Result<(u32, u32), Seq<char>> {
    match part_u32(parts, 0) {
        Err(message) => Err(message),
        Ok(gates) => match part_u32(parts, 1) {
            Err(message) => Err(message),
            Ok(wires) => Ok((gates, wires)),
        },
    }
}

/// The first part from `from` on that is no one.
pub open spec fn first_not_one(parts: Seq<Seq<char>>, from: int) -> Option<int>
    decreases parts.len() - from,
{
    if from < 0 || from >= parts.len() {
        None
    } else if parts[from] != "1"@ {
        Some(from)
    } else {
        first_not_one(parts, from + 1)
    }
}

/// The number of inputs, or of outputs, that a line gives: the number at
/// its start, which as many ones follow.
pub open spec fn io_count_of(parts: Seq<Seq<char>>) -> Result<u32, Seq<char>> {
    match part_u32(parts, 0) {
        Err(message) => Err(message),
        Ok(count) => if parts.len() != count + 1 {
            Err(parts_message((count + 1) as nat))
        } else {
            match first_not_one(parts, 1) {
                Some(index) => Err(one_message(index as nat)),
                None => Ok(count),
            }
        },
    }
}

/// What a line says of a gate: two inputs and one output, the wires of the
/// left input, of the right input and of the output, and its gate type.
pub open spec fn gate_of(parts: Seq<Seq<char>>) -> Result<ArithmeticGate, Seq<char>> {
    if parts.len() != 6 {
        Err("Expected 6 parts"@)
    } else {
        match part_u32(parts, 0) {
            Err(message) => Err(message),
            Ok(inputs) => if inputs != 2 {
                Err("Expected 2 inputs and 1 output"@)
            } else {
                match part_u32(parts, 1) {
                    Err(message) => Err(message),
                    Ok(outputs) => if outputs != 1 {
                        Err("Expected 2 inputs and 1 output"@)
                    } else {
                        match part_u32(parts, 2) {
                            Err(message) => Err(message),
                            Ok(lh_in) => match part_u32(parts, 3) {
                                Err(message) => Err(message),
                                Ok(rh_in) => match part_u32(parts, 4) {
                                    Err(message) => Err(message),
                                    Ok(out) => match part_gate_type(parts, 5) {
                                        Err(message) => Err(message),
                                        Ok(op) => Ok(ArithmeticGate { op, lh_in, rh_in, out }),
                                    },
                                },
                            },
                        }
                    },
                }
            },
        }
    }
}

/// One line of a circuit's text, split into its parts.
pub struct BristolLine(Vec<Vec<char>>);

impl BristolLine {
    /// The parts of the line, from left to right.
    pub closed spec fn parts(&self) -> Seq<Seq<char>> {
        Seq::new(self.0@.len(), |k: int| self.0@[k]@)
    }

    /// Reads the next line that has any part, and leaves the reader behind
    /// it. Where only white space is left, there is no such line.
    pub fn read(r: &mut TextReader) -> (result: Result<Self, String>)
        ensures
            final(r).text() == old(r).text(),
            old(r).position() <= final(r).position() <= final(r).text().len(),
            match next_line(old(r).text(), old(r).position()) {
                Some((parts, next)) => {
                    &&& result matches Ok(line)
                    &&& line.parts() == parts
                    &&& final(r).position() == next
                },
                None => {
                    &&& result matches Err(message)
                    &&& message@ == end_message()
                    &&& final(r).position() == old(r).text().len()
                },
            },
    {
        proof {
            use_type_invariant(&*r);
            lemma_line_bounds(r.text@, r.position as int);
        }
        let length = r.text.len();
        let mut start: usize = r.position;
        while start < length && is_whitespace(r.text[start])
            invariant
                r.position <= start <= length,
                length == r.text@.len(),
                first_ink(r.text@, r.position as int) == first_ink(r.text@, start as int),
            decreases length - start,
        {
            start += 1;
        }
        if start == length {
            r.position = length;
            return Err("Unexpected end of input".to_owned());
        }
        let mut end: usize = start;
        while end < length && r.text[end] != '\n'
            invariant
                start <= end <= length,
                length == r.text@.len(),
                line_end(r.text@, start as int) == line_end(r.text@, end as int),
            decreases length - end,
        {
            end += 1;
        }
        let found = split_words(&r.text, start, end);
        r.position = if end < length {
            end + 1
        } else {
            end
        };
        let line = BristolLine(found);
        assert(line.parts() =~= words(r.text@.subrange(start as int, end as int)));
        Ok(line)
    }

    /// Reads the number of gates and the number of wires.
    pub fn circuit_sizes(&self) -> (result: Result<(u32, u32), String>)
        ensures
            said(result) == sizes_of(self.parts()),
    {
        let gates = match self.get(0) {
            Ok(gates) => gates,
            Err(message) => return Err(message),
        };
        let wires = match self.get(1) {
            Ok(wires) => wires,
            Err(message) => return Err(message),
        };
        Ok((gates, wires))
    }

    /// Reads the number of inputs, or of outputs.
    pub fn io_count(&self) -> (result: Result<u32, String>)
        ensures
            said(result) == io_count_of(self.parts()),
    {
        let count = match self.get(0) {
            Ok(count) => count,
            Err(message) => return Err(message),
        };
        if self.0.len() as u64 != count as u64 + 1 {
            return Err(numbered("Expected ", count as u64 + 1, " parts"));
        }
        let mut i: usize = 1;
        while i < self.0.len()
            invariant
                1 <= i <= self.0@.len(),
                part_u32(self.parts(), 0) == Ok::<u32, Seq<char>>(count),
                self.parts().len() == count + 1,
                first_not_one(self.parts(), 1) == first_not_one(self.parts(), i as int),
            decreases self.0@.len() - i,
        {
            assert(self.parts()[i as int] == self.0@[i as int]@);
            if !is_text(&self.0[i], "1") {
                return Err(numbered("Expected 1 at index ", i as u64, ""));
            }
            i += 1;
        }
        Ok(count)
    }

    /// Reads a gate.
    pub fn gate(&self) -> (result: Result<ArithmeticGate, String>)
        ensures
            said(result) == gate_of(self.parts()),
    {
        if self.0.len() != 6 {
            return Err("Expected 6 parts".to_owned());
        }
        let inputs = match self.get(0) {
            Ok(inputs) => inputs,
            Err(message) => return Err(message),
        };
        if inputs != 2 {
            return Err("Expected 2 inputs and 1 output".to_owned());
        }
        let outputs = match self.get(1) {
            Ok(outputs) => outputs,
            Err(message) => return Err(message),
        };
        if outputs != 1 {
            return Err("Expected 2 inputs and 1 output".to_owned());
        }
        let lh_in = match self.get(2) {
            Ok(wire) => wire,
            Err(message) => return Err(message),
        };
        let rh_in = match self.get(3) {
            Ok(wire) => wire,
            Err(message) => return Err(message),
        };
        let out = match self.get(4) {
            Ok(wire) => wire,
            Err(message) => return Err(message),
        };
        let op = match self.get_gate_type(5) {
            Ok(op) => op,
            Err(message) => return Err(message),
        };
        Ok(ArithmeticGate { op, lh_in, rh_in, out })
    }

    /// Reads part `index` as a number.
    pub fn get(&self, index: usize) -> (result: Result<u32, String>)
        ensures
            said(result) == part_u32(self.parts(), index as nat),
    {
        if index >= self.0.len() {
            return Err(numbered("Index ", index as u64, " out of bounds"));
        }
        match parse_u32(&self.0[index]) {
            Some(number) => Ok(number),
            None => Err(numbered("Failed to convert at index ", index as u64, "")),
        }
    }

    /// Reads part `index` as a gate type.
    pub fn get_gate_type(&self, index: usize) -> (result: Result<AGateType, String>)
        ensures
            said(result) == part_gate_type(self.parts(), index as nat),
    {
        if index >= self.0.len() {
            return Err(numbered("Index ", index as u64, " out of bounds"));
        }
        match AGateType::from_name(&self.0[index]) {
            Some(op) => Ok(op),
            None => Err(numbered("Failed to convert at index ", index as u64, "")),
        }
    }

    /// Part `index`, as it stands.
    pub fn get_str(&self, index: usize) -> (result: Result<String, String>)
        ensures
            match result {
                Ok(part) => Ok::<Seq<char>, Seq<char>>(part@),
                Err(message) => Err(message@),
            } == part_text(self.parts(), index as nat),
    {
        if index >= self.0.len() {
            return Err(numbered("Index ", index as u64, " out of bounds"));
        }
        Ok(text_of(&self.0[index]))
    }
}

/// The message for a circuit whose number of inputs is not that of its
/// names.
pub open spec fn input_mismatch_message() -> Seq<char> {
    "Input count mismatch"@
}

/// The message for a circuit whose number of outputs is not that of its
/// names.
pub open spec fn output_mismatch_message() -> Seq<char> {
    "Output count mismatch"@
}

/// The message for a text that goes on behind the last gate.
pub open spec fn trailing_message() -> Seq<char> {
    "Unexpected non-whitespace line after gates"@
}

/// Whether the next line gives the count `expected`, and the position
/// behind that line.
pub open spec fn counted(text: Seq<char>, from: int, expected: nat, mismatch: Seq<char>) -> (
    Result<(), Seq<char>>,
    int,
) {
    match next_line(text, from) {
        None => (Err(end_message()), text.len() as int),
        Some((parts, next)) => match io_count_of(parts) {
            Err(message) => (Err(message), next),
            Ok(count) => if count != expected {
                (Err(mismatch), next)
            } else {
                (Ok(()), next)
            },
        },
    }
}

/// The gates that the next `count` lines give, and the position behind the
/// last line that was read.
pub open spec fn gates_of(text: Seq<char>, from: int, count: nat) -> (
    Result<Seq<ArithmeticGate>, Seq<char>>,
    int,
)
    decreases count,
{
    if count == 0 {
        (Ok(Seq::empty()), from)
    } else {
        match gates_of(text, from, (count - 1) as nat) {
            (Err(message), position) => (Err(message), position),
            (Ok(gates), position) => match next_line(text, position) {
                None => (Err(end_message()), text.len() as int),
                Some((parts, next)) => match gate_of(parts) {
                    Err(message) => (Err(message), next),
                    Ok(gate) => (Ok(gates.push(gate)), next),
                },
            },
        }
    }
}

/// The circuit with `wire_count` wires and the gates that were read, where
/// only white space follows them; the reader then stands behind the text.
pub open spec fn closed_by(
    text: Seq<char>,
    wire_count: u32,
    read: (Result<Seq<ArithmeticGate>, Seq<char>>, int),
) -> (Result<(u32, Seq<ArithmeticGate>), Seq<char>>, int) {
    match read {
        (Err(message), position) => (Err(message), position),
        (Ok(gates), position) => if first_ink(text, position) < text.len() {
            (Err(trailing_message()), position)
        } else {
            (Ok((wire_count, gates)), text.len() as int)
        },
    }
}

/// The number of wires and the gates of the circuit that `text` describes
/// from `from` on, for a circuit with `inputs` named inputs and `outputs`
/// named outputs, and the position at which the reading stops: a line with
/// the number of gates and of wires, a line for the inputs, a line for the
/// outputs, a line for each gate, and then white space only. Lines without
/// a part count nowhere. Where a line is not as it should be, the reading
/// stops behind it.
pub open spec fn circuit_of(inputs: nat, outputs: nat, text: Seq<char>, from: int) -> (
    Result<(u32, Seq<ArithmeticGate>), Seq<char>>,
    int,
) {
    match next_line(text, from) {
        None => (Err(end_message()), text.len() as int),
        Some((parts, next)) => match sizes_of(parts) {
            Err(message) => (Err(message), next),
            Ok((gate_count, wire_count)) => match counted(
                text,
                next,
                inputs,
                input_mismatch_message(),
            ) {
                (Err(message), position) => (Err(message), position),
                (Ok(()), after_inputs) => match counted(
                    text,
                    after_inputs,
                    outputs,
                    output_mismatch_message(),
                ) {
                    (Err(message), position) => (Err(message), position),
                    (Ok(()), after_outputs) => closed_by(
                        text,
                        wire_count,
                        gates_of(text, after_outputs, gate_count as nat),
                    ),
                },
            },
        },
    }
}

/// `result` is the circuit with the names `info` that `expected` gives the
/// wires and gates of, or the error that `expected` is.
pub open spec fn describes(
    result: Result<ArithmeticCircuit, String>,
    info: CircuitInfo,
    expected: Result<(u32, Seq<ArithmeticGate>), Seq<char>>,
) -> bool {
    match result {
        Ok(circuit) => expected == Ok::<(u32, Seq<ArithmeticGate>), Seq<char>>(
            (circuit.wire_count, circuit.gates@),
        ) && circuit.info == info,
        Err(message) => expected == Err::<(u32, Seq<ArithmeticGate>), Seq<char>>(message@),
    }
}

impl ArithmeticCircuit {
    /// Reads the circuit that `input` describes: see `circuit_of`.
    pub fn from_info_and_bristol_string(info: CircuitInfo, input: &str) -> (result: Result<
        ArithmeticCircuit,
        String,
    >)
        ensures
            describes(
                result,
                info,
                circuit_of(
                    info.input_name_to_wire_index@.len(),
                    info.output_name_to_wire_index@.len(),
                    input@,
                    0,
                ).0,
            ),
    {
        let mut reader = TextReader::new(input);
        ArithmeticCircuit::read_info_and_bristol(info, &mut reader)
    }

    /// Reads the circuit that the rest of the reader's text describes, and
    /// leaves the reader where the reading stops: see `circuit_of`.
    pub fn read_info_and_bristol(info: CircuitInfo, r: &mut TextReader) -> (result: Result<
        ArithmeticCircuit,
        String,
    >)
        ensures
            describes(
                result,
                info,
                circuit_of(
                    info.input_name_to_wire_index@.len(),
                    info.output_name_to_wire_index@.len(),
                    old(r).text(),
                    old(r).position(),
                ).0,
            ),
            final(r).text() == old(r).text(),
            final(r).position() == circuit_of(
                info.input_name_to_wire_index@.len(),
                info.output_name_to_wire_index@.len(),
                old(r).text(),
                old(r).position(),
            ).1,
            old(r).position() <= final(r).position() <= final(r).text().len(),
    {
        let ghost text = r.text();
        let (gate_count, wire_count) = match BristolLine::read(r) {
            Err(message) => return Err(message),
            Ok(line) => match line.circuit_sizes() {
                Err(message) => return Err(message),
                Ok(sizes) => sizes,
            },
        };
        let input_count = match BristolLine::read(r) {
            Err(message) => return Err(message),
            Ok(line) => match line.io_count() {
                Err(message) => return Err(message),
                Ok(count) => count,
            },
        };
        if input_count as usize != info.input_name_to_wire_index.len() {
            return Err("Input count mismatch".to_owned());
        }
        let output_count = match BristolLine::read(r) {
            Err(message) => return Err(message),
            Ok(line) => match line.io_count() {
                Err(message) => return Err(message),
                Ok(count) => count,
            },
        };
        if output_count as usize != info.output_name_to_wire_index.len() {
            return Err("Output count mismatch".to_owned());
        }
        let ghost after_outputs = r.position();
        let ghost expected = circuit_of(
            info.input_name_to_wire_index@.len(),
            info.output_name_to_wire_index@.len(),
            text,
            old(r).position(),
        );
        let mut gates: Vec<ArithmeticGate> = Vec::new();
        let mut done: u32 = 0;
        while done < gate_count
            invariant
                done <= gate_count,
                r.text() == text,
                text == old(r).text(),
                expected == circuit_of(
                    info.input_name_to_wire_index@.len(),
                    info.output_name_to_wire_index@.len(),
                    text,
                    old(r).position(),
                ),
                expected == closed_by(
                    text,
                    wire_count,
                    gates_of(text, after_outputs, gate_count as nat),
                ),
                old(r).position() <= after_outputs <= r.position() <= text.len(),
                gates_of(text, after_outputs, done as nat) == (
                    Ok::<Seq<ArithmeticGate>, Seq<char>>(gates@),
                    r.position(),
                ),
            decreases gate_count - done,
        {
            let gate = match BristolLine::read(r) {
                Err(message) => {
                    proof {
                        lemma_gates_stop(text, after_outputs, done as nat + 1, gate_count as nat);
                    }
                    return Err(message);
                },
                Ok(line) => match line.gate() {
                    Err(message) => {
                        proof {
                            lemma_gates_stop(
                                text,
                                after_outputs,
                                done as nat + 1,
                                gate_count as nat,
                            );
                        }
                        return Err(message);
                    },
                    Ok(gate) => gate,
                },
            };
            gates.push(gate);
            done += 1;
        }
        if !r.at_end() {
            return Err("Unexpected non-whitespace line after gates".to_owned());
        }
        r.skip_to_end();
        Ok(ArithmeticCircuit { wire_count, info, gates })
    }
}

/// Once a gate could not be read, the lines after it are not looked at.
pub proof fn lemma_gates_stop(text: Seq<char>, from: int, failed: nat, count: nat)
    requires
        failed <= count,
        gates_of(text, from, failed).0 is Err,
    ensures
        gates_of(text, from, count) == gates_of(text, from, failed),
    decreases count,
{
    if failed < count {
        lemma_gates_stop(text, from, failed, (count - 1) as nat);
    }
}

} // verus!
