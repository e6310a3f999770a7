//! Reading netlists in the Bristol Fashion: plain text, one gate per line,
//! wires numbered from zero with the inputs of the parties first and the
//! outputs last.
use crate::utils::{Circuit, GateType};
use std::collections::BTreeMap;
use vstd::prelude::*;
use vstd::utf8::encode_utf8;

verus! {

/// One gate as a netlist file lists it: the wires it reads, the wire it
/// drives and its kind.
#[derive(Debug)]
pub struct Gate {
    pub inputs: Vec<u64>,
    pub output: u64,
    pub type_: GateType,
}

/// Why a text is not a netlist.
#[derive(Debug, PartialEq, Eq, Structural, Clone, Copy)]
pub enum ParseError {
    /// One of the three header lines or the blank line after them is missing,
    /// lacks a number, or the numbers do not fit each other.
    BadHeader,
    /// A line after the header is not a gate.
    BadGate,
    /// A port has another direction than `input` or `output`, or a bit that
    /// is no wire.
    BadPort,
    /// A cell has an unknown type, a connection without a direction or a
    /// direction without a connection, or drives no wire.
    BadCell,
}

/// Space, tab, line feed, vertical tab, form feed or carriage return.
pub open spec fn is_blank(b: u8) -> bool {
    b == 32 || (9 <= b <= 13)
}

/// The first place from `from` on at which a line ends.
pub open spec fn line_end(s: Seq<u8>, from: int) -> int
    decreases s.len() - from,
{
    if from < 0 || from >= s.len() || s[from] == 10 {
        from
    } else {
        line_end(s, from + 1)
    }
}

/// The lines of a text: what stands between line feeds. A line feed at the
/// very end starts no new line.
pub open spec fn lines(s: Seq<u8>) -> Seq<Seq<u8>>
    decreases s.len(),
{
    if s.len() == 0 {
        Seq::empty()
    } else {
        let n = line_end(s, 0);
        if 0 <= n < s.len() {
            seq![s.take(n)] + lines(s.skip(n + 1))
        } else {
            seq![s]
        }
    }
}

/// The first place from `from` on at which a word ends.
pub open spec fn word_end(s: Seq<u8>, from: int) -> int
    decreases s.len() - from,
{
    if from < 0 || from >= s.len() || is_blank(s[from]) {
        from
    } else {
        word_end(s, from + 1)
    }
}

/// The words of a line: its longest stretches without a blank.
pub open spec fn words(s: Seq<u8>) -> Seq<Seq<u8>>
    decreases s.len(),
{
    if s.len() == 0 {
        Seq::empty()
    } else if is_blank(s[0]) {
        words(s.skip(1))
    } else {
        let n = word_end(s, 0);
        if 0 < n < s.len() {
            seq![s.take(n)] + words(s.skip(n))
        } else {
            seq![s]
        }
    }
}

/// The number that decimal digits stand for, whatever its size.
pub open spec fn digits_value(s: Seq<u8>) -> nat
    decreases s.len(),
{
    if s.len() == 0 {
        0
    } else {
        digits_value(s.drop_last()) * 10 + (s.last() - 48) as nat
    }
}

/// Whether a word consists of decimal digits.
pub open spec fn all_digits(s: Seq<u8>) -> bool {
    forall|i: int| 0 <= i < s.len() ==> 48 <= #[trigger] s[i] <= 57
}

/// The number that a word stands for: a word of one or more decimal digits
/// whose value fits 64 bits.
pub open spec fn number(s: Seq<u8>) -> Option<u64> {
    if s.len() >= 1 && all_digits(s) && digits_value(s) <= u64::MAX {
        Some(digits_value(s) as u64)
    } else {
        None
    }
}

/// The kind that a word names.
pub open spec fn kind_named(s: Seq<u8>) -> Option<GateType> {
    if s == seq![65u8, 78, 68] {
        Some(GateType::AND)
    } else if s == seq![79u8, 82] {
        Some(GateType::OR)
    } else if s == seq![88u8, 79, 82] {
        Some(GateType::XOR)
    } else if s == seq![73u8, 78, 86] {
        Some(GateType::NOT)
    } else {
        None
    }
}

/// What the header says: the number of wires, of the first and of the
/// second party's input bits, and of output bits.
pub struct Header {
    pub wires: u64,
    pub first: u64,
    pub second: u64,
    pub outputs: u64,
}

/// The header of a netlist: the first line gives the number of gates and
/// of wires, the second the number of parties and of input bits of each of
/// two parties, the third the number of output values and of output bits;
/// the fourth line is there. The inputs and the outputs are wires.
pub open spec fn header_of(text: Seq<Seq<u8>>) -> Option<Header> {
    if text.len() < 4 {
        None
    } else {
        let sizes = words(text[0]);
        let ins = words(text[1]);
        let outs = words(text[2]);
        if sizes.len() >= 2 && ins.len() >= 3 && outs.len() >= 2 && number(sizes[0]) is Some
            && number(sizes[1]) is Some && number(ins[1]) is Some && number(ins[2]) is Some
            && number(outs[1]) is Some && number(ins[1])->0 + number(ins[2])->0 <= number(
            sizes[1],
        )->0 && number(outs[1])->0 <= number(sizes[1])->0 {
            Some(
                Header {
                    wires: number(sizes[1])->0,
                    first: number(ins[1])->0,
                    second: number(ins[2])->0,
                    outputs: number(outs[1])->0,
                },
            )
        } else {
            None
        }
    }
}

/// What a line lists as a gate: after the two counts come the wires it
/// reads, at most two, then the wire it drives and the name of its kind.
pub open spec fn gate_of(line: Seq<u8>) -> Option<(u64, (GateType, Seq<u64>))> {
    let parts = words(line);
    if parts.len() < 4 || parts.len() > 6 {
        None
    } else {
        let reads = parts.subrange(2, parts.len() - 2);
        if kind_named(parts.last()) is Some && number(parts[parts.len() - 2]) is Some && (forall|
            k: int,
        |
            0 <= k < reads.len() ==> number(#[trigger] reads[k]) is Some) {
            Some(
                (
                    number(parts[parts.len() - 2])->0,
                    (kind_named(parts.last())->0, Seq::new(reads.len(), |k: int| number(reads[k])->0)),
                ),
            )
        } else {
            None
        }
    }
}

/// A netlist as a map from wires to gates, with the wires that a gate reads
/// as a sequence.
pub type Plan = Map<u64, (GateType, Seq<u64>)>;

/// The first `n` wires as inputs.
pub open spec fn inputs_only(n: nat) -> Plan {
    Map::new(|w: u64| w < n, |w: u64| (GateType::INPUT, Seq::<u64>::empty()))
}

/// The netlist after the lines of gates: every line puts its gate on the wire it
/// drives, a later line over an earlier one. `None` if some line is no gate.
pub open spec fn with_gates(start: Plan, gate_lines: Seq<Seq<u8>>) -> Option<Plan>
    decreases gate_lines.len(),
{
    if gate_lines.len() == 0 {
        Some(start)
    } else {
        match with_gates(start, gate_lines.drop_last()) {
            None => None,
            Some(before) => match gate_of(gate_lines.last()) {
                None => None,
                Some(g) => Some(before.insert(g.0, g.1)),
            },
        }
    }
}

/// The view of a netlist in which the wires that a gate reads are a
/// sequence.
pub open spec fn plan_of(c: Map<u64, (GateType, Vec<u64>)>) -> Plan {
    Map::new(|w: u64| c.contains_key(w), |w: u64| (c[w].0, c[w].1@))
}

/// The wires from `from` up to, not including, `to`.
pub open spec fn wire_range(from: u64, to: u64) -> Seq<u64> {
    Seq::new(
        if to >= from {
            (to - from) as nat
        } else {
            0
        },
        |k: int| (from + k) as u64,
    )
}

/// Executable form of [`is_blank`].
fn blank(b: u8) -> (r: bool)
    ensures
        r == is_blank(b),
{
    b == 32 || (9 <= b && b <= 13)
}

/// A line ends at the first line feed, or with the text.
proof fn lemma_line_end(s: Seq<u8>, from: int, to: int)
    requires
        0 <= from <= to <= s.len(),
        forall|k: int| from <= k < to ==> s[k] != 10,
        to == s.len() || s[to] == 10,
    ensures
        line_end(s, from) == to,
    decreases to - from,
{
    if from < to {
        lemma_line_end(s, from + 1, to);
    }
}

/// A word ends at the first blank, or with the line.
proof fn lemma_word_end(s: Seq<u8>, from: int, to: int)
    requires
        0 <= from <= to <= s.len(),
        forall|k: int| from <= k < to ==> !is_blank(s[k]),
        to == s.len() || is_blank(s[to]),
    ensures
        word_end(s, from) == to,
    decreases to - from,
{
    if from < to {
        lemma_word_end(s, from + 1, to);
    }
}

/// A copy of the bytes from `from` up to, not including, `to`.
fn copy_range(s: &[u8], from: usize, to: usize) -> (r: Vec<u8>)
    requires
        from <= to <= s.len(),
    ensures
        r@ == s@.subrange(from as int, to as int),
{
    let mut r: Vec<u8> = Vec::new();
    let mut i: usize = from;
    while i < to
        invariant
            from <= i <= to <= s.len(),
            r@ == s@.subrange(from as int, i as int),
        decreases to - i,
    {
        r.push(s[i]);
        assert(s@.subrange(from as int, i as int + 1) =~= s@.subrange(from as int, i as int).push(
            s@[i as int],
        ));
        i += 1;
    }
    r
}

/// The views of a list of buffers.
pub open spec fn views(v: Seq<Vec<u8>>) -> Seq<Seq<u8>> {
    v.map_values(|b: Vec<u8>| b@)
}

/// Cuts a text into its lines.
pub fn split_lines(text: &[u8]) -> (r: Vec<Vec<u8>>)
    ensures
        views(r@) == lines(text@),
{
    let mut r: Vec<Vec<u8>> = Vec::new();
    let mut i: usize = 0;
    assert(text@.skip(0) =~= text@);
    assert(views(r@) =~= Seq::<Seq<u8>>::empty());
    while i < text.len()
        invariant
            i <= text.len(),
            lines(text@) == views(r@) + lines(text@.skip(i as int)),
        decreases text.len() - i,
    {
        let mut j: usize = i;
        while j < text.len() && text[j] != 10
            invariant
                i <= j <= text.len(),
                forall|k: int| i <= k < j ==> text@[k] != 10,
            decreases text.len() - j,
        {
            j += 1;
        }
        let line = copy_range(text, i, j);
        proof {
            let rest = text@.skip(i as int);
            lemma_line_end(rest, 0, j - i);
            assert(rest.take(j - i) =~= text@.subrange(i as int, j as int));
            if j < text.len() {
                assert(rest.skip(j - i + 1) =~= text@.skip(j as int + 1));
            } else {
                assert(rest =~= text@.subrange(i as int, j as int));
                assert(lines(text@.skip(text.len() as int)) =~= Seq::<Seq<u8>>::empty());
            }
            assert(views(r@.push(line)) =~= views(r@) + seq![line@]);
        }
        r.push(line);
        i = if j < text.len() {
            j + 1
        } else {
            j
        };
    }
    assert(lines(text@.skip(i as int)) =~= Seq::<Seq<u8>>::empty());
    r
}

/// Cuts a line into its words.
pub fn split_words(line: &[u8]) -> (r: Vec<Vec<u8>>)
    ensures
        views(r@) == words(line@),
{
    let mut r: Vec<Vec<u8>> = Vec::new();
    let mut i: usize = 0;
    assert(line@.skip(0) =~= line@);
    assert(views(r@) =~= Seq::<Seq<u8>>::empty());
    while i < line.len()
        invariant
            i <= line.len(),
            words(line@) == views(r@) + words(line@.skip(i as int)),
        decreases line.len() - i,
    {
        if blank(line[i]) {
            proof {
                assert(line@.skip(i as int).skip(1) =~= line@.skip(i as int + 1));
            }
            i += 1;
        } else {
            let mut j: usize = i;
            while j < line.len() && !blank(line[j])
                invariant
                    i <= j <= line.len(),
                    forall|k: int| i <= k < j ==> !is_blank(line@[k]),
                decreases line.len() - j,
            {
                j += 1;
            }
            let word = copy_range(line, i, j);
            proof {
                let rest = line@.skip(i as int);
                lemma_word_end(rest, 0, j - i);
                assert(rest.take(j - i) =~= line@.subrange(i as int, j as int));
                assert(rest.skip(j - i) =~= line@.skip(j as int));
                if j == line.len() {
                    assert(rest =~= line@.subrange(i as int, j as int));
                    assert(words(line@.skip(j as int)) =~= Seq::<Seq<u8>>::empty());
                }
                assert(views(r@.push(word)) =~= views(r@) + seq![word@]);
            }
            r.push(word);
            i = j;
        }
    }
    assert(words(line@.skip(i as int)) =~= Seq::<Seq<u8>>::empty());
    r
}

/// One more digit multiplies the value by ten and adds the digit.
proof fn lemma_digits_prefix(s: Seq<u8>, i: int)
    requires
        0 <= i < s.len(),
    ensures
        digits_value(s.take(i + 1)) == digits_value(s.take(i)) * 10 + (s[i] - 48) as nat,
{
    assert(s.take(i + 1).drop_last() =~= s.take(i));
}

/// The first digits of a word stand for no more than all of them.
proof fn lemma_digits_grow(s: Seq<u8>, i: int)
    requires
        0 <= i <= s.len(),
        all_digits(s),
    ensures
        digits_value(s.take(i)) <= digits_value(s),
    decreases s.len() - i,
{
    if i < s.len() {
        lemma_digits_prefix(s, i);
        lemma_digits_grow(s, i + 1);
        assert(digits_value(s.take(i)) <= digits_value(s.take(i + 1))) by (nonlinear_arith)
            requires
                digits_value(s.take(i + 1)) == digits_value(s.take(i)) * 10 + (s[i] - 48) as nat,
                s[i] >= 48,
        ;
    } else {
        assert(s.take(i) =~= s);
    }
}

/// Reads a word as a decimal number.
pub fn parse_number(word: &[u8]) -> (r: Option<u64>)
    ensures
        r == number(word@),
{
    if word.len() == 0 {
        return None;
    }
    let mut value: u64 = 0;
    let mut i: usize = 0;
    assert(word@.take(0) =~= Seq::<u8>::empty());
    while i < word.len()
        invariant
            i <= word.len(),
            all_digits(word@.take(i as int)),
            value == digits_value(word@.take(i as int)),
        decreases word.len() - i,
    {
        let b: u8 = word[i];
        if b < 48 || b > 57 {
            assert(!all_digits(word@));
            return None;
        }
        proof {
            lemma_digits_prefix(word@, i as int);
            assert(all_digits(word@.take(i as int + 1))) by {
                assert forall|k: int| 0 <= k < i + 1 implies 48 <= #[trigger] word@.take(
                    i as int + 1,
                )[k] <= 57 by {
                    if k < i {
                        assert(word@.take(i as int)[k] == word@[k]);
                    }
                }
            }
        }
        let next = match value.checked_mul(10) {
            Some(v) => v.checked_add((b - 48) as u64),
            None => None,
        };
        match next {
            Some(v) => {
                value = v;
            },
            None => {
                return overflow(word, i);
            },
        }
        i += 1;
    }
    assert(word@.take(i as int) =~= word@);
    Some(value)
}

/// What a word is whose digits up to place `at` are already too large:
/// no number, whether or not digits follow.
fn overflow(word: &[u8], at: usize) -> (r: Option<u64>)
    requires
        at < word.len(),
        all_digits(word@.take(at as int + 1)),
        digits_value(word@.take(at as int + 1)) > u64::MAX,
    ensures
        r == number(word@),
        r is None,
{
    proof {
        if all_digits(word@) {
            lemma_digits_grow(word@, at as int + 1);
        }
    }
    None
}

/// Reads the name of a kind: `AND`, `OR`, `XOR` or `INV`.
pub fn kind_from_name(word: &[u8]) -> (r: Option<GateType>)
    ensures
        r == kind_named(word@),
{
    if word.len() == 3 && word[0] == 65 && word[1] == 78 && word[2] == 68 {
        assert(word@ =~= seq![65u8, 78, 68]);
        Some(GateType::AND)
    } else if word.len() == 2 && word[0] == 79 && word[1] == 82 {
        assert(word@ =~= seq![79u8, 82]);
        Some(GateType::OR)
    } else if word.len() == 3 && word[0] == 88 && word[1] == 79 && word[2] == 82 {
        assert(word@ =~= seq![88u8, 79, 82]);
        Some(GateType::XOR)
    } else if word.len() == 3 && word[0] == 73 && word[1] == 78 && word[2] == 86 {
        assert(word@ =~= seq![73u8, 78, 86]);
        Some(GateType::NOT)
    } else {
        assert(word@ != seq![65u8, 78, 68]) by {
            if word@ == seq![65u8, 78, 68] {
                assert(word@.len() == 3 && word@[0] == 65 && word@[1] == 78 && word@[2] == 68);
            }
        }
        assert(word@ != seq![79u8, 82]) by {
            if word@ == seq![79u8, 82] {
                assert(word@.len() == 2 && word@[0] == 79 && word@[1] == 82);
            }
        }
        assert(word@ != seq![88u8, 79, 82]) by {
            if word@ == seq![88u8, 79, 82] {
                assert(word@.len() == 3 && word@[0] == 88 && word@[1] == 79 && word@[2] == 82);
            }
        }
        assert(word@ != seq![73u8, 78, 86]) by {
            if word@ == seq![73u8, 78, 86] {
                assert(word@.len() == 3 && word@[0] == 73 && word@[1] == 78 && word@[2] == 86);
            }
        }
        None
    }
}

/// Reads one gate line.
pub fn parse_gate(line: &[u8]) -> (r: Option<Gate>)
    ensures
        match r {
            Some(g) => gate_of(line@) == Some((g.output, (g.type_, g.inputs@))),
            None => gate_of(line@) is None,
        },
{
    let parts = split_words(line);
    let n: usize = parts.len();
    if n < 4 || n > 6 {
        return None;
    }
    assert(views(parts@)[n - 1] == parts@[n - 1]@);
    assert(views(parts@)[n - 2] == parts@[n - 2]@);
    let type_ = match kind_from_name(parts[n - 1].as_slice()) {
        Some(kind) => kind,
        None => {
            return None;
        },
    };
    let ghost reads = words(line@).subrange(2, n - 2);
    let mut inputs: Vec<u64> = Vec::new();
    let mut k: usize = 2;
    while k < n - 2
        invariant
            2 <= k <= n - 2,
            n == parts.len(),
            4 <= n <= 6,
            views(parts@) == words(line@),
            reads == words(line@).subrange(2, n - 2),
            inputs.len() == k - 2,
            forall|j: int|
                0 <= j < k - 2 ==> number(#[trigger] reads[j]) == Some(inputs@[j]),
        decreases n - k,
    {
        assert(views(parts@)[k as int] == parts@[k as int]@);
        assert(reads[k - 2] == words(line@)[k as int]);
        match parse_number(parts[k].as_slice()) {
            Some(w) => {
                inputs.push(w);
            },
            None => {
                return None;
            },
        }
        k += 1;
    }
    let output = match parse_number(parts[n - 2].as_slice()) {
        Some(w) => w,
        None => {
            return None;
        },
    };
    assert(inputs@ =~= Seq::new(reads.len(), |k: int| number(reads[k])->0));
    Some(Gate { inputs, output, type_ })
}

/// The wires from `from` up to, not including, `to`.
fn wires_between(from: u64, to: u64) -> (r: Vec<u64>)
    ensures
        r@ == wire_range(from, to),
{
    let mut r: Vec<u64> = Vec::new();
    let mut w: u64 = from;
    while w < to
        invariant
            from <= w <= to || (w == from && to < from),
            r@.len() == w - from,
            forall|k: int| 0 <= k < r@.len() ==> r@[k] == from + k,
        decreases to - w,
    {
        r.push(w);
        w += 1;
    }
    assert(r@ =~= wire_range(from, to));
    r
}

/// Reads a netlist in the Bristol Fashion. The text has three header lines
/// and a blank line, then one gate per line: the numbers of wires it reads
/// and drives, those wires, and `AND`, `OR`, `XOR` or `INV`. The first party
/// `a` has the first wires as its input bits, the second party `b` the
/// next; the last wires are the output bits `out`.
///
/// Fails with `BadHeader` exactly when the header is not as described, and
/// otherwise with `BadGate` exactly when a line after it is no gate.
pub fn parse_bristol_fashion(input: &str) -> (r: Result<
    (Circuit, Vec<(String, Vec<u64>)>, Vec<(String, Vec<u64>)>),
    ParseError,
>)
    ensures
        match r {
            Ok(parsed) => {
                let text = lines(encode_utf8(input@));
                &&& header_of(text) matches Some(h)
                &&& with_gates(inputs_only((h.first + h.second) as nat), text.skip(4)) == Some(
                    plan_of(parsed.0@),
                )
                &&& parsed.1@.len() == 2
                &&& parsed.1@[0].0@ == "a"@
                &&& parsed.1@[0].1@ == wire_range(0, h.first)
                &&& parsed.1@[1].0@ == "b"@
                &&& parsed.1@[1].1@ == wire_range(h.first, (h.first + h.second) as u64)
                &&& parsed.2@.len() == 1
                &&& parsed.2@[0].0@ == "out"@
                &&& parsed.2@[0].1@ == wire_range((h.wires - h.outputs) as u64, h.wires)
            },
            Err(e) => match e {
                ParseError::BadHeader => header_of(lines(encode_utf8(input@))) is None,
                ParseError::BadGate => {
                    let text = lines(encode_utf8(input@));
                    &&& header_of(text) matches Some(h)
                    &&& with_gates(inputs_only((h.first + h.second) as nat), text.skip(4)) is None
                },
                _ => false,
            },
        },
{
    broadcast use vstd::std_specs::btree::group_btree_axioms;

    let text = split_lines(input.as_bytes());
    let ghost all = lines(encode_utf8(input@));
    if text.len() < 4 {
        return Err(ParseError::BadHeader);
    }
    assert(views(text@)[0] == text@[0]@ && views(text@)[1] == text@[1]@ && views(text@)[2]
        == text@[2]@);
    let sizes = split_words(text[0].as_slice());
    let ins = split_words(text[1].as_slice());
    let outs = split_words(text[2].as_slice());
    if sizes.len() < 2 || ins.len() < 3 || outs.len() < 2 {
        return Err(ParseError::BadHeader);
    }
    assert(views(sizes@)[0] == sizes@[0]@ && views(sizes@)[1] == sizes@[1]@);
    assert(views(ins@)[1] == ins@[1]@ && views(ins@)[2] == ins@[2]@);
    assert(views(outs@)[1] == outs@[1]@);
    let numbers = (
        parse_number(sizes[0].as_slice()),
        parse_number(sizes[1].as_slice()),
        parse_number(ins[1].as_slice()),
        parse_number(ins[2].as_slice()),
        parse_number(outs[1].as_slice()),
    );
    let (total_wires, first, second, out_bits) = match numbers {
        (Some(_), Some(w), Some(a), Some(b), Some(o)) => (w, a, b, o),
        _ => {
            return Err(ParseError::BadHeader);
        },
    };
    if first > total_wires || second > total_wires - first || out_bits > total_wires {
        return Err(ParseError::BadHeader);
    }
    let mut circuit: Circuit = BTreeMap::new();
    let mut w: u64 = 0;
    assert(plan_of(circuit@) =~= inputs_only(0));
    while w < first + second
        invariant
            w <= first + second <= u64::MAX,
            plan_of(circuit@) == inputs_only(w as nat),
        decreases first + second - w,
    {
        let ghost before = circuit@;
        circuit.insert(w, (GateType::INPUT, Vec::new()));
        proof {
            assert(plan_of(circuit@) =~= inputs_only((w + 1) as nat)) by {
                assert forall|x: u64| plan_of(circuit@).contains_key(x) implies plan_of(
                    circuit@,
                )[x] == inputs_only((w + 1) as nat)[x] by {
                    if x != w {
                        assert(plan_of(before).contains_key(x));
                        assert(plan_of(before)[x] == inputs_only(w as nat)[x]);
                    } else {
                        assert(circuit@[x].1@ =~= Seq::<u64>::empty());
                    }
                }
                assert forall|x: u64| plan_of(circuit@).contains_key(x) <==> inputs_only(
                    (w + 1) as nat,
                ).contains_key(x) by {
                    if x != w {
                        assert(plan_of(before).contains_key(x) <==> inputs_only(
                            w as nat,
                        ).contains_key(x));
                    }
                }
            }
        }
        w += 1;
    }
    let a_inputs = wires_between(0, first);
    let b_inputs = wires_between(first, first + second);
    let output_wires = wires_between(total_wires - out_bits, total_wires);
    let ghost start = inputs_only((first + second) as nat);
    let ghost gate_lines = all.skip(4);
    let mut i: usize = 4;
    assert(gate_lines.take(0) =~= Seq::<Seq<u8>>::empty());
    while i < text.len()
        invariant
            4 <= i <= text.len(),
            views(text@) == all,
            all == lines(encode_utf8(input@)),
            gate_lines == all.skip(4),
            header_of(all) is Some,
            header_of(all)->0.first == first,
            header_of(all)->0.second == second,
            start == inputs_only((first + second) as nat),
            with_gates(start, gate_lines.take(i - 4)) == Some(plan_of(circuit@)),
        decreases text.len() - i,
    {
        assert(views(text@)[i as int] == text@[i as int]@);
        let ghost done = gate_lines.take(i - 4);
        let ghost more = gate_lines.take(i - 4 + 1);
        proof {
            assert(more.drop_last() =~= done);
            assert(more.last() == all[i as int]);
        }
        match parse_gate(text[i].as_slice()) {
            None => {
                proof {
                    lemma_bad_line(start, gate_lines, i - 4);
                }
                return Err(ParseError::BadGate);
            },
            Some(gate) => {
                let ghost before = circuit@;
                circuit.insert(gate.output, (gate.type_, gate.inputs));
                proof {
                    assert(plan_of(circuit@) =~= plan_of(before).insert(
                        gate.output,
                        (gate.type_, gate.inputs@),
                    ));
                }
            },
        }
        i += 1;
    }
    proof {
        assert(gate_lines.take(i - 4) =~= gate_lines);
    }
    let mut circuit_inputs: Vec<(String, Vec<u64>)> = Vec::new();
    circuit_inputs.push(("a".to_owned(), a_inputs));
    circuit_inputs.push(("b".to_owned(), b_inputs));
    let mut circuit_outputs: Vec<(String, Vec<u64>)> = Vec::new();
    circuit_outputs.push(("out".to_owned(), output_wires));
    Ok((circuit, circuit_inputs, circuit_outputs))
}

/// A line that is no gate spoils everything after it.
proof fn lemma_bad_line(start: Plan, gate_lines: Seq<Seq<u8>>, at: int)
    requires
        0 <= at < gate_lines.len(),
        gate_of(gate_lines[at]) is None,
    ensures
        with_gates(start, gate_lines) is None,
    decreases gate_lines.len(),
{
    if at < gate_lines.len() - 1 {
        lemma_bad_line(start, gate_lines.drop_last(), at);
    }
}

} // verus!
