//! Netlists as the Yosys synthesis tool writes them: modules with ports
//! and cells. The values here are what a reader of the JSON file hands over;
//! the netlist is assembled from them.
use crate::parser::{plan_of, Gate, ParseError, Plan};
use crate::utils::{cell_kind, Circuit, GateType};
use std::collections::BTreeMap;
use vstd::prelude::*;

verus! {

/// A port of a module: its direction and the wires of its bits.
#[derive(Debug)]
pub struct YosysPort {
    pub direction: String,
    pub bits: Vec<i32>,
}

/// A cell of a module: its type, and for each of its pins a direction and
/// the wires connected to it, both listed by the name of the pin.
#[derive(Debug)]
pub struct YosysCell {
    pub type_: String,
    pub port_directions: Vec<(String, String)>,
    pub connections: Vec<(String, Vec<i32>)>,
}

/// A module: its ports and its cells, each list in the order of the names.
#[derive(Debug)]
pub struct YosysModule {
    pub ports: Vec<(String, YosysPort)>,
    pub cells: Vec<(String, YosysCell)>,
}

/// The place of the first entry from `from` on that has the name, or the
/// length of the list if there is none.
pub open spec fn named_at<V>(list: Seq<(String, V)>, name: Seq<char>, from: int) -> int
    decreases list.len() - from,
{
    if from < 0 || from >= list.len() || list[from].0@ == name {
        from
    } else {
        named_at(list, name, from + 1)
    }
}

/// Finds the first entry with a name.
pub fn find_named<V>(list: &Vec<(String, V)>, name: &String) -> (r: usize)
    ensures
        r == named_at(list@, name@, 0),
        r <= list.len(),
        r < list.len() ==> list[r as int].0@ == name@,
{
    let mut i: usize = 0;
    while i < list.len() && list[i].0 != *name
        invariant
            i <= list.len(),
            named_at(list@, name@, 0) == named_at(list@, name@, i as int),
        decreases list.len() - i,
    {
        i += 1;
    }
    i
}

/// The parties after one more wire for the party `name`: the wire is added
/// to the party's list, and a party that is not there yet comes last.
pub open spec fn with_wire(parties: Seq<(String, Vec<u64>)>, name: Seq<char>, wire: u64) -> Seq<
    (Seq<char>, Seq<u64>),
> {
    let at = named_at(parties, name, 0);
    if at < parties.len() {
        Seq::new(
            parties.len(),
            |j: int|
                if j == at {
                    (parties[j].0@, parties[j].1@.push(wire))
                } else {
                    (parties[j].0@, parties[j].1@)
                },
        )
    } else {
        Seq::new(
            parties.len() + 1,
            |j: int|
                if j < parties.len() {
                    (parties[j].0@, parties[j].1@)
                } else {
                    (name, seq![wire])
                },
        )
    }
}

/// The parties as names and lists of wires.
pub open spec fn party_view(parties: Seq<(String, Vec<u64>)>) -> Seq<(Seq<char>, Seq<u64>)> {
    Seq::new(parties.len(), |j: int| (parties[j].0@, parties[j].1@))
}

/// Adds the wire of one bit of a port to the party of that name.
pub fn handle_port_direction(port_name: &String, wire: u64, map: &mut Vec<(String, Vec<u64>)>)
    ensures
        party_view(final(map)@) == with_wire(old(map)@, port_name@, wire),
{
    let at = find_named(map, port_name);
    let ghost before = map@;
    if at < map.len() {
        let (name, mut wires) = map.remove(at);
        wires.push(wire);
        map.insert(at, (name, wires));
        assert(party_view(map@) =~= with_wire(before, port_name@, wire));
    } else {
        let mut wires: Vec<u64> = Vec::new();
        wires.push(wire);
        map.push((port_name.clone(), wires));
        assert(party_view(map@) =~= with_wire(before, port_name@, wire));
    }
}

/// What connection `k` of a cell is: the wire of its first bit, as an input
/// (`true`) or as the output (`false`) of the cell. Nothing if the pin has no
/// direction, no bit, a bit that is no wire, or a direction that is neither
/// `input` nor `output`.
pub open spec fn pin(cell: YosysCell, k: int) -> Option<(bool, u64)> {
    let name = cell.connections@[k].0@;
    let bits = cell.connections@[k].1@;
    let at = named_at(cell.port_directions@, name, 0);
    if at >= cell.port_directions@.len() || bits.len() == 0 || bits[0] < 0 {
        None
    } else if cell.port_directions@[at].1@ == "input"@ {
        Some((true, bits[0] as u64))
    } else if cell.port_directions@[at].1@ == "output"@ {
        Some((false, bits[0] as u64))
    } else {
        None
    }
}

/// The wires that the first `upto` connections of a cell read, in order.
pub open spec fn cell_inputs(cell: YosysCell, upto: int) -> Seq<u64>
    decreases upto,
{
    if upto <= 0 {
        Seq::empty()
    } else {
        match pin(cell, upto - 1) {
            Some((true, w)) => cell_inputs(cell, upto - 1).push(w),
            _ => cell_inputs(cell, upto - 1),
        }
    }
}

/// The wire that the first `upto` connections of a cell drive: that of the
/// last output among them.
pub open spec fn cell_output(cell: YosysCell, upto: int) -> Option<u64>
    decreases upto,
{
    if upto <= 0 {
        None
    } else {
        match pin(cell, upto - 1) {
            Some((false, w)) => Some(w),
            _ => cell_output(cell, upto - 1),
        }
    }
}

/// The cell is a gate: its type names a kind, every connection is a pin,
/// every direction belongs to a connection, and it drives a wire.
pub open spec fn cell_ok(cell: YosysCell) -> bool {
    &&& cell_kind(cell.type_@) is Some
    &&& forall|k: int| 0 <= k < cell.connections@.len() ==> (#[trigger] pin(cell, k)) is Some
    &&& forall|d: int|
        0 <= d < cell.port_directions@.len() ==> named_at(
            cell.connections@,
            #[trigger] cell.port_directions@[d].0@,
            0,
        ) < cell.connections@.len()
    &&& cell_output(cell, cell.connections@.len() as int) is Some
}

/// Makes a gate of a cell: it reads the wires of its input pins, in the
/// order of the connections, and drives the wire of its output pin. Fails
/// with `BadCell` exactly when the cell is no gate.
pub fn build_gate(cell: &YosysCell) -> (r: Result<Gate, ParseError>)
    ensures
        match r {
            Ok(g) => {
                &&& cell_ok(*cell)
                &&& g.inputs@ == cell_inputs(*cell, cell.connections@.len() as int)
                &&& Some(g.output) == cell_output(*cell, cell.connections@.len() as int)
                &&& Some(g.type_) == cell_kind(cell.type_@)
            },
            Err(e) => e == ParseError::BadCell && !cell_ok(*cell),
        },
{
    let type_ = match GateType::from_name(cell.type_.as_str()) {
        Some(kind) => kind,
        None => {
            return Err(ParseError::BadCell);
        },
    };
    let input_word = "input".to_owned();
    let output_word = "output".to_owned();
    let mut gate_in: Vec<u64> = Vec::new();
    let mut gate_out: Option<u64> = None;
    let mut k: usize = 0;
    while k < cell.connections.len()
        invariant
            k <= cell.connections.len(),
            input_word@ == "input"@,
            output_word@ == "output"@,
            forall|j: int| 0 <= j < k ==> (#[trigger] pin(*cell, j)) is Some,
            gate_in@ == cell_inputs(*cell, k as int),
            gate_out == cell_output(*cell, k as int),
        decreases cell.connections.len() - k,
    {
        let name = &cell.connections[k].0;
        let bits = &cell.connections[k].1;
        let at = find_named(&cell.port_directions, name);
        if at >= cell.port_directions.len() || bits.len() == 0 || bits[0] < 0 {
            assert(pin(*cell, k as int) is None);
            return Err(ParseError::BadCell);
        }
        let wire: u64 = bits[0] as u64;
        let dir = &cell.port_directions[at].1;
        if *dir == input_word {
            gate_in.push(wire);
        } else if *dir == output_word {
            gate_out = Some(wire);
        } else {
            assert(pin(*cell, k as int) is None);
            return Err(ParseError::BadCell);
        }
        k += 1;
    }
    let mut d: usize = 0;
    while d < cell.port_directions.len()
        invariant
            d <= cell.port_directions.len(),
            forall|j: int|
                0 <= j < d ==> named_at(
                    cell.connections@,
                    #[trigger] cell.port_directions@[j].0@,
                    0,
                ) < cell.connections@.len(),
        decreases cell.port_directions.len() - d,
    {
        if find_named(&cell.connections, &cell.port_directions[d].0) >= cell.connections.len() {
            return Err(ParseError::BadCell);
        }
        d += 1;
    }
    match gate_out {
        Some(output) => Ok(Gate { inputs: gate_in, output, type_ }),
        None => Err(ParseError::BadCell),
    }
}

/// What has been read of a file: the netlist and the wires of the input and
/// of the output ports, by the name of the port.
pub struct Reading {
    pub plan: Plan,
    pub inputs: Seq<(Seq<char>, Seq<u64>)>,
    pub outputs: Seq<(Seq<char>, Seq<u64>)>,
}

/// The parties after one more wire, over names and lists of wires.
pub open spec fn add_wire(parties: Seq<(Seq<char>, Seq<u64>)>, name: Seq<char>, wire: u64) -> Seq<
    (Seq<char>, Seq<u64>),
> {
    if exists|j: int| 0 <= j < parties.len() && parties[j].0 == name {
        let at = choose|j: int|
            0 <= j < parties.len() && parties[j].0 == name && forall|i: int|
                0 <= i < j ==> parties[i].0 != name;
        parties.update(at, (name, parties[at].1.push(wire)))
    } else {
        parties.push((name, seq![wire]))
    }
}

/// The reading after the first `upto` bits of a port: each bit is a wire
/// of the party that has the port's name, among the inputs or the outputs
/// as the port's direction says, and an input wire of the netlist until a
/// cell drives it.
pub open spec fn after_bits(start: Reading, name: Seq<char>, port: YosysPort, upto: int) -> Result<
    Reading,
    ParseError,
>
    decreases upto,
{
    if upto <= 0 {
        Ok(start)
    } else {
        match after_bits(start, name, port, upto - 1) {
            Err(e) => Err(e),
            Ok(r) => {
                let bit = port.bits@[upto - 1];
                if bit < 0 {
                    Err(ParseError::BadPort)
                } else if port.direction@ == "input"@ {
                    Ok(
                        Reading {
                            plan: r.plan.insert(bit as u64, (GateType::INPUT, Seq::empty())),
                            inputs: add_wire(r.inputs, name, bit as u64),
                            outputs: r.outputs,
                        },
                    )
                } else if port.direction@ == "output"@ {
                    Ok(
                        Reading {
                            plan: r.plan.insert(bit as u64, (GateType::INPUT, Seq::empty())),
                            inputs: r.inputs,
                            outputs: add_wire(r.outputs, name, bit as u64),
                        },
                    )
                } else {
                    Err(ParseError::BadPort)
                }
            },
        }
    }
}

/// The reading after the first `upto` ports.
pub open spec fn after_ports(start: Reading, ports: Seq<(String, YosysPort)>, upto: int) -> Result<
    Reading,
    ParseError,
>
    decreases upto,
{
    if upto <= 0 {
        Ok(start)
    } else {
        match after_ports(start, ports, upto - 1) {
            Err(e) => Err(e),
            Ok(r) => after_bits(
                r,
                ports[upto - 1].0@,
                ports[upto - 1].1,
                ports[upto - 1].1.bits@.len() as int,
            ),
        }
    }
}

/// The reading after the first `upto` cells: each is a gate on the wire it
/// drives, a later cell over an earlier one.
pub open spec fn after_cells(start: Reading, cells: Seq<(String, YosysCell)>, upto: int) -> Result<
    Reading,
    ParseError,
>
    decreases upto,
{
    if upto <= 0 {
        Ok(start)
    } else {
        match after_cells(start, cells, upto - 1) {
            Err(e) => Err(e),
            Ok(r) => {
                let cell = cells[upto - 1].1;
                if cell_ok(cell) {
                    Ok(
                        Reading {
                            plan: r.plan.insert(
                                cell_output(cell, cell.connections@.len() as int)->0,
                                (
                                    cell_kind(cell.type_@)->0,
                                    cell_inputs(cell, cell.connections@.len() as int),
                                ),
                            ),
                            inputs: r.inputs,
                            outputs: r.outputs,
                        },
                    )
                } else {
                    Err(ParseError::BadCell)
                }
            },
        }
    }
}

/// The reading after the first `upto` modules: of each module first the
/// ports, then the cells.
pub open spec fn after_modules(start: Reading, modules: Seq<(String, YosysModule)>, upto: int) -> Result<
    Reading,
    ParseError,
>
    decreases upto,
{
    if upto <= 0 {
        Ok(start)
    } else {
        match after_modules(start, modules, upto - 1) {
            Err(e) => Err(e),
            Ok(r) => match after_ports(
                r,
                modules[upto - 1].1.ports@,
                modules[upto - 1].1.ports@.len() as int,
            ) {
                Err(e) => Err(e),
                Ok(p) => after_cells(
                    p,
                    modules[upto - 1].1.cells@,
                    modules[upto - 1].1.cells@.len() as int,
                ),
            },
        }
    }
}

/// An empty reading.
pub open spec fn nothing_read() -> Reading {
    Reading { plan: Map::empty(), inputs: Seq::empty(), outputs: Seq::empty() }
}

/// Adding a wire to the parties is adding it to their names and lists.
proof fn lemma_with_wire(parties: Seq<(String, Vec<u64>)>, name: Seq<char>, wire: u64)
    ensures
        with_wire(parties, name, wire) == add_wire(party_view(parties), name, wire),
{
    let view = party_view(parties);
    let at = named_at(parties, name, 0);
    lemma_named_at(parties, name, 0);
    if at < parties.len() {
        assert(view[at].0 == name);
        let pick = choose|j: int|
            0 <= j < view.len() && view[j].0 == name && forall|i: int|
                0 <= i < j ==> view[i].0 != name;
        assert(pick == at) by {
            if pick < at {
                assert(parties[pick].0@ != name);
            }
            if at < pick {
                assert(view[at].0 != name);
            }
        }
        assert(with_wire(parties, name, wire) =~= add_wire(view, name, wire));
    } else {
        assert(!exists|j: int| 0 <= j < view.len() && view[j].0 == name) by {
            if exists|j: int| 0 <= j < view.len() && view[j].0 == name {
                let j = choose|j: int| 0 <= j < view.len() && view[j].0 == name;
                assert(parties[j].0@ != name);
            }
        }
        assert(with_wire(parties, name, wire) =~= add_wire(view, name, wire));
    }
}

/// The first entry with a name has the name, and none before it has.
proof fn lemma_named_at<V>(list: Seq<(String, V)>, name: Seq<char>, from: int)
    requires
        0 <= from <= list.len(),
    ensures
        from <= named_at(list, name, from) <= list.len(),
        named_at(list, name, from) < list.len() ==> list[named_at(list, name, from)].0@ == name,
        forall|j: int| from <= j < named_at(list, name, from) ==> (#[trigger] list[j]).0@ != name,
    decreases list.len() - from,
{
    if from < list.len() && list[from].0@ != name {
        lemma_named_at(list, name, from + 1);
    }
}

/// What a reading says of the netlist and the parties read so far.
pub open spec fn reads_as(
    r: Reading,
    circuit: Map<u64, (GateType, Vec<u64>)>,
    inputs: Seq<(String, Vec<u64>)>,
    outputs: Seq<(String, Vec<u64>)>,
) -> bool {
    r.plan == plan_of(circuit) && r.inputs == party_view(inputs) && r.outputs == party_view(outputs)
}

/// Assembles the netlist of the modules of a file. Every bit of a port is
/// an input wire of the netlist, listed under the name of its port among the
/// inputs or the outputs; every cell is a gate on the wire it drives.
///
/// Fails at the first port or cell that is not as it should be, with
/// `BadPort` or `BadCell`, and exactly when there is one.
pub fn parse_yosys_modules(modules: &Vec<(String, YosysModule)>) -> (r: Result<
    (Circuit, Vec<(String, Vec<u64>)>, Vec<(String, Vec<u64>)>),
    ParseError,
>)
    ensures
        match r {
            Ok(parsed) => after_modules(nothing_read(), modules@, modules@.len() as int)
                matches Ok(reading) && reads_as(reading, parsed.0@, parsed.1@, parsed.2@),
            Err(e) => after_modules(nothing_read(), modules@, modules@.len() as int) == Err::<
                Reading,
                ParseError,
            >(e),
        },
{
    broadcast use vstd::std_specs::btree::group_btree_axioms;

    let input_word = "input".to_owned();
    let output_word = "output".to_owned();
    let mut inputs: Vec<(String, Vec<u64>)> = Vec::new();
    let mut circuit: Circuit = BTreeMap::new();
    let mut outputs: Vec<(String, Vec<u64>)> = Vec::new();
    let ghost start = nothing_read();
    assert(plan_of(circuit@) =~= start.plan);
    assert(party_view(inputs@) =~= start.inputs);
    assert(party_view(outputs@) =~= start.outputs);
    let mut m: usize = 0;
    while m < modules.len()
        invariant
            m <= modules.len(),
            input_word@ == "input"@,
            output_word@ == "output"@,
            start == nothing_read(),
            after_modules(start, modules@, m as int) matches Ok(reading) && reads_as(
                reading,
                circuit@,
                inputs@,
                outputs@,
            ),
        decreases modules.len() - m,
    {
        let module = &modules[m].1;
        let ghost at_module = after_modules(start, modules@, m as int)->Ok_0;
        let mut p: usize = 0;
        while p < module.ports.len()
            invariant
                p <= module.ports.len(),
                m < modules.len(),
                *module == modules@[m as int].1,
                input_word@ == "input"@,
                output_word@ == "output"@,
                start == nothing_read(),
                after_modules(start, modules@, m as int) == Ok::<Reading, ParseError>(at_module),
                after_ports(at_module, module.ports@, p as int) matches Ok(reading) && reads_as(
                    reading,
                    circuit@,
                    inputs@,
                    outputs@,
                ),
            decreases module.ports.len() - p,
        {
            let port_name = &module.ports[p].0;
            let port = &module.ports[p].1;
            let ghost at_port = after_ports(at_module, module.ports@, p as int)->Ok_0;
            let mut b: usize = 0;
            while b < port.bits.len()
                invariant
                    b <= port.bits.len(),
                    p < module.ports.len(),
                    m < modules.len(),
                    *module == modules@[m as int].1,
                    *port == module.ports@[p as int].1,
                    *port_name == module.ports@[p as int].0,
                    input_word@ == "input"@,
                    output_word@ == "output"@,
                    start == nothing_read(),
                after_modules(start, modules@, m as int) == Ok::<Reading, ParseError>(at_module),
                    after_ports(at_module, module.ports@, p as int) == Ok::<Reading, ParseError>(at_port),
                    after_bits(at_port, port_name@, *port, b as int) matches Ok(reading)
                        && reads_as(reading, circuit@, inputs@, outputs@),
                decreases port.bits.len() - b,
            {
                let bit: i32 = port.bits[b];
                let ghost before = circuit@;
                let ghost ins = inputs@;
                let ghost outs = outputs@;
                if bit < 0 {
                    proof {
                        lemma_bits_stay_bad(at_port, port_name@, *port, b as int + 1);
                        lemma_ports_stay_bad(at_module, module.ports@, p as int + 1);
                        lemma_modules_stay_bad(start, modules@, m as int + 1);
                    }
                    return Err(ParseError::BadPort);
                }
                let wire: u64 = bit as u64;
                if port.direction == input_word {
                    proof {
                        lemma_with_wire(ins, port_name@, wire);
                    }
                    handle_port_direction(port_name, wire, &mut inputs);
                } else if port.direction == output_word {
                    proof {
                        lemma_with_wire(outs, port_name@, wire);
                    }
                    handle_port_direction(port_name, wire, &mut outputs);
                } else {
                    proof {
                        lemma_bits_stay_bad(at_port, port_name@, *port, b as int + 1);
                        lemma_ports_stay_bad(at_module, module.ports@, p as int + 1);
                        lemma_modules_stay_bad(start, modules@, m as int + 1);
                    }
                    return Err(ParseError::BadPort);
                }
                circuit.insert(wire, (GateType::INPUT, Vec::new()));
                proof {
                    assert(plan_of(circuit@) =~= plan_of(before).insert(
                        wire,
                        (GateType::INPUT, Seq::<u64>::empty()),
                    )) by {
                        assert(circuit@[wire].1@ =~= Seq::<u64>::empty());
                    }
                }
                b += 1;
            }
            p += 1;
        }
        let ghost at_cells = after_ports(at_module, module.ports@, module.ports@.len() as int)->Ok_0;
        let mut c: usize = 0;
        while c < module.cells.len()
            invariant
                c <= module.cells.len(),
                m < modules.len(),
                *module == modules@[m as int].1,
                start == nothing_read(),
                after_modules(start, modules@, m as int) == Ok::<Reading, ParseError>(at_module),
                after_ports(at_module, module.ports@, module.ports@.len() as int) == Ok::<Reading, ParseError>(at_cells),
                after_cells(at_cells, module.cells@, c as int) matches Ok(reading) && reads_as(
                    reading,
                    circuit@,
                    inputs@,
                    outputs@,
                ),
            decreases module.cells.len() - c,
        {
            let ghost before = circuit@;
            match build_gate(&module.cells[c].1) {
                Ok(gate) => {
                    circuit.insert(gate.output, (gate.type_, gate.inputs));
                    proof {
                        assert(plan_of(circuit@) =~= plan_of(before).insert(
                            gate.output,
                            (gate.type_, gate.inputs@),
                        ));
                    }
                },
                Err(e) => {
                    proof {
                        lemma_cells_stay_bad(at_cells, module.cells@, c as int + 1);
                        lemma_modules_stay_bad(start, modules@, m as int + 1);
                    }
                    return Err(e);
                },
            }
            c += 1;
        }
        m += 1;
    }
    Ok((circuit, inputs, outputs))
}

/// What fails at a bit fails for the port.
proof fn lemma_bits_stay_bad(start: Reading, name: Seq<char>, port: YosysPort, bad: int)
    requires
        0 < bad <= port.bits@.len(),
        after_bits(start, name, port, bad) is Err,
    ensures
        after_bits(start, name, port, port.bits@.len() as int) == after_bits(start, name, port, bad),
    decreases port.bits@.len() - bad,
{
    if bad < port.bits@.len() {
        lemma_bits_stay_bad(start, name, port, bad + 1);
    }
}

/// What fails at a port fails for the ports.
proof fn lemma_ports_stay_bad(start: Reading, ports: Seq<(String, YosysPort)>, bad: int)
    requires
        0 < bad <= ports.len(),
        after_ports(start, ports, bad) is Err,
    ensures
        after_ports(start, ports, ports.len() as int) == after_ports(start, ports, bad),
    decreases ports.len() - bad,
{
    if bad < ports.len() {
        lemma_ports_stay_bad(start, ports, bad + 1);
    }
}

/// What fails at a cell fails for the cells.
proof fn lemma_cells_stay_bad(start: Reading, cells: Seq<(String, YosysCell)>, bad: int)
    requires
        0 < bad <= cells.len(),
        after_cells(start, cells, bad) is Err,
    ensures
        after_cells(start, cells, cells.len() as int) == after_cells(start, cells, bad),
    decreases cells.len() - bad,
{
    if bad < cells.len() {
        lemma_cells_stay_bad(start, cells, bad + 1);
    }
}

/// What fails at a module fails for the file.
proof fn lemma_modules_stay_bad(start: Reading, modules: Seq<(String, YosysModule)>, bad: int)
    requires
        0 < bad <= modules.len(),
        after_modules(start, modules, bad) is Err,
    ensures
        after_modules(start, modules, modules.len() as int) == after_modules(start, modules, bad),
    decreases modules.len() - bad,
{
    if bad < modules.len() {
        lemma_modules_stay_bad(start, modules, bad + 1);
    }
}

} // verus!
