//! What a netlist means: which wire reads which, what an evaluation order
//! is, and when an assignment of bits to wires agrees with the gates. The
//! depth-first ordering of the wires is proved against these definitions.
use crate::error::ProtocolError;
use crate::utils::{key_order, keys_increase, wires_of, Circuit, GateType};
use std::collections::HashSet;
use vstd::prelude::*;

verus! {

/// A netlist as contracts see it: the view of a [`Circuit`].
pub type Netlist = Map<u64, (GateType, Vec<u64>)>;

/// A gate drives `w` and reads `v`.
pub open spec fn reads(c: Netlist, w: u64, v: u64) -> bool {
    c.contains_key(w) && c[w].1@.contains(v)
}

/// The netlist defines `w` or one of its gates reads it.
pub open spec fn mentions(c: Netlist, w: u64) -> bool {
    c.contains_key(w) || exists|g: u64| reads(c, g, w)
}

/// Every wire that a listed gate reads is listed before it.
pub open spec fn inputs_first(c: Netlist, order: Seq<u64>) -> bool {
    forall|i: int, v: u64|
        0 <= i < order.len() && #[trigger] reads(c, order[i], v) ==> exists|j: int|
            0 <= j < i && order[j] == v
}

/// `order` lists every wire that the netlist mentions exactly once, each
/// after all the wires that its gate reads.
pub open spec fn is_topological(c: Netlist, order: Seq<u64>) -> bool {
    &&& order.no_duplicates()
    &&& forall|w: u64| mentions(c, w) <==> #[trigger] order.contains(w)
    &&& inputs_first(c, order)
}

/// A netlist is acyclic when its wires can be put in such an order.
pub open spec fn acyclic(c: Netlist) -> bool {
    exists|order: Seq<u64>| is_topological(c, order)
}

/// `path` walks the netlist from reader to read wire.
pub open spec fn is_dependency_path(c: Netlist, path: Seq<u64>) -> bool {
    forall|i: int| 0 <= i < path.len() - 1 ==> reads(c, #[trigger] path[i], path[i + 1])
}

/// In a topological order a wire stands after everything it depends on,
/// however long the chain of gates in between: walking `steps` gates down a
/// dependency path moves at least `steps` places towards the front.
pub proof fn lemma_dependencies_come_first(
    c: Netlist,
    order: Seq<u64>,
    path: Seq<u64>,
    from: int,
    steps: int,
    at: int,
)
    requires
        is_topological(c, order),
        is_dependency_path(c, path),
        0 <= from,
        0 <= steps,
        from + steps < path.len(),
        0 <= at < order.len(),
        order[at] == path[from],
    ensures
        exists|j: int| 0 <= j <= at - steps && order[j] == path[from + steps],
    decreases steps,
{
    if steps == 0 {
        assert(order[at] == path[from + steps]);
    } else {
        lemma_dependencies_come_first(c, order, path, from, steps - 1, at);
        let j = choose|j: int| 0 <= j <= at - (steps - 1) && order[j] == path[from + steps - 1];
        assert(reads(c, path[from + steps - 1], path[from + steps - 1 + 1]));
        assert(reads(c, order[j], path[from + steps]));
        let j2 = choose|j2: int| 0 <= j2 < j && order[j2] == path[from + steps];
        assert(0 <= j2 <= at - steps && order[j2] == path[from + steps]);
    }
}

/// A wire that depends on itself rules out every topological order.
pub proof fn lemma_cycle_is_not_acyclic(c: Netlist, path: Seq<u64>, back: int)
    requires
        is_dependency_path(c, path),
        0 <= back < path.len(),
        reads(c, path.last(), path[back]),
    ensures
        !acyclic(c),
{
    if acyclic(c) {
        let order = choose|order: Seq<u64>| is_topological(c, order);
        let w = path[back];
        let last = path.len() - 1;
        assert(reads(c, path[last], w));
        assert(mentions(c, w));
        assert(order.contains(w));
        let at = choose|at: int| 0 <= at < order.len() && order[at] == w;
        lemma_dependencies_come_first(c, order, path, back, last - back, at);
        let j = choose|j: int| 0 <= j <= at - (last - back) && order[j] == path[last];
        assert(reads(c, order[j], w));
        let j2 = choose|j2: int| 0 <= j2 < j && order[j2] == w;
        assert(order[j2] == order[at] && j2 != at);
    }
}

/// The state of a depth-first walk: `sorted` holds the finished wires in the
/// order in which they were finished, `path` the wires that are still open,
/// from the root of the walk down.
pub closed spec fn walk_state(
    c: Netlist,
    visited: Set<u64>,
    open: Set<u64>,
    sorted: Seq<u64>,
    path: Seq<u64>,
) -> bool {
    &&& sorted.no_duplicates()
    &&& visited == sorted.to_set()
    &&& inputs_first(c, sorted)
    &&& forall|i: int| 0 <= i < sorted.len() ==> mentions(c, #[trigger] sorted[i])
    &&& path.no_duplicates()
    &&& open == path.to_set()
    &&& forall|i: int|
        0 <= i < path.len() ==> c.contains_key(#[trigger] path[i]) && !visited.contains(path[i])
    &&& is_dependency_path(c, path)
}

/// The wires of a list with one more wire are those of the list and that
/// wire.
proof fn lemma_push_to_set(s: Seq<u64>, w: u64)
    ensures
        s.push(w).to_set() == s.to_set().insert(w),
{
    let t = s.push(w);
    assert forall|x: u64| t.to_set().contains(x) <==> s.to_set().insert(w).contains(x) by {
        if t.to_set().contains(x) {
            let i = choose|i: int| 0 <= i < t.len() && t[i] == x;
            if i < s.len() {
                assert(s[i] == x);
            }
        }
        if s.to_set().contains(x) {
            let i = choose|i: int| 0 <= i < s.len() && s[i] == x;
            assert(t[i] == x);
        }
        if x == w {
            assert(t[s.len() as int] == x);
        }
    }
    assert(t.to_set() =~= s.to_set().insert(w));
}

/// A path of different wires of the netlist is no longer than the netlist
/// has wires.
proof fn lemma_path_fits(c: Netlist, path: Seq<u64>)
    requires
        c.dom().finite(),
        path.no_duplicates(),
        forall|i: int| 0 <= i < path.len() ==> c.contains_key(#[trigger] path[i]),
    ensures
        path.len() <= c.dom().len(),
{
    path.unique_seq_to_set();
    assert(path.to_set().subset_of(c.dom())) by {
        assert forall|w: u64| path.to_set().contains(w) implies c.dom().contains(w) by {
            let i = choose|i: int| 0 <= i < path.len() && path[i] == w;
            assert(c.contains_key(path[i]));
        }
    }
    vstd::set_lib::lemma_len_subset(path.to_set(), c.dom());
}

/// The finished wires after a depth-first walk from `w`, when `done` were
/// finished before: a finished wire adds nothing; any other wire comes after
/// all that it reads, each walked in turn. `fuel` bounds the depth of the
/// walk; one more than the number of wires is enough for a netlist without a
/// cycle.
pub open spec fn finished_after(c: Netlist, w: u64, done: Seq<u64>, fuel: nat) -> Seq<u64>
    decreases fuel, 0nat,
{
    if done.contains(w) || fuel == 0 {
        done
    } else if c.contains_key(w) {
        finished_inputs(c, c[w].1@, done, (fuel - 1) as nat, c[w].1@.len()).push(w)
    } else {
        done.push(w)
    }
}

/// The finished wires after walks from the first `upto` of `inputs`.
pub open spec fn finished_inputs(
    c: Netlist,
    inputs: Seq<u64>,
    done: Seq<u64>,
    fuel: nat,
    upto: nat,
) -> Seq<u64>
    decreases fuel, upto + 1,
{
    if upto == 0 {
        done
    } else {
        finished_after(
            c,
            inputs[upto - 1],
            finished_inputs(c, inputs, done, fuel, (upto - 1) as nat),
            fuel,
        )
    }
}

/// The wire has an entry that reads nothing: an input of the netlist, or a
/// constant that stands alone.
pub open spec fn is_source_entry(c: Netlist, w: u64) -> bool {
    c.contains_key(w) && c[w].1@.len() == 0
}

/// Those of the first `upto` wires that read nothing, in order.
pub open spec fn sources_of(c: Netlist, wires: Seq<u64>, upto: nat) -> Seq<u64>
    decreases upto,
{
    if upto == 0 {
        Seq::empty()
    } else if is_source_entry(c, wires[upto - 1]) {
        sources_of(c, wires, (upto - 1) as nat).push(wires[upto - 1])
    } else {
        sources_of(c, wires, (upto - 1) as nat)
    }
}

/// The finished wires after walks from the first `upto` of `wires`.
pub open spec fn walked(c: Netlist, wires: Seq<u64>, start: Seq<u64>, upto: nat) -> Seq<u64>
    decreases upto,
{
    if upto == 0 {
        start
    } else {
        finished_after(
            c,
            wires[upto - 1],
            walked(c, wires, start, (upto - 1) as nat),
            c.dom().len() + 1,
        )
    }
}

/// The order of the wires of a netlist: first the wires whose entry reads
/// nothing, in the order of the keys; then what depth-first walks from every
/// key, in the order of the keys, finish.
pub open spec fn topo_order(circuit: &Circuit) -> Seq<u64> {
    let keys = key_order(circuit);
    walked(circuit@, keys, sources_of(circuit@, keys, keys.len()), keys.len())
}

/// Every wire whose entry reads nothing stands before every wire whose
/// entry reads something.
pub open spec fn sources_first(c: Netlist, order: Seq<u64>) -> bool {
    forall|i: int, j: int|
        0 <= i < order.len() && 0 <= j < order.len() && is_source_entry(c, #[trigger] order[i])
            && c.contains_key(#[trigger] order[j]) && c[order[j]].1@.len() > 0 ==> i < j
}

/// Finishes `node` and everything it depends on.
fn visit(
    node: u64,
    circuit: &Circuit,
    visited: &mut HashSet<u64>,
    temp_mark: &mut HashSet<u64>,
    sorted: &mut Vec<u64>,
    Ghost(path): Ghost<Seq<u64>>,
) -> (r: Result<(), ProtocolError>)
    requires
        walk_state(circuit@, old(visited)@, old(temp_mark)@, old(sorted)@, path),
        path.len() > 0 ==> reads(circuit@, path.last(), node),
        mentions(circuit@, node),
    ensures
        match r {
            Ok(()) => {
                &&& walk_state(
                    circuit@,
                    final(visited)@,
                    final(temp_mark)@,
                    final(sorted)@,
                    path,
                )
                &&& final(visited)@.contains(node)
                &&& old(visited)@.subset_of(final(visited)@)
                &&& final(sorted)@ == finished_after(
                    circuit@,
                    node,
                    old(sorted)@,
                    (circuit@.dom().len() + 1 - path.len()) as nat,
                )
                &&& old(sorted)@.is_prefix_of(final(sorted)@)
            },
            Err(e) => e == ProtocolError::CycleDetected && !acyclic(circuit@),
        },
    decreases circuit@.dom().len() - path.len(),
{
    broadcast use vstd::std_specs::hash::group_hash_axioms;
    broadcast use vstd::std_specs::btree::group_btree_axioms;

    let ghost fuel = (circuit@.dom().len() + 1 - path.len()) as nat;
    let ghost start = sorted@;
    proof {
        lemma_path_fits(circuit@, path);
        assert(sorted@.contains(node) <==> visited@.contains(node));
    }

    if temp_mark.contains(&node) {
        proof {
            let back = choose|i: int| 0 <= i < path.len() && path[i] == node;
            lemma_cycle_is_not_acyclic(circuit@, path, back);
        }
        return Err(ProtocolError::CycleDetected);
    }
    if !visited.contains(&node) {
        match circuit.get(&node) {
            Some(gate) => {
                let inputs = &gate.1;
                let ghost deeper = path.push(node);
                temp_mark.insert(node);
                proof {
                    lemma_push_to_set(path, node);
                    assert(is_dependency_path(circuit@, deeper)) by {
                        assert forall|i: int| 0 <= i < deeper.len() - 1 implies reads(
                            circuit@,
                            #[trigger] deeper[i],
                            deeper[i + 1],
                        ) by {
                            if i < path.len() - 1 {
                                assert(reads(circuit@, path[i], path[i + 1]));
                            }
                        }
                    }
                    lemma_path_fits(circuit@, deeper);
                }
                let mut k: usize = 0;
                while k < inputs.len()
                    invariant
                        k <= inputs.len(),
                        circuit@.contains_key(node),
                        inputs@ == circuit@[node].1@,
                        deeper == path.push(node),
                        deeper.len() <= circuit@.dom().len(),
                        walk_state(circuit@, visited@, temp_mark@, sorted@, deeper),
                        old(visited)@.subset_of(visited@),
                        forall|j: int| 0 <= j < k ==> visited@.contains(inputs@[j]),
                        fuel == circuit@.dom().len() + 1 - path.len(),
                        fuel >= 1,
                        start.is_prefix_of(sorted@),
                        sorted@ == finished_inputs(
                            circuit@,
                            inputs@,
                            start,
                            (fuel - 1) as nat,
                            k as nat,
                        ),
                    decreases inputs.len() - k,
                {
                    let input: u64 = inputs[k];
                    assert(reads(circuit@, node, input));
                    match visit(input, circuit, visited, temp_mark, sorted, Ghost(deeper)) {
                        Ok(()) => {},
                        Err(e) => {
                            return Err(e);
                        },
                    }
                    k += 1;
                }
                temp_mark.remove(&node);
                proof {
                    assert(temp_mark@ =~= path.to_set());
                    assert(deeper[path.len() as int] == node);
                    assert(!visited@.contains(node));
                    assert forall|i: int| 0 <= i < path.len() implies !visited@.contains(
                        #[trigger] path[i],
                    ) by {
                        assert(deeper[i] == path[i]);
                    }
                    assert(is_dependency_path(circuit@, path)) by {
                        assert forall|i: int| 0 <= i < path.len() - 1 implies reads(
                            circuit@,
                            #[trigger] path[i],
                            path[i + 1],
                        ) by {
                            assert(deeper[i] == path[i] && deeper[i + 1] == path[i + 1]);
                        }
                    }
                }
            },
            None => {},
        }
        let ghost done = sorted@;
        visited.insert(node);
        sorted.push(node);
        proof {
            assert(start.is_prefix_of(sorted@));
            lemma_push_to_set(done, node);
            assert(inputs_first(circuit@, sorted@)) by {
                assert forall|i: int, v: u64|
                    0 <= i < sorted@.len() && #[trigger] reads(
                        circuit@,
                        sorted@[i],
                        v,
                    ) implies exists|j: int| 0 <= j < i && sorted@[j] == v by {
                    if i < done.len() {
                        assert(reads(circuit@, done[i], v));
                        let j = choose|j: int| 0 <= j < i && done[j] == v;
                        assert(sorted@[j] == v);
                    } else {
                        let pos = choose|pos: int|
                            0 <= pos < circuit@[node].1@.len() && circuit@[node].1@[pos] == v;
                        assert(done.to_set().contains(v));
                        let j = choose|j: int| 0 <= j < done.len() && done[j] == v;
                        assert(sorted@[j] == v);
                    }
                }
            }
        }
    }
    Ok(())
}

/// Orders the wires of a netlist so that every gate comes after the wires it
/// reads. The wires whose entry reads nothing come first, in the order of the
/// keys; then come the wires that depth-first walks from every key, in the
/// order of the keys, finish. Fails exactly when some wire depends on itself.
pub fn topo_sort_wires(circuit: &Circuit) -> (r: Result<Vec<u64>, ProtocolError>)
    ensures
        keys_increase(circuit),
        match r {
            Ok(order) => {
                &&& order@ == topo_order(circuit)
                &&& is_topological(circuit@, order@)
                &&& sources_first(circuit@, order@)
            },
            Err(e) => e == ProtocolError::CycleDetected && !acyclic(circuit@),
        },
{
    broadcast use vstd::std_specs::hash::group_hash_axioms;
    broadcast use vstd::std_specs::btree::group_btree_axioms;

    let ghost c = circuit@;
    let mut sorted: Vec<u64> = Vec::new();
    let mut visited: HashSet<u64> = HashSet::new();
    let mut temp_mark: HashSet<u64> = HashSet::new();
    let wires = wires_of(circuit);
    let ghost nothing = Seq::<u64>::empty();
    let mut s: usize = 0;
    while s < wires.len()
        invariant
            s <= wires.len(),
            c == circuit@,
            wires@.no_duplicates(),
            wires@.to_set() == c.dom(),
            sorted@ == sources_of(c, wires@, s as nat),
            visited@ == sorted@.to_set(),
            sorted@.no_duplicates(),
            forall|j: int| 0 <= j < sorted@.len() ==> is_source_entry(c, #[trigger] sorted@[j]),
            forall|j: int|
                0 <= j < sorted@.len() ==> exists|k: int|
                    0 <= k < s && wires@[k] == #[trigger] sorted@[j],
            forall|k: int|
                0 <= k < s && is_source_entry(c, #[trigger] wires@[k]) ==> sorted@.contains(
                    wires@[k],
                ),
        decreases wires.len() - s,
    {
        let w: u64 = wires[s];
        let reads_nothing = match circuit.get(&w) {
            Some(gate) => gate.1.len() == 0,
            None => false,
        };
        if reads_nothing {
            let ghost before = sorted@;
            visited.insert(w);
            sorted.push(w);
            proof {
                lemma_push_to_set(before, w);
                assert(!before.contains(w)) by {
                    if before.contains(w) {
                        let j = choose|j: int| 0 <= j < before.len() && before[j] == w;
                        let k = choose|k: int| 0 <= k < s && wires@[k] == before[j];
                        assert(wires@[k] == wires@[s as int]);
                    }
                }
                assert forall|k: int|
                    0 <= k < s + 1 && is_source_entry(
                        c,
                        #[trigger] wires@[k],
                    ) implies sorted@.contains(wires@[k]) by {
                    if k < s {
                        let j = choose|j: int| 0 <= j < before.len() && before[j] == wires@[k];
                        assert(sorted@[j] == wires@[k]);
                    } else {
                        assert(sorted@[before.len() as int] == w);
                    }
                }
            }
        }
        s += 1;
    }
    let ghost first = sorted@;
    proof {
        assert(temp_mark@ =~= nothing.to_set());
        assert(inputs_first(c, sorted@)) by {
            assert forall|i: int, v: u64|
                0 <= i < sorted@.len() && #[trigger] reads(c, sorted@[i], v) implies exists|j: int|
                    0 <= j < i && sorted@[j] == v by {
                assert(is_source_entry(c, sorted@[i]));
            }
        }
        assert forall|j: int| 0 <= j < sorted@.len() implies mentions(c, #[trigger] sorted@[j]) by {
            assert(is_source_entry(c, sorted@[j]));
        }
        assert(is_dependency_path(c, nothing));
    }
    let mut i: usize = 0;
    while i < wires.len()
        invariant
            i <= wires.len(),
            c == circuit@,
            nothing == Seq::<u64>::empty(),
            keys_increase(circuit),
            wires@.to_set() == c.dom(),
            walk_state(c, visited@, temp_mark@, sorted@, nothing),
            forall|j: int| 0 <= j < i ==> visited@.contains(wires@[j]),
            sorted@ == walked(c, wires@, first, i as nat),
            first.is_prefix_of(sorted@),
        decreases wires.len() - i,
    {
        assert(wires@.to_set().contains(wires@[i as int]));
        match visit(wires[i], circuit, &mut visited, &mut temp_mark, &mut sorted, Ghost(nothing)) {
            Ok(()) => {},
            Err(e) => {
                return Err(e);
            },
        }
        i += 1;
    }
    proof {
        assert forall|w: u64| mentions(c, w) implies #[trigger] sorted@.contains(w) by {
            if c.contains_key(w) {
                assert(wires@.to_set().contains(w));
                let j = choose|j: int| 0 <= j < wires@.len() && wires@[j] == w;
                assert(visited@.contains(wires@[j]));
            } else {
                let g = choose|g: u64| reads(c, g, w);
                assert(wires@.to_set().contains(g));
                let j = choose|j: int| 0 <= j < wires@.len() && wires@[j] == g;
                assert(visited@.contains(wires@[j]));
                let at = choose|at: int| 0 <= at < sorted@.len() && sorted@[at] == g;
                assert(reads(c, sorted@[at], w));
            }
        }
        assert(sources_first(c, sorted@)) by {
            assert forall|i: int, j: int|
                0 <= i < sorted@.len() && 0 <= j < sorted@.len() && is_source_entry(
                    c,
                    #[trigger] sorted@[i],
                ) && c.contains_key(#[trigger] sorted@[j]) && c[sorted@[j]].1@.len()
                    > 0 implies i < j by {
                let w = sorted@[i];
                assert(wires@.to_set().contains(w));
                let k = choose|k: int| 0 <= k < wires@.len() && wires@[k] == w;
                assert(first.contains(wires@[k]));
                let p = choose|p: int| 0 <= p < first.len() && first[p] == w;
                assert(sorted@[p] == first[p]);
                assert(p == i);
                if j < first.len() {
                    assert(sorted@[j] == first[j]);
                    assert(is_source_entry(c, first[j]));
                }
            }
        }
    }
    Ok(sorted)
}

} // verus!
