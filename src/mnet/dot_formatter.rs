//! Rendering of a machine net in Graphviz dot.

use vstd::prelude::*;
use crate::fsm::Machine;
use crate::fsm::dot_formatter::machine_dot;
use crate::mnet::MachineNet;
use crate::text::{joined_lines, push_line, push_lines, push_text, string_views};

verus! {

/// The dot drawing of the net `net`: each machine, detailed, in one graph.
pub open spec fn net_dot(net: MachineNet) -> Seq<char> {
    "digraph {\n  rankdir=\"LR\";\n  node [shape=\"circle\"];\n"@
        + joined_lines(net.machines@.map_values(|m: Machine| machine_dot(m, true, false))) + "\n}"@
}

impl MachineNet {
    /// The net drawn in dot, each machine in detail.
    pub fn to_dot(&self) -> (r: String)
        ensures
            r@ == net_dot(*self),
    {
        let mut drawn: Vec<String> = Vec::new();
        let mut i: usize = 0;
        while i < self.machines.len()
            invariant
                i <= self.machines@.len(),
                string_views(drawn@) == self.machines@.take(i as int).map_values(|m: Machine| machine_dot(m, true, false)),
            decreases self.machines@.len() - i,
        {
            let s = self.machines[i].to_dot_2(true, false);
            push_line(&mut drawn, s);
            assert(self.machines@.take(i + 1).map_values(|m: Machine| machine_dot(m, true, false))
                =~= self.machines@.take(i as int).map_values(|m: Machine| machine_dot(m, true, false)).push(machine_dot(self.machines@[i as int], true, false)));
            i += 1;
        }
        assert(self.machines@.take(i as int) == self.machines@);
        let mut r = String::new();
        push_text(&mut r, "digraph {\n  rankdir=\"LR\";\n  node [shape=\"circle\"];\n");
        push_lines(&mut r, &drawn);
        push_text(&mut r, "\n}");
        assert(r@ =~= net_dot(*self));
        r
    }
}

} // verus!
