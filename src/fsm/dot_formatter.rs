//! Rendering of machines in Graphviz dot.

use vstd::prelude::*;
use crate::fsm::{BaseMachine, BaseState, BaseTransition, StateLabel};
use crate::text::{decimal, joined_lines, push_char, push_decimal, push_line, push_lines, push_text, string_views};

verus! {

/// A value that can be drawn as a dot label.
pub trait DotFormat {
    /// The label drawn for the value, detailed or not.
    spec fn dot_spec(&self, detailed: bool) -> Seq<char>;

    /// The label drawn for the value, detailed or not.
    fn to_dot(&self, detailed: bool) -> (r: String)
        ensures
            r@ == self.dot_spec(detailed),
    ;
}

impl DotFormat for char {
    /// A spontaneous label `_` is drawn as `ε`, any other quoted.
    open spec fn dot_spec(&self, detailed: bool) -> Seq<char> {
        if *self == '_' { seq!['ε'] } else { seq!['"', *self, '"'] }
    }

    fn to_dot(&self, detailed: bool) -> (r: String) {
        let mut r = String::new();
        if *self == '_' {
            push_char(&mut r, 'ε');
        } else {
            push_char(&mut r, '"');
            push_char(&mut r, *self);
            push_char(&mut r, '"');
        }
        assert(r@ =~= self.dot_spec(detailed));
        r
    }
}

/// How a state identifier is drawn: -1 as `⊢`, -2 as `⊣`, others in
/// decimal.
pub open spec fn shown_id(id: i32) -> Seq<char> {
    if id == -1 { seq!['⊢'] } else if id == -2 { seq!['⊣'] } else { decimal(id as int) }
}

fn push_shown_id(s: &mut String, id: i32)
    ensures
        final(s)@ == old(s)@ + shown_id(id),
{
    if id == -1 {
        push_char(s, '⊢');
    } else if id == -2 {
        push_char(s, '⊣');
    } else {
        push_decimal(s, id);
    }
}

impl DotFormat for StateLabel {
    /// The identifier with the machine name as subscript when detailed, or
    /// quoted alone.
    open spec fn dot_spec(&self, detailed: bool) -> Seq<char> {
        if detailed {
            seq!['<'] + shown_id(self.id) + "<sub>"@ + seq![self.m_name] + "</sub>>"@
        } else {
            seq!['"'] + shown_id(self.id) + seq!['"']
        }
    }

    fn to_dot(&self, detailed: bool) -> (r: String) {
        let mut r = String::new();
        if detailed {
            push_char(&mut r, '<');
            push_shown_id(&mut r, self.id);
            push_text(&mut r, "<sub>");
            push_char(&mut r, self.m_name);
            push_text(&mut r, "</sub>>");
        } else {
            push_char(&mut r, '"');
            push_shown_id(&mut r, self.id);
            push_char(&mut r, '"');
        }
        assert(r@ =~= self.dot_spec(detailed));
        r
    }
}

/// The dot node of state `id` of machine `m`: `B` for -1, `E` for -2.
pub open spec fn node_spec(m: char, id: i32) -> Seq<char> {
    if id == -1 {
        seq!['n', m, 'B']
    } else if id == -2 {
        seq!['n', m, 'E']
    } else {
        seq!['n', m] + decimal(id as int)
    }
}

/// The dot node of state `s_id` of machine `m_name`.
fn state_id_to_node_id(m_name: char, s_id: i32) -> (r: String)
    ensures
        r@ == node_spec(m_name, s_id),
{
    let mut r = String::new();
    push_char(&mut r, 'n');
    push_char(&mut r, m_name);
    if s_id == -1 {
        push_char(&mut r, 'B');
    } else if s_id == -2 {
        push_char(&mut r, 'E');
    } else {
        push_decimal(&mut r, s_id);
    }
    assert(r@ =~= node_spec(m_name, s_id));
    r
}

/// The edge drawn for transition `t` of the state drawn as `name`.
pub open spec fn trans_line<TL: DotFormat>(m: char, name: Seq<char>, t: BaseTransition<TL>, detailed: bool) -> Seq<char> {
    "  "@ + name + " -> "@ + node_spec(m, t.dest_id) + " [label="@ + t.label.dot_spec(detailed) + "];"@
}

/// The lines that draw state `st` of machine `m`.
pub open spec fn state_dot_lines<SL: DotFormat, TL: DotFormat>(m: char, st: BaseState<SL, TL>, detailed: bool) -> Seq<Seq<char>> {
    let name = node_spec(m, st.id);
    seq!["  "@ + name + " [label="@ + st.label.dot_spec(detailed) + "];"@]
        + (if st.is_initial { seq!["  init"@ + seq![m] + " -> "@ + name + ";"@] } else { Seq::empty() })
        + (if st.is_final {
            seq!["  sink"@ + name + " [shape=plain,label=\" \"];"@, "  "@ + name + " -> sink"@ + name + ";"@]
        } else {
            Seq::empty()
        })
        + st.transitions@.map_values(|t: BaseTransition<TL>| trans_line(m, name, t, detailed))
}

/// The dot drawing of machine `mach`, as a whole graph or as a part.
pub open spec fn machine_dot<SL: DotFormat, TL: DotFormat>(mach: BaseMachine<char, SL, TL>, detailed: bool, with_header: bool) -> Seq<char> {
    let header = if with_header { "digraph {\n  rankdir=\"LR\";\n"@ } else { Seq::empty() };
    let trailer = if with_header { "\n}"@ } else { Seq::empty() };
    header + "  init"@ + seq![mach.label] + " [shape=plain,label="@ + mach.label.dot_spec(detailed) + "];\n"@
        + joined_lines(mach.states@.map_values(|st: BaseState<SL, TL>| joined_lines(state_dot_lines(mach.label, st, detailed))))
        + trailer
}

impl<SL: DotFormat, TL: DotFormat> BaseState<SL, TL> {
    /// The lines that draw the state, of machine `m_name`.
    fn dot_lines(&self, m_name: char, detailed: bool) -> (r: Vec<String>)
        ensures
            string_views(r@) == state_dot_lines(m_name, *self, detailed),
    {
        let name = state_id_to_node_id(m_name, self.id);
        let mut res: Vec<String> = Vec::new();
        let mut l = String::new();
        push_text(&mut l, "  ");
        push_text(&mut l, name.as_str());
        push_text(&mut l, " [label=");
        let label = self.label.to_dot(detailed);
        push_text(&mut l, label.as_str());
        push_text(&mut l, "];");
        assert(l@ =~= "  "@ + name@ + " [label="@ + self.label.dot_spec(detailed) + "];"@);
        push_line(&mut res, l);
        let ghost r1 = string_views(res@);
        if self.is_initial {
            let mut l = String::new();
            push_text(&mut l, "  init");
            push_char(&mut l, m_name);
            push_text(&mut l, " -> ");
            push_text(&mut l, name.as_str());
            push_text(&mut l, ";");
            assert(l@ =~= "  init"@ + seq![m_name] + " -> "@ + name@ + ";"@);
            push_line(&mut res, l);
        }
        let ghost r2 = string_views(res@);
        if self.is_final {
            let mut l = String::new();
            push_text(&mut l, "  sink");
            push_text(&mut l, name.as_str());
            push_text(&mut l, " [shape=plain,label=\" \"];");
            assert(l@ =~= "  sink"@ + name@ + " [shape=plain,label=\" \"];"@);
            push_line(&mut res, l);
            let mut l = String::new();
            push_text(&mut l, "  ");
            push_text(&mut l, name.as_str());
            push_text(&mut l, " -> sink");
            push_text(&mut l, name.as_str());
            push_text(&mut l, ";");
            assert(l@ =~= "  "@ + name@ + " -> sink"@ + name@ + ";"@);
            push_line(&mut res, l);
        }
        let ghost head = string_views(res@);
        proof {
            let name_s = node_spec(m_name, self.id);
            let first = seq!["  "@ + name_s + " [label="@ + self.label.dot_spec(detailed) + "];"@];
            let ini: Seq<Seq<char>> = if self.is_initial { seq!["  init"@ + seq![m_name] + " -> "@ + name_s + ";"@] } else { Seq::empty() };
            let fin: Seq<Seq<char>> = if self.is_final {
                seq!["  sink"@ + name_s + " [shape=plain,label=\" \"];"@, "  "@ + name_s + " -> sink"@ + name_s + ";"@]
            } else {
                Seq::empty()
            };
            assert(head =~= first + ini + fin);
        }
        let ghost ts = self.transitions@;
        let mut k: usize = 0;
        while k < self.transitions.len()
            invariant
                ts == self.transitions@,
                name@ == node_spec(m_name, self.id),
                k <= ts.len(),
                string_views(res@) == head + ts.take(k as int).map_values(|t: BaseTransition<TL>| trans_line(m_name, name@, t, detailed)),
            decreases ts.len() - k,
        {
            let t = &self.transitions[k];
            let dest = state_id_to_node_id(m_name, t.dest_id);
            let tl = t.label.to_dot(detailed);
            let mut l = String::new();
            push_text(&mut l, "  ");
            push_text(&mut l, name.as_str());
            push_text(&mut l, " -> ");
            push_text(&mut l, dest.as_str());
            push_text(&mut l, " [label=");
            push_text(&mut l, tl.as_str());
            push_text(&mut l, "];");
            assert(l@ =~= trans_line(m_name, name@, *t, detailed));
            push_line(&mut res, l);
            assert(ts.take(k + 1).map_values(|t: BaseTransition<TL>| trans_line(m_name, name@, t, detailed))
                =~= ts.take(k as int).map_values(|t: BaseTransition<TL>| trans_line(m_name, name@, t, detailed)).push(trans_line(m_name, name@, ts[k as int], detailed)));
            k += 1;
        }
        assert(ts.take(k as int) == ts);
        assert(string_views(res@) =~= state_dot_lines(m_name, *self, detailed));
        res
    }
}

impl<SL: DotFormat, TL: DotFormat> BaseMachine<char, SL, TL> {
    /// The machine drawn in dot: with `with_header`, as a whole graph;
    /// otherwise as a part of one.
    pub fn to_dot_2(&self, detailed: bool, with_header: bool) -> (r: String)
        ensures
            r@ == machine_dot(*self, detailed, with_header),
    {
        let mut r = String::new();
        if with_header {
            push_text(&mut r, "digraph {\n  rankdir=\"LR\";\n");
        }
        push_text(&mut r, "  init");
        push_char(&mut r, self.label);
        push_text(&mut r, " [shape=plain,label=");
        let l = self.label.to_dot(detailed);
        push_text(&mut r, l.as_str());
        push_text(&mut r, "];\n");
        let mut drawn: Vec<String> = Vec::new();
        let mut i: usize = 0;
        while i < self.states.len()
            invariant
                i <= self.states@.len(),
                string_views(drawn@) == self.states@.take(i as int).map_values(|st: BaseState<SL, TL>| joined_lines(state_dot_lines(self.label, st, detailed))),
            decreases self.states@.len() - i,
        {
            let lines = self.states[i].dot_lines(self.label, detailed);
            let mut s = String::new();
            push_lines(&mut s, &lines);
            push_line(&mut drawn, s);
            assert(self.states@.take(i + 1).map_values(|st: BaseState<SL, TL>| joined_lines(state_dot_lines(self.label, st, detailed)))
                =~= self.states@.take(i as int).map_values(|st: BaseState<SL, TL>| joined_lines(state_dot_lines(self.label, st, detailed))).push(joined_lines(state_dot_lines(self.label, self.states@[i as int], detailed))));
            i += 1;
        }
        assert(self.states@.take(i as int) == self.states@);
        push_lines(&mut r, &drawn);
        if with_header {
            push_text(&mut r, "\n}");
        }
        assert(r@ =~= machine_dot(*self, detailed, with_header));
        r
    }
}

} // verus!
