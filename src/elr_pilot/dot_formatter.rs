//! Rendering of the pilot in Graphviz dot: each state as a table of its
//! candidates, base candidates above and closure candidates below, and each
//! transition as a labeled edge, doubled when several origins shift.

use vstd::prelude::*;
use crate::elr_pilot::{Candidate, Pilot, PilotState, PilotTransition, StateView, TransitionView};
use crate::text::{decimal, joined_lines, push_char, push_decimal, push_line, push_lines, push_text, string_views};

verus! {

/// The rank of a machine name in the rendering order: the axiom `S` first.
pub open spec fn rank(c: char) -> char {
    if c == 'S' { '@' } else { c }
}

/// Whether the (machine, state) key `a` is rendered before `b`.
pub open spec fn key_lt(a: (char, i32), b: (char, i32)) -> bool {
    rank(a.0) < rank(b.0) || (rank(a.0) == rank(b.0) && a.1 < b.1)
}

/// `s` with `k` inserted before the first key that equals it or follows it,
/// unless that key equals it.
pub open spec fn insert_key(s: Seq<(char, i32)>, k: (char, i32)) -> Seq<(char, i32)>
    decreases s.len(),
{
    if s.len() == 0 {
        seq![k]
    } else if s[0] == k {
        s
    } else if key_lt(k, s[0]) {
        seq![k] + s
    } else {
        seq![s[0]] + insert_key(s.drop_first(), k)
    }
}

/// The distinct (machine, state) keys of the candidates `cs`, in rendering
/// order.
pub open spec fn sorted_keys(cs: Seq<Candidate>) -> Seq<(char, i32)>
    decreases cs.len(),
{
    if cs.len() == 0 {
        Seq::empty()
    } else {
        insert_key(sorted_keys(cs.drop_last()), (cs.last().machine, cs.last().state))
    }
}

/// `s` with `c` inserted before the first character that follows it.
pub open spec fn insert_char(s: Seq<char>, c: char) -> Seq<char>
    decreases s.len(),
{
    if s.len() == 0 {
        seq![c]
    } else if c < s[0] {
        seq![c] + s
    } else {
        seq![s[0]] + insert_char(s.drop_first(), c)
    }
}

/// The characters of `xs` in increasing order.
pub open spec fn sort_chars(xs: Seq<char>) -> Seq<char>
    decreases xs.len(),
{
    if xs.len() == 0 {
        Seq::empty()
    } else {
        insert_char(sort_chars(xs.drop_last()), xs.last())
    }
}

/// How a lookahead is drawn: the end marker `$` as `⊣`.
pub open spec fn shown_look(c: char) -> char {
    if c == '$' { '⊣' } else { c }
}

/// The drawn lookaheads of the candidates of `cs` at `key`, in order.
pub open spec fn looks_at(cs: Seq<Candidate>, key: (char, i32)) -> Seq<char>
    decreases cs.len(),
{
    if cs.len() == 0 {
        Seq::empty()
    } else if (cs.last().machine, cs.last().state) == key {
        looks_at(cs.drop_last(), key).push(shown_look(cs.last().lookahead))
    } else {
        looks_at(cs.drop_last(), key)
    }
}

/// Whether the first candidate of `cs` at `key` is final.
pub open spec fn final_at(cs: Seq<Candidate>, key: (char, i32)) -> bool
    decreases cs.len(),
{
    if cs.len() == 0 {
        false
    } else if (cs[0].machine, cs[0].state) == key {
        cs[0].is_final
    } else {
        final_at(cs.drop_first(), key)
    }
}

/// The characters of `xs` separated by commas.
pub open spec fn comma_joined(xs: Seq<char>) -> Seq<char>
    decreases xs.len(),
{
    if xs.len() <= 1 {
        xs
    } else {
        comma_joined(xs.drop_last()) + seq![',', xs.last()]
    }
}

/// The table row of the candidates of `cs` at `key`.
pub open spec fn row_html(cs: Seq<Candidate>, key: (char, i32)) -> Seq<char> {
    let st = decimal(key.1 as int) + "<sub>"@ + seq![key.0] + "</sub>"@;
    let st = if final_at(cs, key) { seq!['('] + st + seq![')'] } else { st };
    "    <tr><td sides=\"ltb\">"@ + st + "</td><td sides=\"trb\">"@
        + comma_joined(sort_chars(looks_at(cs, key))) + "</td></tr>"@
}

/// The rows of the keys of `keys` whose state is 0 (when `closure`) or not.
pub open spec fn rows(cs: Seq<Candidate>, keys: Seq<(char, i32)>, closure: bool) -> Seq<Seq<char>>
    decreases keys.len(),
{
    if keys.len() == 0 {
        Seq::empty()
    } else if (keys.last().1 == 0) == closure {
        rows(cs, keys.drop_last(), closure).push(row_html(cs, keys.last()))
    } else {
        rows(cs, keys.drop_last(), closure)
    }
}

/// The separator row between base and closure rows.
pub open spec fn separator(no_base: bool, no_closure: bool) -> Seq<char> {
    let top = if no_base { seq!['t'] } else { Seq::empty() };
    let bot = if no_closure { seq!['b'] } else { Seq::empty() };
    let sides = if no_base || no_closure { "sides=\""@ + top + bot + "\""@ } else { "border=\"0\""@ };
    "    <tr><td colspan=\"2\" "@ + sides + "></td></tr>"@
}

/// The edge drawn for transition `t` of state `id`.
pub open spec fn edge_line(id: i32, t: TransitionView) -> Seq<char> {
    let double = if t.multiplicity > 1 { ", color = \"black:black\""@ } else { Seq::empty() };
    "  i"@ + decimal(id as int) + " -> i"@ + decimal(t.dest_id as int) + " [label=\""@ + seq![t.character] + "\""@
        + double + "];"@
}

/// The lines that draw the state `st`.
pub open spec fn state_lines(st: StateView) -> Seq<Seq<char>> {
    let keys = sorted_keys(st.candidates);
    let base = rows(st.candidates, keys, false);
    let closure = rows(st.candidates, keys, true);
    seq!["  i"@ + decimal(st.id as int) + " [label=<"@, "    <table border=\"0\" cellborder=\"1\" cellspacing=\"0\">"@]
        + base + seq![separator(base.len() == 0, closure.len() == 0)] + closure
        + seq!["    </table>"@, "  >, xlabel=<I<sub>"@ + decimal(st.id as int) + "</sub>>];"@]
        + st.transitions.map_values(|t: TransitionView| edge_line(st.id, t))
}

/// The dot drawing of the pilot `p`.
pub open spec fn pilot_dot(p: Seq<StateView>) -> Seq<char> {
    "digraph {\n  node [shape=\"plain\", forcelabels=true];\n"@
        + joined_lines(p.map_values(|st: StateView| joined_lines(state_lines(st)))) + "\n}"@
}

/// Inserting a key at its first stop position.
proof fn lemma_insert_key_at(s: Seq<(char, i32)>, k: (char, i32), p: int)
    requires
        0 <= p <= s.len(),
        forall|i: int| 0 <= i < p ==> s[i] != k && !key_lt(k, s[i]),
        p < s.len() ==> s[p] == k || key_lt(k, s[p]),
    ensures
        insert_key(s, k) == if p < s.len() && s[p] == k { s } else { s.take(p) + seq![k] + s.skip(p) },
    decreases p,
{
    if p == 0 {
        if s.len() > 0 && s[0] != k {
            assert(s.skip(0) == s);
            assert(s.take(0) + seq![k] + s.skip(0) =~= seq![k] + s);
        } else if s.len() == 0 {
            assert(s.take(0) + seq![k] + s.skip(0) =~= seq![k]);
        }
    } else {
        let t = s.drop_first();
        assert forall|i: int| 0 <= i < p - 1 implies t[i] != k && !key_lt(k, t[i]) by {
            assert(t[i] == s[i + 1]);
        }
        lemma_insert_key_at(t, k, p - 1);
        if p < s.len() && s[p] == k {
            assert(seq![s[0]] + t =~= s);
        } else {
            assert(seq![s[0]] + (t.take(p - 1) + seq![k] + t.skip(p - 1)) =~= s.take(p) + seq![k] + s.skip(p));
        }
    }
}

/// Inserting a character at its first stop position.
proof fn lemma_insert_char_at(s: Seq<char>, c: char, p: int)
    requires
        0 <= p <= s.len(),
        forall|i: int| 0 <= i < p ==> !(c < s[i]),
        p < s.len() ==> c < s[p],
    ensures
        insert_char(s, c) == s.take(p) + seq![c] + s.skip(p),
    decreases p,
{
    if p == 0 {
        assert(s.skip(0) == s);
        assert(s.take(0) + seq![c] + s.skip(0) =~= if s.len() == 0 { seq![c] } else { seq![c] + s });
    } else {
        let t = s.drop_first();
        assert forall|i: int| 0 <= i < p - 1 implies !(c < t[i]) by {
            assert(t[i] == s[i + 1]);
        }
        lemma_insert_char_at(t, c, p - 1);
        assert(seq![s[0]] + (t.take(p - 1) + seq![c] + t.skip(p - 1)) =~= s.take(p) + seq![c] + s.skip(p));
    }
}

fn rank_of(c: char) -> (r: char)
    ensures
        r == rank(c),
{
    if c == 'S' { '@' } else { c }
}

fn key_before(a: (char, i32), b: (char, i32)) -> (r: bool)
    ensures
        r == key_lt(a, b),
{
    let ra = rank_of(a.0);
    let rb = rank_of(b.0);
    ra < rb || (ra == rb && a.1 < b.1)
}

/// Inserts the key `k` in rendering order unless it is there.
fn insert_key_vec(v: &mut Vec<(char, i32)>, k: (char, i32))
    ensures
        final(v)@ == insert_key(old(v)@, k),
{
    let mut p: usize = 0;
    while p < v.len() && !(v[p].0 == k.0 && v[p].1 == k.1) && !key_before(k, v[p])
        invariant
            p <= v@.len(),
            forall|i: int| 0 <= i < p ==> v@[i] != k && !key_lt(k, v@[i]),
        decreases v@.len() - p,
    {
        p += 1;
    }
    proof {
        lemma_insert_key_at(v@, k, p as int);
    }
    if p < v.len() && v[p].0 == k.0 && v[p].1 == k.1 {
        return;
    }
    let ghost before = v@;
    v.insert(p, k);
    assert(v@ =~= before.take(p as int) + seq![k] + before.skip(p as int));
}

/// Inserts `c` after the characters that do not follow it.
fn insert_char_vec(v: &mut Vec<char>, c: char)
    ensures
        final(v)@ == insert_char(old(v)@, c),
{
    let mut p: usize = 0;
    while p < v.len() && !(c < v[p])
        invariant
            p <= v@.len(),
            forall|i: int| 0 <= i < p ==> !(c < v@[i]),
        decreases v@.len() - p,
    {
        p += 1;
    }
    proof {
        lemma_insert_char_at(v@, c, p as int);
    }
    let ghost before = v@;
    v.insert(p, c);
    assert(v@ =~= before.take(p as int) + seq![c] + before.skip(p as int));
}

impl PilotState {
    /// The distinct (machine, state) keys of the candidates, in rendering
    /// order.
    fn sorted_keys_vec(&self) -> (r: Vec<(char, i32)>)
        ensures
            r@ == sorted_keys(self.candidates@),
    {
        let mut keys: Vec<(char, i32)> = Vec::new();
        let mut i: usize = 0;
        while i < self.candidates.len()
            invariant
                i <= self.candidates@.len(),
                keys@ == sorted_keys(self.candidates@.take(i as int)),
            decreases self.candidates@.len() - i,
        {
            assert(self.candidates@.take(i + 1).drop_last() == self.candidates@.take(i as int));
            let c = self.candidates[i];
            insert_key_vec(&mut keys, (c.machine, c.state));
            i += 1;
        }
        assert(self.candidates@.take(i as int) == self.candidates@);
        keys
    }

    /// The table row of the candidates at `key`.
    fn row(&self, key: (char, i32)) -> (r: String)
        ensures
            r@ == row_html(self.candidates@, key),
    {
        let ghost cs = self.candidates@;
        let mut looks: Vec<char> = Vec::new();
        let mut i: usize = 0;
        while i < self.candidates.len()
            invariant
                cs == self.candidates@,
                i <= cs.len(),
                looks@ == looks_at(cs.take(i as int), key),
            decreases cs.len() - i,
        {
            assert(cs.take(i + 1).drop_last() == cs.take(i as int));
            let c = self.candidates[i];
            if c.machine == key.0 && c.state == key.1 {
                looks.push(if c.lookahead == '$' { '⊣' } else { c.lookahead });
            }
            i += 1;
        }
        assert(cs.take(i as int) == cs);
        let mut sorted: Vec<char> = Vec::new();
        let mut j: usize = 0;
        while j < looks.len()
            invariant
                j <= looks@.len(),
                sorted@ == sort_chars(looks@.take(j as int)),
            decreases looks@.len() - j,
        {
            assert(looks@.take(j + 1).drop_last() == looks@.take(j as int));
            insert_char_vec(&mut sorted, looks[j]);
            j += 1;
        }
        assert(looks@.take(j as int) == looks@);
        let mut fin = false;
        let mut found = false;
        let mut i: usize = 0;
        while i < self.candidates.len() && !found
            invariant
                cs == self.candidates@,
                i <= cs.len(),
                found ==> fin == final_at(cs, key),
                !found ==> !fin && final_at(cs, key) == final_at(cs.skip(i as int), key),
            decreases cs.len() - i + if found { 0int } else { 1int },
        {
            let c = self.candidates[i];
            assert(cs.skip(i as int)[0] == c);
            if c.machine == key.0 && c.state == key.1 {
                fin = c.is_final;
                found = true;
            } else {
                assert(cs.skip(i as int).drop_first() == cs.skip(i + 1));
                i += 1;
            }
        }
        assert(!found ==> cs.skip(i as int).len() == 0);
        assert(fin == final_at(cs, key));
        let mut r = String::new();
        push_text(&mut r, "    <tr><td sides=\"ltb\">");
        if fin {
            push_char(&mut r, '(');
        }
        push_decimal(&mut r, key.1);
        push_text(&mut r, "<sub>");
        push_char(&mut r, key.0);
        push_text(&mut r, "</sub>");
        if fin {
            push_char(&mut r, ')');
        }
        push_text(&mut r, "</td><td sides=\"trb\">");
        let ghost mid = r@;
        let mut j: usize = 0;
        while j < sorted.len()
            invariant
                j <= sorted@.len(),
                r@ == mid + comma_joined(sorted@.take(j as int)),
            decreases sorted@.len() - j,
        {
            if j > 0 {
                push_char(&mut r, ',');
            }
            push_char(&mut r, sorted[j]);
            proof {
                let t = sorted@.take(j + 1);
                assert(t.drop_last() == sorted@.take(j as int));
                if j == 0 {
                    assert(comma_joined(t) == t);
                    assert(r@ =~= mid + comma_joined(t));
                } else {
                    assert(r@ =~= mid + comma_joined(t));
                }
            }
            j += 1;
        }
        assert(sorted@.take(j as int) == sorted@);
        push_text(&mut r, "</td></tr>");
        assert(r@ =~= row_html(cs, key));
        r
    }

    /// The rows of the keys whose state is 0 (when `closure`) or not.
    fn rows_vec(&self, keys: &Vec<(char, i32)>, closure: bool) -> (r: Vec<String>)
        ensures
            string_views(r@) == rows(self.candidates@, keys@, closure),
    {
        let mut res: Vec<String> = Vec::new();
        let mut i: usize = 0;
        while i < keys.len()
            invariant
                i <= keys@.len(),
                string_views(res@) == rows(self.candidates@, keys@.take(i as int), closure),
            decreases keys@.len() - i,
        {
            assert(keys@.take(i + 1).drop_last() == keys@.take(i as int));
            let k = keys[i];
            if (k.1 == 0) == closure {
                let line = self.row(k);
                push_line(&mut res, line);
            }
            i += 1;
        }
        assert(keys@.take(i as int) == keys@);
        res
    }

    /// The lines that draw the state.
    fn dot_lines(&self) -> (r: Vec<String>)
        ensures
            string_views(r@) == state_lines(self@),
    {
        let keys = self.sorted_keys_vec();
        let base = self.rows_vec(&keys, false);
        let closure = self.rows_vec(&keys, true);
        let mut lines: Vec<String> = Vec::new();
        let mut l = String::new();
        push_text(&mut l, "  i");
        push_decimal(&mut l, self.id);
        push_text(&mut l, " [label=<");
        push_line(&mut lines, l);
        let mut l = String::new();
        push_text(&mut l, "    <table border=\"0\" cellborder=\"1\" cellspacing=\"0\">");
        push_line(&mut lines, l);
        let ghost head = string_views(lines@);
        let mut i: usize = 0;
        while i < base.len()
            invariant
                i <= base@.len(),
                string_views(lines@) == head + string_views(base@).take(i as int),
            decreases base@.len() - i,
        {
            let line = base[i].clone();
            push_line(&mut lines, line);
            assert(string_views(base@).take(i + 1) =~= string_views(base@).take(i as int).push(base@[i as int]@));
            i += 1;
        }
        assert(string_views(base@).take(i as int) =~= string_views(base@));
        let mut sep = String::new();
        push_text(&mut sep, "    <tr><td colspan=\"2\" ");
        let no_base = base.len() == 0;
        let no_closure = closure.len() == 0;
        if no_base || no_closure {
            push_text(&mut sep, "sides=\"");
            if no_base {
                push_char(&mut sep, 't');
            }
            if no_closure {
                push_char(&mut sep, 'b');
            }
            push_text(&mut sep, "\"");
        } else {
            push_text(&mut sep, "border=\"0\"");
        }
        push_text(&mut sep, "></td></tr>");
        assert(sep@ =~= separator(no_base, no_closure));
        push_line(&mut lines, sep);
        let ghost head2 = string_views(lines@);
        let mut i: usize = 0;
        while i < closure.len()
            invariant
                i <= closure@.len(),
                string_views(lines@) == head2 + string_views(closure@).take(i as int),
            decreases closure@.len() - i,
        {
            let line = closure[i].clone();
            push_line(&mut lines, line);
            assert(string_views(closure@).take(i + 1) =~= string_views(closure@).take(i as int).push(closure@[i as int]@));
            i += 1;
        }
        assert(string_views(closure@).take(i as int) =~= string_views(closure@));
        let mut l = String::new();
        push_text(&mut l, "    </table>");
        push_line(&mut lines, l);
        let mut l = String::new();
        push_text(&mut l, "  >, xlabel=<I<sub>");
        push_decimal(&mut l, self.id);
        push_text(&mut l, "</sub>>];");
        push_line(&mut lines, l);
        let ghost head3 = string_views(lines@);
        let ghost ts = self@.transitions;
        let mut k: usize = 0;
        while k < self.transitions.len()
            invariant
                ts == self@.transitions,
                k <= ts.len(),
                string_views(lines@) == head3 + ts.take(k as int).map_values(|t: TransitionView| edge_line(self.id, t)),
            decreases ts.len() - k,
        {
            let t = &self.transitions[k];
            assert(ts[k as int] == t@);
            let mut l = String::new();
            push_text(&mut l, "  i");
            push_decimal(&mut l, self.id);
            push_text(&mut l, " -> i");
            push_decimal(&mut l, t.dest_id);
            push_text(&mut l, " [label=\"");
            push_char(&mut l, t.character);
            push_text(&mut l, "\"");
            if t.multiplicity > 1 {
                push_text(&mut l, ", color = \"black:black\"");
            }
            push_text(&mut l, "];");
            assert(l@ =~= edge_line(self.id, t@));
            push_line(&mut lines, l);
            assert(ts.take(k + 1).map_values(|t: TransitionView| edge_line(self.id, t))
                =~= ts.take(k as int).map_values(|t: TransitionView| edge_line(self.id, t)).push(edge_line(self.id, ts[k as int])));
            k += 1;
        }
        assert(ts.take(k as int) == ts);
        assert(string_views(lines@) =~= state_lines(self@));
        lines
    }
}

impl Pilot {
    /// The pilot drawn in Graphviz dot: each state a table of its
    /// candidates, each transition a labeled edge, doubled when several
    /// origins shift.
    pub fn to_dot(&self) -> (r: String)
        ensures
            r@ == pilot_dot(self@),
    {
        let mut drawn: Vec<String> = Vec::new();
        let mut i: usize = 0;
        while i < self.states.len()
            invariant
                i <= self@.len(),
                string_views(drawn@) == self@.take(i as int).map_values(|st: StateView| joined_lines(state_lines(st))),
            decreases self@.len() - i,
        {
            let lines = self.states[i].dot_lines();
            let mut s = String::new();
            push_lines(&mut s, &lines);
            assert(self@[i as int] == self.states@[i as int]@);
            push_line(&mut drawn, s);
            assert(self@.take(i + 1).map_values(|st: StateView| joined_lines(state_lines(st)))
                =~= self@.take(i as int).map_values(|st: StateView| joined_lines(state_lines(st))).push(joined_lines(state_lines(self@[i as int]))));
            i += 1;
        }
        assert(self@.take(i as int) == self@);
        let mut r = String::new();
        push_text(&mut r, "digraph {\n  node [shape=\"plain\", forcelabels=true];\n");
        push_lines(&mut r, &drawn);
        push_text(&mut r, "\n}");
        assert(r@ =~= pilot_dot(self@));
        r
    }
}

} // verus!
