//! Textual output: the automaton in plain and Graphviz DOT form, and the
//! action/goto tables with conflicting actions joined by `/`.  Each
//! renderer's output equals a spec-level text function, so the printed
//! form is a function of its input alone.

use crate::ast::FlatRuleDef;
use crate::bytes::{dec_digits, push_bytes, render_usize};
use crate::lr::{LrAction, LrGraph, LrTable, LrTableEntry, ProdState, graph_wf, items_in_bounds};
use vstd::prelude::*;

verus! {

/// `s<n>` for a shift, `r<n>` for a reduce, `acc` for accept.
pub open spec fn action_text(a: LrAction) -> Seq<u8> {
    match a {
        LrAction::Shift(n) => seq![115u8] + dec_digits(n as nat),
        LrAction::Reduce(n) => seq![114u8] + dec_digits(n as nat),
        LrAction::Accept => seq![97u8, 99u8, 99u8],
    }
}

/// Render one action.
pub fn render_action(a: &LrAction) -> (r: Vec<u8>)
    ensures
        r@ == action_text(*a),
{
    let mut r: Vec<u8> = Vec::new();
    match a {
        LrAction::Shift(n) => {
            r.push(115);
            let d = render_usize(*n);
            push_bytes(&mut r, &d);
            assert(r@ =~= action_text(*a));
        },
        LrAction::Reduce(n) => {
            r.push(114);
            let d = render_usize(*n);
            push_bytes(&mut r, &d);
            assert(r@ =~= action_text(*a));
        },
        LrAction::Accept => {
            r.push(97);
            r.push(99);
            r.push(99);
            assert(r@ =~= action_text(*a));
        },
    }
    r
}

/// The first `k` symbols of the rule, each preceded by a space, with
/// ` .` before the symbol at the dot position.
pub open spec fn syms_dot_text(rule: FlatRuleDef, pos: int, k: int) -> Seq<u8>
    decreases k,
{
    if k <= 0 {
        Seq::empty()
    } else {
        syms_dot_text(rule, pos, k - 1) + (if k - 1 == pos {
            seq![32u8, 46u8]
        } else {
            Seq::empty()
        }) + seq![32u8] + rule.prod@[k - 1].spec_name()
    }
}

/// One item in the form `Name ::= sym .. . sym ..`, the dot at the item's
/// position (after the last symbol for a completed item).
pub open spec fn item_text(rules: Seq<FlatRuleDef>, it: ProdState) -> Seq<u8> {
    let rule = rules[it.rule_index as int];
    rule.name@ + seq![32u8, 58u8, 58u8, 61u8] + syms_dot_text(
        rule,
        it.position as int,
        rule.prod@.len() as int,
    ) + (if it.position == rule.prod@.len() {
        seq![32u8, 46u8]
    } else {
        Seq::empty()
    })
}

/// Append one rendered item.
fn render_item(rules: &Vec<FlatRuleDef>, it: ProdState, out: &mut Vec<u8>)
    requires
        it.rule_index < rules@.len(),
        it.position <= rules@[it.rule_index as int].prod@.len(),
    ensures
        final(out)@ == old(out)@ + item_text(rules@, it),
{
    let rule = &rules[it.rule_index];
    push_bytes(out, &rule.name);
    out.push(32);
    out.push(58);
    out.push(58);
    out.push(61);
    proof {
        assert(out@ =~= old(out)@ + rule.name@ + seq![32u8, 58u8, 58u8, 61u8]);
        assert(syms_dot_text(*rule, it.position as int, 0) =~= Seq::<u8>::empty());
        assert(out@ =~= old(out)@ + rule.name@ + seq![32u8, 58u8, 58u8, 61u8] + syms_dot_text(
            *rule,
            it.position as int,
            0,
        ));
    }
    let mut k: usize = 0;
    while k < rule.prod.len()
        invariant
            it.rule_index < rules@.len(),
            *rule == rules@[it.rule_index as int],
            k <= rule.prod@.len(),
            out@ == old(out)@ + rule.name@ + seq![32u8, 58u8, 58u8, 61u8] + syms_dot_text(
                *rule,
                it.position as int,
                k as int,
            ),
        decreases rule.prod@.len() - k,
    {
        let ghost pre = out@;
        if k == it.position {
            out.push(32);
            out.push(46);
        }
        out.push(32);
        let name = rule.prod[k].name();
        push_bytes(out, &name);
        proof {
            if k as int == it.position as int {
                assert(out@ =~= pre + seq![32u8, 46u8] + seq![32u8]
                    + rule.prod@[k as int].spec_name());
            } else {
                assert(out@ =~= pre + seq![32u8] + rule.prod@[k as int].spec_name());
            }
            assert(out@ =~= old(out)@ + rule.name@ + seq![32u8, 58u8, 58u8, 61u8]
                + syms_dot_text(*rule, it.position as int, k + 1));
        }
        k = k + 1;
    }
    if it.position == rule.prod.len() {
        out.push(32);
        out.push(46);
    }
    proof {
        assert(out@ =~= old(out)@ + item_text(rules@, it));
    }
}

/// The first `a` items of a state, each followed by `, `.
pub open spec fn items_text(rules: Seq<FlatRuleDef>, items: Seq<ProdState>, a: int) -> Seq<u8>
    decreases a,
{
    if a <= 0 {
        Seq::empty()
    } else {
        items_text(rules, items, a - 1) + item_text(rules, items[a - 1]) + seq![44u8, 32u8]
    }
}

/// The first `e` edges in the form ` name -> target`.
pub open spec fn edges_plain_text(edges: Seq<(crate::ast::FlatProd, usize)>, e: int) -> Seq<u8>
    decreases e,
{
    if e <= 0 {
        Seq::empty()
    } else {
        edges_plain_text(edges, e - 1) + seq![32u8] + edges[e - 1].0.spec_name() + seq![
            32u8,
            45u8,
            62u8,
            32u8,
        ] + dec_digits(edges[e - 1].1 as nat)
    }
}

/// The text `Edges: `.
pub open spec fn edges_label() -> Seq<u8> {
    seq![69u8, 100u8, 103u8, 101u8, 115u8, 58u8, 32u8]
}

/// One state in plain form: its index, items, and edge list.
pub open spec fn state_plain_text(rules: Seq<FlatRuleDef>, st: crate::lr::LrState, s: int) -> Seq<
    u8,
> {
    dec_digits(s as nat) + seq![58u8, 32u8] + items_text(rules, st.prods@, st.prods@.len() as int)
        + seq![10u8] + edges_label() + edges_plain_text(st.edges@, st.edges@.len() as int) + seq![
        10u8,
    ]
}

/// The first `s` states in plain form.
pub open spec fn graph_plain_text(rules: Seq<FlatRuleDef>, g: LrGraph, s: int) -> Seq<u8>
    decreases s,
{
    if s <= 0 {
        Seq::empty()
    } else {
        graph_plain_text(rules, g, s - 1) + state_plain_text(rules, g.states@[s - 1], s - 1)
    }
}

fn push_edges_label(out: &mut Vec<u8>)
    ensures
        final(out)@ == old(out)@ + edges_label(),
{
    out.push(69);
    out.push(100);
    out.push(103);
    out.push(101);
    out.push(115);
    out.push(58);
    out.push(32);
    assert(out@ =~= old(out)@ + edges_label());
}

impl LrGraph {
    /// The automaton in plain form: per state its items, then its edges.
    pub fn to_text(&self, rules: &Vec<FlatRuleDef>) -> (out: Vec<u8>)
        requires
            graph_wf(rules@, *self),
        ensures
            out@ == graph_plain_text(rules@, *self, self.states@.len() as int),
    {
        let mut out: Vec<u8> = Vec::new();
        let mut s: usize = 0;
        while s < self.states.len()
            invariant
                graph_wf(rules@, *self),
                s <= self.states@.len(),
                out@ == graph_plain_text(rules@, *self, s as int),
            decreases self.states@.len() - s,
        {
            let ghost pre = out@;
            let d = render_usize(s);
            push_bytes(&mut out, &d);
            out.push(58);
            out.push(32);
            proof {
                assert(out@ =~= pre + dec_digits(s as nat) + seq![58u8, 32u8]);
                assert(items_text(rules@, self.states@[s as int].prods@, 0)
                    =~= Seq::<u8>::empty());
                assert(out@ =~= pre + dec_digits(s as nat) + seq![58u8, 32u8] + items_text(
                    rules@,
                    self.states@[s as int].prods@,
                    0,
                ));
            }
            let mut a: usize = 0;
            while a < self.states[s].prods.len()
                invariant
                    graph_wf(rules@, *self),
                    s < self.states@.len(),
                    a <= self.states@[s as int].prods@.len(),
                    out@ == pre + dec_digits(s as nat) + seq![58u8, 32u8] + items_text(
                        rules@,
                        self.states@[s as int].prods@,
                        a as int,
                    ),
                decreases self.states@[s as int].prods@.len() - a,
            {
                let ghost mid = out@;
                proof {
                    assert(items_in_bounds(rules@, self.states@[s as int].prods@));
                }
                render_item(rules, self.states[s].prods[a], &mut out);
                out.push(44);
                out.push(32);
                proof {
                    assert(out@ =~= mid + item_text(
                        rules@,
                        self.states@[s as int].prods@[a as int],
                    ) + seq![44u8, 32u8]);
                    assert(out@ =~= pre + dec_digits(s as nat) + seq![58u8, 32u8] + items_text(
                        rules@,
                        self.states@[s as int].prods@,
                        a + 1,
                    ));
                }
                a = a + 1;
            }
            out.push(10);
            push_edges_label(&mut out);
            let ghost head = out@;
            proof {
                assert(edges_plain_text(self.states@[s as int].edges@, 0) =~= Seq::<u8>::empty());
                assert(out@ =~= head + edges_plain_text(self.states@[s as int].edges@, 0));
            }
            let mut e: usize = 0;
            while e < self.states[s].edges.len()
                invariant
                    graph_wf(rules@, *self),
                    s < self.states@.len(),
                    e <= self.states@[s as int].edges@.len(),
                    out@ == head + edges_plain_text(self.states@[s as int].edges@, e as int),
                decreases self.states@[s as int].edges@.len() - e,
            {
                let ghost mid = out@;
                out.push(32);
                let name = self.states[s].edges[e].0.name();
                push_bytes(&mut out, &name);
                out.push(32);
                out.push(45);
                out.push(62);
                out.push(32);
                let d2 = render_usize(self.states[s].edges[e].1);
                push_bytes(&mut out, &d2);
                proof {
                    assert(out@ =~= mid + seq![32u8]
                        + self.states@[s as int].edges@[e as int].0.spec_name() + seq![
                        32u8,
                        45u8,
                        62u8,
                        32u8,
                    ] + dec_digits(self.states@[s as int].edges@[e as int].1 as nat));
                    assert(out@ =~= head + edges_plain_text(
                        self.states@[s as int].edges@,
                        e + 1,
                    ));
                }
                e = e + 1;
            }
            out.push(10);
            proof {
                assert(out@ =~= pre + state_plain_text(rules@, self.states@[s as int], s as int));
                assert(out@ =~= graph_plain_text(rules@, *self, s + 1));
            }
            s = s + 1;
        }
        out
    }

    /// The automaton as a Graphviz DOT digraph: one box per state labelled
    /// with its items, one edge per transition labelled with its symbol.
    pub fn print_dot(&self, rules: &Vec<FlatRuleDef>) -> (out: Vec<u8>)
        requires
            graph_wf(rules@, *self),
        ensures
            out@ == dot_header() + graph_dot_text(rules@, *self, self.states@.len() as int)
                + seq![125u8, 10u8],
    {
        let mut out: Vec<u8> = Vec::new();
        push_dot_header(&mut out);
        proof {
            assert(out@ =~= dot_header());
            assert(out@ =~= dot_header() + graph_dot_text(rules@, *self, 0));
        }
        let mut s: usize = 0;
        while s < self.states.len()
            invariant
                graph_wf(rules@, *self),
                s <= self.states@.len(),
                out@ == dot_header() + graph_dot_text(rules@, *self, s as int),
            decreases self.states@.len() - s,
        {
            let ghost pre = out@;
            let d = render_usize(s);
            push_bytes(&mut out, &d);
            push_node_open(&mut out);
            push_bytes(&mut out, &d);
            out.push(58);
            proof {
                assert(out@ =~= pre + dec_digits(s as nat) + node_open() + dec_digits(s as nat)
                    + seq![58u8]);
                assert(items_dot_text(rules@, self.states@[s as int].prods@, 0)
                    =~= Seq::<u8>::empty());
                assert(out@ =~= pre + dec_digits(s as nat) + node_open() + dec_digits(s as nat)
                    + seq![58u8] + items_dot_text(rules@, self.states@[s as int].prods@, 0));
            }
            let mut a: usize = 0;
            while a < self.states[s].prods.len()
                invariant
                    graph_wf(rules@, *self),
                    s < self.states@.len(),
                    a <= self.states@[s as int].prods@.len(),
                    out@ == pre + dec_digits(s as nat) + node_open() + dec_digits(s as nat)
                        + seq![58u8] + items_dot_text(
                        rules@,
                        self.states@[s as int].prods@,
                        a as int,
                    ),
                decreases self.states@[s as int].prods@.len() - a,
            {
                let ghost mid = out@;
                proof {
                    assert(items_in_bounds(rules@, self.states@[s as int].prods@));
                }
                render_item(rules, self.states[s].prods[a], &mut out);
                out.push(92);
                out.push(110);
                proof {
                    assert(out@ =~= mid + item_text(
                        rules@,
                        self.states@[s as int].prods@[a as int],
                    ) + seq![92u8, 110u8]);
                    assert(out@ =~= pre + dec_digits(s as nat) + node_open() + dec_digits(
                        s as nat,
                    ) + seq![58u8] + items_dot_text(
                        rules@,
                        self.states@[s as int].prods@,
                        a + 1,
                    ));
                }
                a = a + 1;
            }
            push_node_close(&mut out);
            let ghost head = out@;
            proof {
                assert(edges_dot_text(s as nat, self.states@[s as int].edges@, 0)
                    =~= Seq::<u8>::empty());
                assert(out@ =~= head + edges_dot_text(s as nat, self.states@[s as int].edges@, 0));
            }
            let mut e: usize = 0;
            while e < self.states[s].edges.len()
                invariant
                    graph_wf(rules@, *self),
                    s < self.states@.len(),
                    e <= self.states@[s as int].edges@.len(),
                    out@ == head + edges_dot_text(
                        s as nat,
                        self.states@[s as int].edges@,
                        e as int,
                    ),
                decreases self.states@[s as int].edges@.len() - e,
            {
                let ghost mid = out@;
                let d1 = render_usize(s);
                push_bytes(&mut out, &d1);
                push_arrow(&mut out);
                let d2 = render_usize(self.states[s].edges[e].1);
                push_bytes(&mut out, &d2);
                push_label_open(&mut out);
                let name = self.states[s].edges[e].0.name();
                push_bytes(&mut out, &name);
                push_label_close(&mut out);
                proof {
                    assert(out@ =~= mid + dec_digits(s as nat) + arrow_text() + dec_digits(
                        self.states@[s as int].edges@[e as int].1 as nat,
                    ) + label_open() + self.states@[s as int].edges@[e as int].0.spec_name()
                        + label_close());
                    assert(out@ =~= head + edges_dot_text(
                        s as nat,
                        self.states@[s as int].edges@,
                        e + 1,
                    ));
                }
                e = e + 1;
            }
            proof {
                assert(out@ =~= pre + state_dot_text(rules@, self.states@[s as int], s as int));
                assert(out@ =~= dot_header() + graph_dot_text(rules@, *self, s + 1));
            }
            s = s + 1;
        }
        out.push(125);
        out.push(10);
        proof {
            assert(out@ =~= dot_header() + graph_dot_text(
                rules@,
                *self,
                self.states@.len() as int,
            ) + seq![125u8, 10u8]);
        }
        out
    }
}

/// The text `digraph {` with its newline.
pub open spec fn dot_header() -> Seq<u8> {
    seq![100u8, 105u8, 103u8, 114u8, 97u8, 112u8, 104u8, 32u8, 123u8, 10u8]
}

/// The text `[shape=box, label="I`.
pub open spec fn node_open() -> Seq<u8> {
    seq![
        91u8, 115u8, 104u8, 97u8, 112u8, 101u8, 61u8, 98u8, 111u8, 120u8, 44u8, 32u8, 108u8,
        97u8, 98u8, 101u8, 108u8, 61u8, 34u8, 73u8,
    ]
}

/// The text `"]` with its newline.
pub open spec fn node_close() -> Seq<u8> {
    seq![34u8, 93u8, 10u8]
}

/// The text ` -> `.
pub open spec fn arrow_text() -> Seq<u8> {
    seq![32u8, 45u8, 62u8, 32u8]
}

/// The text ` [label="`.
pub open spec fn label_open() -> Seq<u8> {
    seq![32u8, 91u8, 108u8, 97u8, 98u8, 101u8, 108u8, 61u8, 34u8]
}

/// The text `"]` with its newline.
pub open spec fn label_close() -> Seq<u8> {
    seq![34u8, 93u8, 10u8]
}

/// The first `a` items, each followed by a literal `\n`.
pub open spec fn items_dot_text(rules: Seq<FlatRuleDef>, items: Seq<ProdState>, a: int) -> Seq<u8>
    decreases a,
{
    if a <= 0 {
        Seq::empty()
    } else {
        items_dot_text(rules, items, a - 1) + item_text(rules, items[a - 1]) + seq![92u8, 110u8]
    }
}

/// The first `e` edge lines of state `s`.
pub open spec fn edges_dot_text(s: nat, edges: Seq<(crate::ast::FlatProd, usize)>, e: int) -> Seq<
    u8,
>
    decreases e,
{
    if e <= 0 {
        Seq::empty()
    } else {
        edges_dot_text(s, edges, e - 1) + dec_digits(s) + arrow_text() + dec_digits(
            edges[e - 1].1 as nat,
        ) + label_open() + edges[e - 1].0.spec_name() + label_close()
    }
}

/// One state's node line and edge lines.
pub open spec fn state_dot_text(rules: Seq<FlatRuleDef>, st: crate::lr::LrState, s: int) -> Seq<
    u8,
> {
    dec_digits(s as nat) + node_open() + dec_digits(s as nat) + seq![58u8] + items_dot_text(
        rules,
        st.prods@,
        st.prods@.len() as int,
    ) + node_close() + edges_dot_text(s as nat, st.edges@, st.edges@.len() as int)
}

/// The first `s` states in DOT form (without header and footer).
pub open spec fn graph_dot_text(rules: Seq<FlatRuleDef>, g: LrGraph, s: int) -> Seq<u8>
    decreases s,
{
    if s <= 0 {
        Seq::empty()
    } else {
        graph_dot_text(rules, g, s - 1) + state_dot_text(rules, g.states@[s - 1], s - 1)
    }
}

fn push_dot_header(out: &mut Vec<u8>)
    ensures
        final(out)@ == old(out)@ + dot_header(),
{
    out.push(100);
    out.push(105);
    out.push(103);
    out.push(114);
    out.push(97);
    out.push(112);
    out.push(104);
    out.push(32);
    out.push(123);
    out.push(10);
    assert(out@ =~= old(out)@ + dot_header());
}

fn push_node_open(out: &mut Vec<u8>)
    ensures
        final(out)@ == old(out)@ + node_open(),
{
    out.push(91);
    out.push(115);
    out.push(104);
    out.push(97);
    out.push(112);
    out.push(101);
    out.push(61);
    out.push(98);
    out.push(111);
    out.push(120);
    out.push(44);
    out.push(32);
    out.push(108);
    out.push(97);
    out.push(98);
    out.push(101);
    out.push(108);
    out.push(61);
    out.push(34);
    out.push(73);
    assert(out@ =~= old(out)@ + node_open());
}

fn push_node_close(out: &mut Vec<u8>)
    ensures
        final(out)@ == old(out)@ + node_close(),
{
    out.push(34);
    out.push(93);
    out.push(10);
    assert(out@ =~= old(out)@ + node_close());
}

fn push_arrow(out: &mut Vec<u8>)
    ensures
        final(out)@ == old(out)@ + arrow_text(),
{
    out.push(32);
    out.push(45);
    out.push(62);
    out.push(32);
    assert(out@ =~= old(out)@ + arrow_text());
}

fn push_label_open(out: &mut Vec<u8>)
    ensures
        final(out)@ == old(out)@ + label_open(),
{
    out.push(32);
    out.push(91);
    out.push(108);
    out.push(97);
    out.push(98);
    out.push(101);
    out.push(108);
    out.push(61);
    out.push(34);
    assert(out@ =~= old(out)@ + label_open());
}

fn push_label_close(out: &mut Vec<u8>)
    ensures
        final(out)@ == old(out)@ + label_close(),
{
    out.push(34);
    out.push(93);
    out.push(10);
    assert(out@ =~= old(out)@ + label_close());
}

/// The text `State` with its tab.
pub open spec fn table_header() -> Seq<u8> {
    seq![83u8, 116u8, 97u8, 116u8, 101u8, 9u8]
}

/// The first `j` column names, each followed by a tab.
pub open spec fn cols_text(cols: Seq<Vec<u8>>, j: int) -> Seq<u8>
    decreases j,
{
    if j <= 0 {
        Seq::empty()
    } else {
        cols_text(cols, j - 1) + cols[j - 1]@ + seq![9u8]
    }
}

/// The first `k` actions of a cell, joined by `/`.
pub open spec fn cell_text(cell: Seq<LrAction>, k: int) -> Seq<u8>
    decreases k,
{
    if k <= 0 {
        Seq::empty()
    } else {
        cell_text(cell, k - 1) + (if k - 1 > 0 {
            seq![47u8]
        } else {
            Seq::empty()
        }) + action_text(cell[k - 1])
    }
}

/// The first `j` action cells of a row, each followed by a tab.
pub open spec fn row_actions_text(row: LrTableEntry, j: int) -> Seq<u8>
    decreases j,
{
    if j <= 0 {
        Seq::empty()
    } else {
        row_actions_text(row, j - 1) + cell_text(
            row.actions@[j - 1]@,
            row.actions@[j - 1]@.len() as int,
        ) + seq![9u8]
    }
}

/// The first `m` goto cells of a row, each followed by a tab.
pub open spec fn row_gotos_text(row: LrTableEntry, m: int) -> Seq<u8>
    decreases m,
{
    if m <= 0 {
        Seq::empty()
    } else {
        row_gotos_text(row, m - 1) + (match row.goto_row@[m - 1] {
            Some(tgt) => dec_digits(tgt as nat),
            None => Seq::empty(),
        }) + seq![9u8]
    }
}

/// One table row: the state index, the action cells, the goto cells.
pub open spec fn row_text(row: LrTableEntry, s: int) -> Seq<u8> {
    dec_digits(s as nat) + seq![9u8] + row_actions_text(row, row.actions@.len() as int)
        + row_gotos_text(row, row.goto_row@.len() as int) + seq![10u8]
}

/// The first `s` rows.
pub open spec fn rows_text(t: LrTable, s: int) -> Seq<u8>
    decreases s,
{
    if s <= 0 {
        Seq::empty()
    } else {
        rows_text(t, s - 1) + row_text(t.rows@[s - 1], s - 1)
    }
}

/// The whole table: header row, then one line per state.
pub open spec fn table_text(t: LrTable) -> Seq<u8> {
    table_header() + cols_text(t.terminals@, t.terminals@.len() as int) + cols_text(
        t.non_terminals@,
        t.non_terminals@.len() as int,
    ) + seq![10u8] + rows_text(t, t.rows@.len() as int)
}

fn push_table_header(out: &mut Vec<u8>)
    ensures
        final(out)@ == old(out)@ + table_header(),
{
    out.push(83);
    out.push(116);
    out.push(97);
    out.push(116);
    out.push(101);
    out.push(9);
    assert(out@ =~= old(out)@ + table_header());
}

impl LrTable {
    /// The table in tab-separated form: a header of the sorted terminal
    /// and nonterminal columns, then one row per state with the actions of
    /// each cell joined by `/`.
    pub fn to_text(&self) -> (out: Vec<u8>)
        ensures
            out@ == table_text(*self),
    {
        let mut out: Vec<u8> = Vec::new();
        push_table_header(&mut out);
        proof {
            assert(cols_text(self.terminals@, 0) =~= Seq::<u8>::empty());
            assert(out@ =~= table_header() + cols_text(self.terminals@, 0));
        }
        let mut j: usize = 0;
        while j < self.terminals.len()
            invariant
                j <= self.terminals@.len(),
                out@ == table_header() + cols_text(self.terminals@, j as int),
            decreases self.terminals@.len() - j,
        {
            let ghost mid = out@;
            push_bytes(&mut out, &self.terminals[j]);
            out.push(9);
            proof {
                assert(out@ =~= mid + self.terminals@[j as int]@ + seq![9u8]);
                assert(out@ =~= table_header() + cols_text(self.terminals@, j + 1));
            }
            j = j + 1;
        }
        let ghost th = out@;
        proof {
            assert(cols_text(self.non_terminals@, 0) =~= Seq::<u8>::empty());
            assert(out@ =~= th + cols_text(self.non_terminals@, 0));
        }
        let mut m: usize = 0;
        while m < self.non_terminals.len()
            invariant
                m <= self.non_terminals@.len(),
                out@ == th + cols_text(self.non_terminals@, m as int),
            decreases self.non_terminals@.len() - m,
        {
            let ghost mid = out@;
            push_bytes(&mut out, &self.non_terminals[m]);
            out.push(9);
            proof {
                assert(out@ =~= mid + self.non_terminals@[m as int]@ + seq![9u8]);
                assert(out@ =~= th + cols_text(self.non_terminals@, m + 1));
            }
            m = m + 1;
        }
        out.push(10);
        let ghost hdr = out@;
        proof {
            assert(rows_text(*self, 0) =~= Seq::<u8>::empty());
            assert(out@ =~= hdr + rows_text(*self, 0));
        }
        let mut s: usize = 0;
        while s < self.rows.len()
            invariant
                s <= self.rows@.len(),
                out@ == hdr + rows_text(*self, s as int),
            decreases self.rows@.len() - s,
        {
            let ghost pre = out@;
            let d = render_usize(s);
            push_bytes(&mut out, &d);
            out.push(9);
            proof {
                assert(out@ =~= pre + dec_digits(s as nat) + seq![9u8]);
                assert(row_actions_text(self.rows@[s as int], 0) =~= Seq::<u8>::empty());
                assert(out@ =~= pre + dec_digits(s as nat) + seq![9u8] + row_actions_text(
                    self.rows@[s as int],
                    0,
                ));
            }
            let mut j2: usize = 0;
            while j2 < self.rows[s].actions.len()
                invariant
                    s < self.rows@.len(),
                    j2 <= self.rows@[s as int].actions@.len(),
                    out@ == pre + dec_digits(s as nat) + seq![9u8] + row_actions_text(
                        self.rows@[s as int],
                        j2 as int,
                    ),
                decreases self.rows@[s as int].actions@.len() - j2,
            {
                let ghost mid = out@;
                proof {
                    assert(cell_text(self.rows@[s as int].actions@[j2 as int]@, 0)
                        =~= Seq::<u8>::empty());
                    assert(out@ =~= mid + cell_text(
                        self.rows@[s as int].actions@[j2 as int]@,
                        0,
                    ));
                }
                let mut k: usize = 0;
                while k < self.rows[s].actions[j2].len()
                    invariant
                        s < self.rows@.len(),
                        j2 < self.rows@[s as int].actions@.len(),
                        k <= self.rows@[s as int].actions@[j2 as int]@.len(),
                        out@ == mid + cell_text(
                            self.rows@[s as int].actions@[j2 as int]@,
                            k as int,
                        ),
                    decreases self.rows@[s as int].actions@[j2 as int]@.len() - k,
                {
                    let ghost cpre = out@;
                    if k > 0 {
                        out.push(47);
                    }
                    let cell = render_action(&self.rows[s].actions[j2][k]);
                    push_bytes(&mut out, &cell);
                    proof {
                        if k > 0 {
                            assert(out@ =~= cpre + seq![47u8] + action_text(
                                self.rows@[s as int].actions@[j2 as int]@[k as int],
                            ));
                        } else {
                            assert(out@ =~= cpre + action_text(
                                self.rows@[s as int].actions@[j2 as int]@[k as int],
                            ));
                        }
                        assert(out@ =~= mid + cell_text(
                            self.rows@[s as int].actions@[j2 as int]@,
                            k + 1,
                        ));
                    }
                    k = k + 1;
                }
                out.push(9);
                proof {
                    assert(out@ =~= mid + cell_text(
                        self.rows@[s as int].actions@[j2 as int]@,
                        self.rows@[s as int].actions@[j2 as int]@.len() as int,
                    ) + seq![9u8]);
                    assert(out@ =~= pre + dec_digits(s as nat) + seq![9u8] + row_actions_text(
                        self.rows@[s as int],
                        j2 + 1,
                    ));
                }
                j2 = j2 + 1;
            }
            let ghost acts = out@;
            proof {
                assert(row_gotos_text(self.rows@[s as int], 0) =~= Seq::<u8>::empty());
                assert(out@ =~= acts + row_gotos_text(self.rows@[s as int], 0));
            }
            let mut m2: usize = 0;
            while m2 < self.rows[s].goto_row.len()
                invariant
                    s < self.rows@.len(),
                    m2 <= self.rows@[s as int].goto_row@.len(),
                    out@ == acts + row_gotos_text(self.rows@[s as int], m2 as int),
                decreases self.rows@[s as int].goto_row@.len() - m2,
            {
                let ghost mid = out@;
                match self.rows[s].goto_row[m2] {
                    Some(tgt) => {
                        let d2 = render_usize(tgt);
                        push_bytes(&mut out, &d2);
                    },
                    None => {},
                }
                out.push(9);
                proof {
                    match self.rows@[s as int].goto_row@[m2 as int] {
                        Some(tgt) => {
                            assert(out@ =~= mid + dec_digits(tgt as nat) + seq![9u8]);
                        },
                        None => {
                            assert(out@ =~= mid + seq![9u8]);
                        },
                    }
                    assert(out@ =~= acts + row_gotos_text(self.rows@[s as int], m2 + 1));
                }
                m2 = m2 + 1;
            }
            out.push(10);
            proof {
                assert(out@ =~= pre + row_text(self.rows@[s as int], s as int));
                assert(out@ =~= hdr + rows_text(*self, s + 1));
            }
            s = s + 1;
        }
        out
    }
}

} // verus!
