use ebnf_tools::ast::{FlatProd, FlatRuleDef};
use ebnf_tools::errors::{Error, ErrorKind, Errors, Loc};
use ebnf_tools::flatten::flatten;
use ebnf_tools::gen::Generate;
use ebnf_tools::ll::{first_set, follow_set};
use ebnf_tools::lr::{lr0_table, lr_graph, slr1_table, LrAction};
use ebnf_tools::reader::work;
use ebnf_tools::render::render_action;

fn read(src: &str) -> ebnf_tools::ast::File {
    match work(&src.as_bytes().to_vec()) {
        Ok(f) => f,
        Err(_) => panic!("grammar should parse"),
    }
}

fn flat_names(rules: &Vec<FlatRuleDef>) -> Vec<String> {
    rules
        .iter()
        .map(|r| String::from_utf8(r.name.clone()).unwrap())
        .collect()
}

fn syms(rule: &FlatRuleDef) -> Vec<String> {
    rule.prod
        .iter()
        .map(|p| String::from_utf8(p.name()).unwrap())
        .collect()
}

fn set_of(ts: &ebnf_tools::ll::TermSet, name: &str) -> Vec<String> {
    ts.get(&name.as_bytes().to_vec())
        .expect("name should be a key")
        .into_iter()
        .map(|v| String::from_utf8(v).unwrap())
        .collect()
}

#[test]
fn scenario_optional_flattening() {
    let f = read("S ::= 'a'? ;");
    let flat = flatten(&f);
    assert_eq!(flat_names(&flat), vec!["S", "S_opt0", "S_opt0"]);
    assert_eq!(syms(&flat[0]), vec!["S_opt0"]);
    assert_eq!(syms(&flat[1]), vec!["'a'"]);
    assert_eq!(syms(&flat[2]), vec!["_"]);
    let first = first_set(&flat);
    assert_eq!(set_of(&first, "S"), vec!["_", "'a'"]);
    let follow = follow_set(&flat, &first);
    assert_eq!(set_of(&follow, "S"), vec!["#"]);
}

#[test]
fn scenario_star_expansion() {
    let f = read("L ::= 'x'* ;");
    let flat = flatten(&f);
    assert_eq!(flat_names(&flat), vec!["L", "L_star0", "L_star0"]);
    assert_eq!(syms(&flat[1]), vec!["'x'", "L_star0"]);
    assert_eq!(syms(&flat[2]), vec!["_"]);
    let first = first_set(&flat);
    assert_eq!(set_of(&first, "L"), vec!["_", "'x'"]);
    assert_eq!(set_of(&first, "L_star0"), vec!["_", "'x'"]);
}

#[test]
fn scenario_plus_expansion() {
    let f = read("P ::= 'y'+ ;");
    let flat = flatten(&f);
    // 'y'+ lowers to 'y' followed by a fresh star of 'y'.
    assert_eq!(syms(&flat[0]), vec!["'y'", "P_star0"]);
    let first = first_set(&flat);
    assert_eq!(set_of(&first, "P"), vec!["'y'"]);
}

#[test]
fn scenario_epsilon_rule() {
    let f = read("S ::= _ ;");
    let flat = flatten(&f);
    assert_eq!(flat_names(&flat), vec!["S"]);
    assert_eq!(syms(&flat[0]), vec!["_"]);
    let first = first_set(&flat);
    assert_eq!(set_of(&first, "S"), vec!["_"]);
    let graph = lr_graph(&flat);
    // The single item of the epsilon rule is already complete, so no edge
    // leaves the initial state and it accepts on `#`.
    assert_eq!(graph.states.len(), 1);
    let t = lr0_table(&flat, &graph);
    let hash_col = col_index(&t, "#");
    assert!(t.rows[0].actions[hash_col].contains(&LrAction::Accept));
}

fn col_index(t: &ebnf_tools::lr::LrTable, name: &str) -> usize {
    t.terminals
        .iter()
        .position(|c| c.as_slice() == name.as_bytes())
        .expect("column should exist")
}

fn nt_col_index(t: &ebnf_tools::lr::LrTable, name: &str) -> usize {
    t.non_terminals
        .iter()
        .position(|c| c.as_slice() == name.as_bytes())
        .expect("column should exist")
}

#[test]
fn scenario_arithmetic_first_follow() {
    let f = read(
        "E ::= E '+' T | T ;\n\
         T ::= T '*' F | F ;\n\
         F ::= '(' E ')' | 'id' ;",
    );
    let flat = flatten(&f);
    assert_eq!(flat.len(), 6);
    let first = first_set(&flat);
    assert_eq!(set_of(&first, "E"), vec!["'('", "'id'"]);
    assert_eq!(set_of(&first, "T"), vec!["'('", "'id'"]);
    assert_eq!(set_of(&first, "F"), vec!["'('", "'id'"]);
    let follow = follow_set(&flat, &first);
    assert_eq!(set_of(&follow, "E"), vec!["#", "')'", "'+'"]);
}

#[test]
fn scenario_arithmetic_automaton_and_tables() {
    let f = read(
        "E ::= E '+' T | T ;\n\
         T ::= T '*' F | F ;\n\
         F ::= '(' E ')' | 'id' ;",
    );
    let flat = flatten(&f);
    let graph = lr_graph(&flat);
    assert_eq!(graph.states.len(), 12);
    let first = first_set(&flat);
    let follow = follow_set(&flat, &first);
    let t0 = lr0_table(&flat, &graph);
    let t1 = slr1_table(&flat, &graph, &follow);
    // LR(0) has shift/reduce conflicts that SLR(1) resolves.
    let lr0_conflicts = t0
        .rows
        .iter()
        .flat_map(|r| r.actions.iter())
        .filter(|c| c.len() > 1)
        .count();
    let slr_conflicts = t1
        .rows
        .iter()
        .flat_map(|r| r.actions.iter())
        .filter(|c| c.len() > 1)
        .count();
    assert!(lr0_conflicts > 0);
    assert_eq!(slr_conflicts, 0);
    // Every SLR(1) reduce also stands in the LR(0) cell.
    for (s, row) in t1.rows.iter().enumerate() {
        for (j, cell) in row.actions.iter().enumerate() {
            for act in cell.iter() {
                if let LrAction::Reduce(_) = act {
                    assert!(t0.rows[s].actions[j].contains(act));
                }
            }
        }
    }
    // Goto columns are filled along nonterminal edges of state 0.
    let e_col = nt_col_index(&t0, "E");
    assert!(t0.rows[0].goto_row[e_col].is_some());
}

#[test]
fn scenario_ambiguity_preserved() {
    // Augmented by hand: the completing state of `S ::= S S .` then keeps
    // both its reduce and the shift of a further `S S`.
    let f = read("G ::= S ;\nS ::= S S | 'a' ;");
    let flat = flatten(&f);
    let graph = lr_graph(&flat);
    let t0 = lr0_table(&flat, &graph);
    // Some cell must carry both a shift and a reduce.
    let mut saw_conflict = false;
    for row in t0.rows.iter() {
        for cell in row.actions.iter() {
            let shifts = cell.iter().any(|a| matches!(a, LrAction::Shift(_)));
            let reduces = cell.iter().any(|a| matches!(a, LrAction::Reduce(_)));
            if shifts && reduces {
                saw_conflict = true;
            }
        }
    }
    assert!(saw_conflict);
}

#[test]
fn accept_is_unique_in_arithmetic() {
    let f = read(
        "S ::= E ;\n\
         E ::= E '+' 'id' | 'id' ;",
    );
    let flat = flatten(&f);
    let graph = lr_graph(&flat);
    let t0 = lr0_table(&flat, &graph);
    let hash_col = col_index(&t0, "#");
    let accepting: Vec<usize> = t0
        .rows
        .iter()
        .enumerate()
        .filter(|(_, r)| r.actions[hash_col].contains(&LrAction::Accept))
        .map(|(s, _)| s)
        .collect();
    assert_eq!(accepting.len(), 1);
}

#[test]
fn determinism_byte_identical() {
    let src = "E ::= E '+' T | T ;\nT ::= 'x'* | ('y' 'z')? ;";
    let run = || {
        let f = read(src);
        let flat = flatten(&f);
        let graph = lr_graph(&flat);
        let first = first_set(&flat);
        let follow = follow_set(&flat, &first);
        let t0 = lr0_table(&flat, &graph);
        let t1 = slr1_table(&flat, &graph, &follow);
        let mut out = graph.to_text(&flat);
        out.extend(graph.print_dot(&flat));
        out.extend(t0.to_text());
        out.extend(t1.to_text());
        out
    };
    assert_eq!(run(), run());
}

#[test]
fn reader_reports_unrecognized_char() {
    let r = work(&"S ::= @ ;".as_bytes().to_vec());
    let errs = match r {
        Err(e) => e,
        Ok(_) => panic!("should fail"),
    };
    assert_eq!(errs.0.len(), 1);
    match errs.0[0].1 {
        ErrorKind::UnrecognizedChar(c) => assert_eq!(c, '@'),
        _ => panic!("wrong error kind"),
    }
    assert_eq!(errs.0[0].0 .0, 1);
    assert_eq!(errs.0[0].0 .1, 7);
}

#[test]
fn reader_reports_syntax_error() {
    let r = work(&"S ::= ;".as_bytes().to_vec());
    let errs = match r {
        Err(e) => e,
        Ok(_) => panic!("should fail"),
    };
    assert_eq!(errs.0.len(), 1);
    assert!(matches!(errs.0[0].1, ErrorKind::SyntaxError));
}

#[test]
fn reader_accepts_comments_and_groups() {
    let f = read("// a grammar\nS ::= ('a' 'b')? 'c' ; // trailing\n");
    assert_eq!(f.rules.len(), 1);
    let flat = flatten(&f);
    assert!(flat.len() >= 1);
}

#[test]
fn reader_rejects_lone_colon() {
    let r = work(&"S : 'a' ;".as_bytes().to_vec());
    let errs = match r {
        Err(e) => e,
        Ok(_) => panic!("should fail"),
    };
    assert!(matches!(errs.0[0].1, ErrorKind::UnrecognizedChar(':')));
}

#[test]
fn reader_rejects_unterminated_literal() {
    let r = work(&"S ::= 'a ;".as_bytes().to_vec());
    let errs = match r {
        Err(e) => e,
        Ok(_) => panic!("should fail"),
    };
    assert!(matches!(errs.0[0].1, ErrorKind::UnrecognizedChar('\'')));
}

#[test]
fn deeply_nested_operators_flatten() {
    let f = read("S ::= ((('a'?)*)+)? ;");
    let flat = flatten(&f);
    // Each operator introduces its own auxiliary pair of rules.
    assert!(flat.len() >= 9);
    let first = first_set(&flat);
    assert_eq!(set_of(&first, "S"), vec!["_", "'a'"]);
}

#[test]
fn errors_sorted_by_location() {
    let mut e = Errors(Vec::new());
    e.issue(Loc(3, 1), ErrorKind::SyntaxError);
    e.issue(Loc(1, 9), ErrorKind::SyntaxError);
    e.issue(Loc(1, 2), ErrorKind::UnrecognizedChar('x'));
    let s = e.sorted();
    let locs: Vec<(usize, usize)> = s.0.iter().map(|Error(l, _)| (l.0, l.1)).collect();
    assert_eq!(locs, vec![(1, 2), (1, 9), (3, 1)]);
}

#[test]
fn action_rendering() {
    assert_eq!(render_action(&LrAction::Shift(12)), b"s12".to_vec());
    assert_eq!(render_action(&LrAction::Reduce(0)), b"r0".to_vec());
    assert_eq!(render_action(&LrAction::Accept), b"acc".to_vec());
}

#[test]
fn flat_symbol_names() {
    assert_eq!(FlatProd::Terminal(b"'a'".to_vec()).name(), b"'a'".to_vec());
    assert_eq!(FlatProd::NonTerminal(b"S".to_vec()).name(), b"S".to_vec());
    assert_eq!(FlatProd::Eps.name(), b"_".to_vec());
    assert!(FlatProd::Eps.is_eps());
    assert!(!FlatProd::Terminal(b"'a'".to_vec()).is_eps());
}

#[test]
fn generator_yields_sentence_of_fixed_grammar() {
    // A grammar with a single derivation: the generator must emit it.
    let f = read("S ::= 'a' 'b' ;");
    let out = f.generate(&f, 10);
    assert_eq!(String::from_utf8(out).unwrap(), "a b");
}

#[test]
fn generator_terminates_on_recursive_grammar() {
    let f = read("S ::= S S | 'a' ;");
    // The budget bounds every descent, so this returns.
    let _ = f.generate(&f, 5);
}

#[test]
fn undefined_reference_is_treated_as_terminal() {
    let f = read("S ::= tok ;");
    let flat = flatten(&f);
    let first = first_set(&flat);
    assert_eq!(set_of(&first, "S"), vec!["tok"]);
    let graph = lr_graph(&flat);
    // `tok` classifies as a terminal column.
    assert!(graph.terminals.iter().any(|t| t.as_slice() == b"tok"));
    assert!(!graph.non_terminals.iter().any(|t| t.as_slice() == b"tok"));
}

#[test]
fn follow_includes_first_of_rest_and_parent_follow() {
    let f = read("S ::= A 'x' | A ;\nA ::= 'a' ;");
    let flat = flatten(&f);
    let first = first_set(&flat);
    let follow = follow_set(&flat, &first);
    // 'x' after A in the first alternative; FOLLOW(S) = {#} flows into A
    // through the second alternative.
    assert_eq!(set_of(&follow, "A"), vec!["#", "'x'"]);
}

#[test]
fn flattening_preserves_the_terminal_alphabet() {
    let f = read("S ::= ('a' 'b')* 'c'? | 'd'+ ;");
    let flat = flatten(&f);
    let mut found: Vec<String> = Vec::new();
    for rule in flat.iter() {
        for p in rule.prod.iter() {
            if let FlatProd::Terminal(t) = p {
                let n = String::from_utf8(t.clone()).unwrap();
                if !found.contains(&n) {
                    found.push(n);
                }
            }
        }
    }
    found.sort();
    assert_eq!(found, vec!["'a'", "'b'", "'c'", "'d'"]);
}

#[test]
fn undefined_reference_is_found_and_named() {
    let f = read("S ::= T 'a' ;\nU ::= 'b' ;");
    let m = ebnf_tools::gen::undefined_reference(&f).expect("T is undefined");
    assert_eq!(m, b"T".to_vec());
    let g = read("S ::= S 'a' | 'b' ;");
    assert!(ebnf_tools::gen::undefined_reference(&g).is_none());
}

#[test]
fn nested_optionals_get_fresh_names() {
    let f = read("S ::= 'a'?? ;");
    let flat = flatten(&f);
    let names = flat_names(&flat);
    assert!(names.contains(&"S_opt0".to_string()));
    assert!(names.contains(&"S_opt0_opt1".to_string()));
}
