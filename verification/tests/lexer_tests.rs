use rustlex::action::Action;
use rustlex::dfa::DFA;
use rustlex::lexer::Lexer;
use rustlex::nfa::NFA;
use rustlex::regex::AST;
use rustlex::trans_table::transition_table;

fn ch(c: u8) -> AST {
    AST::Char((c, 0))
}

fn cat(a: AST, b: AST) -> AST {
    AST::Cat(Box::new(a), Box::new(b))
}

fn alt(a: AST, b: AST) -> AST {
    AST::Or(Box::new(a), Box::new(b))
}

fn star(a: AST) -> AST {
    AST::Clos(Box::new(a))
}

/// The concatenation of the bytes of a non-empty literal.
fn lit(s: &str) -> AST {
    let bytes = s.as_bytes();
    let mut ast = ch(bytes[0]);
    for &b in &bytes[1..] {
        ast = cat(ast, ch(b));
    }
    ast
}

/// Runs the combined table on an input and returns the end state.
fn run_table(trans: &Vec<Vec<usize>>, init: usize, input: &[u8]) -> usize {
    let mut st = init;
    for &b in input {
        st = trans[st][b as usize];
    }
    st
}

/// Runs one automaton on an input and returns the selected action id,
/// 0 when the end state is not accepting.
fn run_dfa(d: &DFA, input: &[u8]) -> usize {
    let mut st = d.initial;
    for &b in input {
        st = match &d.states[st] {
            Some(s) => s.trans[b as usize],
            None => 0,
        };
    }
    match &d.states[st] {
        Some(s) => s.action.unwrap_or(0),
        None => 0,
    }
}

fn simple_rules() -> Vec<(AST, String, Option<String>)> {
    vec![
        (lit("a"), String::from("println!(\"Saw an A\")"), None),
        (lit("abb"), String::from("println!(\"Saw abb\")"), None),
        (
            cat(cat(star(ch(b'a')), ch(b'b')), star(ch(b'b'))),
            String::from("println!(\"Saw a*b+\")"),
            None,
        ),
    ]
}

#[test]
fn main() {
    let mut regexps: Vec<(AST, String, Option<String>)> = Vec::new();
    regexps.push((lit("a"), String::from("println!(\"Saw an A\")"), None));
    regexps.push((lit("abb"), String::from("println!(\"Saw abb\")"), None));
    let abplus = cat(cat(star(ch(b'a')), ch(b'b')), star(ch(b'b')));
    regexps.push((abplus, String::from("println!(\"Saw a*b+\")"), None));
    let abplus2 = cat(cat(star(ch(b'a')), ch(b'b')), star(ch(b'b')));
    regexps.push((
        abplus2,
        String::from("println!(\"Saw a*b+\")"),
        Some(String::from("Foo")),
    ));
    let lex = Lexer::new(regexps);
    let (_trans, _accept, _inits) = transition_table(&lex.auto);
}

#[test]
fn scenario_single_condition() {
    let lex = Lexer::new(simple_rules());
    assert_eq!(lex.conditions.len(), 1);
    assert_eq!(lex.conditions[0].as_str(), "Initial");
    assert_eq!(lex.actions.len(), 3);
    let (trans, accept, inits) = transition_table(&lex.auto);
    let init = inits[0];

    // "a" is matched by the first pattern alone: action id 1
    let st = run_table(&trans, init, b"a");
    assert_eq!(accept[st], 1);

    // "abb" is matched by patterns 2 and 3; whichever id the state
    // carries, the merged record runs the earlier pattern's code
    let st = run_table(&trans, init, b"abb");
    let id = accept[st];
    assert!(id == 2 || id == 3);
    let code = lex.actions[id - 1]
        .get_code(&String::from("Initial"))
        .expect("merged record must hold code for Initial");
    assert_eq!(code.as_str(), "println!(\"Saw abb\")");

    // "b" is matched by the third pattern alone
    let st = run_table(&trans, init, b"b");
    assert_eq!(accept[st], 3);

    // the empty input and a stray byte match nothing
    assert_eq!(accept[run_table(&trans, init, b"")], 0);
    assert_eq!(run_table(&trans, init, b"c"), 0);
}

#[test]
fn scenario_two_conditions() {
    let rules = vec![
        (lit("/*"), String::from("begin-comment"), None),
        (lit("*/"), String::from("end-comment"), Some(String::from("Comment"))),
    ];
    let lex = Lexer::new(rules);
    assert_eq!(lex.conditions.len(), 2);
    assert_eq!(lex.conditions[0].as_str(), "Initial");
    assert_eq!(lex.conditions[1].as_str(), "Comment");
    let (trans, accept, inits) = transition_table(&lex.auto);
    assert_ne!(inits[0], inits[1]);

    // the begin-comment action fires from the Initial entry state
    assert_eq!(accept[run_table(&trans, inits[0], b"/*")], 1);
    // the end-comment action fires from the Comment entry state
    assert_eq!(accept[run_table(&trans, inits[1], b"*/")], 2);

    // no state reachable from the Comment entry accepts begin-comment
    let mut seen = vec![false; trans.len()];
    let mut stack = vec![inits[1]];
    seen[inits[1]] = true;
    while let Some(st) = stack.pop() {
        assert_ne!(accept[st], 1);
        for c in 0..256 {
            let t = trans[st][c];
            if t != 0 && !seen[t] {
                seen[t] = true;
                stack.push(t);
            }
        }
    }
}

#[test]
fn scenario_shared_pattern() {
    // one regex declared in two conditions merges into a single action
    // id carrying per-condition code
    let rules = vec![
        (lit("ab"), String::from("in-initial"), None),
        (lit("ab"), String::from("in-comment"), Some(String::from("Comment"))),
    ];
    let lex = Lexer::new(rules);
    assert_eq!(lex.actions.len(), 1);
    let record = &lex.actions[0];
    let c1 = record.get_code(&String::from("Initial")).expect("Initial code");
    assert_eq!(c1.as_str(), "in-initial");
    let c2 = record.get_code(&String::from("Comment")).expect("Comment code");
    assert_eq!(c2.as_str(), "in-comment");
    // both automata accept the pattern under the shared id
    let (trans, accept, inits) = transition_table(&lex.auto);
    assert_eq!(accept[run_table(&trans, inits[0], b"ab")], 1);
    assert_eq!(accept[run_table(&trans, inits[1], b"ab")], 1);
}

#[test]
fn conditions_in_first_appearance_order() {
    let rules = vec![
        (lit("x"), String::from("one"), None),
        (lit("y"), String::from("two"), Some(String::from("B"))),
        (lit("z"), String::from("three"), None),
        (lit("w"), String::from("four"), Some(String::from("A"))),
        (lit("v"), String::from("five"), Some(String::from("B"))),
    ];
    let lex = Lexer::new(rules);
    let names: Vec<&str> = lex.conditions.iter().map(|c| c.as_str()).collect();
    assert_eq!(names, vec!["Initial", "B", "A"]);
    assert_eq!(lex.auto.len(), 3);
    // five distinct patterns, five action ids
    assert_eq!(lex.actions.len(), 5);
}

#[test]
fn merge_keeps_earlier_code() {
    let first = Action::new(String::from("Initial"), String::from("first"));
    let second = Action::new(String::from("Initial"), String::from("second"));
    let merged = first.merge(&second);
    let code = merged.get_code(&String::from("Initial")).expect("code");
    assert_eq!(code.as_str(), "first");

    let other = Action::new(String::from("Comment"), String::from("elsewhere"));
    let both = first.merge(&other);
    assert_eq!(both.get_code(&String::from("Initial")).expect("code").as_str(), "first");
    assert_eq!(both.get_code(&String::from("Comment")).expect("code").as_str(), "elsewhere");
    assert!(both.get_code(&String::from("Foo")).is_none());
}

#[test]
fn table_shape() {
    let lex = Lexer::new(simple_rules());
    let (trans, accept, inits) = transition_table(&lex.auto);
    assert_eq!(trans.len(), accept.len());
    assert_eq!(accept[0], 0);
    for c in 0..256 {
        assert_eq!(trans[0][c], 0);
    }
    for row in &trans {
        assert_eq!(row.len(), 256);
        for &t in row {
            assert!(t < trans.len());
        }
    }
    for &i in &inits {
        assert!(i >= 1 && i < trans.len());
    }
    for &a in &accept {
        assert!(a == 0 || (a >= 1 && a <= lex.actions.len()));
    }
}

#[test]
fn eclosure_is_closed_and_contains_seed() {
    let mut cid: usize = 0;
    let nfa = NFA::new(&alt(ch(b'a'), ch(b'b')), &mut cid);
    let closure = nfa.eclosure_(nfa.initial);
    assert!(closure[nfa.initial]);
    for i in 0..closure.len() {
        if closure[i] {
            if let Some(st) = &nfa.states[i] {
                for &j in &st.etrans {
                    assert!(closure[j]);
                }
            }
        }
    }
    // the union's entry state reaches both branch entries by epsilon
    let marked = closure.iter().filter(|&&b| b).count();
    assert!(marked >= 3);
}

#[test]
fn build_nfa_marks_finals() {
    let regexs = vec![(lit("a"), 1), (lit("b"), 2)];
    let nfa = NFA::build_nfa(regexs);
    assert_eq!(nfa.finals.len(), 2);
    for &f in &nfa.finals {
        let st = nfa.states[f].as_ref().expect("final state is live");
        let a = st.action.expect("final state carries an action");
        assert!(a == 1 || a == 2);
    }
    // the entry state accepts nothing by itself
    let seed = nfa.eclosure_(nfa.initial);
    assert!(!nfa.is_final(&seed));
}

#[test]
fn state_trans_collects_destinations() {
    let st = rustlex::nfa::State {
        trans: vec![(b'a', 2), (b'b', 3), (b'a', 4)],
        etrans: Vec::new(),
        action: None,
    };
    assert_eq!(st.trans(b'a'), vec![2, 4]);
    assert_eq!(st.trans(b'b'), vec![3]);
    assert!(st.trans(b'c').is_empty());
}

#[test]
fn determinize_runs_patterns() {
    let regexs = vec![(lit("ab"), 1), (lit("ac"), 2)];
    let nfa = NFA::build_nfa(regexs);
    let mut atb = vec![
        Action::new(String::from("Initial"), String::from("one")),
        Action::new(String::from("Initial"), String::from("two")),
    ];
    let dfa = DFA::new_from_nfa(&nfa, &mut atb);
    assert_eq!(dfa.initial, 1);
    assert_eq!(run_dfa(&dfa, b"ab"), 1);
    assert_eq!(run_dfa(&dfa, b"ac"), 2);
    assert_eq!(run_dfa(&dfa, b"a"), 0);
    assert_eq!(run_dfa(&dfa, b"bc"), 0);
}

#[test]
fn minimize_preserves_selected_actions() {
    // the two union branches accept the same action and collapse
    let regexs = vec![(alt(lit("ab"), lit("cb")), 7)];
    let nfa = NFA::build_nfa(regexs);
    let mut atb = vec![
        Action::new(String::from("Initial"), String::from("a")),
        Action::new(String::from("Initial"), String::from("b")),
        Action::new(String::from("Initial"), String::from("c")),
        Action::new(String::from("Initial"), String::from("d")),
        Action::new(String::from("Initial"), String::from("e")),
        Action::new(String::from("Initial"), String::from("f")),
        Action::new(String::from("Initial"), String::from("g")),
    ];
    let dfa = DFA::new_from_nfa(&nfa, &mut atb);
    let min = dfa.minimize();
    let samples: Vec<&[u8]> = vec![b"ab", b"cb", b"a", b"c", b"b", b"", b"abb", b"cbb", b"xy"];
    for s in samples {
        assert_eq!(run_dfa(&dfa, s), run_dfa(&min, s));
    }
    let live = |d: &DFA| d.states.iter().filter(|s| s.is_some()).count();
    assert!(live(&min) <= live(&dfa));
    // the accepting tails of "ab" and "cb" behave alike and must merge
    assert!(live(&min) < live(&dfa));
}

#[test]
fn tables_are_reproducible() {
    let lex = Lexer::new(simple_rules());
    let (t1, a1, i1) = transition_table(&lex.auto);
    let (t2, a2, i2) = transition_table(&lex.auto);
    assert_eq!(t1, t2);
    assert_eq!(a1, a2);
    assert_eq!(i1, i2);
}

#[test]
fn single_automaton_table() {
    let regexs = vec![(lit("a"), 1)];
    let nfa = NFA::build_nfa(regexs);
    let mut atb = vec![Action::new(String::from("Initial"), String::from("one"))];
    let dfa = DFA::new_from_nfa(&nfa, &mut atb);
    let (trans, accept, init) = dfa.transition_table();
    assert!(init >= 1 && init < trans.len());
    assert_eq!(accept[run_table(&trans, init, b"a")], 1);
    assert_eq!(accept[run_table(&trans, init, b"b")], 0);
}
