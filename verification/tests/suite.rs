//! End-to-end tests of the grammar toolkit: rendering, building,
//! generation and recognition.
use bnf::{Alternatives, Error, ExtendedEarleyParser, GenerationStrategy, Grammar, Rule, Term};

fn grammar_bnf() -> Grammar {
    let rules = vec![
        Rule {
            lhs: Term::nonterminal("syntax"),
            rhs: Alternatives::from(vec![
                vec![Term::nonterminal("rule")],
                vec![Term::nonterminal("rule"), Term::nonterminal("syntax")],
            ]),
        },
        Rule {
            lhs: Term::nonterminal("rule"),
            rhs: Alternatives::from(vec![
                vec![Term::nonterminal("opt_whitespace"), Term::terminal("<"), Term::nonterminal("rule_name"), Term::terminal(">"), Term::nonterminal("opt_whitespace"), Term::terminal("::="), Term::nonterminal("opt_whitespace"), Term::nonterminal("expression"), Term::nonterminal("line_end")],
            ]),
        },
        Rule {
            lhs: Term::nonterminal("opt_whitespace"),
            rhs: Alternatives::from(vec![
                vec![Term::terminal(" "), Term::nonterminal("opt_whitespace")],
                vec![Term::terminal("")],
            ]),
        },
        Rule {
            lhs: Term::nonterminal("expression"),
            rhs: Alternatives::from(vec![
                vec![Term::nonterminal("list")],
                vec![Term::nonterminal("list"), Term::nonterminal("opt_whitespace"), Term::terminal("|"), Term::nonterminal("opt_whitespace"), Term::nonterminal("expression")],
            ]),
        },
        Rule {
            lhs: Term::nonterminal("line_end"),
            rhs: Alternatives::from(vec![
                vec![Term::nonterminal("opt_whitespace"), Term::nonterminal("eol")],
                vec![Term::nonterminal("opt_whitespace"), Term::nonterminal("eol"), Term::nonterminal("line_end")],
            ]),
        },
        Rule {
            lhs: Term::nonterminal("list"),
            rhs: Alternatives::from(vec![
                vec![Term::nonterminal("term")],
                vec![Term::nonterminal("term"), Term::nonterminal("opt_whitespace"), Term::nonterminal("list")],
            ]),
        },
        Rule {
            lhs: Term::nonterminal("term"),
            rhs: Alternatives::from(vec![
                vec![Term::nonterminal("literal")],
                vec![Term::terminal("<"), Term::nonterminal("rule_name"), Term::terminal(">")],
            ]),
        },
        Rule {
            lhs: Term::nonterminal("literal"),
            rhs: Alternatives::from(vec![
                vec![Term::terminal("\""), Term::nonterminal("text1"), Term::terminal("\"")],
                vec![Term::terminal("'"), Term::nonterminal("text2"), Term::terminal("'")],
            ]),
        },
        Rule {
            lhs: Term::nonterminal("text1"),
            rhs: Alternatives::from(vec![
                vec![Term::terminal("")],
                vec![Term::nonterminal("character1"), Term::nonterminal("text1")],
            ]),
        },
        Rule {
            lhs: Term::nonterminal("text2"),
            rhs: Alternatives::from(vec![
                vec![Term::terminal("")],
                vec![Term::nonterminal("character2"), Term::nonterminal("text2")],
            ]),
        },
        Rule {
            lhs: Term::nonterminal("character"),
            rhs: Alternatives::from(vec![
                vec![Term::nonterminal("letter")],
                vec![Term::nonterminal("digit")],
                vec![Term::nonterminal("symbol")],
            ]),
        },
        Rule {
            lhs: Term::nonterminal("letter"),
            rhs: Alternatives::from(vec![
                vec![Term::terminal("A")],
                vec![Term::terminal("B")],
                vec![Term::terminal("C")],
                vec![Term::terminal("D")],
                vec![Term::terminal("E")],
                vec![Term::terminal("F")],
                vec![Term::terminal("G")],
                vec![Term::terminal("H")],
                vec![Term::terminal("I")],
                vec![Term::terminal("J")],
                vec![Term::terminal("K")],
                vec![Term::terminal("L")],
                vec![Term::terminal("M")],
                vec![Term::terminal("N")],
                vec![Term::terminal("O")],
                vec![Term::terminal("P")],
                vec![Term::terminal("Q")],
                vec![Term::terminal("R")],
                vec![Term::terminal("S")],
                vec![Term::terminal("T")],
                vec![Term::terminal("U")],
                vec![Term::terminal("V")],
                vec![Term::terminal("W")],
                vec![Term::terminal("X")],
                vec![Term::terminal("Y")],
                vec![Term::terminal("Z")],
                vec![Term::terminal("a")],
                vec![Term::terminal("b")],
                vec![Term::terminal("c")],
                vec![Term::terminal("d")],
                vec![Term::terminal("e")],
                vec![Term::terminal("f")],
                vec![Term::terminal("g")],
                vec![Term::terminal("h")],
                vec![Term::terminal("i")],
                vec![Term::terminal("j")],
                vec![Term::terminal("k")],
                vec![Term::terminal("l")],
                vec![Term::terminal("m")],
                vec![Term::terminal("n")],
                vec![Term::terminal("o")],
                vec![Term::terminal("p")],
                vec![Term::terminal("q")],
                vec![Term::terminal("r")],
                vec![Term::terminal("s")],
                vec![Term::terminal("t")],
                vec![Term::terminal("u")],
                vec![Term::terminal("v")],
                vec![Term::terminal("w")],
                vec![Term::terminal("x")],
                vec![Term::terminal("y")],
                vec![Term::terminal("z")],
            ]),
        },
        Rule {
            lhs: Term::nonterminal("digit"),
            rhs: Alternatives::from(vec![
                vec![Term::terminal("0")],
                vec![Term::terminal("1")],
                vec![Term::terminal("2")],
                vec![Term::terminal("3")],
                vec![Term::terminal("4")],
                vec![Term::terminal("5")],
                vec![Term::terminal("6")],
                vec![Term::terminal("7")],
                vec![Term::terminal("8")],
                vec![Term::terminal("9")],
            ]),
        },
        Rule {
            lhs: Term::nonterminal("symbol"),
            rhs: Alternatives::from(vec![
                vec![Term::terminal("|")],
                vec![Term::terminal(" ")],
                vec![Term::terminal("!")],
                vec![Term::terminal("#")],
                vec![Term::terminal("$")],
                vec![Term::terminal("%")],
                vec![Term::terminal("&")],
                vec![Term::terminal("(")],
                vec![Term::terminal(")")],
                vec![Term::terminal("*")],
                vec![Term::terminal("+")],
                vec![Term::terminal(",")],
                vec![Term::terminal("-")],
                vec![Term::terminal(".")],
                vec![Term::terminal("/")],
                vec![Term::terminal(":")],
                vec![Term::terminal(";")],
                vec![Term::terminal(">")],
                vec![Term::terminal("=")],
                vec![Term::terminal("<")],
                vec![Term::terminal("?")],
                vec![Term::terminal("@")],
                vec![Term::terminal("[")],
                vec![Term::terminal("\\")],
                vec![Term::terminal("]")],
                vec![Term::terminal("^")],
                vec![Term::terminal("_")],
                vec![Term::terminal("`")],
                vec![Term::terminal("{")],
                vec![Term::terminal("}")],
                vec![Term::terminal("~")],
            ]),
        },
        Rule {
            lhs: Term::nonterminal("character1"),
            rhs: Alternatives::from(vec![
                vec![Term::nonterminal("character")],
                vec![Term::terminal("'")],
            ]),
        },
        Rule {
            lhs: Term::nonterminal("character2"),
            rhs: Alternatives::from(vec![
                vec![Term::nonterminal("character")],
                vec![Term::terminal("\"")],
            ]),
        },
        Rule {
            lhs: Term::nonterminal("rule_name"),
            rhs: Alternatives::from(vec![
                vec![Term::nonterminal("letter")],
                vec![Term::nonterminal("rule_name"), Term::nonterminal("rule_char")],
            ]),
        },
        Rule {
            lhs: Term::nonterminal("rule_char"),
            rhs: Alternatives::from(vec![
                vec![Term::nonterminal("letter")],
                vec![Term::nonterminal("digit")],
                vec![Term::terminal("-")],
            ]),
        },
        Rule {
            lhs: Term::nonterminal("eol"),
            rhs: Alternatives::from(vec![
                vec![Term::terminal("\r\n")],
                vec![Term::terminal("\n")],
            ]),
        },
    ];
    Grammar::builder().rules(&rules).build().unwrap()
}

/// The ambiguous grammar whose input "abbb" has two derivations.
fn grammar_ambiguous() -> Grammar {
    let rules = vec![
        Rule {
            lhs: Term::nonterminal("S"),
            rhs: Alternatives::from(vec![
                vec![Term::nonterminal("A"), Term::nonterminal("T")],
                vec![Term::terminal("a"), Term::nonterminal("T")],
            ]),
        },
        Rule {
            lhs: Term::nonterminal("A"),
            rhs: Alternatives::from(vec![
                vec![Term::terminal("a")],
                vec![Term::nonterminal("B"), Term::nonterminal("A")],
            ]),
        },
        Rule {
            lhs: Term::nonterminal("B"),
            rhs: Alternatives::from(vec![vec![Term::terminal("")]]),
        },
        Rule {
            lhs: Term::nonterminal("T"),
            rhs: Alternatives::from(vec![vec![
                Term::terminal("b"),
                Term::terminal("b"),
                Term::terminal("b"),
            ]]),
        },
    ];
    Grammar::builder().rules(&rules).build().unwrap()
}

#[test]
fn test_display_term() {
    assert_eq!(Term::terminal("foo").to_text(), "\"foo\"");
    assert_eq!(
        Term::terminal("foo\n\t\r\\").to_text(),
        "\"foo\\n\\t\\r\\\\\""
    );
}

#[test]
fn test_display_alternatives() {
    assert_eq!(
        Alternatives::from(vec![vec![
            Term::nonterminal("opt_whitespace"),
            Term::terminal("<"),
            Term::nonterminal("rule_name"),
            Term::terminal(">"),
            Term::nonterminal("opt_whitespace"),
            Term::terminal("::="),
            Term::nonterminal("opt_whitespace"),
            Term::nonterminal("expression"),
            Term::nonterminal("line_end"),
        ]]).to_text(),
        "<opt_whitespace> \"<\" <rule_name> \">\" <opt_whitespace> \"::=\" <opt_whitespace> <expression> <line_end>"
    );
}

#[test]
fn test_display_rule() {
    assert_eq!(
        Rule {
            lhs: Term::nonterminal("rule"),
            rhs: Alternatives::from(vec![vec![
                Term::nonterminal("opt_whitespace"),
                Term::terminal("<"),
                Term::nonterminal("rule_name"),
                Term::terminal(">"),
                Term::nonterminal("opt_whitespace"),
                Term::terminal("::="),
                Term::nonterminal("opt_whitespace"),
                Term::nonterminal("expression"),
                Term::nonterminal("line_end"),
            ]]),
        }.to_text(),
        "<rule> ::= <opt_whitespace> \"<\" <rule_name> \">\" <opt_whitespace> \"::=\" <opt_whitespace> <expression> <line_end>"
    );
}

#[test]
fn test_display_grammar() {
    assert_eq!(
        grammar_bnf().to_text(),
        "<syntax> ::= <rule> | <rule> <syntax>\n<character2> ::= <character> | \"\\\"\"\n<character> ::= <letter> | <digit> | <symbol>\n<digit> ::= \"0\" | \"1\" | \"2\" | \"3\" | \"4\" | \"5\" | \"6\" | \"7\" | \"8\" | \"9\"\n<eol> ::= \"\\r\\n\" | \"\\n\"\n<expression> ::= <list> | <list> <opt_whitespace> \"|\" <opt_whitespace> <expression>\n<letter> ::= \"A\" | \"B\" | \"C\" | \"D\" | \"E\" | \"F\" | \"G\" | \"H\" | \"I\" | \"J\" | \"K\" | \"L\" | \"M\" | \"N\" | \"O\" | \"P\" | \"Q\" | \"R\" | \"S\" | \"T\" | \"U\" | \"V\" | \"W\" | \"X\" | \"Y\" | \"Z\" | \"a\" | \"b\" | \"c\" | \"d\" | \"e\" | \"f\" | \"g\" | \"h\" | \"i\" | \"j\" | \"k\" | \"l\" | \"m\" | \"n\" | \"o\" | \"p\" | \"q\" | \"r\" | \"s\" | \"t\" | \"u\" | \"v\" | \"w\" | \"x\" | \"y\" | \"z\"\n<line_end> ::= <opt_whitespace> <eol> | <opt_whitespace> <eol> <line_end>\n<list> ::= <term> | <term> <opt_whitespace> <list>\n<literal> ::= \"\\\"\" <text1> \"\\\"\" | \"\\'\" <text2> \"\\'\"\n<opt_whitespace> ::= \" \" <opt_whitespace> | \"\"\n<rule> ::= <opt_whitespace> \"<\" <rule_name> \">\" <opt_whitespace> \"::=\" <opt_whitespace> <expression> <line_end>\n<rule_char> ::= <letter> | <digit> | \"-\"\n<rule_name> ::= <letter> | <rule_name> <rule_char>\n<symbol> ::= \"|\" | \" \" | \"!\" | \"#\" | \"$\" | \"%\" | \"&\" | \"(\" | \")\" | \"*\" | \"+\" | \",\" | \"-\" | \".\" | \"/\" | \":\" | \";\" | \">\" | \"=\" | \"<\" | \"?\" | \"@\" | \"[\" | \"\\\\\" | \"]\" | \"^\" | \"_\" | \"`\" | \"{\" | \"}\" | \"~\"\n<character1> ::= <character> | \"\\'\"\n<term> ::= <literal> | \"<\" <rule_name> \">\"\n<text1> ::= \"\" | <character1> <text1>\n<text2> ::= \"\" | <character2> <text2>"
    );
}

#[test]
fn test_generation_generate() {
    let grammar = grammar_bnf();
    for _ in 0..100 {
        let word = grammar.generate().unwrap();
        assert!(grammar.recognize(word.as_str()));
    }
}

#[test]
fn test_generation_generate_parameterized() {
    let grammar = grammar_bnf();
    for seed in 0..100 {
        for strategy in &[
            GenerationStrategy::UniformRHSSampling,
            GenerationStrategy::RecursionAvoidance,
            GenerationStrategy::GreedyTerminals,
        ] {
            let word = grammar.generate_parameterized(*strategy, seed).unwrap();
            assert!(grammar.recognize(word.as_str()));
        }
    }
}

#[test]
fn test_generation_generate_parameterized_infinitely_recursive_production() {
    let rules = vec![
        Rule {
            lhs: Term::nonterminal("s"),
            rhs: Alternatives::from(vec![vec![Term::nonterminal("a")], vec![Term::terminal("a")]]),
        },
        Rule {
            lhs: Term::nonterminal("a"),
            rhs: Alternatives::from(vec![vec![Term::nonterminal("a")], vec![Term::nonterminal("a")]]),
        },
    ];
    let grammar = Grammar::builder().rules(&rules).build().unwrap();
    assert!(matches!(
        grammar.generate_parameterized(GenerationStrategy::RecursionAvoidance, 0),
        Err(Error::InfinitelyRecursiveProductionError { .. })
    ))
}

#[test]
fn test_parsing_recognize() {
    let grammar = grammar_bnf();
    for seed in 0..1000 {
        let word = grammar
            .generate_parameterized(GenerationStrategy::UniformRHSSampling, seed)
            .unwrap();
        assert!(grammar.recognize(word.as_str()));
    }
}

#[test]
fn test_parsing_sppf() {
    let grammar = grammar_ambiguous();
    let word = "abbb";
    assert!(grammar.recognize(word));
}

#[test]
fn test_sppf_shape() {
    // the ambiguous input has exactly two packed derivations at the root
    let grammar = grammar_ambiguous();
    let mut parser = ExtendedEarleyParser::new(&grammar);
    assert!(parser.recognize("abbb"));
    assert_eq!(parser.root_family_count(), Some(2));
}

#[test]
fn test_generation_deterministic() {
    let grammar = grammar_bnf();
    for seed in 0..20 {
        for strategy in &[
            GenerationStrategy::UniformRHSSampling,
            GenerationStrategy::RecursionAvoidance,
            GenerationStrategy::GreedyTerminals,
        ] {
            let w1 = grammar.generate_parameterized(*strategy, seed).unwrap();
            let w2 = grammar.generate_parameterized(*strategy, seed).unwrap();
            assert_eq!(w1, w2);
        }
    }
}

#[test]
fn test_collapse_merges_rules() {
    // two rules sharing an lhs collapse into one, with the deduplicated
    // concatenation of their alternatives in input order
    let rules = vec![
        Rule {
            lhs: Term::nonterminal("s"),
            rhs: Alternatives::from(vec![vec![Term::terminal("a")], vec![Term::terminal("b")]]),
        },
        Rule {
            lhs: Term::nonterminal("s"),
            rhs: Alternatives::from(vec![vec![Term::terminal("b")], vec![Term::terminal("c")]]),
        },
    ];
    let grammar = Grammar::builder().rules(&rules).build().unwrap();
    assert_eq!(grammar.to_text(), "<s> ::= \"a\" | \"b\" | \"c\"");
}

#[test]
fn test_rule_merge_deduplicates() {
    let r1 = Rule {
        lhs: Term::nonterminal("s"),
        rhs: Alternatives::from(vec![vec![Term::terminal("a")], vec![Term::terminal("b")]]),
    };
    let r2 = Rule {
        lhs: Term::nonterminal("s"),
        rhs: Alternatives::from(vec![vec![Term::terminal("b")], vec![Term::terminal("c")]]),
    };
    let merged = r1.merge(&r2);
    assert_eq!(merged.to_text(), "<s> ::= \"a\" | \"b\" | \"c\"");
}

#[test]
fn test_atomize_idempotent() {
    let rules = vec![Rule {
        lhs: Term::nonterminal("s"),
        rhs: Alternatives::from(vec![
            vec![Term::terminal("abc"), Term::nonterminal("t")],
            vec![Term::terminal("")],
        ]),
    }, Rule {
        lhs: Term::nonterminal("t"),
        rhs: Alternatives::from(vec![vec![Term::terminal("x")]]),
    }];
    let mut grammar = Grammar::builder().rules(&rules).build().unwrap();
    grammar.atomize_terminals();
    let once = grammar.to_text();
    assert_eq!(once, "<s> ::= \"a\" \"b\" \"c\" <t> | \"\"\n<t> ::= \"x\"");
    grammar.atomize_terminals();
    assert_eq!(grammar.to_text(), once);
}

#[test]
fn test_empty_grammar_error() {
    assert!(matches!(
        Grammar::builder().build(),
        Err(Error::EmptyGrammarError { .. })
    ));
    let empty = Grammar { rules: vec![] };
    assert!(matches!(empty.generate(), Err(Error::EmptyGrammarError { .. })));
}

#[test]
fn test_unknown_nonterminal_error() {
    let rules = vec![Rule {
        lhs: Term::nonterminal("s"),
        rhs: Alternatives::from(vec![vec![Term::nonterminal("missing")]]),
    }];
    let grammar = Grammar::builder().rules(&rules).build().unwrap();
    assert!(matches!(
        grammar.generate_parameterized(GenerationStrategy::UniformRHSSampling, 0),
        Err(Error::UnknownNonterminalError { .. })
    ));
    // recognition swallows the missing rule into a plain rejection
    assert!(!grammar.recognize("x"));
}

#[test]
fn test_not_a_terminal_error() {
    assert!(matches!(
        Term::nonterminal("x").atomize(),
        Err(Error::NotATerminalError { .. })
    ));
    assert!(matches!(
        Term::nonterminal("x").terminal_content(),
        Err(Error::NotATerminalError { .. })
    ));
    assert_eq!(Term::terminal("ab").terminal_content().unwrap(), "ab");
}

#[test]
fn test_term_predicates() {
    assert!(Term::epsilon().is_epsilon());
    assert!(Term::epsilon().is_terminal());
    assert!(!Term::terminal("a").is_epsilon());
    assert!(Term::terminal("a").is_atomic_terminal());
    assert!(!Term::terminal("ab").is_atomic_terminal());
    assert!(Term::nonterminal("a").is_nonterminal());
    assert!(!Term::nonterminal("a").is_terminal());
    let pieces = Term::terminal("ab").atomize().unwrap();
    assert_eq!(pieces.len(), 2);
    assert_eq!(pieces[0].to_text(), "\"a\"");
    assert_eq!(pieces[1].to_text(), "\"b\"");
}

#[test]
fn test_escape_hex_rendering() {
    assert_eq!(Term::terminal("\u{7}").to_text(), "\"\\u{7}\"");
}

#[test]
fn test_recognize_simple() {
    let rules = vec![Rule {
        lhs: Term::nonterminal("s"),
        rhs: Alternatives::from(vec![
            vec![Term::terminal("a"), Term::nonterminal("s")],
            vec![Term::terminal("b")],
        ]),
    }];
    let grammar = Grammar::builder().rules(&rules).build().unwrap();
    assert!(grammar.recognize("b"));
    assert!(grammar.recognize("ab"));
    assert!(grammar.recognize("aab"));
    assert!(!grammar.recognize("aa"));
    assert!(!grammar.recognize(""));
    assert!(!grammar.recognize("ba"));
}

#[test]
fn test_recognize_nullable() {
    let rules = vec![
        Rule {
            lhs: Term::nonterminal("s"),
            rhs: Alternatives::from(vec![vec![Term::nonterminal("a"), Term::terminal("b")]]),
        },
        Rule {
            lhs: Term::nonterminal("a"),
            rhs: Alternatives::from(vec![vec![Term::terminal("a")], vec![Term::terminal("")]]),
        },
    ];
    let grammar = Grammar::builder().rules(&rules).build().unwrap();
    assert!(grammar.recognize("b"));
    assert!(grammar.recognize("ab"));
    assert!(!grammar.recognize("a"));
    assert!(!grammar.recognize("aab"));
}

#[test]
fn test_recognize_multichar_terminal() {
    let rules = vec![Rule {
        lhs: Term::nonterminal("s"),
        rhs: Alternatives::from(vec![vec![Term::terminal("abc")]]),
    }];
    let grammar = Grammar::builder().rules(&rules).build().unwrap();
    assert!(grammar.recognize("abc"));
    assert!(!grammar.recognize("ab"));
    assert!(!grammar.recognize("abcd"));
    assert!(!grammar.recognize(""));
}

#[test]
fn test_generation_greedy_prefers_terminals() {
    let rules = vec![Rule {
        lhs: Term::nonterminal("s"),
        rhs: Alternatives::from(vec![
            vec![Term::terminal("x"), Term::nonterminal("s")],
            vec![Term::terminal("y")],
        ]),
    }];
    let grammar = Grammar::builder().rules(&rules).build().unwrap();
    for seed in 0..10 {
        assert_eq!(
            grammar.generate_parameterized(GenerationStrategy::GreedyTerminals, seed).unwrap(),
            "y"
        );
        assert_eq!(
            grammar.generate_parameterized(GenerationStrategy::RecursionAvoidance, seed).unwrap(),
            "y"
        );
    }
}

#[test]
fn test_recognize_right_recursion() {
    // deep right recursion: deterministic reduction keeps each column flat
    let rules = vec![Rule {
        lhs: Term::nonterminal("s"),
        rhs: Alternatives::from(vec![
            vec![Term::terminal("a"), Term::nonterminal("s")],
            vec![Term::terminal("a")],
        ]),
    }];
    let grammar = Grammar::builder().rules(&rules).build().unwrap();
    let long_word: String = std::iter::repeat('a').take(200).collect();
    assert!(grammar.recognize(long_word.as_str()));
    assert!(grammar.recognize("a"));
    assert!(!grammar.recognize(""));
    let mut wrong = long_word.clone();
    wrong.push('b');
    assert!(!grammar.recognize(wrong.as_str()));
}

#[test]
fn test_generate_entropy_seeded() {
    let rules = vec![Rule {
        lhs: Term::nonterminal("s"),
        rhs: Alternatives::from(vec![vec![Term::terminal("x")], vec![Term::terminal("y")]]),
    }];
    let grammar = Grammar::builder().rules(&rules).build().unwrap();
    for _ in 0..20 {
        let w = grammar.generate().unwrap();
        assert!(w == "x" || w == "y");
    }
}
