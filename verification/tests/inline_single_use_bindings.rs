use sui_logic::decompiler::ast::{Exp, UnstructuredNode};
use sui_logic::decompiler::inline_single_use_bindings::{checked_refine, refine};
use sui_logic::decompiler::name_counts::NameCounts;
use sui_logic::decompiler::name_map::NameMap;
use sui_logic::decompiler::path_uses::max_uses_per_path;
use sui_logic::decompiler::repeated_reads::read_may_repeat;
use sui_logic::decompiler::substitution::{chains_end, transitive_closure};

fn var(name: &str) -> Exp {
    Exp::Variable(name.to_string())
}

fn bind(x: &str, y: &str) -> Exp {
    Exp::LetBind(vec![x.to_string()], Box::new(var(y)))
}

fn bind_to(x: &str, e: Exp) -> Exp {
    Exp::LetBind(vec![x.to_string()], Box::new(e))
}

fn call(args: Vec<Exp>) -> Exp {
    Exp::Call("f".to_string(), args)
}

fn seq(items: Vec<Exp>) -> Exp {
    Exp::Sequence(items)
}

fn if_else(cond: Exp, conseq: Exp, alt: Option<Exp>) -> Exp {
    Exp::IfElse(Box::new(cond), Box::new(conseq), Box::new(alt))
}

fn value(text: &str) -> Exp {
    Exp::Value(text.to_string())
}

fn refined(mut exp: Exp) -> Exp {
    assert!(refine(&mut exp));
    exp
}

fn assert_unchanged(build: fn() -> Exp) {
    let mut exp = build();
    assert!(!refine(&mut exp));
    assert_eq!(exp, build());
}

#[test]
fn single_use_is_inlined() {
    let exp = refined(seq(vec![bind("x", "y"), call(vec![var("x")])]));
    assert_eq!(exp, seq(vec![call(vec![var("y")])]));
}

#[test]
fn chain_is_resolved_in_one_pass() {
    let exp = refined(seq(vec![
        bind("l3", "l5"),
        bind("l20", "l3"),
        Exp::Return(vec![var("l20")]),
    ]));
    assert_eq!(exp, seq(vec![Exp::Return(vec![var("l5")])]));
}

#[test]
fn chain_is_resolved_in_any_order() {
    let exp = refined(seq(vec![
        bind("l20", "l3"),
        bind("l3", "l5"),
        Exp::Return(vec![var("l20")]),
    ]));
    assert_eq!(exp, seq(vec![Exp::Return(vec![var("l5")])]));
}

#[test]
fn one_use_on_each_branch_is_inlined() {
    let exp = refined(seq(vec![
        bind("x", "y"),
        if_else(var("c"), call(vec![var("x")]), Some(Exp::Abort(Box::new(var("x"))))),
    ]));
    assert_eq!(
        exp,
        seq(vec![if_else(
            var("c"),
            call(vec![var("y")]),
            Some(Exp::Abort(Box::new(var("y")))),
        )])
    );
}

#[test]
fn one_use_on_each_arm_is_inlined() {
    let arms = |name: &str| {
        Exp::Switch(
            Box::new(var("s")),
            "E".to_string(),
            vec![
                ("A".to_string(), call(vec![var(name)])),
                ("B".to_string(), Exp::Return(vec![var(name)])),
            ],
        )
    };
    assert_eq!(refined(seq(vec![bind("x", "y"), arms("x")])), seq(vec![arms("y")]));
    let matches = |name: &str| {
        Exp::Match(
            Box::new(var("s")),
            "E".to_string(),
            vec![
                ("A".to_string(), vec![], call(vec![var(name)])),
                ("B".to_string(), vec![], Exp::Return(vec![var(name)])),
            ],
        )
    };
    assert_eq!(refined(seq(vec![bind("x", "y"), matches("x")])), seq(vec![matches("y")]));
}

#[test]
fn two_uses_on_one_path_are_left() {
    assert_unchanged(|| seq(vec![bind("x", "y"), call(vec![var("x"), var("x")])]));
    assert_unchanged(|| {
        seq(vec![
            bind("x", "y"),
            if_else(var("x"), call(vec![var("x")]), None),
        ])
    });
}

#[test]
fn single_place_in_a_loop_is_left() {
    assert_unchanged(|| {
        seq(vec![
            bind("x", "y"),
            Exp::Loop(
                Some(1),
                Box::new(Exp::Assign(vec!["z".to_string()], Box::new(var("x")))),
            ),
        ])
    });
    assert_unchanged(|| {
        seq(vec![
            bind("x", "y"),
            Exp::While(None, Box::new(var("x")), Box::new(value("1"))),
        ])
    });
    assert_unchanged(|| {
        seq(vec![
            bind("x", "y"),
            Exp::While(None, Box::new(value("true")), Box::new(call(vec![var("x")]))),
        ])
    });
    // A binding and its use in the same body.
    assert_unchanged(|| {
        Exp::Loop(None, Box::new(seq(vec![bind("x", "y"), call(vec![var("x")])])))
    });
}

#[test]
fn use_beside_a_loop_is_inlined() {
    let exp = refined(seq(vec![
        bind("x", "y"),
        Exp::Loop(None, Box::new(call(vec![var("z")]))),
        call(vec![var("x")]),
    ]));
    assert_eq!(
        exp,
        seq(vec![Exp::Loop(None, Box::new(call(vec![var("z")]))), call(vec![var("y")])])
    );
}

#[test]
fn two_places_with_a_loop_are_left() {
    assert_unchanged(|| {
        seq(vec![
            bind("x", "y"),
            if_else(
                var("c"),
                Exp::While(None, Box::new(var("d")), Box::new(call(vec![var("x")]))),
                Some(call(vec![var("x")])),
            ),
        ])
    });
}

#[test]
fn source_that_is_read_or_written_elsewhere_is_left() {
    assert_unchanged(|| seq(vec![bind("x", "y"), call(vec![var("x"), var("y")])]));
    assert_unchanged(|| {
        seq(vec![
            bind("x", "y"),
            Exp::Assign(vec!["y".to_string()], Box::new(value("1"))),
            call(vec![var("x")]),
        ])
    });
}

#[test]
fn destination_that_is_introduced_or_written_elsewhere_is_left() {
    assert_unchanged(|| {
        seq(vec![
            bind("x", "y"),
            Exp::Assign(vec!["x".to_string()], Box::new(value("1"))),
            call(vec![var("x")]),
        ])
    });
    assert_unchanged(|| {
        seq(vec![Exp::Declare(vec!["x".to_string()]), bind("x", "y"), call(vec![var("x")])])
    });
    assert_unchanged(|| {
        seq(vec![bind("x", "y"), bind_to("x", value("1")), call(vec![var("x")])])
    });
    assert_unchanged(|| {
        seq(vec![
            Exp::Unpack(
                "S".to_string(),
                vec![("f".to_string(), "x".to_string())],
                Box::new(var("s")),
            ),
            bind("x", "y"),
            call(vec![var("x")]),
        ])
    });
    assert_unchanged(|| {
        seq(vec![
            Exp::VecUnpack(vec!["x".to_string()], Box::new(var("s"))),
            bind("x", "y"),
            call(vec![var("x")]),
        ])
    });
}

#[test]
fn dead_binding_is_left() {
    assert_unchanged(|| seq(vec![bind("x", "y"), value("1")]));
}

#[test]
fn other_bindings_are_left() {
    assert_unchanged(|| seq(vec![bind("x", "x"), value("1")]));
    assert_unchanged(|| seq(vec![bind_to("x", value("1")), call(vec![var("x")])]));
    assert_unchanged(|| {
        seq(vec![
            Exp::LetBind(vec!["x".to_string(), "z".to_string()], Box::new(var("y"))),
            call(vec![var("x")]),
        ])
    });
    assert_unchanged(|| value("1"));
}

#[test]
fn binding_outside_a_sequence_stays_with_its_uses_rewritten() {
    let exp = refined(if_else(
        value("true"),
        bind("x", "y"),
        Some(call(vec![var("x")])),
    ));
    assert_eq!(
        exp,
        if_else(value("true"), bind("x", "y"), Some(call(vec![var("y")])))
    );
}

#[test]
fn nested_bindings_are_inlined_everywhere() {
    let exp = refined(seq(vec![
        bind("a", "p"),
        if_else(
            Exp::Primitive {
                op: "<".to_string(),
                args: vec![var("a"), Exp::Constant("C".to_string())],
            },
            seq(vec![
                bind("b", "q"),
                Exp::Borrow(true, Box::new(var("b"))),
                Exp::Break(None),
            ]),
            None,
        ),
        Exp::Continue(Some(2)),
    ]));
    assert_eq!(
        exp,
        seq(vec![
            if_else(
                Exp::Primitive {
                    op: "<".to_string(),
                    args: vec![var("p"), Exp::Constant("C".to_string())],
                },
                seq(vec![Exp::Borrow(true, Box::new(var("q"))), Exp::Break(None)]),
                None,
            ),
            Exp::Continue(Some(2)),
        ])
    );
}

#[test]
fn reads_in_unstructured_code_are_left() {
    assert_unchanged(|| {
        seq(vec![
            bind("x", "y"),
            Exp::Unstructured(vec![
                UnstructuredNode::Labeled(1, Box::new(call(vec![var("x")]))),
                UnstructuredNode::Goto(1),
                UnstructuredNode::Statement(Box::new(value("1"))),
            ]),
        ])
    });
    // Several reads: unstructured code anywhere stands against it.
    assert_unchanged(|| {
        seq(vec![
            bind("x", "y"),
            if_else(var("c"), call(vec![var("x")]), Some(Exp::Return(vec![var("x")]))),
            Exp::Unstructured(vec![]),
        ])
    });
}

#[test]
fn single_read_beside_unstructured_code_is_inlined() {
    let graph = || Exp::Unstructured(vec![UnstructuredNode::Goto(1)]);
    let exp = refined(seq(vec![bind("x", "y"), Exp::Return(vec![var("x")]), graph()]));
    assert_eq!(exp, seq(vec![Exp::Return(vec![var("y")]), graph()]));
    let exp = refined(seq(vec![
        bind("x", "y"),
        Exp::Return(vec![var("x")]),
        Exp::Unstructured(vec![]),
    ]));
    assert_eq!(exp, seq(vec![Exp::Return(vec![var("y")]), Exp::Unstructured(vec![])]));
}

/// A binding in an unstructured graph is collected, and its uses are rewritten.
#[test]
fn binding_in_unstructured_code_is_inlined() {
    let exp = refined(seq(vec![
        Exp::Unstructured(vec![UnstructuredNode::Statement(Box::new(seq(vec![bind("x", "y")])))]),
        call(vec![var("x")]),
    ]));
    assert_eq!(
        exp,
        seq(vec![
            Exp::Unstructured(vec![UnstructuredNode::Statement(Box::new(seq(vec![])))]),
            call(vec![var("y")]),
        ])
    );
}

#[test]
fn repeated_reads_are_found() {
    let x = "x".to_string();
    assert!(!read_may_repeat(&call(vec![var("x"), var("x")]), &x));
    assert!(read_may_repeat(&seq(vec![Exp::Loop(None, Box::new(var("x")))]), &x));
    assert!(!read_may_repeat(&seq(vec![var("x"), Exp::Loop(None, Box::new(var("y")))]), &x));
    assert!(read_may_repeat(
        &if_else(
            value("true"),
            value("1"),
            Some(Exp::While(None, Box::new(var("x")), Box::new(value("1"))))
        ),
        &x
    ));
    assert!(read_may_repeat(
        &Exp::Unstructured(vec![UnstructuredNode::Statement(Box::new(var("x")))]),
        &x
    ));
    assert!(!read_may_repeat(&Exp::Unstructured(vec![UnstructuredNode::Goto(3)]), &x));
}

#[test]
fn one_pass_is_enough() {
    let mut exp = refined(seq(vec![
        bind("l3", "l5"),
        bind("l20", "l3"),
        bind("x", "y"),
        if_else(var("c"), call(vec![var("x")]), Some(call(vec![var("x"), var("l20")]))),
    ]));
    let again = seq(vec![if_else(
        var("c"),
        call(vec![var("y")]),
        Some(call(vec![var("y"), var("l5")])),
    )]);
    assert_eq!(exp, again);
    assert!(!refine(&mut exp));
    assert_eq!(exp, again);
}

/// The first pass inlines the only binding that reads `x` in the loop, and so frees `x`.
#[test]
fn binding_that_a_pass_frees_is_left_for_the_next() {
    let empty_loop = || Exp::Loop(None, Box::new(seq(vec![])));
    let mut exp = refined(seq(vec![
        bind("x", "y"),
        Exp::Loop(None, Box::new(seq(vec![bind("a", "x")]))),
        call(vec![var("a")]),
    ]));
    assert_eq!(exp, seq(vec![bind("x", "y"), empty_loop(), call(vec![var("x")])]));
    assert!(refine(&mut exp));
    assert_eq!(exp, seq(vec![empty_loop(), call(vec![var("y")])]));
    assert!(!refine(&mut exp));
}

#[test]
fn visits_add_up_in_either_order() {
    let first = || bind("x", "y");
    let second = || call(vec![var("y"), var("x"), var("y")]);
    let both = NameCounts::collect(&seq(vec![first(), second()]));
    let mut forth = NameCounts::collect(&first());
    forth.visit(&second());
    let mut back = NameCounts::collect(&second());
    back.visit(&first());
    for counts in [&both, &forth, &back] {
        assert_eq!(counts.reads("y"), 3);
        assert_eq!(counts.reads("x"), 1);
        assert_eq!(counts.letbinds("x"), 1);
        assert_eq!(counts.letbinds("y"), 0);
    }
}

#[test]
fn uses_are_counted_by_role() {
    let exp = seq(vec![
        Exp::Declare(vec!["d".to_string()]),
        Exp::Assign(vec!["a".to_string()], Box::new(var("r"))),
        bind("l", "r"),
        Exp::UnpackVariant(
            "E".to_string(),
            "V".to_string(),
            vec![("f".to_string(), "u".to_string())],
            Box::new(var("r")),
        ),
    ]);
    let counts = NameCounts::collect(&exp);
    assert_eq!(counts.reads("r"), 3);
    assert_eq!(counts.assigns("a"), 1);
    assert_eq!(counts.letbinds("l"), 1);
    assert_eq!(counts.declares("d"), 1);
    assert_eq!(counts.unpacks("u"), 1);
    assert_eq!(counts.reads("l"), 0);
    assert_eq!(counts.unpacks("f"), 0);
}

#[test]
fn uses_on_a_path_are_bounded() {
    let x = "x".to_string();
    assert_eq!(max_uses_per_path(&var("x"), &x), 1);
    assert_eq!(max_uses_per_path(&var("y"), &x), 0);
    assert_eq!(max_uses_per_path(&call(vec![var("x"), var("y"), var("x")]), &x), 2);
    assert_eq!(
        max_uses_per_path(&if_else(var("x"), call(vec![var("x")]), Some(var("y"))), &x),
        2
    );
    assert_eq!(max_uses_per_path(&Exp::Loop(None, Box::new(var("x"))), &x), usize::MAX);
    assert_eq!(max_uses_per_path(&Exp::Loop(None, Box::new(var("y"))), &x), 0);
    assert_eq!(
        max_uses_per_path(
            &Exp::While(None, Box::new(var("x")), Box::new(value("1"))),
            &x
        ),
        usize::MAX
    );
    assert_eq!(max_uses_per_path(&Exp::Unstructured(vec![]), &x), usize::MAX);
    assert_eq!(
        max_uses_per_path(&seq(vec![var("x"), Exp::Loop(None, Box::new(var("x")))]), &x),
        usize::MAX
    );
}

#[test]
fn chains_collapse() {
    let mut subs: NameMap<String> = NameMap::new();
    subs.insert("a".to_string(), "b".to_string());
    subs.insert("b".to_string(), "c".to_string());
    subs.insert("c".to_string(), "d".to_string());
    subs.insert("p".to_string(), "q".to_string());
    transitive_closure(&mut subs);
    for key in ["a", "b", "c"] {
        assert_eq!(subs.get(key), Some(&"d".to_string()));
    }
    assert_eq!(subs.get("p"), Some(&"q".to_string()));
    assert_eq!(subs.get("d"), None);
    assert_eq!(subs.len(), 4);
    assert_eq!(subs.key_at(3), "p");
}

#[test]
fn name_that_stands_for_itself_ends_its_chain() {
    let mut subs: NameMap<String> = NameMap::new();
    subs.insert("a".to_string(), "b".to_string());
    subs.insert("b".to_string(), "b".to_string());
    transitive_closure(&mut subs);
    assert_eq!(subs.get("a"), Some(&"b".to_string()));
    assert_eq!(subs.get("b"), Some(&"b".to_string()));
}

#[test]
fn counts_are_bumped() {
    let mut map: NameMap<usize> = NameMap::new();
    NameCounts::bump(&mut map, "n");
    NameCounts::bump(&mut map, "n");
    NameCounts::bump(&mut map, "m");
    assert_eq!(map.get("n"), Some(&2));
    assert_eq!(map.get("m"), Some(&1));
    assert_eq!(map.get("k"), None);
}

#[test]
fn circle_of_bindings_is_refused() {
    let build = || seq(vec![bind("a", "b"), bind("b", "a")]);
    let mut exp = build();
    assert_eq!(checked_refine(&mut exp), None);
    assert_eq!(exp, build());
    let mut exp = seq(vec![bind("x", "y"), call(vec![var("x")])]);
    assert_eq!(checked_refine(&mut exp), Some(true));
    assert_eq!(exp, seq(vec![call(vec![var("y")])]));
    assert_eq!(checked_refine(&mut exp), Some(false));
}

#[test]
fn chains_without_an_end_are_found() {
    let mut subs: NameMap<String> = NameMap::new();
    assert!(chains_end(&subs));
    subs.insert("a".to_string(), "b".to_string());
    subs.insert("b".to_string(), "c".to_string());
    subs.insert("d".to_string(), "d".to_string());
    assert!(chains_end(&subs));
    subs.insert("c".to_string(), "a".to_string());
    assert!(!chains_end(&subs));
}
