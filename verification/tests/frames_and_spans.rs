use smoosher::ast::Control;
use smoosher::ast::Empty;
use smoosher::ast::Enable;
use smoosher::ast::Sequence;
use smoosher::errors::Span;
use smoosher::frame::Frame;
use smoosher::passes::CompileInvoke;

#[test]
fn frame_set_get_overwrites() {
    let mut f = Frame::new();
    assert_eq!(f.get("k"), None);
    f.set("k", 1);
    assert_eq!(f.get("k"), Some(1));
    f.set("k", 2);
    assert_eq!(f.get("k"), Some(2));
    assert_eq!(f.len(), 1);
}

#[test]
fn frame_keys_are_distinct() {
    let mut f = Frame::new();
    f.set("a", 1);
    f.set("b", 2);
    f.set("a", 3);
    let mut keys = f.keys();
    keys.sort();
    assert_eq!(keys, vec!["a".to_string(), "b".to_string()]);
    assert_eq!(f.len(), 2);
}

#[test]
fn frame_same_bindings_ignores_insertion_order() {
    let mut f = Frame::new();
    f.set("a", 1);
    f.set("b", 2);
    let mut g = Frame::new();
    g.set("b", 2);
    g.set("a", 1);
    assert!(f.same_bindings(&g));
    g.set("a", 9);
    assert!(!f.same_bindings(&g));
    let mut h = Frame::new();
    h.set("a", 1);
    assert!(!f.same_bindings(&h));
}

#[test]
fn frame_duplicate_is_deep() {
    let mut f = Frame::new();
    f.set("a", 1);
    let copy = f.duplicate();
    f.set("a", 2);
    assert_eq!(copy.get("a"), Some(1));
    assert_eq!(f.get("a"), Some(2));
}

#[test]
fn frame_overlay_prefers_the_added_bindings() {
    let mut base = Frame::new();
    base.set("a", 1);
    base.set("b", 2);
    let mut add = Frame::new();
    add.set("b", 9);
    add.set("c", 3);
    base.overlay(&add);
    assert_eq!(base.get("a"), Some(1));
    assert_eq!(base.get("b"), Some(9));
    assert_eq!(base.get("c"), Some(3));
}

#[test]
fn span_format_marks_the_line() {
    let text = "ab\ncdef\ngh";
    let ps = pest::Span::new(text, 4, 6).unwrap();
    let sp = Span::new(ps, text.to_string());
    assert_eq!(sp.format("boom"), "\n2 |cdef\n  | ^^ boom");
}

#[test]
fn span_format_first_line() {
    let text = "abc";
    let ps = pest::Span::new(text, 1, 2).unwrap();
    let sp = Span::new(ps, text.to_string());
    assert_eq!(sp.format("here"), "\n1 |abc\n  | ^ here");
}

#[test]
fn span_format_without_strictly_containing_line_is_empty() {
    // The span starts at the very beginning of its line, which the strict
    // containment check leaves unreported.
    let text = "ab\ncdef\ngh";
    let ps = pest::Span::new(text, 3, 5).unwrap();
    let sp = Span::new(ps, text.to_string());
    assert_eq!(sp.format("nope"), "");
}

#[test]
fn compile_invoke_metadata() {
    assert_eq!(CompileInvoke::name(), "compile-invoke");
    assert_eq!(
        CompileInvoke::description(),
        "Rewrites invoke statements to group enables"
    );
}

#[test]
fn control_tree_builds() {
    let prog = Control::Sequence {
        data: Sequence {
            stmts: vec![
                Control::Enable {
                    data: Enable { comps: vec!["adder".to_string()] },
                },
                Control::Empty { data: Empty {} },
            ],
        },
    };
    match prog {
        Control::Sequence { data } => {
            assert_eq!(data.stmts.len(), 2);
            match &data.stmts[0] {
                Control::Enable { data } => assert_eq!(data.comps, vec!["adder".to_string()]),
                _ => panic!("expected an enable"),
            }
        }
        _ => panic!("expected a sequence"),
    }
}

#[test]
fn span_format_two_digit_line_number() {
    let text = "\n\n\n\n\n\n\n\n\n\n\nabcd";
    let ps = pest::Span::new(text, 12, 14).unwrap();
    let sp = Span::new(ps, text.to_string());
    assert_eq!(sp.format("mark"), "\n12 |abcd\n   | ^^ mark");
}
