use gee::cache::{reparse_dirty, scope_under_cursor};
use gee::highlight::highlight_line;
use gee::session::open_view;
use gee::stack::Stack;
use gee::syntax::{Action, ContextInfo, ContextReference, Grammar, MatchRule, Rule, SyntaxInfo};

fn chars(s: &str) -> Vec<char> {
    s.chars().collect()
}

fn scopes(v: &[((usize, usize), String)]) -> Vec<(usize, usize, String)> {
    v.iter().map(|((a, b), s)| (*a, *b, s.clone())).collect()
}

fn rule(pattern: &str, scope: &[&str], action: Option<Action>) -> Rule {
    Rule::Match(MatchRule {
        pattern: pattern.to_string(),
        scope: if scope.is_empty() { None } else { Some(scope.iter().map(|s| s.to_string()).collect()) },
        action,
    })
}

fn context(rules: Vec<Rule>, meta_scope: Option<&str>) -> ContextInfo {
    ContextInfo {
        meta_include_prototype: false,
        meta_scope: meta_scope.map(|s| s.to_string()),
        meta_content_scope: None,
        rules,
    }
}

/// Numbers are constants; a double quote opens a string context that a
/// second double quote closes.
fn grammar() -> Grammar {
    let main = context(
        vec![
            rule("[0-9]+", &["constant.numeric"], None),
            rule("\"", &["punctuation.definition.string"], Some(Action::Push(vec![ContextReference(0, 1)]))),
        ],
        None,
    );
    let string = context(vec![rule("\"", &["punctuation.definition.string"], Some(Action::Pop))], Some("string.quoted"));
    Grammar {
        syntaxes: vec![SyntaxInfo {
            name: "Test".to_string(),
            scope: "source.test".to_string(),
            main: 0,
            prototype: None,
            contexts: vec![main, string],
        }],
    }
}

#[test]
fn numbers_are_painted() {
    let g = grammar();
    let mut st = Stack::new();
    let main = st.push(ContextReference(0, 0), 0);
    let (runs, out) = highlight_line(&g, 0, &chars("ab 12"), main, &mut st);
    assert_eq!(
        scopes(&runs),
        vec![
            (0, 0, "source.test".to_string()),
            (1, 1, "source.test".to_string()),
            (2, 2, "source.test".to_string()),
            (3, 4, "constant.numeric".to_string()),
        ]
    );
    assert_eq!(out, main);
}

#[test]
fn open_string_carries_to_next_line() {
    let g = grammar();
    let mut st = Stack::new();
    let main = st.push(ContextReference(0, 0), 0);
    let (runs, out) = highlight_line(&g, 0, &chars("\"é"), main, &mut st);
    assert_eq!(
        scopes(&runs),
        vec![(0, 0, "punctuation.definition.string".to_string()), (1, 1, "string.quoted".to_string())]
    );
    assert_ne!(out, main);
    assert_eq!(st.top(out), Some(ContextReference(0, 1)));
    assert_eq!(st.pop(out), main);
    let (runs2, out2) = highlight_line(&g, 0, &chars("x\"1"), out, &mut st);
    assert_eq!(
        scopes(&runs2),
        vec![
            (0, 0, "string.quoted".to_string()),
            (1, 1, "punctuation.definition.string".to_string()),
            (2, 2, "constant.numeric".to_string()),
        ]
    );
    assert_eq!(out2, main);
}

#[test]
fn empty_stack_paints_nothing_special() {
    let g = grammar();
    let mut st = Stack::new();
    let (runs, out) = highlight_line(&g, 0, &chars("7"), 0, &mut st);
    assert_eq!(scopes(&runs), vec![(0, 0, "source.test".to_string())]);
    assert_eq!(out, 0);
}

#[test]
fn reparse_reports_scope_under_cursor() {
    let g = grammar();
    let lines = vec![chars("x = \"ab"), chars("cd\" 42")];
    let mut v = open_view(&g, lines, Some(0), 20, 5);
    v.cursor_y = 1;
    v.cursor_x = 4;
    let scope = reparse_dirty(&mut v, &g);
    assert_eq!(scope, "constant.numeric");
    assert_eq!(v.recompute, 2);
    assert_eq!(v.line_hl.len(), 2);
    assert_eq!(scopes(&v.line_hl[1])[0], (0, 0, "string.quoted".to_string()));
    assert_eq!(v.stack.top(v.hlcache[1]), Some(ContextReference(0, 1)));
    v.cursor_x = 0;
    assert_eq!(scope_under_cursor(&mut v, &g), "string.quoted");
}

#[test]
fn plain_view_scope() {
    let g = Grammar::plain();
    let mut v = open_view(&g, vec![chars("hello")], None, 20, 5);
    assert_eq!(reparse_dirty(&mut v, &g), "text.plain");
    assert_eq!(v.recompute, 1);
    let mut e = open_view(&g, vec![], None, 20, 5);
    assert_eq!(reparse_dirty(&mut e, &g), "no scope");
    assert!(e.hlcache.is_empty());
}

#[test]
fn empty_match_that_pushes_keeps_the_column() {
    let main = context(vec![rule("(?=x)", &[], Some(Action::Push(vec![ContextReference(0, 1)])))], None);
    let inner = context(vec![rule("x", &["keyword.x"], Some(Action::Pop))], None);
    let g = Grammar {
        syntaxes: vec![SyntaxInfo {
            name: "Look".to_string(),
            scope: "source.look".to_string(),
            main: 0,
            prototype: None,
            contexts: vec![main, inner],
        }],
    };
    let mut st = Stack::new();
    let m = st.push(ContextReference(0, 0), 0);
    let (runs, out) = highlight_line(&g, 0, &chars("ax"), m, &mut st);
    assert_eq!(
        scopes(&runs),
        vec![(0, 0, "source.look".to_string()), (1, 1, "keyword.x".to_string())]
    );
    assert_eq!(out, m);
}

#[test]
fn many_empty_matches_in_a_row() {
    let depth: u16 = 300;
    let mut contexts = Vec::new();
    for i in 0..depth {
        contexts.push(context(vec![rule("(?=x)", &[], Some(Action::Push(vec![ContextReference(0, i + 1)])))], None));
    }
    contexts.push(context(vec![rule("x", &["deep"], None)], None));
    let g = Grammar {
        syntaxes: vec![SyntaxInfo {
            name: "Deep".to_string(),
            scope: "source.deep".to_string(),
            main: 0,
            prototype: None,
            contexts,
        }],
    };
    let mut st = Stack::new();
    let m = st.push(ContextReference(0, 0), 0);
    let (runs, out) = highlight_line(&g, 0, &chars("x"), m, &mut st);
    assert_eq!(scopes(&runs), vec![(0, 0, "deep".to_string())]);
    assert_eq!(st.top(out), Some(ContextReference(0, depth)));
}
