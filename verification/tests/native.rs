use oatie::doc::CurElement::{CurGroup, CurSkip, CurWithGroup};
use oatie::native::{
    command_safe, cursor_fits, default_doc, fact, request_is_fit, NativeRequest, NativeResponse,
};
use oatie::parse::{can_debug_pretty, debug_pretty, debug_pretty_checked};

#[test]
fn factorials() {
    assert_eq!(fact(0), 1);
    assert_eq!(fact(1), 1);
    assert_eq!(fact(5), 120);
    assert_eq!(fact(20), 2432902008176640000);
}

#[test]
fn commands_are_answered() {
    assert!(matches!(command_safe(NativeRequest::Factorial(10)), NativeResponse::Factorial(3628800)));
    assert!(matches!(
        command_safe(NativeRequest::RenameGroup(vec![CurSkip(1), CurWithGroup(vec![CurWithGroup(vec![CurSkip(1), CurGroup])])])),
        NativeResponse::RenameGroup
    ));
    match command_safe(NativeRequest::Invalid) {
        NativeResponse::Error(m) => assert_eq!(m, "Invalid request"),
        _ => panic!("expected an error"),
    }
}

#[test]
fn default_doc_has_two_blocks() {
    assert_eq!(default_doc().len(), 2);
}

#[test]
fn pretty_lays_out_brackets() {
    assert_eq!(debug_pretty("[1, 2]"), "[\n    1, 2\n]");
    assert_eq!(debug_pretty("[]"), "[]");
    assert_eq!(debug_pretty("A([B([1]), C], 2)"), "A([\n    B([\n        1\n    ]),\n    C\n], 2)");
    assert_eq!(debug_pretty(&format!("{:?}", vec![Some(1), None])), "[\n    Some(1), None\n]");
    assert_eq!(debug_pretty("a\nb"), "a\nb");
    assert_eq!(debug_pretty("[ \n x]"), "[\n    x\n]");
}

#[test]
fn requests_are_checked() {
    assert!(request_is_fit(&NativeRequest::Factorial(20)));
    assert!(!request_is_fit(&NativeRequest::Factorial(21)));
    assert!(request_is_fit(&NativeRequest::Invalid));
    let doc = default_doc();
    assert!(cursor_fits(&vec![CurSkip(2)], &doc));
    assert!(!cursor_fits(&vec![CurSkip(3)], &doc));
    assert!(cursor_fits(&vec![CurWithGroup(vec![CurSkip(7), CurWithGroup(vec![CurSkip(6)]), CurSkip(4)])], &doc));
    assert!(!cursor_fits(&vec![CurWithGroup(vec![CurSkip(7), CurWithGroup(vec![CurSkip(7)])])], &doc));
    assert!(!cursor_fits(&vec![CurWithGroup(vec![CurWithGroup(vec![])])], &doc));
    assert!(!request_is_fit(&NativeRequest::RenameGroup(vec![CurSkip(1), CurSkip(2)])));
    assert!(request_is_fit(&NativeRequest::RenameGroup(vec![CurSkip(1), CurGroup, CurSkip(1)])));
}

#[test]
fn pretty_is_refused_where_it_cannot_be_laid_out() {
    assert!(can_debug_pretty("[1, [2]]"));
    assert!(can_debug_pretty(""));
    assert!(!can_debug_pretty("]"));
    assert!(!can_debug_pretty("[1]]"));
    assert!(!can_debug_pretty("["));
    assert!(!can_debug_pretty("[   "));
    assert!(!can_debug_pretty("([]),  "));
    assert!(can_debug_pretty("([]), x"));
    assert_eq!(debug_pretty_checked("[1]"), Some("[\n    1\n]".to_string()));
    assert_eq!(debug_pretty_checked("]"), None);
    assert_eq!(debug_pretty_checked("([]),\t\n x"), Some("([]),\nx".to_string()));
    assert_eq!(debug_pretty_checked("[\u{a0}1]"), Some("[\n    1\n]".to_string()));
}
