use encoding_rs::{Encoding, UTF_16LE, UTF_8, WINDOWS_1252};
use selectors_vm::ast::{
    validate, Ast, AttributeOperator, AttributeSelector, Combinator, CompoundSelector, Selector,
    MAX_TEXT_BYTES,
};
use selectors_vm::attribute_matcher::{AttributeOutline, AuxStartTagInfo, Span};
use selectors_vm::compiler::Compiler;
use selectors_vm::error::SelectorError;
use selectors_vm::html::{LocalName, Namespace};
use selectors_vm::program::{AddressRange, LocalNameTest};
use selectors_vm::vm::SelectorMatchingVm;

fn compound(local_name: Option<&str>, attributes: Vec<AttributeSelector>) -> CompoundSelector {
    CompoundSelector { local_name: local_name.map(|n| n.to_string()), attributes }
}

fn named(local_name: &str) -> CompoundSelector {
    compound(Some(local_name), vec![])
}

fn attribute(name: &str, operator: AttributeOperator, value: &str) -> AttributeSelector {
    AttributeSelector {
        name: name.to_string(),
        operator,
        value: value.to_string(),
        negation: false,
    }
}

fn selector(compounds: Vec<CompoundSelector>, combinators: Vec<Combinator>, payload: u32) -> Selector<u32> {
    Selector { compounds, combinators, payload }
}

fn machine(selectors: Vec<Selector<u32>>, encoding: &'static Encoding) -> SelectorMatchingVm<u32> {
    SelectorMatchingVm::new(Ast { selectors }, encoding).expect("selectors compile")
}

fn start_tag(vm: &mut SelectorMatchingVm<u32>, name: &[u8], attrs: &[(&[u8], &[u8])]) -> Vec<(u32, bool)> {
    let mut matches = Vec::new();
    if let Err(request) = vm.exec_for_start_tag(LocalName::new(name), Namespace::Html, &mut matches) {
        let mut input = Vec::new();
        let mut outlines = Vec::new();
        for (attr_name, attr_value) in attrs {
            let name_start = input.len();
            input.extend_from_slice(attr_name);
            let value_start = input.len();
            input.extend_from_slice(attr_value);
            outlines.push(AttributeOutline {
                name: Span { start: name_start, end: value_start },
                value: Span { start: value_start, end: input.len() },
            });
        }
        request.serve(
            vm,
            AuxStartTagInfo { input: &input, attr_buffer: &outlines, self_closing: false },
            &mut matches,
        );
    }
    matches.into_iter().map(|m| (m.payload, m.with_content)).collect()
}

fn end_tag(vm: &mut SelectorMatchingVm<u32>, name: &[u8]) -> Vec<u32> {
    let mut unmatched = Vec::new();
    vm.exec_for_end_tag(LocalName::new(name), &mut unmatched);
    unmatched
}

#[test]
fn compiled_type_selector() {
    let mut vm = machine(vec![selector(vec![named("a")], vec![], 1)], UTF_8);
    assert_eq!(start_tag(&mut vm, b"a", &[]), vec![(1, true)]);
    assert_eq!(end_tag(&mut vm, b"a"), vec![1]);
    assert_eq!(vm.open_elements().len(), 0);
}

#[test]
fn compiled_child_selector() {
    let mut vm = machine(
        vec![selector(vec![named("a"), named("b")], vec![Combinator::Child], 2)],
        UTF_8,
    );
    assert_eq!(start_tag(&mut vm, b"a", &[]), vec![]);
    assert_eq!(start_tag(&mut vm, b"b", &[]), vec![(2, true)]);
    assert_eq!(start_tag(&mut vm, b"b", &[]), vec![]);
    assert_eq!(end_tag(&mut vm, b"b"), Vec::<u32>::new());
    assert_eq!(end_tag(&mut vm, b"b"), vec![2]);
    assert_eq!(end_tag(&mut vm, b"a"), Vec::<u32>::new());
    assert_eq!(vm.open_elements().len(), 0);
}

#[test]
fn compiled_descendant_selector() {
    let mut vm = machine(
        vec![selector(vec![named("a"), named("b")], vec![Combinator::Descendant], 3)],
        UTF_8,
    );
    assert_eq!(start_tag(&mut vm, b"a", &[]), vec![]);
    assert_eq!(start_tag(&mut vm, b"c", &[]), vec![]);
    assert_eq!(start_tag(&mut vm, b"b", &[]), vec![(3, true)]);
    assert_eq!(end_tag(&mut vm, b"a"), vec![3]);
    assert_eq!(vm.open_elements().len(), 0);
}

#[test]
fn compiled_attribute_selector() {
    let mut vm = machine(
        vec![selector(
            vec![compound(Some("a"), vec![attribute("href", AttributeOperator::Exists, "")])],
            vec![],
            4,
        )],
        UTF_8,
    );
    assert_eq!(start_tag(&mut vm, b"a", &[(b"href", b"x")]), vec![(4, true)]);
    assert_eq!(start_tag(&mut vm, b"a", &[(b"HREF", b"")]), vec![(4, true)]);
    assert_eq!(start_tag(&mut vm, b"a", &[(b"id", b"x")]), vec![]);
    assert_eq!(start_tag(&mut vm, b"b", &[(b"href", b"x")]), vec![]);
}

#[test]
fn compiled_void_selector() {
    let mut vm = machine(vec![selector(vec![named("area")], vec![], 5)], UTF_8);
    assert_eq!(start_tag(&mut vm, b"area", &[]), vec![(5, false)]);
    assert_eq!(vm.open_elements().len(), 0);
    assert_eq!(end_tag(&mut vm, b"area"), Vec::<u32>::new());
}

#[test]
fn compiled_attribute_and_descendant_selectors() {
    let mut vm = machine(
        vec![
            selector(
                vec![compound(Some("a"), vec![attribute("x", AttributeOperator::Exists, "")])],
                vec![],
                6,
            ),
            selector(vec![named("a"), named("b")], vec![Combinator::Descendant], 7),
        ],
        UTF_8,
    );
    assert_eq!(start_tag(&mut vm, b"a", &[(b"x", b"1")]), vec![(6, true)]);
    assert_eq!(start_tag(&mut vm, b"b", &[]), vec![(7, true)]);
    assert_eq!(end_tag(&mut vm, b"b"), vec![7]);
    assert_eq!(end_tag(&mut vm, b"a"), vec![6]);
    assert_eq!(vm.open_elements().len(), 0);
}

#[test]
fn compiled_attribute_operators() {
    let mut vm = machine(
        vec![
            selector(
                vec![compound(None, vec![attribute("href", AttributeOperator::Equals, "http://x")])],
                vec![],
                1,
            ),
            selector(
                vec![compound(None, vec![attribute("href", AttributeOperator::StartsWith, "http")])],
                vec![],
                2,
            ),
            selector(
                vec![compound(None, vec![attribute("href", AttributeOperator::EndsWith, "/x")])],
                vec![],
                3,
            ),
            selector(
                vec![compound(
                    None,
                    vec![AttributeSelector {
                        name: "href".to_string(),
                        operator: AttributeOperator::Exists,
                        value: String::new(),
                        negation: true,
                    }],
                )],
                vec![],
                4,
            ),
        ],
        UTF_8,
    );
    assert_eq!(
        start_tag(&mut vm, b"a", &[(b"href", b"http://x")]),
        vec![(1, true), (2, true), (3, true)]
    );
    assert_eq!(start_tag(&mut vm, b"a", &[(b"href", b"https://y/x")]), vec![(2, true), (3, true)]);
    assert_eq!(start_tag(&mut vm, b"a", &[(b"href", b"ftp://y")]), vec![]);
    assert_eq!(start_tag(&mut vm, b"a", &[(b"id", b"http://x")]), vec![(4, true)]);
    assert_eq!(
        start_tag(&mut vm, b"a", &[(b"href", b"/x"), (b"href", b"http://x")]),
        vec![(3, true)]
    );
}

#[test]
fn compiled_program_layout() {
    let program = Compiler::new(UTF_8)
        .compile(Ast {
            selectors: vec![
                selector(
                    vec![named("A"), named("b"), named("c")],
                    vec![Combinator::Child, Combinator::Descendant],
                    1,
                ),
                selector(vec![compound(None, vec![])], vec![], 2),
                selector(vec![named("d"), named("e")], vec![Combinator::Descendant], 3),
            ],
        })
        .expect("selectors compile");
    assert_eq!(program.instruction_count(), 6);
    assert_eq!(program.entry_point_range(), AddressRange { start: 0, end: 3 });
    let branch = |addr: usize| &program.instruction(addr).associated_branch;
    assert_eq!(branch(0).jumps, Some(AddressRange { start: 3, end: 4 }));
    assert_eq!(branch(0).hereditary_jumps, None);
    assert!(branch(0).matched_payload.is_empty());
    assert_eq!(branch(3).jumps, None);
    assert_eq!(branch(3).hereditary_jumps, Some(AddressRange { start: 4, end: 5 }));
    assert_eq!(branch(4).matched_payload, vec![1]);
    assert_eq!(branch(1).matched_payload, vec![2]);
    assert_eq!(branch(2).hereditary_jumps, Some(AddressRange { start: 5, end: 6 }));
    assert_eq!(branch(5).matched_payload, vec![3]);
    match &program.instruction(0).local_name_exprs[0].test {
        LocalNameTest::Is(name) => assert_eq!(name, b"a"),
        other => panic!("unexpected test {:?}", other),
    }
    assert!(matches!(program.instruction(1).local_name_exprs[0].test, LocalNameTest::Any));
}

#[test]
fn selector_text_is_encoded_as_the_document_is() {
    let selectors = || {
        vec![selector(
            vec![compound(Some("a"), vec![attribute("title", AttributeOperator::Equals, "caf\u{e9}")])],
            vec![],
            1,
        )]
    };
    let mut latin = machine(selectors(), WINDOWS_1252);
    assert_eq!(start_tag(&mut latin, b"a", &[(b"title", b"caf\xe9")]), vec![(1, true)]);
    assert_eq!(start_tag(&mut latin, b"a", &[(b"title", b"caf\xc3\xa9")]), vec![]);
    let mut utf8 = machine(selectors(), UTF_8);
    assert_eq!(start_tag(&mut utf8, b"a", &[(b"title", b"caf\xc3\xa9")]), vec![(1, true)]);
    assert_eq!(start_tag(&mut utf8, b"a", &[(b"title", b"caf\xe9")]), vec![]);
    // UTF-16 documents are matched on UTF-8 bytes: that is the encoding's
    // output encoding.
    let mut utf16 = machine(selectors(), UTF_16LE);
    assert_eq!(start_tag(&mut utf16, b"a", &[(b"title", b"caf\xc3\xa9")]), vec![(1, true)]);
}

#[test]
fn unencodable_text_is_refused() {
    let ast = Ast {
        selectors: vec![selector(
            vec![compound(Some("a"), vec![attribute("title", AttributeOperator::Equals, "\u{4e2d}")])],
            vec![],
            1,
        )],
    };
    assert!(matches!(
        SelectorMatchingVm::new(ast, WINDOWS_1252),
        Err(SelectorError::UnencodableText)
    ));
}

#[test]
fn malformed_selector_is_refused() {
    let no_compound = Ast { selectors: vec![selector(vec![], vec![], 1)] };
    assert_eq!(validate(&no_compound), Err(SelectorError::MalformedSelector));
    let stray_combinator = Ast { selectors: vec![selector(vec![named("a")], vec![Combinator::Child], 1)] };
    assert!(matches!(
        SelectorMatchingVm::new(stray_combinator, UTF_8),
        Err(SelectorError::MalformedSelector)
    ));
    let missing_combinator = Ast { selectors: vec![selector(vec![named("a"), named("b")], vec![], 1)] };
    assert!(matches!(
        Compiler::new(UTF_8).compile(missing_combinator),
        Err(SelectorError::MalformedSelector)
    ));
}

#[test]
fn overlong_text_is_refused() {
    let long = "a".repeat(MAX_TEXT_BYTES + 1);
    let ast = Ast { selectors: vec![selector(vec![named(&long)], vec![], 1)] };
    assert_eq!(validate(&ast), Err(SelectorError::TextTooLong));
    let longest = "a".repeat(MAX_TEXT_BYTES);
    let ast = Ast { selectors: vec![selector(vec![named(&longest)], vec![], 1)] };
    assert_eq!(validate(&ast), Ok(1));
    // A malformed selector is reported before an overlong text.
    let both = Ast {
        selectors: vec![selector(vec![named(&long)], vec![], 1), selector(vec![], vec![], 2)],
    };
    assert_eq!(validate(&both), Err(SelectorError::MalformedSelector));
}

#[test]
fn validate_counts_instructions() {
    let ast = Ast {
        selectors: vec![
            selector(
                vec![named("a"), named("b"), named("c")],
                vec![Combinator::Child, Combinator::Child],
                1,
            ),
            selector(vec![named("d")], vec![], 2),
        ],
    };
    assert_eq!(validate(&ast), Ok(4));
    assert_eq!(validate(&Ast::<u32> { selectors: vec![] }), Ok(0));
}
