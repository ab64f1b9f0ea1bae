use selectors_vm::attribute_matcher::{
    bytes_equal, ends_with, span_is_within, spans_are_within, starts_with, AttributeExpr,
    AttributeMatcher, AttributeOutline, AttributeTest, AuxStartTagInfo, Span,
};
use selectors_vm::compiler::{accept_encoded, lowercase_bytes, EncodedText};
use selectors_vm::error::SelectorError;
use selectors_vm::html::{
    copy_bytes, is_void_element, lowercase_equal, lowercase_is, to_ascii_lower, LocalName, Namespace,
};
use selectors_vm::matching::MatchInfo;
use selectors_vm::program::{
    AddressRange, ExecutionBranch, Instruction, LocalNameExpr, LocalNameTest, Program, TryExecResult,
};
use selectors_vm::protocol::RestorePoint;
use selectors_vm::schedule::{HereditaryJumpPtr, JumpPtr};
use selectors_vm::stack::{Stack, StackDirective, StackItem};
use selectors_vm::vm::{contains_payload, payloads_distinct, ranges_within, ExecutionCtx, SelectorMatchingVm};

fn outline(name: (usize, usize), value: (usize, usize)) -> AttributeOutline {
    AttributeOutline {
        name: Span { start: name.0, end: name.1 },
        value: Span { start: value.0, end: value.1 },
    }
}

fn is(name: &str) -> LocalNameExpr {
    LocalNameExpr { test: LocalNameTest::Is(name.as_bytes().to_vec()), negation: false }
}

fn has(name: &str) -> AttributeExpr {
    AttributeExpr { name: name.as_bytes().to_vec(), test: AttributeTest::Exists, negation: false }
}

fn instr(
    local_name_exprs: Vec<LocalNameExpr>,
    attribute_exprs: Vec<AttributeExpr>,
    matched_payload: Vec<u32>,
    jumps: Option<AddressRange>,
    hereditary_jumps: Option<AddressRange>,
) -> Instruction<u32> {
    Instruction {
        local_name_exprs,
        attribute_exprs,
        associated_branch: ExecutionBranch { matched_payload, jumps, hereditary_jumps },
    }
}

fn item(name: &'static str, hereditary_jumps: Vec<AddressRange>, payloads: Vec<u32>) -> StackItem<'static, u32> {
    let mut item = StackItem::new(LocalName::new(name.as_bytes()).into_owned());
    item.hereditary_jumps = hereditary_jumps;
    item.matched_payload = payloads;
    item
}

fn flags(stack: &Stack<u32>) -> Vec<bool> {
    stack.items().iter().map(|i| i.has_ancestor_with_hereditary_jumps).collect()
}

#[test]
fn ascii_letters_are_lowercased() {
    assert_eq!(to_ascii_lower(b'A'), b'a');
    assert_eq!(to_ascii_lower(b'Z'), b'z');
    assert_eq!(to_ascii_lower(b'a'), b'a');
    assert_eq!(to_ascii_lower(b'@'), b'@');
    assert_eq!(to_ascii_lower(b'['), b'[');
    assert_eq!(to_ascii_lower(0xc9), 0xc9);
    assert_eq!(lowercase_bytes(&b"DiV-1\xc9".to_vec()), b"div-1\xc9".to_vec());
}

#[test]
fn byte_strings_are_compared() {
    assert!(lowercase_equal(b"DIV", b"div"));
    assert!(!lowercase_equal(b"div", b"di"));
    assert!(!lowercase_equal(b"div", b"dib"));
    assert!(lowercase_is(b"DiV", b"div"));
    assert!(!lowercase_is(b"div", b"DIV"));
    assert!(bytes_equal(b"abc", b"abc"));
    assert!(!bytes_equal(b"abc", b"abd"));
    assert!(!bytes_equal(b"abc", b"ab"));
    assert!(starts_with(b"abc", b"ab"));
    assert!(starts_with(b"abc", b""));
    assert!(!starts_with(b"abc", b"bc"));
    assert!(!starts_with(b"ab", b"abc"));
    assert!(ends_with(b"abc", b"bc"));
    assert!(ends_with(b"abc", b""));
    assert!(!ends_with(b"abc", b"ab"));
    assert!(!ends_with(b"bc", b"abc"));
    assert_eq!(copy_bytes(b"abc"), b"abc".to_vec());
}

#[test]
fn local_names_keep_their_bytes_and_compare_by_lowercase() {
    let borrowed = LocalName::new(b"DiV");
    assert_eq!(borrowed.as_bytes(), b"DiV");
    let owned = LocalName::from_vec(b"div".to_vec());
    assert!(borrowed.same_as(&owned));
    assert!(owned.same_as(&borrowed));
    assert!(!owned.same_as(&LocalName::new(b"span")));
    let kept = borrowed.into_owned();
    assert!(matches!(kept, LocalName::Owned(_)));
    assert_eq!(kept.as_bytes(), b"DiV");
}

#[test]
fn void_elements_are_the_fourteen() {
    let void: [&[u8]; 14] = [
        b"area", b"base", b"br", b"col", b"embed", b"hr", b"img", b"input", b"link", b"meta",
        b"param", b"source", b"track", b"wbr",
    ];
    for name in void {
        assert!(is_void_element(&LocalName::new(name)));
    }
    assert!(is_void_element(&LocalName::new(b"IMG")));
    for name in [&b"a"[..], b"div", b"b", b"are", b"areas", b"", b"p"] {
        assert!(!is_void_element(&LocalName::new(name)));
    }
}

#[test]
fn stack_directive_follows_namespace_and_name() {
    let stack = Stack::<u32>::new();
    let directive = |name: &'static str, ns| {
        stack.get_stack_directive(&StackItem::new(LocalName::new(name.as_bytes())), ns)
    };
    assert_eq!(directive("div", Namespace::Html), StackDirective::Push);
    assert_eq!(directive("br", Namespace::Html), StackDirective::PopImmediately);
    assert_eq!(directive("g", Namespace::Svg), StackDirective::PushIfNotSelfClosing);
    assert_eq!(directive("mi", Namespace::MathMl), StackDirective::PushIfNotSelfClosing);
    assert_eq!(directive("br", Namespace::Svg), StackDirective::PushIfNotSelfClosing);
}

#[test]
fn spans_are_checked_against_the_input() {
    assert!(span_is_within(&Span { start: 0, end: 0 }, 0));
    assert!(span_is_within(&Span { start: 1, end: 3 }, 3));
    assert!(!span_is_within(&Span { start: 1, end: 4 }, 3));
    assert!(!span_is_within(&Span { start: 2, end: 1 }, 3));
    assert!(spans_are_within(b"a=b", &[outline((0, 1), (2, 3))]));
    assert!(!spans_are_within(b"a=b", &[outline((0, 1), (2, 4))]));
    assert!(!spans_are_within(b"a=b", &[outline((0, 1), (2, 3)), outline((3, 2), (0, 0))]));
    assert!(spans_are_within(b"", &[]));
}

#[test]
fn attribute_matcher_finds_the_first_attribute_of_a_name() {
    let input = b"HREF=one href=two id=x";
    let outlines = [outline((0, 4), (5, 8)), outline((9, 13), (14, 17)), outline((18, 20), (21, 22))];
    let matcher = AttributeMatcher::new(input, &outlines);
    assert_eq!(matcher.find_value(b"href"), Some(&b"one"[..]));
    assert_eq!(matcher.find_value(b"id"), Some(&b"x"[..]));
    assert_eq!(matcher.find_value(b"class"), None);
    assert_eq!(matcher.find_value(b"HREF"), None);
    assert!(matcher.has_attribute(b"id"));
    assert!(!matcher.has_attribute(b"i"));
}

#[test]
fn attribute_predicates_are_evaluated() {
    let input = b"href=http://x/y";
    let outlines = [outline((0, 4), (5, 15))];
    let matcher = AttributeMatcher::new(input, &outlines);
    let expr = |name: &str, test: AttributeTest, negation: bool| AttributeExpr {
        name: name.as_bytes().to_vec(),
        test,
        negation,
    };
    assert!(expr("href", AttributeTest::Exists, false).eval(&matcher));
    assert!(!expr("href", AttributeTest::Exists, true).eval(&matcher));
    assert!(!expr("id", AttributeTest::Exists, false).eval(&matcher));
    assert!(expr("id", AttributeTest::Exists, true).eval(&matcher));
    assert!(expr("href", AttributeTest::Equals(b"http://x/y".to_vec()), false).eval(&matcher));
    assert!(!expr("href", AttributeTest::Equals(b"http://x".to_vec()), false).eval(&matcher));
    assert!(expr("href", AttributeTest::StartsWith(b"http:".to_vec()), false).eval(&matcher));
    assert!(!expr("href", AttributeTest::StartsWith(b"ftp:".to_vec()), false).eval(&matcher));
    assert!(expr("href", AttributeTest::EndsWith(b"/y".to_vec()), false).eval(&matcher));
    assert!(!expr("href", AttributeTest::EndsWith(b"/x".to_vec()), false).eval(&matcher));
    assert!(!expr("id", AttributeTest::Equals(b"".to_vec()), false).eval(&matcher));
    assert!(expr("id", AttributeTest::Equals(b"".to_vec()), true).eval(&matcher));
}

#[test]
fn tag_name_predicates_are_evaluated() {
    let a = LocalName::new(b"A");
    let expr = |test, negation| LocalNameExpr { test, negation };
    assert!(expr(LocalNameTest::Any, false).eval(&a));
    assert!(!expr(LocalNameTest::Any, true).eval(&a));
    assert!(!expr(LocalNameTest::Unmatchable, false).eval(&a));
    assert!(expr(LocalNameTest::Unmatchable, true).eval(&a));
    assert!(expr(LocalNameTest::Is(b"a".to_vec()), false).eval(&a));
    assert!(!expr(LocalNameTest::Is(b"b".to_vec()), false).eval(&a));
    assert!(expr(LocalNameTest::Is(b"b".to_vec()), true).eval(&a));
}

#[test]
fn instruction_is_decided_with_and_without_attributes() {
    let input = b"x";
    let with_x = [outline((0, 1), (1, 1))];
    let has_x = AttributeMatcher::new(input, &with_x);
    let no_attrs = AttributeMatcher::new(input, &[]);
    let a = LocalName::new(b"a");
    let b = LocalName::new(b"b");

    let plain = instr(vec![is("a")], vec![], vec![1], None, None);
    assert!(matches!(plain.try_exec_without_attrs(&a), TryExecResult::Branch(br) if br.matched_payload == vec![1]));
    assert!(matches!(plain.try_exec_without_attrs(&b), TryExecResult::Fail));
    assert!(plain.exec(&a, &no_attrs).is_some());
    assert!(plain.exec(&b, &has_x).is_none());

    let guarded = instr(vec![is("a")], vec![has("x")], vec![2], None, None);
    assert!(matches!(guarded.try_exec_without_attrs(&a), TryExecResult::AttributesRequired));
    assert!(matches!(guarded.try_exec_without_attrs(&b), TryExecResult::Fail));
    assert!(guarded.complete_execution_with_attrs(&has_x).is_some());
    assert!(guarded.complete_execution_with_attrs(&no_attrs).is_none());
    assert!(guarded.exec(&a, &has_x).is_some());
    assert!(guarded.exec(&a, &no_attrs).is_none());
    assert!(guarded.exec(&b, &has_x).is_none());

    let anything = instr(vec![], vec![], vec![3], None, None);
    assert!(matches!(anything.try_exec_without_attrs(&b), TryExecResult::Branch(_)));
}

#[test]
fn program_gives_its_parts() {
    let program = Program::new(
        vec![
            instr(vec![is("a")], vec![], vec![1], Some(AddressRange { start: 1, end: 2 }), None),
            instr(vec![is("b")], vec![], vec![2], None, None),
        ],
        AddressRange { start: 0, end: 1 },
    )
    .unwrap();
    assert_eq!(program.instruction_count(), 2);
    assert_eq!(program.entry_point_range(), AddressRange { start: 0, end: 1 });
    assert_eq!(program.instruction(1).associated_branch.matched_payload, vec![2]);
    let vm = SelectorMatchingVm::with_program(program);
    assert_eq!(vm.compiled_program().instruction_count(), 2);
    assert_eq!(vm.open_elements().len(), 0);
}

#[test]
fn push_sets_the_flag_from_the_items_below() {
    let mut stack = Stack::<u32>::new();
    stack.push_item(item("a", vec![], vec![]));
    stack.push_item(item("b", vec![AddressRange { start: 0, end: 1 }], vec![]));
    stack.push_item(item("c", vec![], vec![]));
    stack.push_item(item("d", vec![], vec![]));
    assert_eq!(flags(&stack), vec![false, false, true, true]);
    assert_eq!(stack.len(), 4);
    assert_eq!(stack.item(1).local_name.as_bytes(), b"b");
    let mut unmatched = Vec::new();
    stack.pop_up_to(&LocalName::new(b"c"), &mut unmatched);
    assert_eq!(flags(&stack), vec![false, false]);
    stack.push_item(item("e", vec![], vec![]));
    assert_eq!(flags(&stack), vec![false, false, true]);
    stack.pop_up_to(&LocalName::new(b"b"), &mut unmatched);
    stack.push_item(item("f", vec![], vec![]));
    assert_eq!(flags(&stack), vec![false, false]);
}

#[test]
fn push_overrides_a_flag_that_was_set_by_hand() {
    let mut stack = Stack::<u32>::new();
    let mut first = item("a", vec![], vec![]);
    first.has_ancestor_with_hereditary_jumps = true;
    stack.push_item(first);
    assert_eq!(flags(&stack), vec![false]);
}

#[test]
fn pop_hands_over_payloads_innermost_first() {
    let mut stack = Stack::<u32>::new();
    stack.push_item(item("a", vec![], vec![1, 2]));
    stack.push_item(item("b", vec![], vec![3]));
    stack.push_item(item("c", vec![], vec![]));
    stack.push_item(item("B", vec![], vec![4, 5]));
    let mut unmatched = vec![0];
    stack.pop_up_to(&LocalName::new(b"x"), &mut unmatched);
    assert_eq!(unmatched, vec![0]);
    assert_eq!(stack.len(), 4);
    stack.pop_up_to(&LocalName::new(b"b"), &mut unmatched);
    assert_eq!(unmatched, vec![0, 4, 5]);
    assert_eq!(stack.len(), 3);
    stack.pop_up_to(&LocalName::new(b"A"), &mut unmatched);
    assert_eq!(unmatched, vec![0, 4, 5, 3, 1, 2]);
    assert_eq!(stack.len(), 0);
    stack.pop_up_to(&LocalName::new(b"a"), &mut unmatched);
    assert_eq!(unmatched.len(), 6);
}

#[test]
fn execution_context_takes_branches() {
    let mut ctx = ExecutionCtx::<u32>::new(LocalName::new(b"a"), Namespace::Html);
    assert!(ctx.with_content);
    assert_eq!(ctx.ns, Namespace::Html);
    let mut matches = vec![MatchInfo { payload: 9, with_content: true }];
    let branch = ExecutionBranch {
        matched_payload: vec![1, 2, 1],
        jumps: Some(AddressRange { start: 3, end: 4 }),
        hereditary_jumps: None,
    };
    ctx.add_execution_branch(&branch, &mut matches);
    let again = ExecutionBranch {
        matched_payload: vec![2, 3],
        jumps: None,
        hereditary_jumps: Some(AddressRange { start: 5, end: 7 }),
    };
    ctx.add_execution_branch(&again, &mut matches);
    assert_eq!(
        matches,
        vec![
            MatchInfo { payload: 9, with_content: true },
            MatchInfo { payload: 1, with_content: true },
            MatchInfo { payload: 2, with_content: true },
            MatchInfo { payload: 3, with_content: true },
        ]
    );
    let ctx = ctx.into_owned();
    assert_eq!(ctx.stack_item.matched_payload, vec![1, 2, 3]);
    assert_eq!(ctx.stack_item.jumps, vec![AddressRange { start: 3, end: 4 }]);
    assert_eq!(ctx.stack_item.hereditary_jumps, vec![AddressRange { start: 5, end: 7 }]);
    assert_eq!(ctx.stack_item.local_name.as_bytes(), b"a");
    assert!(!ctx.stack_item.has_ancestor_with_hereditary_jumps);
}

#[test]
fn execution_context_without_content_drops_jumps() {
    let mut ctx = ExecutionCtx::<u32>::new(LocalName::new(b"br"), Namespace::Html);
    ctx.with_content = false;
    let mut matches = Vec::new();
    let branch = ExecutionBranch {
        matched_payload: vec![1],
        jumps: Some(AddressRange { start: 3, end: 4 }),
        hereditary_jumps: Some(AddressRange { start: 5, end: 7 }),
    };
    ctx.add_execution_branch(&branch, &mut matches);
    assert_eq!(matches, vec![MatchInfo { payload: 1, with_content: false }]);
    assert!(ctx.stack_item.jumps.is_empty());
    assert!(ctx.stack_item.hereditary_jumps.is_empty());
    assert_eq!(ctx.stack_item.matched_payload, vec![1]);
}

#[test]
fn payload_lists_are_searched() {
    assert!(contains_payload(&vec![1u32, 2, 3], 2));
    assert!(!contains_payload(&vec![1u32, 2, 3], 4));
    assert!(!contains_payload(&Vec::<u32>::new(), 4));
    assert!(payloads_distinct(&vec![1u32, 2, 3]));
    assert!(payloads_distinct(&Vec::<u32>::new()));
    assert!(!payloads_distinct(&vec![1u32, 2, 1]));
    assert!(!payloads_distinct(&vec![1u32, 2, 2]));
    assert!(ranges_within(&vec![AddressRange { start: 0, end: 2 }, AddressRange { start: 2, end: 2 }], 2));
    assert!(!ranges_within(&vec![AddressRange { start: 0, end: 3 }], 2));
    assert!(!ranges_within(&vec![AddressRange { start: 2, end: 1 }], 2));
}

#[test]
fn jump_pointers_start_at_zero() {
    assert_eq!(JumpPtr::default(), JumpPtr { instr_set_idx: 0, offset: 0 });
    assert_eq!(
        HereditaryJumpPtr::default(),
        HereditaryJumpPtr { stack_offset: 0, instr_set_idx: 0, offset: 0 }
    );
}

#[test]
fn encoded_text_is_accepted_unless_it_had_unmappable_characters() {
    assert_eq!(
        accept_encoded(EncodedText { bytes: b"abc".to_vec(), had_unmappable: false }),
        Ok(b"abc".to_vec())
    );
    assert_eq!(
        accept_encoded(EncodedText { bytes: b"&#20013;".to_vec(), had_unmappable: true }),
        Err(SelectorError::UnencodableText)
    );
}

#[test]
fn request_is_served_only_where_it_fits() {
    let guarded = || instr(vec![is("a")], vec![has("x")], vec![1], None, None);
    let plain = || instr(vec![is("b")], vec![], vec![2], None, None);
    let mut large =
        SelectorMatchingVm::with_program(Program::new(vec![plain(), guarded()], AddressRange { start: 0, end: 2 }).unwrap());
    let small = SelectorMatchingVm::with_program(Program::new(vec![plain()], AddressRange { start: 0, end: 1 }).unwrap());
    let mut matches = Vec::new();
    let request = large
        .exec_for_start_tag(LocalName::new(b"a"), Namespace::Html, &mut matches)
        .expect_err("the attributes decide");
    assert_eq!(request.resumes_at(), RestorePoint::EntryPoints { at_addr: 1, offset: 2 });
    assert!(large.can_serve(&request));
    assert!(!small.can_serve(&request));
    request.serve(
        &mut large,
        AuxStartTagInfo { input: b"x", attr_buffer: &[outline((0, 1), (1, 1))], self_closing: false },
        &mut matches,
    );
    assert_eq!(matches, vec![MatchInfo { payload: 1, with_content: true }]);
}

#[test]
fn two_step_matching_reports_what_one_pass_reports() {
    // In a foreign namespace a start tag is matched in one pass with its
    // attributes known; in HTML the same tag is matched in two steps.
    let build = || {
        SelectorMatchingVm::with_program(
            Program::new(
                vec![
                    instr(vec![is("p")], vec![], vec![], Some(AddressRange { start: 2, end: 5 }), Some(AddressRange { start: 5, end: 7 })),
                    instr(vec![is("p")], vec![], vec![], None, Some(AddressRange { start: 7, end: 8 })),
                    instr(vec![is("q")], vec![], vec![10], None, None),
                    instr(vec![is("q")], vec![has("x")], vec![11, 10], None, None),
                    instr(vec![is("q")], vec![has("y")], vec![12], None, None),
                    instr(vec![is("q")], vec![has("x")], vec![13, 11], None, None),
                    instr(vec![is("q")], vec![], vec![14], None, None),
                    instr(vec![is("q")], vec![has("z")], vec![15], None, None),
                ],
                AddressRange { start: 0, end: 2 },
            )
            .unwrap(),
        )
    };
    let input = b"xz";
    let outlines = [outline((0, 1), (1, 1)), outline((1, 2), (2, 2))];
    let aux = || AuxStartTagInfo { input, attr_buffer: &outlines, self_closing: false };
    let run = |ns: Namespace| {
        let mut vm = build();
        let mut opening = Vec::new();
        assert!(vm.exec_for_start_tag(LocalName::new(b"p"), Namespace::Html, &mut opening).is_ok());
        let mut matches = Vec::new();
        let request = vm
            .exec_for_start_tag(LocalName::new(b"q"), ns, &mut matches)
            .expect_err("the attributes decide");
        let at = request.resumes_at();
        request.serve(&mut vm, aux(), &mut matches);
        assert_eq!(vm.open_elements().len(), 2);
        (at, matches)
    };
    let (html_at, html) = run(Namespace::Html);
    let (svg_at, svg) = run(Namespace::Svg);
    assert_eq!(
        html_at,
        RestorePoint::Jumps { at_addr: 3, ptr: JumpPtr { instr_set_idx: 0, offset: 2 } }
    );
    assert_eq!(svg_at, RestorePoint::Start);
    assert_eq!(html, svg);
    let payloads: Vec<u32> = html.iter().map(|m| m.payload).collect();
    assert_eq!(payloads, vec![10, 11, 13, 14, 15]);
}

#[test]
fn well_formed_document_leaves_the_stack_empty() {
    let mut vm = SelectorMatchingVm::with_program(
        Program::new(
            vec![
                instr(vec![is("div")], vec![], vec![1], None, Some(AddressRange { start: 1, end: 3 })),
                instr(vec![is("a")], vec![has("href")], vec![2], None, None),
                instr(vec![is("img")], vec![], vec![3], None, None),
            ],
            AddressRange { start: 0, end: 1 },
        )
        .unwrap(),
    );
    let mut reported = Vec::new();
    let mut unmatched = Vec::new();
    let mut open = |vm: &mut SelectorMatchingVm<u32>, name: &'static str, ns, attrs: &[u8], self_closing| {
        let outlines: Vec<AttributeOutline> =
            if attrs.is_empty() { vec![] } else { vec![outline((0, attrs.len()), (0, 0))] };
        if let Err(request) = vm.exec_for_start_tag(LocalName::new(name.as_bytes()), ns, &mut reported) {
            request.serve(
                vm,
                AuxStartTagInfo { input: attrs, attr_buffer: &outlines, self_closing },
                &mut reported,
            );
        }
    };
    // <div><p><a href><img></a><svg><path/><g></g></svg></p><div></div></div>
    open(&mut vm, "div", Namespace::Html, b"", false);
    open(&mut vm, "p", Namespace::Html, b"", false);
    open(&mut vm, "a", Namespace::Html, b"href", false);
    open(&mut vm, "img", Namespace::Html, b"", false);
    assert_eq!(vm.open_elements().len(), 3);
    vm.exec_for_end_tag(LocalName::new(b"a"), &mut unmatched);
    open(&mut vm, "svg", Namespace::Svg, b"", false);
    open(&mut vm, "path", Namespace::Svg, b"", true);
    open(&mut vm, "g", Namespace::Svg, b"", false);
    assert_eq!(vm.open_elements().len(), 4);
    vm.exec_for_end_tag(LocalName::new(b"g"), &mut unmatched);
    vm.exec_for_end_tag(LocalName::new(b"svg"), &mut unmatched);
    vm.exec_for_end_tag(LocalName::new(b"p"), &mut unmatched);
    open(&mut vm, "div", Namespace::Html, b"", false);
    vm.exec_for_end_tag(LocalName::new(b"div"), &mut unmatched);
    assert_eq!(vm.open_elements().len(), 1);
    vm.exec_for_end_tag(LocalName::new(b"div"), &mut unmatched);
    assert_eq!(vm.open_elements().len(), 0);
    let reported: Vec<(u32, bool)> = reported.into_iter().map(|m| (m.payload, m.with_content)).collect();
    assert_eq!(reported, vec![(1, true), (2, true), (3, false), (1, true)]);
    assert_eq!(unmatched, vec![2, 1, 1]);
}
