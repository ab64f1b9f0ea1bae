use selectors_vm::attribute_matcher::{
    AttributeExpr, AttributeOutline, AttributeTest, AuxStartTagInfo, Span,
};
use selectors_vm::html::{LocalName, Namespace};
use selectors_vm::matching::MatchInfo;
use selectors_vm::program::{
    AddressRange, ExecutionBranch, Instruction, LocalNameExpr, LocalNameTest, Program,
};
use selectors_vm::protocol::RestorePoint;
use selectors_vm::schedule::{HereditaryJumpPtr, JumpPtr};
use selectors_vm::vm::{AuxStartTagInfoRequest, SelectorMatchingVm};

fn range(start: usize, end: usize) -> AddressRange {
    AddressRange { start, end }
}

fn tag(name: &str) -> Vec<LocalNameExpr> {
    vec![LocalNameExpr { test: LocalNameTest::Is(name.as_bytes().to_vec()), negation: false }]
}

fn has_attr(name: &str) -> Vec<AttributeExpr> {
    vec![AttributeExpr {
        name: name.as_bytes().to_vec(),
        test: AttributeTest::Exists,
        negation: false,
    }]
}

fn instr(
    local_name_exprs: Vec<LocalNameExpr>,
    attribute_exprs: Vec<AttributeExpr>,
    matched_payload: Vec<u32>,
    jumps: Option<AddressRange>,
    hereditary_jumps: Option<AddressRange>,
) -> Instruction<u32> {
    Instruction {
        local_name_exprs,
        attribute_exprs,
        associated_branch: ExecutionBranch { matched_payload, jumps, hereditary_jumps },
    }
}

fn vm_of(instructions: Vec<Instruction<u32>>, entry_points: AddressRange) -> SelectorMatchingVm<u32> {
    SelectorMatchingVm::with_program(Program::new(instructions, entry_points).expect("addresses in range"))
}

/// The bytes of a start tag's attributes, name after value after name, and
/// the spans that cut them out again.
fn attributes(pairs: &[(&str, &str)]) -> (Vec<u8>, Vec<AttributeOutline>) {
    let mut input = Vec::new();
    let mut outlines = Vec::new();
    for (name, value) in pairs {
        let name_start = input.len();
        input.extend_from_slice(name.as_bytes());
        let value_start = input.len();
        input.extend_from_slice(value.as_bytes());
        outlines.push(AttributeOutline {
            name: Span { start: name_start, end: value_start },
            value: Span { start: value_start, end: input.len() },
        });
    }
    (input, outlines)
}

fn start(vm: &mut SelectorMatchingVm<u32>, name: &str, ns: Namespace) -> (Vec<(u32, bool)>, Option<AuxStartTagInfoRequest<u32>>) {
    let mut matches = Vec::new();
    let request = vm.exec_for_start_tag(LocalName::new(name.as_bytes()), ns, &mut matches).err();
    (pairs(matches), request)
}

fn serve(
    vm: &mut SelectorMatchingVm<u32>,
    request: AuxStartTagInfoRequest<u32>,
    attrs: &[(&str, &str)],
    self_closing: bool,
) -> Vec<(u32, bool)> {
    let (input, outlines) = attributes(attrs);
    let mut matches = Vec::new();
    assert!(vm.can_serve(&request));
    request.serve(
        vm,
        AuxStartTagInfo { input: &input, attr_buffer: &outlines, self_closing },
        &mut matches,
    );
    pairs(matches)
}

fn end(vm: &mut SelectorMatchingVm<u32>, name: &str) -> Vec<u32> {
    let mut unmatched = Vec::new();
    vm.exec_for_end_tag(LocalName::new(name.as_bytes()), &mut unmatched);
    unmatched
}

fn pairs(matches: Vec<MatchInfo<u32>>) -> Vec<(u32, bool)> {
    matches.into_iter().map(|m| (m.payload, m.with_content)).collect()
}

fn depth(vm: &SelectorMatchingVm<u32>) -> usize {
    vm.open_elements().len()
}

#[test]
fn type_selector_matches_once_and_unmatches_at_end() {
    let mut vm = vm_of(vec![instr(tag("a"), vec![], vec![1], None, None)], range(0, 1));
    let (matches, request) = start(&mut vm, "a", Namespace::Html);
    assert!(request.is_none());
    assert_eq!(matches, vec![(1, true)]);
    assert_eq!(depth(&vm), 1);
    assert_eq!(end(&mut vm, "a"), vec![1]);
    assert_eq!(depth(&vm), 0);
}

#[test]
fn child_combinator_fires_on_direct_child() {
    let mut vm = vm_of(
        vec![
            instr(tag("a"), vec![], vec![], Some(range(1, 2)), None),
            instr(tag("b"), vec![], vec![2], None, None),
        ],
        range(0, 1),
    );
    let (matches, request) = start(&mut vm, "a", Namespace::Html);
    assert!(request.is_none());
    assert_eq!(matches, vec![]);
    let (matches, request) = start(&mut vm, "b", Namespace::Html);
    assert!(request.is_none());
    assert_eq!(matches, vec![(2, true)]);
    assert_eq!(end(&mut vm, "b"), vec![2]);
    assert_eq!(end(&mut vm, "a"), Vec::<u32>::new());
    assert_eq!(depth(&vm), 0);
}

#[test]
fn child_combinator_does_not_fire_on_grandchild() {
    let mut vm = vm_of(
        vec![
            instr(tag("a"), vec![], vec![], Some(range(1, 2)), None),
            instr(tag("b"), vec![], vec![2], None, None),
        ],
        range(0, 1),
    );
    start(&mut vm, "a", Namespace::Html);
    start(&mut vm, "c", Namespace::Html);
    let (matches, request) = start(&mut vm, "b", Namespace::Html);
    assert!(request.is_none());
    assert_eq!(matches, vec![]);
}

#[test]
fn descendant_combinator_finds_grandchild() {
    let mut vm = vm_of(
        vec![
            instr(tag("a"), vec![], vec![], None, Some(range(1, 2))),
            instr(tag("b"), vec![], vec![3], None, None),
        ],
        range(0, 1),
    );
    assert_eq!(start(&mut vm, "a", Namespace::Html).0, vec![]);
    assert_eq!(start(&mut vm, "c", Namespace::Html).0, vec![]);
    let (matches, request) = start(&mut vm, "b", Namespace::Html);
    assert!(request.is_none());
    assert_eq!(matches, vec![(3, true)]);
    assert_eq!(depth(&vm), 3);
    assert_eq!(end(&mut vm, "b"), vec![3]);
    assert_eq!(end(&mut vm, "c"), Vec::<u32>::new());
    assert_eq!(end(&mut vm, "a"), Vec::<u32>::new());
    assert_eq!(depth(&vm), 0);
}

#[test]
fn attribute_selector_asks_for_attributes() {
    let mut vm = vm_of(vec![instr(tag("a"), has_attr("href"), vec![4], None, None)], range(0, 1));
    let (matches, request) = start(&mut vm, "a", Namespace::Html);
    assert_eq!(matches, vec![]);
    assert_eq!(depth(&vm), 0);
    let request = request.expect("the attributes decide");
    assert_eq!(request.resumes_at(), RestorePoint::EntryPoints { at_addr: 0, offset: 1 });
    assert_eq!(serve(&mut vm, request, &[("href", "x")], false), vec![(4, true)]);
    assert_eq!(depth(&vm), 1);
    assert_eq!(end(&mut vm, "a"), vec![4]);
    assert_eq!(depth(&vm), 0);
}

#[test]
fn attribute_selector_fails_without_the_attribute() {
    let mut vm = vm_of(vec![instr(tag("a"), has_attr("href"), vec![4], None, None)], range(0, 1));
    let (_, request) = start(&mut vm, "a", Namespace::Html);
    assert_eq!(serve(&mut vm, request.unwrap(), &[("id", "x")], false), vec![]);
    assert_eq!(depth(&vm), 1);
    assert_eq!(end(&mut vm, "a"), Vec::<u32>::new());
}

#[test]
fn void_element_is_matched_without_content_and_not_pushed() {
    let mut vm = vm_of(vec![instr(tag("area"), vec![], vec![5], None, None)], range(0, 1));
    let (matches, request) = start(&mut vm, "area", Namespace::Html);
    assert!(request.is_none());
    assert_eq!(matches, vec![(5, false)]);
    assert_eq!(depth(&vm), 0);
    assert_eq!(end(&mut vm, "area"), Vec::<u32>::new());
    assert_eq!(depth(&vm), 0);
}

#[test]
fn attribute_and_descendant_selectors_unmatch_in_lifo_order() {
    let mut vm = vm_of(
        vec![
            instr(tag("a"), has_attr("x"), vec![6], None, None),
            instr(tag("a"), vec![], vec![], None, Some(range(2, 3))),
            instr(tag("b"), vec![], vec![7], None, None),
        ],
        range(0, 2),
    );
    let (matches, request) = start(&mut vm, "a", Namespace::Html);
    assert_eq!(matches, vec![]);
    let request = request.expect("the attributes decide");
    assert_eq!(serve(&mut vm, request, &[("x", "1")], false), vec![(6, true)]);
    assert_eq!(depth(&vm), 1);
    let (matches, request) = start(&mut vm, "b", Namespace::Html);
    assert!(request.is_none());
    assert_eq!(matches, vec![(7, true)]);
    assert_eq!(end(&mut vm, "b"), vec![7]);
    assert_eq!(end(&mut vm, "a"), vec![6]);
    assert_eq!(depth(&vm), 0);
}

#[test]
fn bailout_on_first_entry_point_resumes_at_offset_one() {
    let mut vm = vm_of(
        vec![
            instr(tag("a"), has_attr("x"), vec![1], None, None),
            instr(tag("a"), vec![], vec![2], None, None),
            instr(tag("a"), has_attr("y"), vec![3], None, None),
        ],
        range(0, 3),
    );
    let (matches, request) = start(&mut vm, "a", Namespace::Html);
    assert_eq!(matches, vec![]);
    let request = request.unwrap();
    assert_eq!(request.resumes_at(), RestorePoint::EntryPoints { at_addr: 0, offset: 1 });
    assert_eq!(
        serve(&mut vm, request, &[("y", ""), ("x", "")], false),
        vec![(1, true), (2, true), (3, true)]
    );
}

#[test]
fn reports_before_a_bailout_are_made_at_once() {
    let mut vm = vm_of(
        vec![
            instr(tag("a"), vec![], vec![1], None, None),
            instr(tag("a"), has_attr("x"), vec![2], None, None),
            instr(tag("a"), vec![], vec![3], None, None),
        ],
        range(0, 3),
    );
    let (matches, request) = start(&mut vm, "a", Namespace::Html);
    assert_eq!(matches, vec![(1, true)]);
    let request = request.unwrap();
    assert_eq!(request.resumes_at(), RestorePoint::EntryPoints { at_addr: 1, offset: 2 });
    assert_eq!(serve(&mut vm, request, &[], false), vec![(3, true)]);
    assert_eq!(end(&mut vm, "a"), vec![1, 3]);
}

#[test]
fn bailout_on_last_child_jump_still_runs_descendant_jumps() {
    // Two entry points match `a`, so `a` has two instruction sets for its
    // children; the last instruction of the last of them waits.
    let mut vm = vm_of(
        vec![
            instr(tag("a"), vec![], vec![], Some(range(2, 3)), Some(range(4, 5))),
            instr(tag("a"), vec![], vec![], Some(range(3, 4)), None),
            instr(tag("b"), vec![], vec![10], None, None),
            instr(tag("b"), has_attr("x"), vec![11], None, None),
            instr(tag("b"), vec![], vec![12], None, None),
        ],
        range(0, 2),
    );
    assert_eq!(start(&mut vm, "a", Namespace::Html).0, vec![]);
    let (matches, request) = start(&mut vm, "b", Namespace::Html);
    assert_eq!(matches, vec![(10, true)]);
    let request = request.unwrap();
    assert_eq!(
        request.resumes_at(),
        RestorePoint::Jumps { at_addr: 3, ptr: JumpPtr { instr_set_idx: 1, offset: 1 } }
    );
    assert_eq!(serve(&mut vm, request, &[("x", "")], false), vec![(11, true), (12, true)]);
    assert_eq!(depth(&vm), 2);
    assert_eq!(end(&mut vm, "b"), vec![10, 11, 12]);
}

#[test]
fn descendant_jump_bailout_at_innermost_ancestor_walks_outward() {
    let mut vm = vm_of(
        vec![
            instr(tag("a"), vec![], vec![], None, Some(range(2, 3))),
            instr(tag("c"), vec![], vec![], None, Some(range(3, 5))),
            instr(tag("b"), vec![], vec![20], None, None),
            instr(tag("b"), has_attr("x"), vec![21], None, None),
            instr(tag("b"), vec![], vec![22], None, None),
        ],
        range(0, 2),
    );
    start(&mut vm, "a", Namespace::Html);
    start(&mut vm, "c", Namespace::Html);
    let (matches, request) = start(&mut vm, "b", Namespace::Html);
    assert_eq!(matches, vec![]);
    let request = request.unwrap();
    assert_eq!(
        request.resumes_at(),
        RestorePoint::HereditaryJumps {
            at_addr: 3,
            ptr: HereditaryJumpPtr { stack_offset: 0, instr_set_idx: 0, offset: 1 },
        }
    );
    assert_eq!(
        serve(&mut vm, request, &[("x", "")], false),
        vec![(21, true), (22, true), (20, true)]
    );
    assert_eq!(end(&mut vm, "a"), vec![21, 22, 20]);
    assert_eq!(depth(&vm), 0);
}

#[test]
fn self_closing_foreign_element_is_not_pushed_and_takes_no_jumps() {
    let mut vm = vm_of(
        vec![
            instr(tag("g"), vec![], vec![30], None, Some(range(1, 2))),
            instr(tag("path"), vec![], vec![31], None, None),
        ],
        range(0, 1),
    );
    let (matches, request) = start(&mut vm, "g", Namespace::Svg);
    assert_eq!(matches, vec![]);
    let request = request.expect("the self-closing flag decides");
    assert_eq!(request.resumes_at(), RestorePoint::Start);
    assert_eq!(serve(&mut vm, request, &[], true), vec![(30, false)]);
    assert_eq!(depth(&vm), 0);
    let (_, request) = start(&mut vm, "path", Namespace::Svg);
    assert_eq!(serve(&mut vm, request.unwrap(), &[], false), vec![]);
    assert_eq!(depth(&vm), 1);
}

#[test]
fn open_foreign_element_is_pushed_with_its_jumps() {
    let mut vm = vm_of(
        vec![
            instr(tag("g"), vec![], vec![30], None, Some(range(1, 2))),
            instr(tag("path"), vec![], vec![31], None, None),
        ],
        range(0, 1),
    );
    let (_, request) = start(&mut vm, "g", Namespace::Svg);
    assert_eq!(serve(&mut vm, request.unwrap(), &[], false), vec![(30, true)]);
    assert_eq!(depth(&vm), 1);
    let (_, request) = start(&mut vm, "path", Namespace::MathMl);
    assert_eq!(serve(&mut vm, request.unwrap(), &[], true), vec![(31, false)]);
    assert_eq!(depth(&vm), 1);
    assert_eq!(end(&mut vm, "g"), vec![30]);
}

#[test]
fn payload_is_reported_once_per_element() {
    let mut vm = vm_of(
        vec![
            instr(tag("a"), vec![], vec![1, 2, 1], None, None),
            instr(vec![LocalNameExpr { test: LocalNameTest::Any, negation: false }], vec![], vec![2, 3], None, None),
        ],
        range(0, 2),
    );
    assert_eq!(start(&mut vm, "a", Namespace::Html).0, vec![(1, true), (2, true), (3, true)]);
    assert_eq!(end(&mut vm, "a"), vec![1, 2, 3]);
}

#[test]
fn stray_end_tag_changes_nothing() {
    let mut vm = vm_of(vec![instr(tag("a"), vec![], vec![1], None, None)], range(0, 1));
    start(&mut vm, "a", Namespace::Html);
    assert_eq!(end(&mut vm, "b"), Vec::<u32>::new());
    assert_eq!(depth(&vm), 1);
}

#[test]
fn end_tag_closes_the_elements_above_innermost_first() {
    let mut vm = vm_of(
        vec![
            instr(tag("a"), vec![], vec![1], None, None),
            instr(tag("b"), vec![], vec![2], None, None),
            instr(tag("c"), vec![], vec![3], None, None),
        ],
        range(0, 3),
    );
    start(&mut vm, "a", Namespace::Html);
    start(&mut vm, "b", Namespace::Html);
    start(&mut vm, "a", Namespace::Html);
    start(&mut vm, "c", Namespace::Html);
    assert_eq!(depth(&vm), 4);
    assert_eq!(end(&mut vm, "a"), vec![3, 1]);
    assert_eq!(depth(&vm), 2);
    assert_eq!(end(&mut vm, "a"), vec![2, 1]);
    assert_eq!(depth(&vm), 0);
}

#[test]
fn tag_names_are_matched_without_regard_to_case() {
    let mut vm = vm_of(vec![instr(tag("a"), vec![], vec![1], None, None)], range(0, 1));
    assert_eq!(start(&mut vm, "A", Namespace::Html).0, vec![(1, true)]);
    assert_eq!(end(&mut vm, "a"), vec![1]);
    assert_eq!(start(&mut vm, "BR", Namespace::Html).0, vec![]);
    assert_eq!(depth(&vm), 0);
}

#[test]
fn program_with_address_out_of_range_is_refused() {
    assert!(Program::new(vec![instr(tag("a"), vec![], vec![1], None, None)], range(0, 2)).is_none());
    assert!(Program::new(vec![instr(tag("a"), vec![], vec![1], Some(range(1, 2)), None)], range(0, 1))
        .is_none());
    assert!(Program::new(vec![instr(tag("a"), vec![], vec![1], None, Some(range(1, 0)))], range(0, 1))
        .is_none());
    assert!(Program::new(vec![instr(tag("a"), vec![], vec![1], Some(range(0, 1)), None)], range(0, 1))
        .is_some());
}
