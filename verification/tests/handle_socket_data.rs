use aqw_patch::patches::handle_socket_data::{
    apply, apply_snippet, class_namespace_set, disassemble, find_method_index,
    find_or_append_target_multiname, is_snippet_ready, is_usable_snippet, reassemble,
    OverrideTable,
};
use swf::avm2::types::{
    AbcFile, Class, ConstantPool, Exception, Index, Instance, LookupSwitch, Method, MethodBody,
    MethodFlags, Multiname, Op, Trait, TraitKind,
};

fn text(s: &str) -> Vec<u8> {
    s.as_bytes().to_vec()
}

fn qname(name: u32) -> Multiname {
    Multiname::QName { namespace: Index::new(1), name: Index::new(name) }
}

fn in_set(namespace_set: u32, name: u32) -> Multiname {
    Multiname::Multiname { namespace_set: Index::new(namespace_set), name: Index::new(name) }
}

fn late_bound(namespace_set: u32) -> Multiname {
    Multiname::MultinameL { namespace_set: Index::new(namespace_set) }
}

fn method() -> Method {
    Method {
        name: Index::new(0),
        params: vec![],
        return_type: Index::new(0),
        flags: MethodFlags::empty(),
        body: None,
    }
}

fn method_trait(name: u32, method: u32) -> Trait {
    Trait {
        name: Index::new(name),
        kind: TraitKind::Method { disp_id: 0, method: Index::new(method) },
        metadata: vec![],
        is_final: false,
        is_override: false,
    }
}

fn getter_trait(name: u32, method: u32) -> Trait {
    Trait {
        kind: TraitKind::Getter { disp_id: 0, method: Index::new(method) },
        ..method_trait(name, method)
    }
}

fn instance(name: u32, traits: Vec<Trait>) -> Instance {
    Instance {
        name: Index::new(name),
        super_name: Index::new(0),
        is_sealed: false,
        is_final: false,
        is_interface: false,
        protected_namespace: None,
        interfaces: vec![],
        init_method: Index::new(0),
        traits,
    }
}

/// An exception handler that catches type `caught` as `variable`.
fn handler(from: u8, to: u8, target: u8, caught: u8, variable: u8) -> Exception {
    // A file with one method and one body, which has no code and this handler.
    let bytes = [
        16, 0, 46, 0, 0, 0, 0, 0, 0, 0, 0, 1, 0, 0, 0, 0, 0, 0, 0, 1, 0, 0, 0, 0, 0, 0, 1, from, to,
        target, caught, variable, 0,
    ];
    let abc = swf::avm2::read::Reader::new(&bytes).read().unwrap();
    abc.method_bodies[0].exceptions[0].clone()
}

fn body(method: u32, code: Vec<u8>, exceptions: Vec<Exception>) -> MethodBody {
    MethodBody {
        method: Index::new(method),
        max_stack: 2,
        num_locals: 3,
        init_scope_depth: 4,
        max_scope_depth: 5,
        code,
        exceptions,
        traits: vec![],
    }
}

fn file(strings: Vec<Vec<u8>>, multinames: Vec<Multiname>) -> AbcFile {
    AbcFile {
        major_version: 46,
        minor_version: 16,
        constant_pool: ConstantPool {
            ints: vec![1, 2],
            uints: vec![],
            doubles: vec![],
            strings,
            namespaces: vec![],
            namespace_sets: vec![],
            multinames,
        },
        methods: vec![method(), method(), method()],
        metadata: vec![],
        instances: vec![],
        classes: vec![],
        scripts: vec![],
        method_bodies: vec![],
    }
}

fn target() -> AbcFile {
    let mut abc = file(
        vec![
            text("SmartFoxClient"),
            text("handleSocketData"),
            text("socketConnection"),
            text("handleMessage error: "),
            text("length"),
            text("ByteArray"),
        ],
        vec![
            qname(1),
            qname(2),
            in_set(5, 3),
            late_bound(6),
            qname(6),
            in_set(9, 5),
            in_set(5, 5),
        ],
    );
    abc.instances = vec![instance(1, vec![getter_trait(2, 0), method_trait(2, 1)])];
    abc.method_bodies = vec![
        body(0, vec![71], vec![]),
        body(1, vec![71, 71], vec![handler(1, 2, 3, 40, 41), handler(4, 5, 6, 42, 43)]),
    ];
    abc
}

fn switch(default_offset: i32, case_offsets: &[i32]) -> Op {
    Op::LookupSwitch(Box::new(LookupSwitch {
        default_offset,
        case_offsets: case_offsets.to_vec().into_boxed_slice(),
    }))
}

fn snippet_ops() -> Vec<Op> {
    vec![
        Op::GetLocal { index: 0 },
        Op::FindPropStrict { index: Index::new(8) },
        Op::ConstructProp { index: Index::new(8), num_args: 0 },
        Op::Coerce { index: Index::new(8) },
        Op::GetProperty { index: Index::new(4) },
        Op::GetProperty { index: Index::new(5) },
        Op::CallProperty { index: Index::new(3), num_args: 1 },
        Op::CallPropVoid { index: Index::new(7), num_args: 2 },
        Op::GetProperty { index: Index::new(6) },
        Op::PushString { value: Index::new(6) },
        Op::PushInt { value: Index::new(1) },
        // From byte 28 to `CallPropVoid`.
        Op::Jump { offset: -13 },
        // From byte 28 to `ReturnVoid`, to the start and to the end.
        switch(11, &[-28, 12]),
        Op::ReturnVoid,
    ]
}

/// The instructions of [`snippet_ops`] in terms of [`target`], with `clear`
/// appended to it.
fn remapped_ops() -> Vec<Op> {
    let mut ops = snippet_ops();
    ops[1] = Op::FindPropStrict { index: Index::new(5) };
    ops[2] = Op::ConstructProp { index: Index::new(5), num_args: 0 };
    ops[3] = Op::Coerce { index: Index::new(5) };
    ops[4] = Op::GetProperty { index: Index::new(3) };
    ops[5] = Op::GetProperty { index: Index::new(3) };
    ops[6] = Op::CallProperty { index: Index::new(7), num_args: 1 };
    ops[7] = Op::CallPropVoid { index: Index::new(8), num_args: 2 };
    ops[8] = Op::GetProperty { index: Index::new(4) };
    ops[9] = Op::PushString { value: Index::new(4) };
    ops
}

fn snippet_with(ops: &[Op]) -> AbcFile {
    let mut abc = file(
        vec![
            text("HSD"),
            text("handleSocketData"),
            text("length"),
            text("socketConnection"),
            text("clear"),
            text("handleMessage error: "),
            text("ByteArray"),
        ],
        vec![
            qname(1),
            qname(2),
            in_set(1, 3),
            qname(4),
            in_set(1, 4),
            late_bound(1),
            in_set(1, 5),
            qname(7),
        ],
    );
    abc.instances = vec![instance(1, vec![method_trait(2, 2)])];
    abc.classes = vec![Class { init_method: Index::new(0), traits: vec![] }];
    abc.method_bodies = vec![MethodBody {
        max_stack: 12,
        num_locals: 13,
        init_scope_depth: 14,
        max_scope_depth: 15,
        traits: vec![getter_trait(1, 0)],
        ..body(2, reassemble(ops).unwrap(), vec![handler(12, 18, 22, 50, 51)])
    }];
    abc
}

fn snippet() -> AbcFile {
    snippet_with(&snippet_ops())
}

fn bytes_of(abc: AbcFile) -> Vec<u8> {
    let mut bytes = Vec::new();
    swf::avm2::write::Writer::new(&mut bytes).write(abc).unwrap();
    bytes
}

/// [`target`] as the patch is to leave it.
fn patched_target() -> AbcFile {
    let mut expected = target();
    expected.constant_pool.strings.push(text("clear"));
    expected.constant_pool.multinames.push(in_set(5, 7));
    expected.method_bodies[1] = MethodBody {
        method: Index::new(1),
        max_stack: 12,
        num_locals: 13,
        init_scope_depth: 14,
        max_scope_depth: 15,
        code: reassemble(&remapped_ops()).unwrap(),
        exceptions: vec![handler(12, 18, 22, 40, 41)],
        traits: vec![getter_trait(1, 0)],
    };
    expected
}

/// The message with which the patch is refused, where the file is to stay as it is.
fn refused(mut abc: AbcFile, snippet: &AbcFile) -> String {
    let before = abc.clone();
    let message = apply_snippet(&mut abc, snippet).unwrap_err();
    assert_eq!(abc, before);
    message
}

#[test]
fn replaces_the_body_and_remaps_its_names() {
    let mut abc = target();
    assert_eq!(apply_snippet(&mut abc, &snippet()), Ok(true));
    assert_eq!(abc, patched_target());
}

#[test]
fn applies_a_snippet_from_its_bytes() {
    let mut abc = target();
    let bytes = bytes_of(snippet());
    assert!(is_usable_snippet(&bytes));
    assert_eq!(apply(&mut abc, &bytes), Ok(true));
    assert_eq!(abc, patched_target());
}

#[test]
fn applying_the_patch_again_changes_nothing() {
    let mut abc = target();
    assert_eq!(apply_snippet(&mut abc, &snippet()), Ok(true));
    assert_eq!(apply_snippet(&mut abc, &snippet()), Ok(true));
    assert_eq!(abc, patched_target());
}

#[test]
fn a_target_without_the_method_is_left_alone() {
    let mut without_class = target();
    without_class.instances.clear();
    let mut without_method = target();
    without_method.instances[0].traits.pop();
    let mut class_name_gone = target();
    class_name_gone.constant_pool.strings[0] = text("Other");
    for mut abc in [without_class, without_method, class_name_gone] {
        let before = abc.clone();
        assert_eq!(apply_snippet(&mut abc, &snippet()), Ok(false));
        // The snippet is not even parsed.
        assert_eq!(apply(&mut abc, &[]), Ok(false));
        assert_eq!(abc, before);
    }
}

#[test]
fn a_snippet_that_does_not_parse_is_refused() {
    let bytes = bytes_of(snippet());
    let cut = &bytes[..bytes.len() - 1];
    let why = swf::avm2::read::Reader::new(cut).read().unwrap_err();
    let mut abc = target();
    assert!(is_usable_snippet(cut));
    assert_eq!(
        apply(&mut abc, cut).unwrap_err(),
        format!("failed to parse embedded snippet ABC: {why}")
    );
    assert_eq!(abc, target());
}

#[test]
fn a_snippet_without_the_method_is_refused() {
    let mut other = snippet();
    other.instances.clear();
    assert_eq!(refused(target(), &other), "snippet ABC is missing handleSocketData");
}

#[test]
fn a_snippet_without_the_body_is_refused() {
    let mut other = snippet();
    other.method_bodies.clear();
    assert_eq!(
        refused(target(), &other),
        "snippet ABC is missing handleSocketData's method body"
    );
}

#[test]
fn a_target_without_the_body_is_refused() {
    let mut abc = target();
    abc.method_bodies.pop();
    assert_eq!(refused(abc, &snippet()), "handleSocketData has no method body");
}

#[test]
fn a_target_without_a_handler_is_refused() {
    let mut abc = target();
    abc.method_bodies[1].exceptions.clear();
    assert_eq!(
        refused(abc, &snippet()),
        "handleSocketData's original body has no exception handler; refusing to replace it without one to steal namespaces from"
    );
}

#[test]
fn a_target_without_the_socket_is_refused() {
    let mut abc = target();
    abc.constant_pool.strings[2] = text("other");
    assert_eq!(refused(abc, &snippet()), "target ABC has no \"socketConnection\" string");
    let mut abc = target();
    abc.constant_pool.multinames[2] = qname(3);
    assert_eq!(
        refused(abc, &snippet()),
        "target ABC has no \"socketConnection\" multiname to derive the class namespace set from"
    );
}

#[test]
fn what_was_appended_stays_when_the_table_cannot_be_built() {
    let mut abc = target();
    abc.constant_pool.multinames[3] = qname(1);
    let mut expected = abc.clone();
    expected.constant_pool.strings.push(text("clear"));
    expected.constant_pool.multinames.push(in_set(5, 7));
    assert_eq!(
        apply_snippet(&mut abc, &snippet()).unwrap_err(),
        "target ABC has no MultinameL to reuse for dynamic byte indexing"
    );
    assert_eq!(abc, expected);
}

#[test]
fn a_target_without_the_literal_is_refused() {
    let mut abc = target();
    abc.constant_pool.strings[3] = text("other");
    assert_eq!(
        apply_snippet(&mut abc, &snippet()).unwrap_err(),
        "target ABC is missing the \"handleMessage error: \" string"
    );
    assert_eq!(abc.method_bodies, target().method_bodies);
}

#[test]
fn code_that_does_not_disassemble_is_refused() {
    let mut other = snippet();
    // 0xFF is no opcode; two instructions of one byte stand before it.
    other.method_bodies[0].code = vec![71, 71, 0xFF];
    let why = swf::avm2::read::Reader::new(&[0xFF]).read_op().unwrap_err();
    let mut abc = target();
    assert_eq!(
        apply_snippet(&mut abc, &other).unwrap_err(),
        format!("failed to disassemble snippet method body: bad opcode at byte 3: {why}")
    );
    assert_eq!(abc.method_bodies, target().method_bodies);
}

#[test]
fn a_name_without_an_override_is_refused() {
    let other = snippet_with(&[Op::ReturnVoid, Op::GetProperty { index: Index::new(2) }]);
    let mut abc = target();
    assert_eq!(
        apply_snippet(&mut abc, &other).unwrap_err(),
        "no override for multiname index 2"
    );
    assert_eq!(abc.method_bodies, target().method_bodies);
}

#[test]
fn a_string_without_an_override_is_refused() {
    let other = snippet_with(&[
        Op::PushString { value: Index::new(120) },
        Op::GetProperty { index: Index::new(2) },
    ]);
    assert_eq!(
        apply_snippet(&mut target(), &other).unwrap_err(),
        "no override for string index 120"
    );
}

#[test]
fn a_snippet_without_a_handler_is_not_ready() {
    let mut other = snippet();
    assert!(is_snippet_ready(&other));
    other.method_bodies[0].exceptions.clear();
    assert!(!is_snippet_ready(&other));
    assert!(!is_usable_snippet(&bytes_of(other)));
}

#[test]
fn finds_a_method_by_the_names_of_its_class_and_itself() {
    let abc = target();
    assert_eq!(find_method_index(&abc, "SmartFoxClient", "handleSocketData"), Some(1));
    assert_eq!(find_method_index(&abc, "SmartFoxClient", "length"), None);
    assert_eq!(find_method_index(&abc, "handleSocketData", "handleSocketData"), None);
    assert_eq!(find_method_index(&abc, "missing", "handleSocketData"), None);
}

#[test]
fn a_trait_whose_name_is_no_entry_is_passed_over() {
    let mut abc = target();
    abc.instances[0].traits = vec![method_trait(0, 2), method_trait(99, 2), method_trait(2, 1)];
    assert_eq!(find_method_index(&abc, "SmartFoxClient", "handleSocketData"), Some(1));
}

#[test]
fn the_own_namespace_set_is_that_of_the_socket() {
    assert_eq!(class_namespace_set(&target()), Ok(5));
}

#[test]
fn a_multiname_in_the_own_set_is_preferred() {
    let mut abc = target();
    assert_eq!(find_or_append_target_multiname(&mut abc, "length", 5), Ok(7));
    assert_eq!(find_or_append_target_multiname(&mut abc, "length", 9), Ok(6));
    // Any one with the name will do.
    assert_eq!(find_or_append_target_multiname(&mut abc, "length", 1), Ok(6));
    assert_eq!(find_or_append_target_multiname(&mut abc, "ByteArray", 5), Ok(5));
    assert_eq!(abc, target());
}

#[test]
fn a_multiname_is_appended_for_a_known_string() {
    let mut abc = target();
    assert_eq!(
        find_or_append_target_multiname(&mut abc, "handleMessage error: ", 5),
        Ok(8)
    );
    let mut expected = target();
    expected.constant_pool.multinames.push(in_set(5, 4));
    assert_eq!(abc, expected);
}

#[test]
fn a_string_is_appended_for_an_unknown_symbol() {
    let mut abc = target();
    assert_eq!(find_or_append_target_multiname(&mut abc, "clear", 5), Ok(8));
    let mut expected = target();
    expected.constant_pool.strings.push(text("clear"));
    expected.constant_pool.multinames.push(in_set(5, 7));
    assert_eq!(abc, expected);
    // The next search finds it.
    assert_eq!(find_or_append_target_multiname(&mut abc, "clear", 5), Ok(8));
    assert_eq!(abc, expected);
}

#[test]
fn the_table_maps_every_multiname_of_a_symbol() {
    let mut abc = target();
    let table = OverrideTable::build(&mut abc, &snippet()).unwrap();
    let mut multinames: Vec<(u32, u32)> = table.multinames.into_iter().collect();
    multinames.sort();
    assert_eq!(multinames, vec![(3, 7), (4, 3), (5, 3), (6, 4), (7, 8), (8, 5)]);
    let strings: Vec<(u32, u32)> = table.strings.into_iter().collect();
    assert_eq!(strings, vec![(6, 4)]);
}

#[test]
fn a_snippet_that_uses_nothing_needs_no_override() {
    let mut abc = target();
    let table = OverrideTable::build(&mut abc, &file(vec![], vec![])).unwrap();
    assert!(table.multinames.is_empty());
    assert!(table.strings.is_empty());
    assert_eq!(abc, target());
    let mut op = Op::Jump { offset: 4 };
    assert_eq!(table.remap_op(&mut op), Ok(()));
    assert_eq!(op, Op::Jump { offset: 4 });
    let mut op = Op::Coerce { index: Index::new(4_294_967_295) };
    assert_eq!(
        table.remap_op(&mut op).unwrap_err(),
        "no override for multiname index 4294967295"
    );
    assert_eq!(op, Op::Coerce { index: Index::new(4_294_967_295) });
}

#[test]
fn disassembly_and_reassembly_are_inverse_on_the_snippet() {
    let code = reassemble(&snippet_ops()).unwrap();
    assert_eq!(disassemble(&code).unwrap(), snippet_ops());
    assert_eq!(disassemble(&[]).unwrap(), vec![]);
    assert_eq!(reassemble(&[Op::ReturnVoid, Op::ReturnVoid]).unwrap(), vec![71, 71]);
}

#[test]
fn a_cut_operand_is_reported_at_the_end_of_the_code() {
    let why = swf::avm2::read::Reader::new(&[0x10, 1]).read_op().unwrap_err();
    assert_eq!(
        disassemble(&[71, 0x10, 1]).unwrap_err(),
        format!("bad opcode at byte 3: {why}")
    );
}

/// [`target`] with so many multinames before those that the patch uses that their
/// indexes take two bytes.
fn large_target() -> AbcFile {
    let mut abc = target();
    for _ in 0..150 {
        abc.constant_pool.multinames.insert(2, Multiname::RTQNameL);
    }
    abc
}

#[test]
fn handler_and_jumps_follow_their_instructions() {
    let mut abc = large_target();
    assert_eq!(apply_snippet(&mut abc, &snippet()), Ok(true));
    let ops = vec![
        Op::GetLocal { index: 0 },
        Op::FindPropStrict { index: Index::new(155) },
        Op::ConstructProp { index: Index::new(155), num_args: 0 },
        Op::Coerce { index: Index::new(155) },
        Op::GetProperty { index: Index::new(153) },
        Op::GetProperty { index: Index::new(153) },
        Op::CallProperty { index: Index::new(157), num_args: 1 },
        Op::CallPropVoid { index: Index::new(158), num_args: 2 },
        Op::GetProperty { index: Index::new(154) },
        Op::PushString { value: Index::new(4) },
        Op::PushInt { value: Index::new(1) },
        // From byte 36 to `CallPropVoid` at 21.
        Op::Jump { offset: -15 },
        // From byte 36 to `ReturnVoid` at 47, to the start and to the end.
        switch(11, &[-36, 12]),
        Op::ReturnVoid,
    ];
    let new_body = &abc.method_bodies[1];
    assert_eq!(disassemble(&new_body.code).unwrap(), ops);
    assert_eq!(new_body.code, reassemble(&ops).unwrap());
    assert_eq!(new_body.code.len(), 48);
    // `CallProperty`, the second `GetProperty` behind it, and `PushInt`.
    assert_eq!(new_body.exceptions, vec![handler(17, 25, 30, 40, 41)]);
    assert_eq!(reassemble(&ops[..6]).unwrap().len(), 17);
    assert_eq!(reassemble(&ops[..8]).unwrap().len(), 25);
    assert_eq!(reassemble(&ops[..10]).unwrap().len(), 30);

    let once = abc.clone();
    assert_eq!(apply_snippet(&mut abc, &snippet()), Ok(true));
    assert_eq!(abc, once);
}

#[test]
fn a_handler_may_reach_to_the_end_of_the_code() {
    let mut other = snippet();
    other.method_bodies[0].exceptions = vec![handler(0, 40, 39, 50, 51)];
    let mut abc = large_target();
    assert_eq!(apply_snippet(&mut abc, &other), Ok(true));
    assert_eq!(abc.method_bodies[1].exceptions, vec![handler(0, 48, 47, 40, 41)]);
}

#[test]
fn a_handler_between_instructions_is_refused() {
    let cases = [
        (handler(13, 18, 22, 50, 51), 13),
        (handler(12, 41, 22, 50, 51), 41),
        (handler(12, 18, 2, 50, 51), 2),
    ];
    for (exception, offset) in cases {
        let mut other = snippet();
        other.method_bodies[0].exceptions = vec![exception];
        let mut abc = target();
        assert_eq!(
            apply_snippet(&mut abc, &other).unwrap_err(),
            format!("exception handler offset {offset} is at no instruction")
        );
        assert_eq!(abc.method_bodies, target().method_bodies);
    }
}

#[test]
fn a_jump_between_instructions_is_refused() {
    let cases = [
        (Op::Jump { offset: -1 }, 3),
        (Op::IfTrue { offset: -10 }, -6),
        (Op::IfStrictNe { offset: 2 }, 6),
        (switch(8, &[0, 3]), 8),
        (switch(11, &[0, 3]), 3),
    ];
    for (op, byte) in cases {
        let mut abc = target();
        assert_eq!(
            apply_snippet(&mut abc, &snippet_with(&[op, Op::ReturnVoid])).unwrap_err(),
            format!("jump to byte {byte} leads to no instruction")
        );
        assert_eq!(abc.method_bodies, target().method_bodies);
    }
}

#[test]
fn every_kind_of_jump_is_moved() {
    let jumps = |offset: i32| {
        vec![
            Op::IfEq { offset },
            Op::IfFalse { offset },
            Op::IfGe { offset },
            Op::IfGt { offset },
            Op::IfLe { offset },
            Op::IfLt { offset },
            Op::IfNe { offset },
            Op::IfNge { offset },
            Op::IfNgt { offset },
            Op::IfNle { offset },
            Op::IfNlt { offset },
            Op::IfStrictEq { offset },
            Op::IfStrictNe { offset },
            Op::IfTrue { offset },
            Op::Jump { offset },
        ]
    };
    for (jump, moved) in jumps(2).into_iter().zip(jumps(3)) {
        let ops = [jump, Op::GetProperty { index: Index::new(4) }, Op::ReturnVoid];
        let mut other = snippet_with(&ops);
        other.method_bodies[0].exceptions = vec![handler(0, 6, 6, 50, 51)];
        let mut abc = large_target();
        assert_eq!(apply_snippet(&mut abc, &other), Ok(true));
        let expected = vec![moved, Op::GetProperty { index: Index::new(153) }, Op::ReturnVoid];
        assert_eq!(disassemble(&abc.method_bodies[1].code).unwrap(), expected);
        assert_eq!(abc.method_bodies[1].exceptions, vec![handler(0, 7, 7, 40, 41)]);
    }
}

#[test]
fn a_jump_that_grows_beyond_24_bits_is_refused() {
    let n = 3_000_000;
    let mut ops = vec![Op::Jump { offset: 2 * n }];
    for _ in 0..n {
        ops.push(Op::GetProperty { index: Index::new(4) });
    }
    ops.push(Op::ReturnVoid);
    let mut other = snippet_with(&ops);
    other.method_bodies[0].exceptions = vec![handler(0, 4, 4, 50, 51)];
    // In the small target the names keep their length.
    assert_eq!(apply_snippet(&mut target(), &other), Ok(true));
    let mut abc = large_target();
    assert_eq!(
        apply_snippet(&mut abc, &other).unwrap_err(),
        "jump to byte 6000004 does not fit in 24 bits"
    );
    assert_eq!(abc.method_bodies, target().method_bodies);
}

#[test]
fn code_is_read_piece_by_piece() {
    let ops = snippet_ops();
    let code = reassemble(&ops).unwrap();
    let tail = reassemble(&[Op::Dup, Op::ReturnVoid]).unwrap();
    let whole = disassemble(&[code.clone(), tail].concat()).unwrap();
    assert_eq!(whole[..ops.len()], ops[..]);
    assert_eq!(whole[ops.len()..], [Op::Dup, Op::ReturnVoid]);
    assert!(disassemble(&[code, vec![0xFF]].concat()).is_err());
}
