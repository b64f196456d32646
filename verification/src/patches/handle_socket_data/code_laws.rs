//! What the code that the patch puts in means, and where its jumps lead.
use swf::avm2::types::Op;
use vstd::prelude::*;
use super::{laws, relocation};
use super::{TableModel, CLASS_NAME, METHOD_NAME};
use crate::abc_model::{AbcModel, BodyModel, OpModel, PoolModel};
use crate::{constant_pool, swf_calls, text};

verus! {

/// Whether an instruction refers to nothing in the tables of its file. The first
/// exception handler of its own body is no such thing.
pub open spec fn refers_to_no_table(op: Op) -> bool {
    match op {
        Op::AsType { .. } => false,
        Op::CallProperty { .. } => false,
        Op::CallPropLex { .. } => false,
        Op::CallPropVoid { .. } => false,
        Op::CallStatic { .. } => false,
        Op::CallSuper { .. } => false,
        Op::CallSuperVoid { .. } => false,
        Op::Coerce { .. } => false,
        Op::ConstructProp { .. } => false,
        Op::Debug { .. } => false,
        Op::DebugFile { .. } => false,
        Op::DeleteProperty { .. } => false,
        Op::Dxns { .. } => false,
        Op::FindDef { .. } => false,
        Op::FindProperty { .. } => false,
        Op::FindPropStrict { .. } => false,
        Op::GetDescendants { .. } => false,
        Op::GetLex { .. } => false,
        Op::GetProperty { .. } => false,
        Op::GetSuper { .. } => false,
        Op::InitProperty { .. } => false,
        Op::IsType { .. } => false,
        Op::NewCatch { index } => index.0 == 0,
        Op::NewClass { .. } => false,
        Op::NewFunction { .. } => false,
        Op::PushDouble { .. } => false,
        Op::PushInt { .. } => false,
        Op::PushNamespace { .. } => false,
        Op::PushString { .. } => false,
        Op::PushUint { .. } => false,
        Op::SetProperty { .. } => false,
        Op::SetSuper { .. } => false,
        _ => true,
    }
}

/// Whether all that an instruction refers to in the tables of its file is something
/// that has an override, if anything.
pub open spec fn refers_by_name_only(op: OpModel) -> bool {
    match op {
        OpModel::Plain(plain) => {
            ||| super::multiname_operand(plain) is Some
            ||| plain is PushString
            ||| refers_to_no_table(plain)
        },
        OpModel::Switch { .. } => true,
    }
}

/// Whether `new_op`, read with one pool, is what `op` is with another, but for where
/// it jumps: the same kind of instruction with the same other operands, and a
/// multiname or string of the same text.
pub open spec fn same_meaning(
    op: OpModel,
    pool: PoolModel,
    new_op: OpModel,
    new_pool: PoolModel,
) -> bool {
    match (op, new_op) {
        (OpModel::Plain(plain), OpModel::Plain(new_plain)) => match super::multiname_operand(
            plain,
        ) {
            Some(old_idx) => {
                &&& super::multiname_operand(new_plain) matches Some(new_idx)
                &&& new_plain == super::with_multiname(plain, new_idx)
                &&& if laws::is_late_bound_at(pool, old_idx) {
                    laws::is_late_bound_at(new_pool, new_idx)
                } else {
                    laws::name_at(pool, old_idx) is Some && laws::name_at(new_pool, new_idx)
                        == laws::name_at(pool, old_idx)
                }
            },
            None => match plain {
                Op::PushString { value } => {
                    &&& new_plain matches Op::PushString { value: new_value }
                    &&& laws::string_at(pool, value.0) is Some
                    &&& laws::string_at(new_pool, new_value.0) == laws::string_at(pool, value.0)
                },
                _ => {
                    &&& refers_to_no_table(plain)
                    &&& match swf_calls::jump_offset(plain) {
                        Some(_) => {
                            &&& swf_calls::jump_offset(new_plain) matches Some(offset)
                            &&& new_plain == relocation::with_jump_offset(plain, offset)
                        },
                        None => new_plain == plain,
                    }
                },
            },
        },
        (
            OpModel::Switch { case_offsets, .. },
            OpModel::Switch { case_offsets: new_offsets, .. },
        ) => new_offsets.len() == case_offsets.len(),
        _ => false,
    }
}

/// Whether `new_offset` is where the instruction that starts at `offset` of `code`
/// starts in the bytes of `new_ops`. The end counts as one more instruction.
pub open spec fn same_place(
    code: Seq<u8>,
    offset: int,
    new_ops: Seq<OpModel>,
    new_offset: int,
) -> bool {
    &&& relocation::instruction_at(code, offset) is Some
    &&& relocation::index_at(super::starts_of(new_ops), new_offset) == relocation::instruction_at(
        code,
        offset,
    )
}

/// Whether the jumps of the `i`th instruction of `code`, which is `op`, lead to the
/// instructions to which those of the `i`th of `new_ops` do. A jump goes from its end,
/// a switch from its start.
pub open spec fn jumps_to_same_places(
    code: Seq<u8>,
    op: OpModel,
    new_ops: Seq<OpModel>,
    i: int,
) -> bool {
    let bounds = super::boundaries_from(code, 0);
    match (op, new_ops[i]) {
        (OpModel::Plain(plain), OpModel::Plain(new_plain)) => match (
            swf_calls::jump_offset(plain),
            swf_calls::jump_offset(new_plain),
        ) {
            (None, None) => true,
            (Some(offset), Some(new_offset)) => same_place(
                code,
                bounds[i + 1] + offset,
                new_ops,
                super::start_of(new_ops, i + 1) + new_offset,
            ),
            _ => false,
        },
        (
            OpModel::Switch { default_offset, case_offsets },
            OpModel::Switch { default_offset: new_default, case_offsets: new_offsets },
        ) => {
            let start = super::start_of(new_ops, i);
            &&& same_place(code, bounds[i] + default_offset, new_ops, start + new_default)
            &&& new_offsets.len() == case_offsets.len()
            &&& forall|k: int|
                0 <= k < case_offsets.len() ==> same_place(
                    code,
                    bounds[i] + #[trigger] case_offsets[k],
                    new_ops,
                    start + new_offsets[k],
                )
        },
        _ => false,
    }
}

proof fn lemma_moved_offsets_elementwise(
    bounds: Seq<int>,
    starts: Seq<int>,
    base: int,
    new_base: int,
    offsets: Seq<i32>,
)
    ensures
        relocation::moved_offsets(bounds, starts, base, new_base, offsets) matches Ok(moved) ==> {
            &&& moved.len() == offsets.len()
            &&& forall|k: int|
                0 <= k < offsets.len() ==> relocation::moved_offset(
                    bounds,
                    starts,
                    base,
                    new_base,
                    #[trigger] offsets[k],
                ) == Ok::<i32, Seq<char>>(moved[k])
        },
    decreases offsets.len(),
{
    if offsets.len() > 0 {
        let earlier = offsets.drop_last();
        lemma_moved_offsets_elementwise(bounds, starts, base, new_base, earlier);
        assert forall|k: int| 0 <= k < earlier.len() implies earlier[k]
            == #[trigger] offsets[k] by {}
    }
}

/// Relocation goes instruction by instruction.
proof fn lemma_relocation_elementwise(bounds: Seq<int>, starts: Seq<int>, ops: Seq<OpModel>)
    ensures
        relocation::relocated_all(bounds, starts, ops) matches Ok(new_ops) ==> {
            &&& new_ops.len() == ops.len()
            &&& forall|i: int|
                0 <= i < ops.len() ==> relocation::relocated(
                    bounds,
                    starts,
                    #[trigger] ops[i],
                    i,
                ) == Ok::<OpModel, Seq<char>>(new_ops[i])
        },
    decreases ops.len(),
{
    if ops.len() > 0 {
        let earlier = ops.drop_last();
        lemma_relocation_elementwise(bounds, starts, earlier);
        assert forall|i: int| 0 <= i < earlier.len() implies earlier[i] == #[trigger] ops[i] by {}
    }
}

/// Moving an offset does not change how many bytes its instruction takes.
proof fn lemma_relocation_keeps_length(bounds: Seq<int>, starts: Seq<int>, op: OpModel, i: int)
    ensures
        relocation::relocated(bounds, starts, op, i) matches Ok(new_op) ==> swf_calls::op_bytes(
            new_op,
        ).len() == swf_calls::op_bytes(op).len(),
{
    if let OpModel::Switch { case_offsets, .. } = op {
        lemma_moved_offsets_elementwise(bounds, starts, bounds[i], starts[i], case_offsets);
    }
}

/// Instructions of the same lengths start at the same places.
proof fn lemma_same_lengths_same_starts(ops: Seq<OpModel>, new_ops: Seq<OpModel>, n: int)
    requires
        ops.len() == new_ops.len(),
        0 <= n <= ops.len(),
        forall|i: int|
            0 <= i < ops.len() ==> swf_calls::op_bytes(#[trigger] new_ops[i]).len()
                == swf_calls::op_bytes(ops[i]).len(),
    ensures
        super::start_of(new_ops, n) == super::start_of(ops, n),
    decreases n,
{
    if n > 0 {
        lemma_same_lengths_same_starts(ops, new_ops, n - 1);
        assert(ops.take(n).drop_last() =~= ops.take(n - 1));
        assert(new_ops.take(n).drop_last() =~= new_ops.take(n - 1));
        assert(new_ops.take(n).last() == new_ops[n - 1]);
    }
}

/// An instruction starts behind those before it.
proof fn lemma_starts_increase(ops: Seq<OpModel>, i: int, j: int)
    requires
        0 <= i < j <= ops.len(),
    ensures
        super::start_of(ops, i) < super::start_of(ops, j),
    decreases j,
{
    assert(ops.take(j).drop_last() =~= ops.take(j - 1));
    if i < j - 1 {
        lemma_starts_increase(ops, i, j - 1);
    }
}

/// The start of an instruction is that of no other.
proof fn lemma_index_at_start(ops: Seq<OpModel>, i: int)
    requires
        0 <= i <= ops.len(),
    ensures
        relocation::index_at(super::starts_of(ops), super::start_of(ops, i)) == Some(i),
{
    let starts = super::starts_of(ops);
    let p = relocation::is_byte(super::start_of(ops, i));
    assert(starts[i] == super::start_of(ops, i));
    assert forall|j: int| 0 <= j < i implies !p(#[trigger] starts[j]) by {
        lemma_starts_increase(ops, j, i);
    }
    constant_pool::lemma_position_is(starts, p, i);
}

/// There is a boundary before each instruction and one behind the last.
proof fn lemma_boundary_count(code: Seq<u8>, pos: int)
    ensures
        super::disassembled_from(code, pos) matches Ok(ops) ==> super::boundaries_from(
            code,
            pos,
        ).len() == ops.len() + 1,
    decreases code.len() - pos,
{
    if 0 <= pos < code.len() {
        let (op, taken) = swf_calls::swf_read_op(code.skip(pos));
        if op is Ok && 0 < taken <= code.len() - pos {
            lemma_boundary_count(code, pos + taken as int);
        }
    }
}

proof fn lemma_moved_offset_keeps_place(
    code: Seq<u8>,
    new_ops: Seq<OpModel>,
    base: int,
    new_base: int,
    offset: i32,
)
    requires
        super::boundaries_from(code, 0).len() == new_ops.len() + 1,
    ensures
        relocation::moved_offset(
            super::boundaries_from(code, 0),
            super::starts_of(new_ops),
            base,
            new_base,
            offset,
        ) matches Ok(new_offset) ==> same_place(
            code,
            base + offset,
            new_ops,
            new_base + new_offset,
        ),
{
    let bounds = super::boundaries_from(code, 0);
    constant_pool::lemma_position(bounds, relocation::is_byte(base + offset));
    if let Some(i) = relocation::index_at(bounds, base + offset) {
        lemma_index_at_start(new_ops, i);
    }
}

proof fn lemma_moved_handler_keeps_place(code: Seq<u8>, new_ops: Seq<OpModel>, offset: u32)
    requires
        super::boundaries_from(code, 0).len() == new_ops.len() + 1,
    ensures
        relocation::moved_handler_offset(
            super::boundaries_from(code, 0),
            super::starts_of(new_ops),
            offset,
        ) matches Ok(new_offset) ==> same_place(code, offset as int, new_ops, new_offset as int),
{
    let bounds = super::boundaries_from(code, 0);
    constant_pool::lemma_position(bounds, relocation::is_byte(offset as int));
    if let Some(i) = relocation::index_at(bounds, offset as int) {
        lemma_index_at_start(new_ops, i);
    }
}

/// Renaming does not touch a jump.
proof fn lemma_remapping_keeps_jumps(table: TableModel, op: OpModel)
    ensures
        super::remapped(table, op) matches Ok(new_op) ==> match (op, new_op) {
            (OpModel::Plain(plain), OpModel::Plain(new_plain)) => swf_calls::jump_offset(new_plain)
                == swf_calls::jump_offset(plain),
            _ => new_op == op,
        },
{
}

/// The new instructions are the snippet's, each with its names replaced as the table
/// says and then with its offsets moved from where the instructions started to where
/// they start.
pub proof fn replacement_goes_instruction_by_instruction(table: TableModel, code: Seq<u8>)
    requires
        super::replacement_ops(table, code) is Ok,
    ensures
        ({
            let ops = super::disassembled_from(code, 0)->Ok_0;
            let renamed = super::remapped_all(table, ops)->Ok_0;
            let new_ops = super::replacement_ops(table, code)->Ok_0;
            &&& super::disassembled_from(code, 0) is Ok
            &&& super::remapped_all(table, ops) is Ok
            &&& renamed.len() == ops.len()
            &&& new_ops.len() == ops.len()
            &&& super::boundaries_from(code, 0).len() == ops.len() + 1
            &&& super::starts_of(new_ops) == super::starts_of(renamed)
            &&& forall|i: int|
                0 <= i < ops.len() ==> super::remapped(table, #[trigger] ops[i]) == Ok::<
                    OpModel,
                    Seq<char>,
                >(renamed[i])
            &&& forall|i: int|
                0 <= i < ops.len() ==> relocation::relocated(
                    super::boundaries_from(code, 0),
                    super::starts_of(new_ops),
                    #[trigger] renamed[i],
                    i,
                ) == Ok::<OpModel, Seq<char>>(new_ops[i])
        }),
{
    let bounds = super::boundaries_from(code, 0);
    let ops = super::disassembled_from(code, 0)->Ok_0;
    let renamed = super::remapped_all(table, ops)->Ok_0;
    let starts = super::starts_of(renamed);
    let new_ops = super::replacement_ops(table, code)->Ok_0;
    lemma_boundary_count(code, 0);
    laws::remapping_is_elementwise(table, ops);
    lemma_relocation_elementwise(bounds, starts, renamed);
    assert forall|i: int| 0 <= i < renamed.len() implies swf_calls::op_bytes(
        #[trigger] new_ops[i],
    ).len() == swf_calls::op_bytes(renamed[i]).len() by {
        lemma_relocation_keeps_length(bounds, starts, renamed[i], i);
    }
    assert forall|n: int| 0 <= n <= renamed.len() implies #[trigger] super::starts_of(new_ops)[n]
        == starts[n] by {
        lemma_same_lengths_same_starts(renamed, new_ops, n);
    }
    assert(super::starts_of(new_ops) =~= starts);
}

/// Where the patch applies, the code of the new body consists of the snippet's
/// instructions in their order, and each means in the patched file what it meant
/// in the snippet. (Left out are snippets with an instruction that refers to a table by
/// something else than a name that has an override, and pools that their indexes cannot
/// number.)
pub proof fn replacement_code_means_the_same(target: AbcModel, snippet: AbcModel)
    requires
        super::applied_snippet(target, snippet).1 == Ok::<bool, Seq<char>>(true),
        laws::is_numbered(super::applied_snippet(target, snippet).0.constant_pool),
        laws::is_numbered(snippet.constant_pool),
        ({
            let ops = super::disassembled_from(super::snippet_body(snippet)->Ok_0.code, 0)->Ok_0;
            forall|i: int| 0 <= i < ops.len() ==> refers_by_name_only(#[trigger] ops[i])
        }),
    ensures
        ({
            let after = super::applied_snippet(target, snippet).0;
            let table = super::built(target.constant_pool, snippet.constant_pool).1->Ok_0;
            let m = super::method_index(target, CLASS_NAME@, METHOD_NAME@)->Some_0;
            let b = super::target_body(target, m)->Ok_0;
            let code = super::snippet_body(snippet)->Ok_0.code;
            let ops = super::disassembled_from(code, 0)->Ok_0;
            let new_ops = super::replacement_ops(table, code)->Ok_0;
            &&& after.method_bodies[b].code == super::assembled(new_ops)
            &&& new_ops.len() == ops.len()
            &&& forall|i: int|
                0 <= i < ops.len() ==> same_meaning(
                    #[trigger] ops[i],
                    snippet.constant_pool,
                    new_ops[i],
                    after.constant_pool,
                )
        }),
{
    let after = super::applied_snippet(target, snippet).0;
    let table = super::built(target.constant_pool, snippet.constant_pool).1->Ok_0;
    let m = super::method_index(target, CLASS_NAME@, METHOD_NAME@)->Some_0;
    let code = super::snippet_body(snippet)->Ok_0.code;
    let ops = super::disassembled_from(code, 0)->Ok_0;
    let renamed = super::remapped_all(table, ops)->Ok_0;
    let new_ops = super::replacement_ops(table, code)->Ok_0;
    constant_pool::lemma_position(target.method_bodies, super::body_of(m));
    laws::overrides_keep_names(target.constant_pool, snippet.constant_pool);
    replacement_goes_instruction_by_instruction(table, code);
    assert forall|i: int| 0 <= i < ops.len() implies same_meaning(
        #[trigger] ops[i],
        snippet.constant_pool,
        new_ops[i],
        after.constant_pool,
    ) by {
        assert(relocation::relocated(
            super::boundaries_from(code, 0),
            super::starts_of(new_ops),
            renamed[i],
            i,
        ) == Ok::<OpModel, Seq<char>>(new_ops[i]));
        lemma_changed_means_the_same(
            table,
            ops[i],
            snippet.constant_pool,
            after.constant_pool,
            super::boundaries_from(code, 0),
            super::starts_of(new_ops),
            i,
        );
    }
}

proof fn lemma_changed_means_the_same(
    table: TableModel,
    op: OpModel,
    snippet: PoolModel,
    target: PoolModel,
    bounds: Seq<int>,
    starts: Seq<int>,
    i: int,
)
    requires
        laws::multinames_agree(table.multinames, target, snippet),
        laws::strings_agree(table.strings, target, snippet),
        refers_by_name_only(op),
        super::remapped(table, op) is Ok,
    ensures
        relocation::relocated(
            bounds,
            starts,
            super::remapped(table, op)->Ok_0,
            i,
        ) matches Ok(new_op) ==> same_meaning(op, snippet, new_op, target),
{
    match op {
        OpModel::Plain(plain) => {
            if let Some(k) = super::multiname_operand(plain) {
                assert(table.multinames.contains_key(k));
            }
        },
        OpModel::Switch { case_offsets, .. } => {
            lemma_moved_offsets_elementwise(bounds, starts, bounds[i], starts[i], case_offsets);
        },
    }
}

/// Where the patch applies, the exception handler of the new body guards the
/// instructions that the snippet's guards and leads to the one to which the snippet's
/// leads, and every jump of the new code leads to the instruction to which it led in
/// the snippet.
pub proof fn handler_and_jumps_lead_to_the_same_instructions(target: AbcModel, snippet: AbcModel)
    requires
        super::applied_snippet(target, snippet).1 == Ok::<bool, Seq<char>>(true),
    ensures
        ({
            let after = super::applied_snippet(target, snippet).0;
            let table = super::built(target.constant_pool, snippet.constant_pool).1->Ok_0;
            let m = super::method_index(target, CLASS_NAME@, METHOD_NAME@)->Some_0;
            let b = super::target_body(target, m)->Ok_0;
            let body = super::snippet_body(snippet)->Ok_0;
            let guard = body.exceptions[0];
            let new_guard = after.method_bodies[b].exceptions[0];
            let ops = super::disassembled_from(body.code, 0)->Ok_0;
            let new_ops = super::replacement_ops(table, body.code)->Ok_0;
            &&& after.method_bodies[b].code == super::assembled(new_ops)
            &&& new_ops.len() == ops.len()
            &&& same_place(
                body.code,
                guard.from_offset as int,
                new_ops,
                new_guard.from_offset as int,
            )
            &&& same_place(body.code, guard.to_offset as int, new_ops, new_guard.to_offset as int)
            &&& same_place(
                body.code,
                guard.target_offset as int,
                new_ops,
                new_guard.target_offset as int,
            )
            &&& forall|i: int|
                0 <= i < ops.len() ==> jumps_to_same_places(
                    body.code,
                    #[trigger] ops[i],
                    new_ops,
                    i,
                )
        }),
{
    let table = super::built(target.constant_pool, snippet.constant_pool).1->Ok_0;
    let m = super::method_index(target, CLASS_NAME@, METHOD_NAME@)->Some_0;
    let body = super::snippet_body(snippet)->Ok_0;
    let guard = body.exceptions[0];
    let ops = super::disassembled_from(body.code, 0)->Ok_0;
    let renamed = super::remapped_all(table, ops)->Ok_0;
    let new_ops = super::replacement_ops(table, body.code)->Ok_0;
    constant_pool::lemma_position(target.method_bodies, super::body_of(m));
    replacement_goes_instruction_by_instruction(table, body.code);
    lemma_moved_handler_keeps_place(body.code, new_ops, guard.from_offset);
    lemma_moved_handler_keeps_place(body.code, new_ops, guard.to_offset);
    lemma_moved_handler_keeps_place(body.code, new_ops, guard.target_offset);
    assert forall|i: int| 0 <= i < ops.len() implies jumps_to_same_places(
        body.code,
        #[trigger] ops[i],
        new_ops,
        i,
    ) by {
        lemma_remapping_keeps_jumps(table, ops[i]);
        lemma_relocated_jumps_to_same_places(body.code, renamed[i], new_ops, i);
    }
}

proof fn lemma_relocated_jumps_to_same_places(
    code: Seq<u8>,
    op: OpModel,
    new_ops: Seq<OpModel>,
    i: int,
)
    requires
        0 <= i < new_ops.len(),
        super::boundaries_from(code, 0).len() == new_ops.len() + 1,
        relocation::relocated(
            super::boundaries_from(code, 0),
            super::starts_of(new_ops),
            op,
            i,
        ) == Ok::<OpModel, Seq<char>>(new_ops[i]),
    ensures
        jumps_to_same_places(code, op, new_ops, i),
{
    let bounds = super::boundaries_from(code, 0);
    let starts = super::starts_of(new_ops);
    match op {
        OpModel::Plain(plain) => {
            if let Some(offset) = swf_calls::jump_offset(plain) {
                lemma_moved_offset_keeps_place(
                    code,
                    new_ops,
                    bounds[i + 1],
                    starts[i + 1],
                    offset,
                );
            }
        },
        OpModel::Switch { default_offset, case_offsets } => {
            lemma_moved_offset_keeps_place(code, new_ops, bounds[i], starts[i], default_offset);
            lemma_moved_offsets_elementwise(bounds, starts, bounds[i], starts[i], case_offsets);
            if let OpModel::Switch { case_offsets: new_offsets, .. } = new_ops[i] {
                assert forall|k: int| 0 <= k < case_offsets.len() implies same_place(
                    code,
                    bounds[i] + #[trigger] case_offsets[k],
                    new_ops,
                    super::start_of(new_ops, i) + new_offsets[k],
                ) by {
                    lemma_moved_offset_keeps_place(
                        code,
                        new_ops,
                        bounds[i],
                        starts[i],
                        case_offsets[k],
                    );
                }
            }
        },
    }
}

/// Whether `swf` reads an instruction back from its bytes, whatever follows them.
pub open spec fn is_read_back(op: OpModel) -> bool {
    forall|rest: Seq<u8>| #[trigger]
        swf_calls::swf_read_op(swf_calls::op_bytes(op) + rest) == (
            Ok::<OpModel, Seq<char>>(op),
            swf_calls::op_bytes(op).len(),
        )
}

/// The bytes of the first instructions are the first bytes of all.
proof fn lemma_assembled_prefix(ops: Seq<OpModel>, n: int)
    requires
        0 <= n <= ops.len(),
    ensures
        super::assembled(ops.take(n)).is_prefix_of(super::assembled(ops)),
    decreases ops.len() - n,
{
    if n == ops.len() {
        assert(ops.take(n) =~= ops);
    } else {
        lemma_assembled_prefix(ops, n + 1);
        assert(ops.take(n + 1).drop_last() =~= ops.take(n));
        let shorter = super::assembled(ops.take(n));
        let longer = super::assembled(ops.take(n + 1));
        let whole = super::assembled(ops);
        assert(shorter =~= longer.take(shorter.len() as int));
        assert(shorter =~= whole.take(shorter.len() as int));
    }
}

proof fn lemma_read_back_from(ops: Seq<OpModel>, n: int)
    requires
        0 <= n <= ops.len(),
        forall|i: int| 0 <= i < ops.len() ==> is_read_back(#[trigger] ops[i]),
    ensures
        ({
            let code = super::assembled(ops);
            &&& super::disassembled_from(code, super::start_of(ops, n)) == Ok::<
                Seq<OpModel>,
                Seq<char>,
            >(ops.skip(n))
            &&& super::boundaries_from(code, super::start_of(ops, n)) == super::starts_of(ops).skip(
                n,
            )
        }),
    decreases ops.len() - n,
{
    let code = super::assembled(ops);
    let pos = super::start_of(ops, n);
    lemma_assembled_prefix(ops, n);
    if n == ops.len() {
        assert(ops.take(n) =~= ops);
        assert(ops.skip(n) =~= Seq::empty());
        assert(super::starts_of(ops).skip(n) =~= seq![pos]);
    } else {
        let op = ops[n];
        let bytes = swf_calls::op_bytes(op);
        lemma_read_back_from(ops, n + 1);
        lemma_assembled_prefix(ops, n + 1);
        assert(ops.take(n + 1).drop_last() =~= ops.take(n));
        let next = super::assembled(ops.take(n + 1));
        let before = super::assembled(ops.take(n));
        assert(next == before + bytes);
        let rest = code.skip(next.len() as int);
        assert(code =~= next + rest);
        assert((before + bytes + rest).skip(before.len() as int) =~= bytes + rest);
        assert(is_read_back(op));
        assert(seq![op] + ops.skip(n + 1) =~= ops.skip(n));
        assert(seq![pos] + super::starts_of(ops).skip(n + 1) =~= super::starts_of(ops).skip(n));
    }
}

/// Where `swf` reads back each instruction from the bytes that it wrote, disassembling
/// what was assembled gives the same instructions, with nothing between or behind them,
/// and each where it was put.
pub proof fn assembled_code_is_read_back(ops: Seq<OpModel>)
    requires
        forall|i: int| 0 <= i < ops.len() ==> is_read_back(#[trigger] ops[i]),
    ensures
        super::disassembled_from(super::assembled(ops), 0) == Ok::<Seq<OpModel>, Seq<char>>(ops),
        super::boundaries_from(super::assembled(ops), 0) == super::starts_of(ops),
{
    lemma_read_back_from(ops, 0);
    assert(ops.take(0) =~= Seq::empty());
    assert(ops.skip(0) =~= ops);
    assert(super::starts_of(ops).skip(0) =~= super::starts_of(ops));
}

/// The bytes of two lists of instructions are the bytes of the one and then those of
/// the other, and a single instruction has its own bytes.
pub proof fn assembling_goes_one_after_the_other(
    ops: Seq<OpModel>,
    later: Seq<OpModel>,
    op: OpModel,
)
    ensures
        super::assembled(ops + later) == super::assembled(ops) + super::assembled(later),
        super::assembled(seq![op]) == swf_calls::op_bytes(op),
        super::assembled(Seq::empty()) == Seq::<u8>::empty(),
    decreases later.len(),
{
    assert(seq![op].drop_last() =~= Seq::empty());
    assert(super::assembled(seq![op].drop_last()) =~= Seq::empty());
    assert(super::assembled(seq![op]) =~= swf_calls::op_bytes(op));
    if later.len() == 0 {
        assert(ops + later =~= ops);
        assert(super::assembled(ops) + super::assembled(later) =~= super::assembled(ops));
    } else {
        assembling_goes_one_after_the_other(ops, later.drop_last(), op);
        assert((ops + later).drop_last() =~= ops + later.drop_last());
        assert(super::assembled(ops + later) =~= super::assembled(ops) + super::assembled(later));
    }
}

/// An instruction starts where the one before it ends.
pub proof fn instructions_start_one_after_the_other(ops: Seq<OpModel>, i: int)
    requires
        0 <= i < ops.len(),
    ensures
        super::start_of(ops, 0) == 0,
        super::start_of(ops, i + 1) == super::start_of(ops, i) + swf_calls::op_bytes(
            ops[i],
        ).len(),
        super::start_of(ops, ops.len() as int) == super::assembled(ops).len(),
        super::starts_of(ops).len() == ops.len() + 1,
        super::starts_of(ops)[i] == super::start_of(ops, i),
        super::starts_of(ops)[ops.len() as int] == super::assembled(ops).len(),
{
    assert(ops.take(0) =~= Seq::empty());
    assert(ops.take(i + 1).drop_last() =~= ops.take(i));
    assert(ops.take(ops.len() as int) =~= ops);
}

/// Whether reading an instruction at any place of `code` takes at least a byte, and no
/// more bytes than there are.
pub open spec fn reading_progresses(code: Seq<u8>) -> bool {
    forall|pos: int|
        0 <= pos < code.len() ==> ({
            let (op, taken) = #[trigger] swf_calls::swf_read_op(code.skip(pos));
            op is Ok ==> 0 < taken <= code.len() - pos
        })
}

/// Disassembly reads one instruction after the other from the first byte on, each where
/// the one before it ended. It succeeds exactly if that comes to the end of the code, and
/// otherwise reports how far it came and why it stopped.
pub proof fn disassembly_reads_to_the_end(code: Seq<u8>)
    requires
        reading_progresses(code),
    ensures
        ({
            let bounds = super::boundaries_from(code, 0);
            &&& bounds.len() > 0
            &&& bounds[0] == 0
            &&& super::disassembled_from(code, 0) is Ok <==> bounds.last() == code.len()
            &&& super::disassembled_from(code, 0) matches Err(message) ==> {
                let (op, taken) = swf_calls::swf_read_op(code.skip(bounds.last()));
                &&& bounds.last() < code.len()
                &&& op matches Err(e)
                &&& message == "bad opcode at byte "@ + text::nat_text(
                    (bounds.last() + taken) as nat,
                ) + ": "@ + e
            }
            &&& super::disassembled_from(code, 0) matches Ok(ops) ==> {
                &&& bounds.len() == ops.len() + 1
                &&& forall|i: int|
                    0 <= i < ops.len() ==> {
                        let (op, taken) = swf_calls::swf_read_op(code.skip(bounds[i]));
                        &&& op == Ok::<OpModel, Seq<char>>(#[trigger] ops[i])
                        &&& bounds[i + 1] == bounds[i] + taken
                    }
            }
        }),
{
    lemma_disassembly_from(code, 0);
}

proof fn lemma_disassembly_from(code: Seq<u8>, pos: int)
    requires
        0 <= pos <= code.len(),
        reading_progresses(code),
    ensures
        ({
            let bounds = super::boundaries_from(code, pos);
            &&& bounds.len() > 0
            &&& bounds[0] == pos
            &&& super::disassembled_from(code, pos) is Ok <==> bounds.last() == code.len()
            &&& super::disassembled_from(code, pos) matches Err(message) ==> {
                let (op, taken) = swf_calls::swf_read_op(code.skip(bounds.last()));
                &&& bounds.last() < code.len()
                &&& op matches Err(e)
                &&& message == "bad opcode at byte "@ + text::nat_text(
                    (bounds.last() + taken) as nat,
                ) + ": "@ + e
            }
            &&& super::disassembled_from(code, pos) matches Ok(ops) ==> {
                &&& bounds.len() == ops.len() + 1
                &&& forall|i: int|
                    0 <= i < ops.len() ==> {
                        let (op, taken) = swf_calls::swf_read_op(code.skip(bounds[i]));
                        &&& op == Ok::<OpModel, Seq<char>>(#[trigger] ops[i])
                        &&& bounds[i + 1] == bounds[i] + taken
                    }
            }
        }),
    decreases code.len() - pos,
{
    if pos < code.len() {
        let (op, taken) = swf_calls::swf_read_op(code.skip(pos));
        if op is Ok {
            let next = pos + taken as int;
            lemma_disassembly_from(code, next);
            let later = super::boundaries_from(code, next);
            let bounds = super::boundaries_from(code, pos);
            assert(bounds == seq![pos] + later);
            assert(bounds.last() == later.last());
            if let Ok(ops) = super::disassembled_from(code, pos) {
                let later_ops = super::disassembled_from(code, next)->Ok_0;
                assert forall|i: int| 0 <= i < ops.len() implies ({
                    let (op, taken) = swf_calls::swf_read_op(code.skip(bounds[i]));
                    &&& op == Ok::<OpModel, Seq<char>>(#[trigger] ops[i])
                    &&& bounds[i + 1] == bounds[i] + taken
                }) by {
                    if i > 0 {
                        assert(ops[i] == later_ops[i - 1]);
                        assert(bounds[i] == later[i - 1]);
                        assert(bounds[i + 1] == later[i]);
                    } else {
                        assert(bounds[1] == later[0]);
                    }
                }
            }
        }
    }
}

/// The instruction at a byte is the first that starts there, and one is found if one
/// does.
pub proof fn instruction_starts_at_its_byte(code: Seq<u8>, offset: int)
    ensures
        ({
            let bounds = super::boundaries_from(code, 0);
            match relocation::instruction_at(code, offset) {
                Some(i) => 0 <= i < bounds.len() && bounds[i] == offset && forall|j: int|
                    0 <= j < i ==> #[trigger] bounds[j] != offset,
                None => forall|j: int| 0 <= j < bounds.len() ==> #[trigger] bounds[j] != offset,
            }
        }),
{
    let bounds = super::boundaries_from(code, 0);
    let p = relocation::is_byte(offset);
    constant_pool::lemma_position(bounds, p);
    match relocation::instruction_at(code, offset) {
        Some(i) => {
            assert forall|j: int| 0 <= j < i implies #[trigger] bounds[j] != offset by {
                assert(!p(bounds[j]));
            }
        },
        None => {
            assert forall|j: int| 0 <= j < bounds.len() implies #[trigger] bounds[j] != offset by {
                assert(!p(bounds[j]));
            }
        },
    }
}

/// An offset that leads to an instruction is moved whenever the new one fits in 24
/// bits, and leads to the same instruction then; otherwise it is refused.
pub proof fn offset_is_moved_whenever_it_fits(
    bounds: Seq<int>,
    starts: Seq<int>,
    base: int,
    new_base: int,
    offset: i32,
    i: int,
)
    requires
        0 <= i < bounds.len(),
        bounds[i] == base + offset,
        forall|j: int| 0 <= j < i ==> #[trigger] bounds[j] != base + offset,
    ensures
        -0x80_0000 <= starts[i] - new_base < 0x80_0000 ==> (relocation::moved_offset(
            bounds,
            starts,
            base,
            new_base,
            offset,
        ) matches Ok(new_offset) && new_base + new_offset == starts[i]),
        !(-0x80_0000 <= starts[i] - new_base < 0x80_0000) ==> relocation::moved_offset(
            bounds,
            starts,
            base,
            new_base,
            offset,
        ) is Err,
{
    let p = relocation::is_byte(base + offset);
    assert forall|j: int| 0 <= j < i implies !p(#[trigger] bounds[j]) by {}
    constant_pool::lemma_position_is(bounds, p, i);
}

/// An offset of an exception handler at an instruction is moved whenever the new one
/// fits in 32 bits.
pub proof fn handler_offset_is_moved_whenever_it_fits(
    bounds: Seq<int>,
    starts: Seq<int>,
    offset: u32,
    i: int,
)
    requires
        0 <= i < bounds.len(),
        bounds[i] == offset,
        forall|j: int| 0 <= j < i ==> #[trigger] bounds[j] != offset,
        0 <= starts[i],
    ensures
        starts[i] <= 0xFFFF_FFFF ==> (relocation::moved_handler_offset(
            bounds,
            starts,
            offset,
        ) matches Ok(new_offset) && new_offset == starts[i]),
        starts[i] > 0xFFFF_FFFF ==> relocation::moved_handler_offset(
            bounds,
            starts,
            offset,
        ) is Err,
{
    let p = relocation::is_byte(offset as int);
    assert forall|j: int| 0 <= j < i implies !p(#[trigger] bounds[j]) by {}
    constant_pool::lemma_position_is(bounds, p, i);
}

/// An offset that leads to no instruction is refused.
pub proof fn offset_to_no_instruction_is_refused(
    bounds: Seq<int>,
    starts: Seq<int>,
    base: int,
    new_base: int,
    offset: i32,
    handler_offset: u32,
)
    ensures
        (forall|j: int| 0 <= j < bounds.len() ==> #[trigger] bounds[j] != base + offset)
            ==> relocation::moved_offset(bounds, starts, base, new_base, offset) is Err,
        (forall|j: int| 0 <= j < bounds.len() ==> #[trigger] bounds[j] != handler_offset)
            ==> relocation::moved_handler_offset(bounds, starts, handler_offset) is Err,
{
    constant_pool::lemma_position(bounds, relocation::is_byte(base + offset));
    constant_pool::lemma_position(bounds, relocation::is_byte(handler_offset as int));
}

/// A jump that is relocated is a jump of the same kind, and an instruction that does
/// not jump stays as it is.
pub proof fn relocation_keeps_the_kind(bounds: Seq<int>, starts: Seq<int>, op: Op, i: int)
    ensures
        relocation::relocated(bounds, starts, OpModel::Plain(op), i) matches Ok(new_op) ==> (
        new_op matches OpModel::Plain(new_plain) && {
            &&& op is IfEq ==> new_plain is IfEq
            &&& op is IfFalse ==> new_plain is IfFalse
            &&& op is IfGe ==> new_plain is IfGe
            &&& op is IfGt ==> new_plain is IfGt
            &&& op is IfLe ==> new_plain is IfLe
            &&& op is IfLt ==> new_plain is IfLt
            &&& op is IfNe ==> new_plain is IfNe
            &&& op is IfNge ==> new_plain is IfNge
            &&& op is IfNgt ==> new_plain is IfNgt
            &&& op is IfNle ==> new_plain is IfNle
            &&& op is IfNlt ==> new_plain is IfNlt
            &&& op is IfStrictEq ==> new_plain is IfStrictEq
            &&& op is IfStrictNe ==> new_plain is IfStrictNe
            &&& op is IfTrue ==> new_plain is IfTrue
            &&& op is Jump ==> new_plain is Jump
            &&& !(op is IfEq || op is IfFalse || op is IfGe || op is IfGt
                || op is IfLe || op is IfLt || op is IfNe || op is IfNge
                || op is IfNgt || op is IfNle || op is IfNlt || op is IfStrictEq
                || op is IfStrictNe || op is IfTrue || op is Jump) ==> new_plain == op
        }),
{
}

/// The offset of each kind of jump is its own.
pub proof fn jumps_have_their_offsets(op: Op)
    ensures
        op matches Op::IfEq { offset } ==> swf_calls::jump_offset(op) == Some(offset),
        op matches Op::IfFalse { offset } ==> swf_calls::jump_offset(op) == Some(offset),
        op matches Op::IfGe { offset } ==> swf_calls::jump_offset(op) == Some(offset),
        op matches Op::IfGt { offset } ==> swf_calls::jump_offset(op) == Some(offset),
        op matches Op::IfLe { offset } ==> swf_calls::jump_offset(op) == Some(offset),
        op matches Op::IfLt { offset } ==> swf_calls::jump_offset(op) == Some(offset),
        op matches Op::IfNe { offset } ==> swf_calls::jump_offset(op) == Some(offset),
        op matches Op::IfNge { offset } ==> swf_calls::jump_offset(op) == Some(offset),
        op matches Op::IfNgt { offset } ==> swf_calls::jump_offset(op) == Some(offset),
        op matches Op::IfNle { offset } ==> swf_calls::jump_offset(op) == Some(offset),
        op matches Op::IfNlt { offset } ==> swf_calls::jump_offset(op) == Some(offset),
        op matches Op::IfStrictEq { offset } ==> swf_calls::jump_offset(op) == Some(offset),
        op matches Op::IfStrictNe { offset } ==> swf_calls::jump_offset(op) == Some(offset),
        op matches Op::IfTrue { offset } ==> swf_calls::jump_offset(op) == Some(offset),
        op matches Op::Jump { offset } ==> swf_calls::jump_offset(op) == Some(offset),
        !(op is IfEq || op is IfFalse || op is IfGe || op is IfGt
            || op is IfLe || op is IfLt || op is IfNe || op is IfNge
            || op is IfNgt || op is IfNle || op is IfNlt || op is IfStrictEq
            || op is IfStrictNe || op is IfTrue || op is Jump) ==> swf_calls::jump_offset(
            op,
        ) is None,
{
}

/// A jump is relocated from its end, a switch and its cases from its start, each
/// whenever its offsets can be moved.
pub proof fn relocation_is_owed(bounds: Seq<int>, starts: Seq<int>, op: OpModel, i: int)
    ensures
        op matches OpModel::Plain(plain) ==> {
            &&& swf_calls::jump_offset(plain) is None ==> relocation::relocated(
                bounds,
                starts,
                op,
                i,
            ) == Ok::<OpModel, Seq<char>>(op)
            &&& swf_calls::jump_offset(plain) matches Some(offset) ==> (relocation::relocated(
                bounds,
                starts,
                op,
                i,
            ) is Ok <==> relocation::moved_offset(
                bounds,
                starts,
                bounds[i + 1],
                starts[i + 1],
                offset,
            ) is Ok)
        },
        op matches OpModel::Switch { default_offset, case_offsets } ==> (
        relocation::moved_offset(bounds, starts, bounds[i], starts[i], default_offset) is Ok && (
        forall|k: int|
            0 <= k < case_offsets.len() ==> relocation::moved_offset(
                bounds,
                starts,
                bounds[i],
                starts[i],
                #[trigger] case_offsets[k],
            ) is Ok) ==> relocation::relocated(bounds, starts, op, i) is Ok),
{
    if let OpModel::Switch { case_offsets, .. } = op {
        lemma_moves_all_that_can_be_moved(bounds, starts, bounds[i], starts[i], case_offsets);
    }
}

proof fn lemma_moves_all_that_can_be_moved(
    bounds: Seq<int>,
    starts: Seq<int>,
    base: int,
    new_base: int,
    offsets: Seq<i32>,
)
    ensures
        (forall|k: int|
            0 <= k < offsets.len() ==> relocation::moved_offset(
                bounds,
                starts,
                base,
                new_base,
                #[trigger] offsets[k],
            ) is Ok) ==> relocation::moved_offsets(bounds, starts, base, new_base, offsets) is Ok,
    decreases offsets.len(),
{
    if offsets.len() > 0 {
        let earlier = offsets.drop_last();
        lemma_moves_all_that_can_be_moved(bounds, starts, base, new_base, earlier);
        if forall|k: int|
            0 <= k < offsets.len() ==> relocation::moved_offset(
                bounds,
                starts,
                base,
                new_base,
                #[trigger] offsets[k],
            ) is Ok {
            assert forall|k: int| 0 <= k < earlier.len() implies relocation::moved_offset(
                bounds,
                starts,
                base,
                new_base,
                #[trigger] earlier[k],
            ) is Ok by {
                assert(earlier[k] == offsets[k]);
            }
            assert(offsets.last() == offsets[offsets.len() - 1]);
        }
    }
}

proof fn lemma_relocates_all_that_can_be(bounds: Seq<int>, starts: Seq<int>, ops: Seq<OpModel>)
    requires
        forall|i: int|
            0 <= i < ops.len() ==> relocation::relocated(
                bounds,
                starts,
                #[trigger] ops[i],
                i,
            ) is Ok,
    ensures
        relocation::relocated_all(bounds, starts, ops) is Ok,
    decreases ops.len(),
{
    if ops.len() > 0 {
        let earlier = ops.drop_last();
        assert forall|i: int| 0 <= i < earlier.len() implies relocation::relocated(
            bounds,
            starts,
            #[trigger] earlier[i],
            i,
        ) is Ok by {
            assert(earlier[i] == ops[i]);
        }
        lemma_relocates_all_that_can_be(bounds, starts, earlier);
        assert(ops.last() == ops[ops.len() - 1]);
    }
}

/// The patch applies whenever it can: where the target has the method with a body and a
/// handler, the snippet has its body, the table is built, the snippet's code can be
/// read, each of its instructions has what it refers to in the table, and every offset
/// can be moved.
pub proof fn patch_applies_when_it_can(
    target: AbcModel,
    snippet: AbcModel,
    m: u32,
    b: int,
    table: TableModel,
    renamed: Seq<OpModel>,
)
    requires
        super::method_index(target, "SmartFoxClient"@, "handleSocketData"@) == Some(m),
        super::snippet_body(snippet) is Ok,
        super::target_body(target, m) == Ok::<int, Seq<char>>(b),
        super::built(target.constant_pool, snippet.constant_pool).1 == Ok::<TableModel, Seq<char>>(
            table,
        ),
        ({
            let body = super::snippet_body(snippet)->Ok_0;
            let bounds = super::boundaries_from(body.code, 0);
            let starts = super::starts_of(renamed);
            let guard = body.exceptions[0];
            &&& super::disassembled_from(body.code, 0) matches Ok(ops)
            &&& renamed.len() == ops.len()
            &&& forall|i: int|
                0 <= i < ops.len() ==> super::remapped(table, #[trigger] ops[i]) == Ok::<
                    OpModel,
                    Seq<char>,
                >(renamed[i])
            &&& forall|i: int|
                0 <= i < renamed.len() ==> relocation::relocated(
                    bounds,
                    starts,
                    #[trigger] renamed[i],
                    i,
                ) is Ok
            &&& relocation::moved_handler_offset(bounds, starts, guard.from_offset) is Ok
            &&& relocation::moved_handler_offset(bounds, starts, guard.to_offset) is Ok
            &&& relocation::moved_handler_offset(bounds, starts, guard.target_offset) is Ok
        }),
    ensures
        super::applied_snippet(target, snippet).1 == Ok::<bool, Seq<char>>(true),
{
    let body = super::snippet_body(snippet)->Ok_0;
    let bounds = super::boundaries_from(body.code, 0);
    let starts = super::starts_of(renamed);
    let ops = super::disassembled_from(body.code, 0)->Ok_0;
    laws::remapping_is_elementwise(table, ops);
    let p = laws::without_override(table);
    constant_pool::lemma_position(ops, p);
    if let Some(i) = constant_pool::position(ops, p) {
        assert(super::remapped(table, ops[i]) is Ok);
    }
    let found = super::remapped_all(table, ops)->Ok_0;
    assert forall|i: int| 0 <= i < ops.len() implies found[i] == renamed[i] by {
        assert(super::remapped(table, ops[i]) == Ok::<OpModel, Seq<char>>(found[i]));
    }
    assert(found =~= renamed);
    lemma_relocates_all_that_can_be(bounds, starts, renamed);
    replacement_goes_instruction_by_instruction(table, body.code);
}

/// The patch says that the method was not found exactly if it is not there, and then
/// changes nothing, whatever the snippet is.
pub proof fn missing_method_is_reported(
    target: AbcModel,
    snippet: AbcModel,
    parsed: Result<AbcModel, Seq<char>>,
)
    ensures
        super::method_index(target, "SmartFoxClient"@, "handleSocketData"@) is None
            <==> super::applied_snippet(target, snippet).1 == Ok::<bool, Seq<char>>(false),
        super::method_index(target, "SmartFoxClient"@, "handleSocketData"@) is None ==> {
            &&& super::applied_snippet(target, snippet).0 == target
            &&& super::applied_parsed(target, parsed) == (target, Ok::<bool, Seq<char>>(false))
        },
{
}

/// Where the target has the method, a snippet that was not parsed is an error that
/// changes nothing, and one that was is applied.
pub proof fn parsed_snippet_is_applied(
    target: AbcModel,
    parsed: Result<AbcModel, Seq<char>>,
    snippet_abc: Seq<u8>,
)
    requires
        super::method_index(target, "SmartFoxClient"@, "handleSocketData"@) is Some,
    ensures
        parsed is Err ==> super::applied_parsed(target, parsed).1 is Err && super::applied_parsed(
            target,
            parsed,
        ).0 == target,
        parsed matches Ok(snippet) ==> super::applied_parsed(target, parsed)
            == super::applied_snippet(target, snippet),
        swf_calls::swf_read_abc(snippet_abc) is Err ==> super::applied(target, snippet_abc).1 is Err
            && super::applied(target, snippet_abc).0 == target,
        swf_calls::swf_read_abc(snippet_abc) matches Ok(snippet) ==> super::applied(
            target,
            snippet_abc,
        ) == super::applied_snippet(target, snippet),
{
}

/// What is missing is an error, and what is missed first is reported: the snippet's
/// body, the target's body or its handler, the table, an instruction of the snippet that
/// can be read, and what an instruction refers to.
pub proof fn what_is_missed_first_is_reported(target: AbcModel, snippet: AbcModel, m: u32)
    requires
        super::method_index(target, "SmartFoxClient"@, "handleSocketData"@) == Some(m),
    ensures
        ({
            let (after, result) = super::applied_snippet(target, snippet);
            let (pool, table) = super::built(target.constant_pool, snippet.constant_pool);
            match super::snippet_body(snippet) {
                Err(e) => after == target && result == Err::<bool, Seq<char>>(e),
                Ok(body) => match super::target_body(target, m) {
                    Err(e) => after == target && result == Err::<bool, Seq<char>>(e),
                    Ok(_) => {
                        &&& after.constant_pool == pool
                        &&& match table {
                            Err(e) => result == Err::<bool, Seq<char>>(e),
                            Ok(table) => match super::disassembled_from(body.code, 0) {
                                Err(e) => result == Err::<bool, Seq<char>>(
                                    "failed to disassemble snippet method body: "@ + e,
                                ),
                                Ok(ops) => forall|i: int|
                                    0 <= i < ops.len() && super::remapped(
                                        table,
                                        #[trigger] ops[i],
                                    ) is Err && (forall|j: int|
                                        0 <= j < i ==> super::remapped(
                                            table,
                                            #[trigger] ops[j],
                                        ) is Ok) ==> result == Err::<bool, Seq<char>>(
                                        super::remapped(table, ops[i])->Err_0,
                                    ),
                            },
                        }
                    },
                },
            }
        }),
{
    if let Ok(body) = super::snippet_body(snippet) {
        if let Ok(table) = super::built(target.constant_pool, snippet.constant_pool).1 {
            if let Ok(ops) = super::disassembled_from(body.code, 0) {
                laws::remapping_is_elementwise(table, ops);
                let p = laws::without_override(table);
                assert forall|i: int|
                    0 <= i < ops.len() && super::remapped(table, #[trigger] ops[i]) is Err && (
                    forall|j: int|
                        0 <= j < i ==> super::remapped(
                            table,
                            #[trigger] ops[j],
                        ) is Ok) implies constant_pool::position(ops, p) == Some(i) by {
                    assert forall|j: int| 0 <= j < i implies !p(#[trigger] ops[j]) by {
                        assert(super::remapped(table, ops[j]) is Ok);
                    }
                    constant_pool::lemma_position_is(ops, p, i);
                }
            }
        }
    }
}

/// Each thing that is missing from a body has its message.
pub proof fn missing_bodies_have_their_messages(snippet: AbcModel, target: AbcModel, m: u32)
    ensures
        super::method_index(snippet, "HSD"@, "handleSocketData"@) is None ==> super::snippet_body(
            snippet,
        ) == Err::<BodyModel, Seq<char>>("snippet ABC is missing handleSocketData"@),
        super::method_index(snippet, "HSD"@, "handleSocketData"@) matches Some(k) ==> ((forall|
            b: int,
        |
            0 <= b < snippet.method_bodies.len() ==> (#[trigger] snippet.method_bodies[b]).method.0
                != k) ==> super::snippet_body(snippet) == Err::<BodyModel, Seq<char>>(
            "snippet ABC is missing handleSocketData's method body"@,
        )),
        (forall|b: int|
            0 <= b < target.method_bodies.len() ==> (#[trigger] target.method_bodies[b]).method.0
                != m) ==> super::target_body(target, m) == Err::<int, Seq<char>>(
            "handleSocketData has no method body"@,
        ),
{
    constant_pool::lemma_position(target.method_bodies, super::body_of(m));
    if let Some(k) = super::method_index(snippet, "HSD"@, "handleSocketData"@) {
        constant_pool::lemma_position(snippet.method_bodies, super::body_of(k));
    }
}

/// A snippet whose body catches an exception and is of a length that 32 bits hold can
/// be applied, and so can one without that body; bytes that are no ABC file, or such a
/// file, are usable.
pub proof fn snippet_with_a_handler_is_ready(snippet: AbcModel, snippet_abc: Seq<u8>)
    ensures
        super::snippet_body(snippet) is Err ==> super::snippet_ready(snippet),
        super::snippet_body(snippet) matches Ok(body) ==> (super::snippet_ready(snippet)
            <==> body.exceptions.len() > 0 && body.code.len() <= 0xFFFF_FFFF),
        snippet_abc.len() <= 0xFFFF_FFFF ==> {
            &&& swf_calls::swf_read_abc(snippet_abc) is Err ==> super::usable_snippet(snippet_abc)
            &&& swf_calls::swf_read_abc(snippet_abc) matches Ok(s) ==> (super::usable_snippet(
                snippet_abc,
            ) <==> super::snippet_ready(s))
        },
        snippet_abc.len() > 0xFFFF_FFFF ==> !super::usable_snippet(snippet_abc),
{
}

} // verus!
