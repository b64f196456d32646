//! Keeping jumps and exception handlers at their instructions when the instructions
//! change in length.
//!
//! A jump goes by bytes from its own end, a switch by bytes from its own start. A
//! name that takes more bytes than the one it replaces moves everything behind it.
use swf::avm2::types::{Exception, LookupSwitch, Op};
use vstd::prelude::*;
use crate::abc_model::OpModel;
use crate::swf_calls::boxed_slice;
use crate::text::{decimal, join, signed_decimal};
use crate::{constant_pool, swf_calls, text};

verus! {

pub open spec fn is_byte(byte: int) -> spec_fn(int) -> bool {
    |b: int| b == byte
}

/// The index of the instruction that starts at a byte, where `bounds` are the starts
/// of the instructions and the end of the last.
pub open spec fn index_at(bounds: Seq<int>, byte: int) -> Option<int> {
    constant_pool::position(bounds, is_byte(byte))
}

/// The index of the instruction that starts at this byte of `code`. The end of the
/// code counts as one more instruction.
pub open spec fn instruction_at(code: Seq<u8>, offset: int) -> Option<int> {
    index_at(super::boundaries_from(code, 0), offset)
}

/// The offset that leads from `new_base` to the instruction to which `offset` led from
/// `base`, or the message that says why there is none. The instructions started at
/// `bounds` and start at `starts`.
pub open spec fn moved_offset(
    bounds: Seq<int>,
    starts: Seq<int>,
    base: int,
    new_base: int,
    offset: i32,
) -> Result<i32, Seq<char>> {
    match index_at(bounds, base + offset) {
        None => Err("jump to byte "@ + text::int_text(base + offset) + " leads to no instruction"@),
        Some(i) => if swf_calls::is_i24(starts[i] - new_base) {
            Ok((starts[i] - new_base) as i32)
        } else {
            Err("jump to byte "@ + text::int_text(base + offset) + " does not fit in 24 bits"@)
        },
    }
}

/// All of these offsets moved, or the message of the first that is not.
pub open spec fn moved_offsets(
    bounds: Seq<int>,
    starts: Seq<int>,
    base: int,
    new_base: int,
    offsets: Seq<i32>,
) -> Result<Seq<i32>, Seq<char>>
    decreases offsets.len(),
{
    if offsets.len() == 0 {
        Ok(Seq::empty())
    } else {
        match moved_offsets(bounds, starts, base, new_base, offsets.drop_last()) {
            Err(message) => Err(message),
            Ok(earlier) => match moved_offset(bounds, starts, base, new_base, offsets.last()) {
                Err(message) => Err(message),
                Ok(offset) => Ok(earlier.push(offset)),
            },
        }
    }
}

/// A jump with another offset.
pub open spec fn with_jump_offset(op: Op, offset: i32) -> Op {
    match op {
        Op::IfEq { .. } => Op::IfEq { offset },
        Op::IfFalse { .. } => Op::IfFalse { offset },
        Op::IfGe { .. } => Op::IfGe { offset },
        Op::IfGt { .. } => Op::IfGt { offset },
        Op::IfLe { .. } => Op::IfLe { offset },
        Op::IfLt { .. } => Op::IfLt { offset },
        Op::IfNe { .. } => Op::IfNe { offset },
        Op::IfNge { .. } => Op::IfNge { offset },
        Op::IfNgt { .. } => Op::IfNgt { offset },
        Op::IfNle { .. } => Op::IfNle { offset },
        Op::IfNlt { .. } => Op::IfNlt { offset },
        Op::IfStrictEq { .. } => Op::IfStrictEq { offset },
        Op::IfStrictNe { .. } => Op::IfStrictNe { offset },
        Op::IfTrue { .. } => Op::IfTrue { offset },
        Op::Jump { .. } => Op::Jump { offset },
        _ => op,
    }
}

/// The `i`th instruction with its offsets moved, or the message of the first that is
/// not. Of a switch the default comes first.
pub open spec fn relocated(bounds: Seq<int>, starts: Seq<int>, op: OpModel, i: int) -> Result<
    OpModel,
    Seq<char>,
> {
    match op {
        OpModel::Plain(plain) => match swf_calls::jump_offset(plain) {
            None => Ok(op),
            Some(offset) => match moved_offset(
                bounds,
                starts,
                bounds[i + 1],
                starts[i + 1],
                offset,
            ) {
                Err(message) => Err(message),
                Ok(offset) => Ok(OpModel::Plain(with_jump_offset(plain, offset))),
            },
        },
        OpModel::Switch { default_offset, case_offsets } => match moved_offset(
            bounds,
            starts,
            bounds[i],
            starts[i],
            default_offset,
        ) {
            Err(message) => Err(message),
            Ok(default_offset) => match moved_offsets(
                bounds,
                starts,
                bounds[i],
                starts[i],
                case_offsets,
            ) {
                Err(message) => Err(message),
                Ok(case_offsets) => Ok(OpModel::Switch { default_offset, case_offsets }),
            },
        },
    }
}

/// All instructions relocated, or the message of the first that is not.
pub open spec fn relocated_all(bounds: Seq<int>, starts: Seq<int>, ops: Seq<OpModel>) -> Result<
    Seq<OpModel>,
    Seq<char>,
>
    decreases ops.len(),
{
    if ops.len() == 0 {
        Ok(Seq::empty())
    } else {
        match relocated_all(bounds, starts, ops.drop_last()) {
            Err(message) => Err(message),
            Ok(earlier) => match relocated(bounds, starts, ops.last(), ops.len() - 1) {
                Err(message) => Err(message),
                Ok(op) => Ok(earlier.push(op)),
            },
        }
    }
}

/// The new place of an offset of an exception handler, or the message that says why
/// there is none.
pub open spec fn moved_handler_offset(bounds: Seq<int>, starts: Seq<int>, offset: u32) -> Result<
    u32,
    Seq<char>,
> {
    match index_at(bounds, offset as int) {
        None => Err(
            "exception handler offset "@ + text::nat_text(offset as nat)
                + " is at no instruction"@,
        ),
        Some(i) => if starts[i] <= u32::MAX {
            Ok(starts[i] as u32)
        } else {
            Err(
                "exception handler offset "@ + text::nat_text(offset as nat)
                    + " does not fit in 32 bits"@,
            )
        },
    }
}

/// An exception handler that guards and leads to the instructions that `guarded` does,
/// and catches what `caught` does; or the message of the first offset that cannot be
/// moved.
pub open spec fn moved_handler(
    bounds: Seq<int>,
    starts: Seq<int>,
    guarded: Exception,
    caught: Exception,
) -> Result<Exception, Seq<char>> {
    match moved_handler_offset(bounds, starts, guarded.from_offset) {
        Err(message) => Err(message),
        Ok(from_offset) => match moved_handler_offset(bounds, starts, guarded.to_offset) {
            Err(message) => Err(message),
            Ok(to_offset) => match moved_handler_offset(bounds, starts, guarded.target_offset) {
                Err(message) => Err(message),
                Ok(target_offset) => Ok(
                    Exception { from_offset, to_offset, target_offset, ..caught },
                ),
            },
        },
    }
}

/// Whether these can be offsets into the code of a file: 32 bits hold them.
pub open spec fn are_code_offsets(bounds: Seq<usize>) -> bool {
    forall|i: int| 0 <= i < bounds.len() ==> #[trigger] bounds[i] <= u32::MAX
}

fn find_index(bounds: &[usize], byte: i64) -> (index: Option<usize>)
    requires
        are_code_offsets(bounds@),
    ensures
        match index_at(super::offsets(bounds@), byte as int) {
            Some(i) => index matches Some(p) && p == i && p < bounds@.len(),
            None => index is None,
        },
{
    let ghost all = super::offsets(bounds@);
    for i in 0..bounds.len()
        invariant
            are_code_offsets(bounds@),
            all == super::offsets(bounds@),
            forall|j: int| 0 <= j < i ==> !is_byte(byte as int)(#[trigger] all[j]),
    {
        if bounds[i] as i64 == byte {
            proof {
                constant_pool::lemma_position_is(all, is_byte(byte as int), i as int);
            }
            return Some(i);
        }
    }
    proof {
        constant_pool::lemma_position_none(all, is_byte(byte as int));
    }
    None
}

fn move_offset(bounds: &[usize], starts: &[usize], base: usize, new_base: usize, offset: i32) -> (r:
    Result<i32, String>)
    requires
        are_code_offsets(bounds@),
        base <= u32::MAX,
        bounds@.len() == starts@.len(),
    ensures
        match moved_offset(
            super::offsets(bounds@),
            super::offsets(starts@),
            base as int,
            new_base as int,
            offset,
        ) {
            Ok(new_offset) => r matches Ok(o) && o == new_offset && swf_calls::is_i24(o as int),
            Err(message) => r matches Err(e) && e@ == message,
        },
{
    let byte: i64 = base as i64 + offset as i64;
    match find_index(bounds, byte) {
        Some(i) => {
            let start: usize = starts[i];
            if start >= new_base && start - new_base < 0x80_0000 {
                return Ok((start - new_base) as i32);
            }
            if start < new_base && new_base - start <= 0x80_0000 {
                return Ok(-((new_base - start) as i32));
            }
            let mut message = join("jump to byte ", signed_decimal(byte).as_str());
            message.append(" does not fit in 24 bits");
            Err(message)
        },
        None => {
            let mut message = join("jump to byte ", signed_decimal(byte).as_str());
            message.append(" leads to no instruction");
            Err(message)
        },
    }
}

/// A message for a prefix is the message for the whole.
proof fn lemma_move_fails_early(
    bounds: Seq<int>,
    starts: Seq<int>,
    base: int,
    new_base: int,
    offsets: Seq<i32>,
    n: int,
)
    requires
        0 <= n <= offsets.len(),
    ensures
        moved_offsets(bounds, starts, base, new_base, offsets.take(n)) matches Err(e)
            ==> moved_offsets(bounds, starts, base, new_base, offsets) == Err::<
            Seq<i32>,
            Seq<char>,
        >(e),
    decreases offsets.len(),
{
    if n == offsets.len() {
        assert(offsets.take(n) =~= offsets);
    } else {
        assert(offsets.drop_last().take(n) =~= offsets.take(n));
        lemma_move_fails_early(bounds, starts, base, new_base, offsets.drop_last(), n);
    }
}

fn move_offsets(
    bounds: &[usize],
    starts: &[usize],
    base: usize,
    new_base: usize,
    offsets: &[i32],
) -> (r: Result<Vec<i32>, String>)
    requires
        are_code_offsets(bounds@),
        base <= u32::MAX,
        bounds@.len() == starts@.len(),
    ensures
        match moved_offsets(
            super::offsets(bounds@),
            super::offsets(starts@),
            base as int,
            new_base as int,
            offsets@,
        ) {
            Ok(new_offsets) => r matches Ok(v) && v@ == new_offsets && v@.len() == offsets@.len()
                && forall|i: int| 0 <= i < v@.len() ==> swf_calls::is_i24(#[trigger] v@[i] as int),
            Err(message) => r matches Err(e) && e@ == message,
        },
{
    let mut moved: Vec<i32> = Vec::new();
    let ghost b = super::offsets(bounds@);
    let ghost s = super::offsets(starts@);
    assert(offsets@.take(0) =~= Seq::empty());
    for i in 0..offsets.len()
        invariant
            are_code_offsets(bounds@),
            base <= u32::MAX,
            bounds@.len() == starts@.len(),
            b == super::offsets(bounds@),
            s == super::offsets(starts@),
            moved@.len() == i,
            moved_offsets(b, s, base as int, new_base as int, offsets@.take(i as int)) == Ok::<
                Seq<i32>,
                Seq<char>,
            >(moved@),
            forall|j: int| 0 <= j < moved@.len() ==> swf_calls::is_i24(#[trigger] moved@[j] as int),
    {
        proof {
            assert(offsets@.take(i + 1).drop_last() =~= offsets@.take(i as int));
            lemma_move_fails_early(b, s, base as int, new_base as int, offsets@, i + 1);
        }
        let offset: i32 = move_offset(bounds, starts, base, new_base, offsets[i])?;
        moved.push(offset);
    }
    assert(offsets@.take(offsets@.len() as int) =~= offsets@);
    Ok(moved)
}

fn jump_offset_of(op: &Op) -> (offset: Option<i32>)
    ensures
        offset == swf_calls::jump_offset(*op),
{
    match op {
        Op::IfEq { offset }
        | Op::IfFalse { offset }
        | Op::IfGe { offset }
        | Op::IfGt { offset }
        | Op::IfLe { offset }
        | Op::IfLt { offset }
        | Op::IfNe { offset }
        | Op::IfNge { offset }
        | Op::IfNgt { offset }
        | Op::IfNle { offset }
        | Op::IfNlt { offset }
        | Op::IfStrictEq { offset }
        | Op::IfStrictNe { offset }
        | Op::IfTrue { offset }
        | Op::Jump { offset } => Some(*offset),
        _ => None,
    }
}

fn set_jump_offset(op: &mut Op, offset: i32)
    ensures
        *final(op) == with_jump_offset(*old(op), offset),
{
    match op {
        Op::IfEq { .. } => {
            *op = Op::IfEq { offset };
        },
        Op::IfFalse { .. } => {
            *op = Op::IfFalse { offset };
        },
        Op::IfGe { .. } => {
            *op = Op::IfGe { offset };
        },
        Op::IfGt { .. } => {
            *op = Op::IfGt { offset };
        },
        Op::IfLe { .. } => {
            *op = Op::IfLe { offset };
        },
        Op::IfLt { .. } => {
            *op = Op::IfLt { offset };
        },
        Op::IfNe { .. } => {
            *op = Op::IfNe { offset };
        },
        Op::IfNge { .. } => {
            *op = Op::IfNge { offset };
        },
        Op::IfNgt { .. } => {
            *op = Op::IfNgt { offset };
        },
        Op::IfNle { .. } => {
            *op = Op::IfNle { offset };
        },
        Op::IfNlt { .. } => {
            *op = Op::IfNlt { offset };
        },
        Op::IfStrictEq { .. } => {
            *op = Op::IfStrictEq { offset };
        },
        Op::IfStrictNe { .. } => {
            *op = Op::IfStrictNe { offset };
        },
        Op::IfTrue { .. } => {
            *op = Op::IfTrue { offset };
        },
        Op::Jump { .. } => {
            *op = Op::Jump { offset };
        },
        _ => {},
    }
}

fn switch_of(op: &Op) -> (switch: Option<&LookupSwitch>)
    ensures
        match OpModel::of(*op) {
            OpModel::Switch { default_offset, case_offsets } => {
                &&& switch matches Some(s)
                &&& s.default_offset == default_offset
                &&& s.case_offsets@ == case_offsets
            },
            OpModel::Plain(_) => switch is None,
        },
{
    match op {
        Op::LookupSwitch(switch) => Some(&**switch),
        _ => None,
    }
}

/// Moves the offsets of the `i`th instruction.
fn relocate_op(bounds: &[usize], starts: &[usize], op: &mut Op, i: usize) -> (r: Result<(), String>)
    requires
        are_code_offsets(bounds@),
        bounds@.len() == starts@.len(),
        i + 1 < bounds@.len(),
        swf_calls::op_encodable(OpModel::of(*old(op))),
    ensures
        match relocated(
            super::offsets(bounds@),
            super::offsets(starts@),
            OpModel::of(*old(op)),
            i as int,
        ) {
            Ok(new_op) => r is Ok && OpModel::of(*final(op)) == new_op,
            Err(message) => r matches Err(e) && e@ == message,
        },
        swf_calls::op_encodable(OpModel::of(*final(op))),
{
    if let Some(offset) = jump_offset_of(op) {
        let new_offset: i32 = move_offset(bounds, starts, bounds[i + 1], starts[i + 1], offset)?;
        set_jump_offset(op, new_offset);
        return Ok(());
    }
    let (default_offset, case_offsets) = match switch_of(op) {
        Some(switch) => {
            let default_offset: i32 = move_offset(
                bounds,
                starts,
                bounds[i],
                starts[i],
                switch.default_offset,
            )?;
            let case_offsets = move_offsets(
                bounds,
                starts,
                bounds[i],
                starts[i],
                &switch.case_offsets,
            )?;
            (default_offset, case_offsets)
        },
        None => {
            return Ok(());
        },
    };
    let switch = LookupSwitch { default_offset, case_offsets: boxed_slice(case_offsets) };
    *op = Op::LookupSwitch(Box::new(switch));
    Ok(())
}

/// A message for a prefix is the message for the whole.
proof fn lemma_relocation_fails_early(
    bounds: Seq<int>,
    starts: Seq<int>,
    ops: Seq<OpModel>,
    n: int,
)
    requires
        0 <= n <= ops.len(),
    ensures
        relocated_all(bounds, starts, ops.take(n)) matches Err(e) ==> relocated_all(
            bounds,
            starts,
            ops,
        ) == Err::<Seq<OpModel>, Seq<char>>(e),
    decreases ops.len(),
{
    if n == ops.len() {
        assert(ops.take(n) =~= ops);
    } else {
        assert(ops.drop_last().take(n) =~= ops.take(n));
        lemma_relocation_fails_early(bounds, starts, ops.drop_last(), n);
    }
}

/// Moves the offsets of all instructions, up to the first that cannot be moved. The
/// instructions started at `bounds` and start at `starts`.
pub fn relocate_all(bounds: &[usize], starts: &[usize], ops: &mut Vec<Op>) -> (r: Result<
    (),
    String,
>)
    requires
        are_code_offsets(bounds@),
        bounds@.len() == starts@.len(),
        bounds@.len() == old(ops)@.len() + 1,
        forall|i: int|
            0 <= i < old(ops)@.len() ==> swf_calls::op_encodable(
                OpModel::of(#[trigger] old(ops)@[i]),
            ),
    ensures
        match relocated_all(
            super::offsets(bounds@),
            super::offsets(starts@),
            OpModel::all(old(ops)@),
        ) {
            Ok(new_ops) => r is Ok && OpModel::all(final(ops)@) == new_ops,
            Err(message) => r matches Err(e) && e@ == message,
        },
        final(ops)@.len() == old(ops)@.len(),
        forall|i: int|
            0 <= i < final(ops)@.len() ==> swf_calls::op_encodable(
                OpModel::of(#[trigger] final(ops)@[i]),
            ),
{
    let ghost b = super::offsets(bounds@);
    let ghost s = super::offsets(starts@);
    let ghost before = OpModel::all(ops@);
    let n = ops.len();
    assert(before.take(0) =~= Seq::empty());
    assert(OpModel::all(ops@).take(0) =~= Seq::empty());
    for i in 0..n
        invariant
            are_code_offsets(bounds@),
            bounds@.len() == starts@.len(),
            bounds@.len() == n + 1,
            b == super::offsets(bounds@),
            s == super::offsets(starts@),
            before == OpModel::all(old(ops)@),
            n == ops@.len(),
            n == before.len(),
            relocated_all(b, s, before.take(i as int)) == Ok::<Seq<OpModel>, Seq<char>>(
                OpModel::all(ops@).take(i as int),
            ),
            forall|j: int| i <= j < n ==> OpModel::of(#[trigger] ops@[j]) == before[j],
            forall|j: int| 0 <= j < n ==> swf_calls::op_encodable(OpModel::of(#[trigger] ops@[j])),
    {
        let ghost done = OpModel::all(ops@).take(i as int);
        proof {
            assert(before.take(i + 1).drop_last() =~= before.take(i as int));
            assert(before.take(i + 1).last() == OpModel::of(ops@[i as int]));
            lemma_relocation_fails_early(b, s, before, i + 1);
        }
        relocate_op(bounds, starts, &mut ops[i], i)?;
        assert(OpModel::all(ops@).take(i + 1) =~= done.push(OpModel::of(ops@[i as int])));
    }
    assert(before.take(n as int) =~= before);
    assert(OpModel::all(ops@).take(n as int) =~= OpModel::all(ops@));
    Ok(())
}

fn move_handler_offset(bounds: &[usize], starts: &[usize], offset: u32) -> (r: Result<u32, String>)
    requires
        are_code_offsets(bounds@),
        bounds@.len() == starts@.len(),
    ensures
        match moved_handler_offset(super::offsets(bounds@), super::offsets(starts@), offset) {
            Ok(new_offset) => r matches Ok(o) && o == new_offset,
            Err(message) => r matches Err(e) && e@ == message,
        },
{
    let mut message = join("exception handler offset ", decimal(offset as u64).as_str());
    match find_index(bounds, offset as i64) {
        Some(i) => {
            if starts[i] as u64 <= 0xFFFF_FFFF {
                return Ok(starts[i] as u32);
            }
            message.append(" does not fit in 32 bits");
        },
        None => {
            message.append(" is at no instruction");
        },
    }
    Err(message)
}

/// Moves the exception handler `guarded`, and lets it catch what `caught` catches.
pub fn move_handler(
    bounds: &[usize],
    starts: &[usize],
    guarded: &Exception,
    caught: Exception,
) -> (r: Result<Exception, String>)
    requires
        are_code_offsets(bounds@),
        bounds@.len() == starts@.len(),
    ensures
        match moved_handler(
            super::offsets(bounds@),
            super::offsets(starts@),
            *guarded,
            caught,
        ) {
            Ok(handler) => r matches Ok(h) && h == handler,
            Err(message) => r matches Err(e) && e@ == message,
        },
{
    let from_offset = move_handler_offset(bounds, starts, guarded.from_offset)?;
    let to_offset = move_handler_offset(bounds, starts, guarded.to_offset)?;
    let target_offset = move_handler_offset(bounds, starts, guarded.target_offset)?;
    Ok(Exception { from_offset, to_offset, target_offset, ..caught })
}

} // verus!
