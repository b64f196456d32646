//! The calls into the `swf` crate, each with what it is relied on for, and one into
//! std.
use swf::avm2::types::{AbcFile, Op};
use vstd::prelude::*;
use crate::abc_model::{AbcModel, OpModel, TraitModel};

verus! {

/// A tag header: the code of the tag, the length of its body, and the number of
/// bytes that the header itself takes.
pub struct TagHeader {
    pub code: u16,
    pub length: nat,
    pub size: nat,
}

/// The 16-bit little-endian number at the start of `s`.
pub open spec fn le16(s: Seq<u8>) -> nat {
    (s[0] + 0x100 * s[1]) as nat
}

/// The 32-bit little-endian number at the start of `s`.
pub open spec fn le32(s: Seq<u8>) -> nat {
    (s[0] + 0x100 * s[1] + 0x1_0000 * s[2] + 0x100_0000 * s[3]) as nat
}

impl TagHeader {
    /// The tag header at the start of `rest`, if `rest` holds a whole one.
    ///
    /// The first 16 bits hold the code above the length. A length of 0x3F stands for
    /// the long form, in which the length follows in 32 bits.
    pub open spec fn at_start_of(rest: Seq<u8>) -> Option<TagHeader> {
        if rest.len() < 2 {
            None
        } else {
            let code = (le16(rest) / 64) as u16;
            if le16(rest) % 64 != 0x3F {
                Some(TagHeader { code, length: le16(rest) % 64, size: 2 })
            } else if rest.len() < 6 {
                None
            } else {
                Some(TagHeader { code, length: le32(rest.skip(2)), size: 6 })
            }
        }
    }
}

/// `swf::read::Reader::read_tag_code_and_length` on a reader over `rest`.
///
/// Claimed: the code and the length that come back are those of the header at
/// the start of `rest`, whatever the SWF version; the reader is left behind the
/// header; and the call fails where `rest` ends within the header.
#[verifier::external_body]
pub(crate) fn read_tag_header(rest: &[u8], version: u8) -> (r: Option<(u16, usize, &[u8])>)
    ensures
        r is Some <==> TagHeader::at_start_of(rest@) is Some,
        r matches Some((code, length, body)) ==> {
            let header = TagHeader::at_start_of(rest@)->Some_0;
            &&& code == header.code
            &&& length == header.length
            &&& body@ == rest@.skip(header.size as int)
        },
{
    let mut reader = swf::read::Reader::new(rest, version);
    let (code, length) = reader.read_tag_code_and_length().ok()?;
    Some((code, length, reader.get_ref()))
}

/// `swf::extensions::ReadSwfExt::read_u32` on a reader over `bytes`, and what
/// the reader has left.
///
/// Claimed: the call takes four bytes, and fails with swf's end-of-data message
/// where there are fewer.
#[verifier::external_body]
pub(crate) fn skip_u32(bytes: &[u8]) -> (r: Result<&[u8], String>)
    ensures
        r is Ok <==> bytes@.len() >= 4,
        r matches Ok(rest) ==> rest@ == bytes@.skip(4),
        r matches Err(e) ==> e@ == "unexpected end of SWF or tag"@,
{
    let mut reader = swf::read::Reader::new(bytes, 0);
    match swf::extensions::ReadSwfExt::read_u32(&mut reader) {
        Ok(_) => Ok(reader.get_ref()),
        Err(e) => Err(e.to_string()),
    }
}

/// `swf::extensions::ReadSwfExt::read_str` on a reader over `bytes`, and what
/// the reader has left.
///
/// Claimed: the call takes the bytes up to and including the first zero byte,
/// and fails with swf's end-of-data message where there is no zero byte.
#[verifier::external_body]
pub(crate) fn skip_str(bytes: &[u8]) -> (r: Result<&[u8], String>)
    ensures
        r is Ok <==> bytes@.contains(0),
        r matches Ok(rest) ==> rest@ == bytes@.skip(bytes@.index_of_first(0)->Some_0 + 1),
        r matches Err(e) ==> e@ == "unexpected end of SWF or tag"@,
{
    let mut reader = swf::read::Reader::new(bytes, 0);
    match swf::extensions::ReadSwfExt::read_str(&mut reader) {
        Ok(_) => Ok(reader.get_ref()),
        Err(e) => Err(e.to_string()),
    }
}

/// What `swf` reads `bytes` as: the ABC file at their start, or the message of
/// the error that stops it.
pub uninterp spec fn swf_read_abc(bytes: Seq<u8>) -> Result<AbcModel, Seq<char>>;

impl AbcModel {
    /// The number of entries in the constant pools.
    pub open spec fn pool_entries(self) -> nat {
        self.constant_pool.ints.len() + self.constant_pool.uints.len()
            + self.constant_pool.doubles.len() + self.constant_pool.strings.len()
            + self.constant_pool.namespaces.len() + self.constant_pool.namespace_sets.len()
            + self.constant_pool.multinames.len()
    }

    /// What a file that was read from `len` bytes keeps to: sixteen bytes go to
    /// the version and the twelve counts, every pool entry takes at least one
    /// byte more, and the counts of parameters and of code bytes are 32-bit
    /// numbers.
    pub open spec fn fits_in(self, len: nat) -> bool {
        &&& self.pool_entries() + 16 <= len
        &&& forall|i: int|
            0 <= i < self.methods.len() ==> (#[trigger] self.methods[i]).params.len() <= u32::MAX
        &&& forall|i: int|
            0 <= i < self.method_bodies.len() ==> (#[trigger] self.method_bodies[i]).code.len()
                <= u32::MAX
    }

    /// Whether every count that the writer raises by one, or counts up to, is a
    /// 32-bit number.
    pub open spec fn encodable(self) -> bool {
        &&& self.constant_pool.ints.len() < u32::MAX
        &&& self.constant_pool.uints.len() < u32::MAX
        &&& self.constant_pool.doubles.len() < u32::MAX
        &&& self.constant_pool.strings.len() < u32::MAX
        &&& self.constant_pool.namespaces.len() < u32::MAX
        &&& self.constant_pool.namespace_sets.len() < u32::MAX
        &&& self.constant_pool.multinames.len() < u32::MAX
        &&& forall|i: int|
            0 <= i < self.methods.len() ==> (#[trigger] self.methods[i]).params.len() <= u32::MAX
    }
}

/// `swf::avm2::read::Reader::read` on a reader over `bytes`.
///
/// Claimed: what comes back depends on `bytes` alone, and a file that was read
/// keeps to the bounds of [`AbcModel::fits_in`]. Where `bytes` are more than
/// 32 bits can count, the reader's own counters may overflow.
#[verifier::external_body]
pub(crate) fn read_abc(bytes: &[u8]) -> (r: Result<AbcFile, String>)
    requires
        bytes@.len() <= u32::MAX,
    ensures
        match r {
            Ok(abc) => swf_read_abc(bytes@) == Ok::<AbcModel, Seq<char>>(AbcModel::of(abc)),
            Err(e) => swf_read_abc(bytes@) == Err::<AbcModel, Seq<char>>(e@),
        },
        r matches Ok(abc) ==> AbcModel::of(abc).fits_in(bytes@.len()),
{
    swf::avm2::read::Reader::new(bytes).read().map_err(|e| e.to_string())
}

/// The bytes that `swf` writes for an ABC file.
pub uninterp spec fn swf_abc_bytes(abc: AbcModel) -> Seq<u8>;

/// `swf::avm2::write::Writer::write` on a writer into a fresh vector.
///
/// Claimed: the call succeeds, since writing into a vector does and the writer
/// has no error of its own, and the bytes depend on the content of the file
/// alone.
#[verifier::external_body]
pub(crate) fn write_abc(abc: AbcFile) -> (r: Result<Vec<u8>, String>)
    requires
        AbcModel::of(abc).encodable(),
    ensures
        r is Ok,
        r->Ok_0@ == swf_abc_bytes(AbcModel::of(abc)),
{
    let mut bytes = Vec::new();
    let written = swf::avm2::write::Writer::new(&mut bytes).write(abc);
    written.map(|_| bytes).map_err(|e| e.to_string())
}

/// What `swf` reads at the start of `code`: the instruction, or the message of
/// the error that stops it, and the number of bytes taken either way.
pub uninterp spec fn swf_read_op(code: Seq<u8>) -> (Result<OpModel, Seq<char>>, nat);

/// Whether `n` is a 24-bit signed number.
pub open spec fn is_i24(n: int) -> bool {
    -0x80_0000 <= n < 0x80_0000
}

/// The jump offset of an instruction.
pub open spec fn jump_offset(op: Op) -> Option<i32> {
    match op {
        Op::IfEq { offset } => Some(offset),
        Op::IfFalse { offset } => Some(offset),
        Op::IfGe { offset } => Some(offset),
        Op::IfGt { offset } => Some(offset),
        Op::IfLe { offset } => Some(offset),
        Op::IfLt { offset } => Some(offset),
        Op::IfNe { offset } => Some(offset),
        Op::IfNge { offset } => Some(offset),
        Op::IfNgt { offset } => Some(offset),
        Op::IfNle { offset } => Some(offset),
        Op::IfNlt { offset } => Some(offset),
        Op::IfStrictEq { offset } => Some(offset),
        Op::IfStrictNe { offset } => Some(offset),
        Op::IfTrue { offset } => Some(offset),
        Op::Jump { offset } => Some(offset),
        _ => None,
    }
}

/// Whether the operands of an instruction are in the range of their encodings:
/// a jump goes by 24 bits, and a switch has a case.
pub open spec fn op_encodable(op: OpModel) -> bool {
    match op {
        OpModel::Plain(op) => jump_offset(op) matches Some(offset) ==> is_i24(offset as int),
        OpModel::Switch { default_offset, case_offsets } => {
            &&& is_i24(default_offset as int)
            &&& 1 <= case_offsets.len() <= u32::MAX
            &&& forall|i: int|
                0 <= i < case_offsets.len() ==> is_i24(#[trigger] case_offsets[i] as int)
        },
    }
}

/// `swf::avm2::read::Reader::read_op` on a reader over `code`, and what the
/// reader has left.
///
/// Claimed: what comes back and how much is taken depend on `code` alone. An
/// instruction takes at least its opcode, its operands are in range, and it is the
/// same whatever bytes follow those that it takes.
#[verifier::external_body]
pub(crate) fn read_op(code: &[u8]) -> (r: (Result<Op, String>, &[u8]))
    requires
        code@.len() <= u32::MAX,
    ensures
        match r.0 {
            Ok(op) => swf_read_op(code@).0 == Ok::<OpModel, Seq<char>>(OpModel::of(op)),
            Err(e) => swf_read_op(code@).0 == Err::<OpModel, Seq<char>>(e@),
        },
        r.1@.len() + swf_read_op(code@).1 == code@.len(),
        r.1@ == code@.skip(swf_read_op(code@).1 as int),
        r.0 matches Ok(op) ==> r.1@.len() < code@.len() && op_encodable(OpModel::of(op)),
        r.0 matches Ok(op) ==> forall|rest: Seq<u8>| #[trigger]
            swf_read_op(code@.take(swf_read_op(code@).1 as int) + rest) == (
                Ok::<OpModel, Seq<char>>(OpModel::of(op)),
                swf_read_op(code@).1,
            ),
{
    let mut reader = swf::avm2::read::Reader::new(code);
    let op = reader.read_op().map_err(|e| e.to_string());
    (op, swf::extensions::ReadSwfExt::as_slice(&reader))
}

/// The opcode that `swf` writes for an instruction, and the operands.
pub uninterp spec fn swf_op_encoding(op: OpModel) -> (u8, Seq<u8>);

/// A 24-bit signed number, little-endian.
pub open spec fn i24_bytes(n: i32) -> Seq<u8> {
    let bits = n as int % 0x100_0000;
    seq![(bits % 0x100) as u8, (bits / 0x100 % 0x100) as u8, (bits / 0x1_0000) as u8]
}

/// A natural number in groups of seven bits, lowest first, each but the last
/// marked by its high bit.
pub open spec fn u30_bytes(n: nat) -> Seq<u8>
    decreases n,
{
    if n < 0x80 {
        seq![n as u8]
    } else {
        seq![(0x80 + n % 0x80) as u8] + u30_bytes(n / 0x80)
    }
}

/// What follows the opcode of an instruction: the offset of a jump; the default
/// offset of a switch, one less than the number of its cases, and their offsets;
/// for other instructions what `swf` writes.
pub open spec fn operand_bytes(op: OpModel) -> Seq<u8> {
    match op {
        OpModel::Plain(plain) => match jump_offset(plain) {
            Some(offset) => i24_bytes(offset),
            None => swf_op_encoding(op).1,
        },
        OpModel::Switch { default_offset, case_offsets } => i24_bytes(default_offset) + u30_bytes(
            (case_offsets.len() - 1) as nat,
        ) + Seq::new(3 * case_offsets.len(), |i: int| i24_bytes(case_offsets[i / 3])[i % 3]),
    }
}

/// The bytes of an instruction.
pub open spec fn op_bytes(op: OpModel) -> Seq<u8> {
    seq![swf_op_encoding(op).0] + operand_bytes(op)
}

/// `swf::avm2::write::Writer::write_op` on a writer into a vector.
///
/// Claimed: the call succeeds, since writing into a vector does and the writer
/// has no error of its own, and it appends an opcode and operands that depend on
/// the instruction alone. The operands of a jump and of a switch are those of
/// [`operand_bytes`].
#[verifier::external_body]
pub(crate) fn write_op(out: &mut Vec<u8>, op: &Op) -> (r: Result<(), String>)
    requires
        op_encodable(OpModel::of(*op)),
    ensures
        r is Ok,
        final(out)@ == old(out)@ + (seq![swf_op_encoding(OpModel::of(*op)).0] + operand_bytes(
            OpModel::of(*op),
        )),
{
    let written = swf::avm2::write::Writer::new(out).write_op(op);
    written.map_err(|e| e.to_string())
}

/// `Vec::into_boxed_slice` of std.
///
/// Claimed: the slice holds what the vector held.
#[verifier::external_body]
pub(crate) fn boxed_slice(offsets: Vec<i32>) -> (boxed: Box<[i32]>)
    ensures
        boxed@ == offsets@,
{
    offsets.into_boxed_slice()
}

/// The `Clone` that `swf` derives for a trait: the copy has the same content.
pub assume_specification[ <swf::avm2::types::Trait as Clone>::clone ](
    t: &swf::avm2::types::Trait,
) -> (copy: swf::avm2::types::Trait)
    ensures
        TraitModel::of(copy) == TraitModel::of(*t),
;

} // verus!
