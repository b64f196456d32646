//! Replaces the game client's socket read loop.
use std::collections::HashMap;
use swf::avm2::types::{AbcFile, Exception, Index, MethodBody, Multiname, Op, TraitKind};
use vstd::prelude::*;
use crate::abc_model::{
    AbcModel, BodyModel, InstanceModel, MultinameModel, OpModel, PoolModel, TraitModel,
};
use crate::constant_pool::{find_instance, find_string, index_at, multiname_name_idx};
use crate::swf_calls::{read_abc, read_op, write_op};
use crate::text::{decimal, join};
use crate::{constant_pool, text};
use self::relocation::{move_handler, relocate_all};

pub mod code_laws;
pub mod laws;
pub mod name_laws;
pub mod relocation;

verus! {

pub const CLASS_NAME: &'static str = "SmartFoxClient";

pub const METHOD_NAME: &'static str = "handleSocketData";

pub const SNIPPET_CLASS_NAME: &'static str = "HSD";

/// Whether a trait is a method whose name is a `QName` with this string. A
/// trait's name is an index into `multinames`; 0 and an index beyond the pool
/// name nothing.
pub open spec fn is_method_named(
    multinames: Seq<MultinameModel>,
    t: TraitModel,
    name_idx: u32,
) -> bool {
    &&& t.kind is Method
    &&& 1 <= t.name.0 <= multinames.len()
    &&& multinames[t.name.0 - 1].is_qname(name_idx)
}

pub open spec fn method_named(
    multinames: Seq<MultinameModel>,
    name_idx: u32,
) -> spec_fn(TraitModel) -> bool {
    |t: TraitModel| is_method_named(multinames, t, name_idx)
}

/// The method index of an instance method, by the names of its class and of the
/// method. Of several classes or methods with the name the first one counts.
pub open spec fn method_index(abc: AbcModel, class_name: Seq<char>, name: Seq<char>) -> Option<
    u32,
> {
    let pool = abc.constant_pool;
    match pool.string_index(class_name) {
        None => None,
        Some(class_name_idx) => match pool.multiname_index(constant_pool::qname(class_name_idx)) {
            None => None,
            Some(class_idx) => match constant_pool::position(
                abc.instances,
                constant_pool::instance_named(class_idx),
            ) {
                None => None,
                Some(i) => match pool.string_index(name) {
                    None => None,
                    Some(name_idx) => method_trait(
                        abc.instances[i].traits,
                        pool.multinames,
                        name_idx,
                    ),
                },
            },
        },
    }
}

/// The method index of the first of `traits` that is a method with this name.
pub open spec fn method_trait(
    traits: Seq<TraitModel>,
    multinames: Seq<MultinameModel>,
    name_idx: u32,
) -> Option<u32> {
    match constant_pool::position(traits, method_named(multinames, name_idx)) {
        None => None,
        Some(t) => match traits[t].kind {
            TraitKind::Method { method, .. } => Some(method.0),
            _ => None,
        },
    }
}

/// The index of the first `QName` with this name.
fn find_qname(multinames: &[Multiname], name_idx: u32) -> (index: Option<u32>)
    ensures
        index == constant_pool::index_of(
            MultinameModel::all(multinames@),
            constant_pool::qname(name_idx),
        ),
{
    let ghost all = MultinameModel::all(multinames@);
    for i in 0..multinames.len()
        invariant
            all == MultinameModel::all(multinames@),
            forall|j: int| 0 <= j < i ==> !constant_pool::qname(name_idx)(#[trigger] all[j]),
    {
        if is_qname(&multinames[i], name_idx) {
            proof {
                constant_pool::lemma_position_is(all, constant_pool::qname(name_idx), i as int);
            }
            return Some(index_at(i));
        }
    }
    proof {
        constant_pool::lemma_position_none(all, constant_pool::qname(name_idx));
    }
    None
}

fn is_qname(m: &Multiname, name_idx: u32) -> (is: bool)
    ensures
        is == MultinameModel::of(*m).is_qname(name_idx),
{
    match m {
        Multiname::QName { name, .. } => name.0 == name_idx,
        _ => false,
    }
}

/// Finds the method index of an instance method by the names of its class and
/// of the method.
pub fn find_method_index(abc: &AbcFile, class_name: &str, method_name: &str) -> (index: Option<
    usize,
>)
    ensures
        match method_index(AbcModel::of(*abc), class_name@, method_name@) {
            Some(m) => index == Some(m as usize),
            None => index is None,
        },
{
    let pool = &abc.constant_pool;
    let class_name_idx = find_string(pool.strings.as_slice(), class_name)?;
    let class_multiname_idx = find_qname(pool.multinames.as_slice(), class_name_idx)?;
    let pos: usize = find_instance(abc.instances.as_slice(), class_multiname_idx)?;
    let method_name_idx = find_string(pool.strings.as_slice(), method_name)?;

    let instance = &abc.instances[pos];
    let ghost multinames = MultinameModel::all(pool.multinames@);
    let ghost traits = TraitModel::all(instance.traits@);
    assert(InstanceModel::all(abc.instances@)[pos as int] == InstanceModel::of(*instance));
    for i in 0..instance.traits.len()
        invariant
            multinames == MultinameModel::all(pool.multinames@),
            traits == TraitModel::all(instance.traits@),
            method_trait(traits, multinames, method_name_idx) == method_index(
                AbcModel::of(*abc),
                class_name@,
                method_name@,
            ),
            forall|j: int|
                0 <= j < i ==> !method_named(multinames, method_name_idx)(#[trigger] traits[j]),
    {
        let t = &instance.traits[i];
        if let TraitKind::Method { method, .. } = t.kind {
            let name_pos: usize = (t.name.0 as usize).wrapping_sub(1);
            if name_pos < pool.multinames.len() && is_qname(
                &pool.multinames[name_pos],
                method_name_idx,
            ) {
                proof {
                    constant_pool::lemma_position_is(
                        traits,
                        method_named(multinames, method_name_idx),
                        i as int,
                    );
                }
                return Some(method.0 as usize);
            }
        }
    }
    proof {
        constant_pool::lemma_position_none(traits, method_named(multinames, method_name_idx));
    }
    None
}

pub open spec fn in_namespace_set(namespace_set_idx: u32, name_idx: u32) -> spec_fn(
    MultinameModel,
) -> bool {
    |m: MultinameModel|
        m matches MultinameModel::Multiname { namespace_set, name } && namespace_set.0
            == namespace_set_idx && name.0 == name_idx
}

pub open spec fn in_any_namespace_set(name_idx: u32) -> spec_fn(MultinameModel) -> bool {
    |m: MultinameModel|
        m matches MultinameModel::Multiname { name, .. } && name.0 == name_idx
}

/// The namespace set in which the target looks up `socketConnection`, or the
/// message that says why there is none.
pub open spec fn own_namespace_set(pool: PoolModel) -> Result<u32, Seq<char>> {
    match pool.string_index("socketConnection"@) {
        None => Err("target ABC has no \"socketConnection\" string"@),
        Some(name_idx) => match constant_pool::position(
            pool.multinames,
            in_any_namespace_set(name_idx),
        ) {
            None => Err(
                "target ABC has no \"socketConnection\" multiname to derive the class namespace set from"@,
            ),
            Some(i) => match pool.multinames[i] {
                MultinameModel::Multiname { namespace_set, .. } => Ok(namespace_set.0),
                _ => Err(Seq::empty()),
            },
        },
    }
}

/// The namespace set of the target class's own scope.
///
/// `socketConnection` is always referenced from within `SmartFoxClient` itself,
/// so whatever namespace set it resolves through is the one that every other
/// symbol needs too.
pub fn class_namespace_set(target: &AbcFile) -> (r: Result<u32, String>)
    ensures
        match own_namespace_set(PoolModel::of(target.constant_pool)) {
            Ok(set) => r matches Ok(s) && s == set,
            Err(message) => r matches Err(e) && e@ == message,
        },
{
    let pool = &target.constant_pool;
    let str_idx = match find_string(pool.strings.as_slice(), "socketConnection") {
        Some(index) => index,
        None => {
            return Err("target ABC has no \"socketConnection\" string".to_owned());
        },
    };
    let ghost all = MultinameModel::all(pool.multinames@);
    for i in 0..pool.multinames.len()
        invariant
            all == MultinameModel::all(pool.multinames@),
            all == PoolModel::of(target.constant_pool).multinames,
            PoolModel::of(target.constant_pool).string_index("socketConnection"@) == Some(str_idx),
            forall|j: int| 0 <= j < i ==> !in_any_namespace_set(str_idx)(#[trigger] all[j]),
    {
        if let Multiname::Multiname { namespace_set, name } = &pool.multinames[i] {
            if name.0 == str_idx {
                proof {
                    constant_pool::lemma_position_is(all, in_any_namespace_set(str_idx), i as int);
                }
                return Ok(namespace_set.0);
            }
        }
    }
    proof {
        constant_pool::lemma_position_none(all, in_any_namespace_set(str_idx));
    }
    Err(
        "target ABC has no \"socketConnection\" multiname to derive the class namespace set from".to_owned(),
    )
}

/// A multiname in a namespace set.
pub open spec fn multiname_in(namespace_set: u32, name: u32) -> MultinameModel {
    MultinameModel::Multiname {
        namespace_set: Index(namespace_set, core::marker::PhantomData),
        name: Index(name, core::marker::PhantomData),
    }
}

/// The pool in which `symbol` has a multiname, and the index of that multiname.
///
/// A multiname under the class's own namespace set is preferred, then any one
/// with the name. Where there is neither, one is appended, and the string before
/// it where the pool lacks that too.
pub open spec fn resolved(pool: PoolModel, symbol: Seq<char>, namespace_set: u32) -> (
    PoolModel,
    u32,
) {
    match pool.string_index(symbol) {
        Some(name_idx) => match pool.multiname_index(in_namespace_set(namespace_set, name_idx)) {
            Some(index) => (pool, index),
            None => match pool.multiname_index(constant_pool::named(name_idx)) {
                Some(index) => (pool, index),
                None => (
                    PoolModel {
                        multinames: pool.multinames.push(multiname_in(namespace_set, name_idx)),
                        ..pool
                    },
                    constant_pool::pool_index(pool.multinames.len() as int),
                ),
            },
        },
        None => {
            let name_idx = constant_pool::pool_index(pool.strings.len() as int);
            (
                PoolModel {
                    strings: pool.strings.push(vstd::utf8::encode_utf8(symbol)),
                    multinames: pool.multinames.push(multiname_in(namespace_set, name_idx)),
                    ..pool
                },
                constant_pool::pool_index(pool.multinames.len() as int),
            )
        },
    }
}

fn find_in_namespace_set(multinames: &[Multiname], set_idx: u32, name_idx: u32) -> (index: Option<
    u32,
>)
    ensures
        index == constant_pool::index_of(
            MultinameModel::all(multinames@),
            in_namespace_set(set_idx, name_idx),
        ),
{
    let ghost all = MultinameModel::all(multinames@);
    for i in 0..multinames.len()
        invariant
            all == MultinameModel::all(multinames@),
            forall|j: int| 0 <= j < i ==> !in_namespace_set(set_idx, name_idx)(#[trigger] all[j]),
    {
        if let Multiname::Multiname { namespace_set, name } = &multinames[i] {
            if namespace_set.0 == set_idx && name.0 == name_idx {
                proof {
                    constant_pool::lemma_position_is(
                        all,
                        in_namespace_set(set_idx, name_idx),
                        i as int,
                    );
                }
                return Some(index_at(i));
            }
        }
    }
    proof {
        constant_pool::lemma_position_none(all, in_namespace_set(set_idx, name_idx));
    }
    None
}

fn find_named(multinames: &[Multiname], name_idx: u32) -> (index: Option<u32>)
    ensures
        index == constant_pool::index_of(
            MultinameModel::all(multinames@),
            constant_pool::named(name_idx),
        ),
{
    let ghost all = MultinameModel::all(multinames@);
    for i in 0..multinames.len()
        invariant
            all == MultinameModel::all(multinames@),
            forall|j: int| 0 <= j < i ==> !constant_pool::named(name_idx)(#[trigger] all[j]),
    {
        let found = match multiname_name_idx(&multinames[i]) {
            Some(idx) => idx == name_idx,
            None => false,
        };
        if found {
            proof {
                constant_pool::lemma_position_is(all, constant_pool::named(name_idx), i as int);
            }
            return Some(index_at(i));
        }
    }
    proof {
        constant_pool::lemma_position_none(all, constant_pool::named(name_idx));
    }
    None
}

/// Finds an existing target multiname referencing `symbol` under the target
/// class's own namespace set, or any one, or appends a new one (and a new
/// string, if `symbol` isn't in the pool yet either) that reuses that same
/// namespace set. Appending is always safe here: these are additions to the
/// *end* of each pool array, so no existing index anywhere else in the ABC
/// shifts.
pub fn find_or_append_target_multiname(
    target: &mut AbcFile,
    symbol: &str,
    class_namespace_set: u32,
) -> (r: Result<u32, String>)
    ensures
        r == Ok::<u32, String>(
            resolved(PoolModel::of(old(target).constant_pool), symbol@, class_namespace_set).1,
        ),
        AbcModel::of(*final(target)) == AbcModel::of(*old(target)).with_pool(
            resolved(PoolModel::of(old(target).constant_pool), symbol@, class_namespace_set).0,
        ),
{
    let ghost before = PoolModel::of(target.constant_pool);
    let name_idx = match find_string(target.constant_pool.strings.as_slice(), symbol) {
        Some(str_idx) => {
            // Prefer an existing multiname under the class's own namespace set,
            // otherwise any existing multiname for this name at all.
            let own = find_in_namespace_set(
                target.constant_pool.multinames.as_slice(),
                class_namespace_set,
                str_idx,
            );
            if let Some(index) = own {
                return Ok(index);
            }
            if let Some(index) = find_named(target.constant_pool.multinames.as_slice(), str_idx) {
                return Ok(index);
            }
            str_idx
        },
        None => {
            let str_idx = index_at(target.constant_pool.strings.len());
            let bytes = vstd::slice::slice_to_vec(symbol.as_bytes());
            target.constant_pool.strings.push(bytes);
            str_idx
        },
    };
    let index = index_at(target.constant_pool.multinames.len());
    target.constant_pool.multinames.push(
        Multiname::Multiname {
            namespace_set: Index(class_namespace_set, core::marker::PhantomData),
            name: Index(name_idx, core::marker::PhantomData),
        },
    );
    proof {
        let after = PoolModel::of(target.constant_pool);
        let expected = resolved(before, symbol@, class_namespace_set).0;
        assert(after.strings =~= expected.strings);
        assert(after.multinames =~= expected.multinames);
    }
    Ok(index)
}

/// Maps every multiname/string the snippet's `handleSocketData` body references
/// to an equivalent entry in the target ABC, either an existing one (found by
/// name) or a freshly appended one.
pub struct OverrideTable {
    /// snippet multiname index -> target multiname index
    pub multinames: HashMap<u32, u32>,
    /// snippet string index -> target string index (only `PushString`)
    pub strings: HashMap<u32, u32>,
}

/// An [`OverrideTable`] as two finite maps.
pub struct TableModel {
    pub multinames: Map<u32, u32>,
    pub strings: Map<u32, u32>,
}

impl View for OverrideTable {
    type V = TableModel;

    open spec fn view(&self) -> TableModel {
        TableModel { multinames: self.multinames@, strings: self.strings@ }
    }
}

/// The multiname that an instruction refers to, for the kinds of instruction
/// whose multiname is overridden.
pub open spec fn multiname_operand(op: Op) -> Option<u32> {
    match op {
        Op::FindPropStrict { index } => Some(index.0),
        Op::ConstructProp { index, .. } => Some(index.0),
        Op::Coerce { index } => Some(index.0),
        Op::GetProperty { index } => Some(index.0),
        Op::CallProperty { index, .. } => Some(index.0),
        Op::CallPropVoid { index, .. } => Some(index.0),
        _ => None,
    }
}

/// The instruction with another multiname in place of its own.
pub open spec fn with_multiname(op: Op, multiname_idx: u32) -> Op {
    let index = Index(multiname_idx, core::marker::PhantomData);
    match op {
        Op::FindPropStrict { .. } => Op::FindPropStrict { index },
        Op::ConstructProp { num_args, .. } => Op::ConstructProp { index, num_args },
        Op::Coerce { .. } => Op::Coerce { index },
        Op::GetProperty { .. } => Op::GetProperty { index },
        Op::CallProperty { num_args, .. } => Op::CallProperty { index, num_args },
        Op::CallPropVoid { num_args, .. } => Op::CallPropVoid { index, num_args },
        _ => op,
    }
}

/// The instruction with its multiname or string replaced as the table says, or
/// the message that names the index without an override. An instruction without
/// such an operand stays as it is.
pub open spec fn remapped(table: TableModel, op: OpModel) -> Result<OpModel, Seq<char>> {
    match op {
        OpModel::Switch { .. } => Ok(op),
        OpModel::Plain(plain) => match multiname_operand(plain) {
            Some(index) => if table.multinames.contains_key(index) {
                Ok(OpModel::Plain(with_multiname(plain, table.multinames[index])))
            } else {
                Err("no override for multiname index "@ + text::nat_text(index as nat))
            },
            None => match plain {
                Op::PushString { value } => if table.strings.contains_key(value.0) {
                    Ok(
                        OpModel::Plain(
                            Op::PushString {
                                value: Index(table.strings[value.0], core::marker::PhantomData),
                            },
                        ),
                    )
                } else {
                    Err("no override for string index "@ + text::nat_text(value.0 as nat))
                },
                _ => Ok(op),
            },
        },
    }
}

/// All instructions remapped, or the message of the first that is not.
pub open spec fn remapped_all(table: TableModel, ops: Seq<OpModel>) -> Result<
    Seq<OpModel>,
    Seq<char>,
>
    decreases ops.len(),
{
    if ops.len() == 0 {
        Ok(Seq::empty())
    } else {
        match remapped_all(table, ops.drop_last()) {
            Err(message) => Err(message),
            Ok(earlier) => match remapped(table, ops.last()) {
                Err(message) => Err(message),
                Ok(op) => Ok(earlier.push(op)),
            },
        }
    }
}

fn operand_of(op: &Op) -> (index: Option<u32>)
    ensures
        index == multiname_operand(*op),
{
    match op {
        Op::FindPropStrict { index }
        | Op::ConstructProp { index, .. }
        | Op::Coerce { index }
        | Op::GetProperty { index }
        | Op::CallProperty { index, .. }
        | Op::CallPropVoid { index, .. } => Some(index.0),
        _ => None,
    }
}

impl OverrideTable {
    /// Replaces the multiname or string that `op` refers to.
    pub fn remap_op(&self, op: &mut Op) -> (r: Result<(), String>)
        ensures
            match remapped(self@, OpModel::of(*old(op))) {
                Ok(new_op) => r is Ok && OpModel::of(*final(op)) == new_op,
                Err(message) => r matches Err(e) && e@ == message && *final(op) == *old(op),
            },
    {
        broadcast use vstd::std_specs::hash::group_hash_axioms;

        if let Some(index) = operand_of(op) {
            let new_idx = match self.multinames.get(&index) {
                Some(new_idx) => *new_idx,
                None => {
                    return Err(
                        join("no override for multiname index ", decimal(index as u64).as_str()),
                    );
                },
            };
            let index = Index(new_idx, core::marker::PhantomData);
            match op {
                Op::FindPropStrict { .. } => {
                    *op = Op::FindPropStrict { index };
                },
                Op::ConstructProp { num_args, .. } => {
                    let num_args = *num_args;
                    *op = Op::ConstructProp { index, num_args };
                },
                Op::Coerce { .. } => {
                    *op = Op::Coerce { index };
                },
                Op::GetProperty { .. } => {
                    *op = Op::GetProperty { index };
                },
                Op::CallProperty { num_args, .. } => {
                    let num_args = *num_args;
                    *op = Op::CallProperty { index, num_args };
                },
                Op::CallPropVoid { num_args, .. } => {
                    let num_args = *num_args;
                    *op = Op::CallPropVoid { index, num_args };
                },
                _ => {},
            }
            return Ok(());
        }
        if let Op::PushString { value } = op {
            let str_idx = value.0;
            let new_idx = match self.strings.get(&str_idx) {
                Some(new_idx) => *new_idx,
                None => {
                    return Err(
                        join("no override for string index ", decimal(str_idx as u64).as_str()),
                    );
                },
            };
            *op = Op::PushString { value: Index(new_idx, core::marker::PhantomData) };
        }
        Ok(())
    }
}

/// The instructions that `code` holds from `pos` on, or the message that says
/// where there is none: the offset that the reader had come to, and why it
/// stopped.
pub open spec fn disassembled_from(code: Seq<u8>, pos: int) -> Result<Seq<OpModel>, Seq<char>>
    decreases code.len() - pos,
{
    if !(0 <= pos < code.len()) {
        Ok(Seq::empty())
    } else {
        let (op, taken) = crate::swf_calls::swf_read_op(code.skip(pos));
        match op {
            Err(e) => Err(
                "bad opcode at byte "@ + text::nat_text((pos + taken) as nat) + ": "@ + e,
            ),
            Ok(op) => if !(0 < taken <= code.len() - pos) {
                Ok(Seq::empty())
            } else {
                match disassembled_from(code, pos + taken) {
                    Err(message) => Err(message),
                    Ok(ops) => Ok(seq![op] + ops),
                }
            },
        }
    }
}

/// Where the instructions that `code` holds from `pos` on start, and where the last
/// of them ends.
pub open spec fn boundaries_from(code: Seq<u8>, pos: int) -> Seq<int>
    decreases code.len() - pos,
{
    if !(0 <= pos < code.len()) {
        seq![pos]
    } else {
        let (op, taken) = crate::swf_calls::swf_read_op(code.skip(pos));
        if op is Ok && 0 < taken <= code.len() - pos {
            seq![pos] + boundaries_from(code, pos + taken)
        } else {
            seq![pos]
        }
    }
}

/// Whether reading `code` and what follows gives the instructions of `code` and then
/// those of what follows, and fails where what follows cannot be read.
pub open spec fn is_read_the_same_before(code: Seq<u8>, rest: Seq<u8>) -> bool {
    match (disassembled_from(code, 0), disassembled_from(rest, 0)) {
        (Ok(ops), Ok(later)) => disassembled_from(code + rest, 0) == Ok::<
            Seq<OpModel>,
            Seq<char>,
        >(ops + later),
        (Ok(_), Err(_)) => disassembled_from(code + rest, 0) is Err,
        (Err(_), _) => true,
    }
}

/// Offsets as mathematical integers.
pub open spec fn offsets(v: Seq<usize>) -> Seq<int> {
    v.map_values(|n: usize| n as int)
}

/// Shifting what is read by a prefix shifts nothing but the offsets in a message.
proof fn lemma_read_behind_prefix(prefix: Seq<u8>, code: Seq<u8>, pos: int)
    requires
        0 <= pos <= code.len(),
    ensures
        match disassembled_from(code, pos) {
            Ok(ops) => disassembled_from(prefix + code, prefix.len() + pos) == Ok::<
                Seq<OpModel>,
                Seq<char>,
            >(ops),
            Err(_) => disassembled_from(prefix + code, prefix.len() + pos) is Err,
        },
    decreases code.len() - pos,
{
    if pos < code.len() {
        let whole = prefix + code;
        assert(whole.skip(prefix.len() + pos) =~= code.skip(pos));
        let (op, taken) = crate::swf_calls::swf_read_op(code.skip(pos));
        if op is Ok && 0 < taken <= code.len() - pos {
            lemma_read_behind_prefix(prefix, code, pos + taken as int);
        }
    }
}

/// Reads the bytecode of a method as instructions, and where each of them starts.
/// The last of these offsets is the end of the code.
fn disassemble_with_starts(code: &[u8]) -> (r: Result<(Vec<Op>, Vec<usize>), String>)
    requires
        code@.len() <= u32::MAX,
    ensures
        match disassembled_from(code@, 0) {
            Ok(ops) => {
                &&& r matches Ok((v, starts))
                &&& OpModel::all(v@) == ops
                &&& offsets(starts@) == boundaries_from(code@, 0)
                &&& starts@.len() == v@.len() + 1
            },
            Err(message) => r matches Err(e) && e@ == message,
        },
        r matches Ok((v, starts)) ==> forall|i: int|
            0 <= i < v@.len() ==> crate::swf_calls::op_encodable(OpModel::of(#[trigger] v@[i])),
        forall|rest: Seq<u8>| #[trigger] is_read_the_same_before(code@, rest),
{
    let mut ops: Vec<Op> = Vec::new();
    let mut starts: Vec<usize> = Vec::new();
    let mut rest: &[u8] = code;
    while rest.len() > 0
        invariant
            code@.len() <= u32::MAX,
            rest@.len() <= code@.len(),
            rest@ == code@.skip(code@.len() - rest@.len()),
            starts@.len() == ops@.len(),
            boundaries_from(code@, 0) == offsets(starts@) + boundaries_from(
                code@,
                code@.len() - rest@.len(),
            ),
            match disassembled_from(code@, code@.len() - rest@.len()) {
                Ok(later) => disassembled_from(code@, 0) == Ok::<Seq<OpModel>, Seq<char>>(
                    OpModel::all(ops@) + later,
                ),
                Err(message) => disassembled_from(code@, 0) == Err::<Seq<OpModel>, Seq<char>>(
                    message,
                ),
            },
            forall|i: int|
                0 <= i < ops@.len() ==> crate::swf_calls::op_encodable(
                    OpModel::of(#[trigger] ops@[i]),
                ),
            forall|tail: Seq<u8>|
                #![trigger disassembled_from(code@ + tail, 0)]
                match disassembled_from(code@ + tail, code@.len() - rest@.len()) {
                    Ok(later) => disassembled_from(code@ + tail, 0) == Ok::<
                        Seq<OpModel>,
                        Seq<char>,
                    >(OpModel::all(ops@) + later),
                    Err(_) => disassembled_from(code@ + tail, 0) is Err,
                },
        decreases rest@.len(),
    {
        let (op, left) = read_op(rest);
        match op {
            Ok(op) => {
                let ghost before = ops@;
                let ghost before_starts = starts@;
                let ghost pos = code@.len() - rest@.len();
                let ghost taken = crate::swf_calls::swf_read_op(rest@).1;
                let ghost model = OpModel::of(op);
                starts.push(code.len() - rest.len());
                ops.push(op);
                proof {
                    assert(OpModel::all(ops@) =~= OpModel::all(before).push(model));
                    assert(offsets(starts@) =~= offsets(before_starts).push(pos));
                    assert(offsets(before_starts) + (seq![pos] + boundaries_from(
                        code@,
                        pos + taken as int,
                    )) =~= offsets(starts@) + boundaries_from(code@, pos + taken as int));
                    match disassembled_from(code@, pos + taken as int) {
                        Ok(later) => {
                            assert(OpModel::all(before) + (seq![model] + later) =~= OpModel::all(
                                ops@,
                            ) + later);
                        },
                        Err(_) => {},
                    }
                    assert forall|tail: Seq<u8>|
                        #![trigger disassembled_from(code@ + tail, 0)]
                        match disassembled_from(code@ + tail, pos + taken as int) {
                            Ok(later) => disassembled_from(code@ + tail, 0) == Ok::<
                                Seq<OpModel>,
                                Seq<char>,
                            >(OpModel::all(ops@) + later),
                            Err(_) => disassembled_from(code@ + tail, 0) is Err,
                        } by {
                        let whole = code@ + tail;
                        assert(whole.skip(pos) =~= rest@.take(taken as int) + (rest@.skip(
                            taken as int,
                        ) + tail));
                        match disassembled_from(whole, pos + taken as int) {
                            Ok(later) => {
                                assert(OpModel::all(before) + (seq![model] + later)
                                    =~= OpModel::all(ops@) + later);
                            },
                            Err(_) => {},
                        }
                    }
                }
                rest = left;
            },
            Err(e) => {
                let mut message = join(
                    "bad opcode at byte ",
                    decimal((code.len() - left.len()) as u64).as_str(),
                );
                message.append(": ");
                message.append(e.as_str());
                return Err(message);
            },
        }
    }
    let ghost before_starts = starts@;
    starts.push(code.len());
    proof {
        assert(OpModel::all(ops@) + Seq::<OpModel>::empty() =~= OpModel::all(ops@));
        assert(offsets(starts@) =~= offsets(before_starts) + seq![code@.len() as int]);
        assert forall|tail: Seq<u8>| #[trigger] is_read_the_same_before(code@, tail) by {
            lemma_read_behind_prefix(code@, tail, 0);
        }
    }
    Ok((ops, starts))
}

/// Reads the bytecode of a method as instructions.
pub fn disassemble(code: &[u8]) -> (r: Result<Vec<Op>, String>)
    requires
        code@.len() <= u32::MAX,
    ensures
        match disassembled_from(code@, 0) {
            Ok(ops) => r matches Ok(v) && OpModel::all(v@) == ops,
            Err(message) => r matches Err(e) && e@ == message,
        },
        r matches Ok(v) ==> forall|i: int|
            0 <= i < v@.len() ==> crate::swf_calls::op_encodable(OpModel::of(#[trigger] v@[i])),
        forall|rest: Seq<u8>| #[trigger] is_read_the_same_before(code@, rest),
{
    match disassemble_with_starts(code) {
        Ok((ops, _)) => Ok(ops),
        Err(e) => Err(e),
    }
}

/// The bytes of the instructions, one after the other.
pub open spec fn assembled(ops: Seq<OpModel>) -> Seq<u8>
    decreases ops.len(),
{
    if ops.len() == 0 {
        Seq::empty()
    } else {
        assembled(ops.drop_last()) + crate::swf_calls::op_bytes(ops.last())
    }
}

/// Where the `i`th instruction starts in the bytes of `ops`; the number of
/// instructions stands for the end.
pub open spec fn start_of(ops: Seq<OpModel>, i: int) -> int {
    assembled(ops.take(i)).len() as int
}

/// Where each of the instructions starts, and the end.
pub open spec fn starts_of(ops: Seq<OpModel>) -> Seq<int> {
    Seq::new(ops.len() + 1, |i: int| start_of(ops, i))
}

/// Writes instructions as the bytecode of a method, and where each of them starts.
fn reassemble_with_starts(ops: &[Op]) -> (r: Result<(Vec<u8>, Vec<usize>), String>)
    requires
        forall|i: int|
            0 <= i < ops@.len() ==> crate::swf_calls::op_encodable(OpModel::of(#[trigger] ops@[i])),
    ensures
        r matches Ok((code, starts)) && code@ == assembled(OpModel::all(ops@)) && offsets(starts@)
            == starts_of(OpModel::all(ops@)),
{
    let ghost all = OpModel::all(ops@);
    let mut out: Vec<u8> = Vec::new();
    let mut starts: Vec<usize> = Vec::new();
    for i in 0..ops.len()
        invariant
            all == OpModel::all(ops@),
            forall|i: int|
                0 <= i < ops@.len() ==> crate::swf_calls::op_encodable(
                    OpModel::of(#[trigger] ops@[i]),
                ),
            out@ == assembled(all.take(i as int)),
            starts@.len() == i,
            forall|j: int| 0 <= j < i ==> #[trigger] starts@[j] == start_of(all, j),
    {
        starts.push(out.len());
        if let Err(e) = write_op(&mut out, &ops[i]) {
            return Err(join("failed to write op: ", e.as_str()));
        }
        assert(all.take(i + 1).drop_last() =~= all.take(i as int));
    }
    starts.push(out.len());
    assert(all.take(all.len() as int) =~= all);
    assert(offsets(starts@) =~= starts_of(all));
    Ok((out, starts))
}

/// Writes instructions as the bytecode of a method.
pub fn reassemble(ops: &[Op]) -> (r: Result<Vec<u8>, String>)
    requires
        forall|i: int|
            0 <= i < ops@.len() ==> crate::swf_calls::op_encodable(OpModel::of(#[trigger] ops@[i])),
    ensures
        r matches Ok(code) && code@ == assembled(OpModel::all(ops@)),
{
    match reassemble_with_starts(ops) {
        Ok((code, _)) => Ok(code),
        Err(e) => Err(e),
    }
}

/// The names that the snippet's `handleSocketData` refers to.
pub open spec fn symbols() -> Seq<Seq<char>> {
    seq![
        "ByteArray"@,
        "socketConnection"@,
        "bytesAvailable"@,
        "readBytes"@,
        "length"@,
        "byteBuffer"@,
        "writeBytes"@,
        "toString"@,
        "clear"@,
        "handleMessage"@,
        "message"@,
        "debugMessage"@,
        "int"@,
    ]
}

/// Whether `index` is that of a multiname with this name. There may be more than
/// one, such as one for the declaration of a trait and one for a call of it.
pub open spec fn is_index_of_named(
    multinames: Seq<MultinameModel>,
    name_idx: u32,
    index: u32,
) -> bool {
    exists|i: int|
        0 <= i < multinames.len() && constant_pool::pool_index(i) == index && (
        #[trigger] multinames[i]).name_index() == Some(name_idx)
}

/// The target pool and the multiname overrides with one more symbol resolved. A
/// symbol for which the snippet has no multiname is passed over.
pub open spec fn with_symbol(
    state: (PoolModel, Map<u32, u32>),
    snippet: PoolModel,
    namespace_set: u32,
    symbol: Seq<char>,
) -> (PoolModel, Map<u32, u32>) {
    match snippet.string_index(symbol) {
        None => state,
        Some(name_idx) => if snippet.multiname_index(constant_pool::named(name_idx)) is None {
            state
        } else {
            let (pool, target_idx) = resolved(state.0, symbol, namespace_set);
            (
                pool,
                state.1.union_prefer_right(
                    Map::new(
                        |k: u32| is_index_of_named(snippet.multinames, name_idx, k),
                        |k: u32| target_idx,
                    ),
                ),
            )
        },
    }
}

/// The target pool and the multiname overrides with these symbols resolved, in
/// order.
pub open spec fn with_symbols(
    target: PoolModel,
    snippet: PoolModel,
    namespace_set: u32,
    symbols: Seq<Seq<char>>,
) -> (PoolModel, Map<u32, u32>)
    decreases symbols.len(),
{
    if symbols.len() == 0 {
        (target, Map::empty())
    } else {
        with_symbol(
            with_symbols(target, snippet, namespace_set, symbols.drop_last()),
            snippet,
            namespace_set,
            symbols.last(),
        )
    }
}

pub open spec fn late_bound() -> spec_fn(MultinameModel) -> bool {
    |m: MultinameModel| m is MultinameL
}

/// The multiname overrides with that of the dynamic byte index, a `MultinameL`.
pub open spec fn with_byte_index(
    overrides: Map<u32, u32>,
    target: PoolModel,
    snippet: PoolModel,
) -> Result<Map<u32, u32>, Seq<char>> {
    match snippet.multiname_index(late_bound()) {
        None => Ok(overrides),
        Some(snippet_idx) => match target.multiname_index(late_bound()) {
            None => Err("target ABC has no MultinameL to reuse for dynamic byte indexing"@),
            Some(target_idx) => Ok(overrides.insert(snippet_idx, target_idx)),
        },
    }
}

/// The string overrides: that of the error-log literal.
pub open spec fn literal_override(target: PoolModel, snippet: PoolModel) -> Result<
    Map<u32, u32>,
    Seq<char>,
> {
    match snippet.string_index("handleMessage error: "@) {
        None => Ok(Map::empty()),
        Some(snippet_idx) => match target.string_index("handleMessage error: "@) {
            None => Err("target ABC is missing the \"handleMessage error: \" string"@),
            Some(target_idx) => Ok(Map::empty().insert(snippet_idx, target_idx)),
        },
    }
}

/// The target pool that [`OverrideTable::build`] leaves, and the table or the
/// message that it returns. What was appended before an error stays.
pub open spec fn built(target: PoolModel, snippet: PoolModel) -> (
    PoolModel,
    Result<TableModel, Seq<char>>,
) {
    match own_namespace_set(target) {
        Err(message) => (target, Err(message)),
        Ok(namespace_set) => {
            let (pool, overrides) = with_symbols(target, snippet, namespace_set, symbols());
            match with_byte_index(overrides, pool, snippet) {
                Err(message) => (pool, Err(message)),
                Ok(multinames) => match literal_override(pool, snippet) {
                    Err(message) => (pool, Err(message)),
                    Ok(strings) => (pool, Ok(TableModel { multinames, strings })),
                },
            }
        },
    }
}

/// The indexes of all multinames with this name, in order.
fn indexes_of_named(multinames: &[Multiname], name_idx: u32) -> (indexes: Vec<u32>)
    ensures
        forall|k: u32| #[trigger]
            indexes@.contains(k) <==> is_index_of_named(
                MultinameModel::all(multinames@),
                name_idx,
                k,
            ),
        indexes@.len() == 0 <==> constant_pool::index_of(
            MultinameModel::all(multinames@),
            constant_pool::named(name_idx),
        ) is None,
{
    let ghost all = MultinameModel::all(multinames@);
    let mut indexes: Vec<u32> = Vec::new();
    for i in 0..multinames.len()
        invariant
            all == MultinameModel::all(multinames@),
            forall|k: u32| #[trigger]
                indexes@.contains(k) <==> is_index_of_named(all.take(i as int), name_idx, k),
    {
        let found = match multiname_name_idx(&multinames[i]) {
            Some(idx) => idx == name_idx,
            None => false,
        };
        let ghost before = indexes@;
        let ghost seen = all.take(i as int);
        let ghost now = all.take(i + 1);
        if found {
            indexes.push(index_at(i));
        }
        assert forall|k: u32| #[trigger]
            indexes@.contains(k) <==> is_index_of_named(now, name_idx, k) by {
            if is_index_of_named(seen, name_idx, k) {
                let j = choose|j: int|
                    0 <= j < seen.len() && constant_pool::pool_index(j) == k && (
                    #[trigger] seen[j]).name_index() == Some(name_idx);
                assert(now[j] == seen[j]);
            }
            if is_index_of_named(now, name_idx, k) {
                let j = choose|j: int|
                    0 <= j < now.len() && constant_pool::pool_index(j) == k && (
                    #[trigger] now[j]).name_index() == Some(name_idx);
                if j < i {
                    assert(seen[j] == now[j]);
                }
            }
            assert(now[i as int] == all[i as int]);
            assert(before.contains(k) ==> indexes@.contains(k)) by {
                if before.contains(k) {
                    let p = choose|p: int| 0 <= p < before.len() && before[p] == k;
                    assert(indexes@[p] == k);
                }
            }
            if found {
                assert(indexes@[before.len() as int] == constant_pool::pool_index(i as int));
                assert(now[i as int].name_index() == Some(name_idx));
            }
            if indexes@.contains(k) && !before.contains(k) {
                let p = choose|p: int| 0 <= p < indexes@.len() && indexes@[p] == k;
                if p < before.len() {
                    assert(before[p] == k);
                }
            }
        }
    }
    proof {
        assert(all.take(all.len() as int) =~= all);
        constant_pool::lemma_position(all, constant_pool::named(name_idx));
        match constant_pool::position(all, constant_pool::named(name_idx)) {
            Some(i) => {
                assert(is_index_of_named(all, name_idx, constant_pool::pool_index(i)));
                assert(indexes@.contains(constant_pool::pool_index(i)));
            },
            None => {
                if indexes@.len() > 0 {
                    assert(indexes@.contains(indexes@[0]));
                    let j = choose|j: int|
                        0 <= j < all.len() && constant_pool::pool_index(j) == indexes@[0] && (
                        #[trigger] all[j]).name_index() == Some(name_idx);
                    assert(!constant_pool::named(name_idx)(all[j]));
                }
            },
        }
    }
    indexes
}

fn find_late_bound(multinames: &[Multiname]) -> (index: Option<u32>)
    ensures
        index == constant_pool::index_of(MultinameModel::all(multinames@), late_bound()),
{
    let ghost all = MultinameModel::all(multinames@);
    for i in 0..multinames.len()
        invariant
            all == MultinameModel::all(multinames@),
            forall|j: int| 0 <= j < i ==> !late_bound()(#[trigger] all[j]),
    {
        let found = match &multinames[i] {
            Multiname::MultinameL { .. } => true,
            _ => false,
        };
        if found {
            proof {
                constant_pool::lemma_position_is(all, late_bound(), i as int);
            }
            return Some(index_at(i));
        }
    }
    proof {
        constant_pool::lemma_position_none(all, late_bound());
    }
    None
}

/// Resolves one symbol in the target and records the overrides for it.
fn add_symbol(
    target: &mut AbcFile,
    snippet: &AbcFile,
    namespace_set: u32,
    symbol: &str,
    overrides: &mut HashMap<u32, u32>,
) -> (r: Result<(), String>)
    ensures
        r is Ok,
        ({
            let after = with_symbol(
                (PoolModel::of(old(target).constant_pool), old(overrides)@),
                PoolModel::of(snippet.constant_pool),
                namespace_set,
                symbol@,
            );
            &&& AbcModel::of(*final(target)) == AbcModel::of(*old(target)).with_pool(after.0)
            &&& final(overrides)@ == after.1
        }),
{
    broadcast use vstd::std_specs::hash::group_hash_axioms;

    let ghost before = overrides@;
    let str_idx = match find_string(snippet.constant_pool.strings.as_slice(), symbol) {
        Some(index) => index,
        None => {
            return Ok(());
        },
    };
    let indexes = indexes_of_named(snippet.constant_pool.multinames.as_slice(), str_idx);
    if indexes.len() == 0 {
        return Ok(());
    }
    let target_idx = find_or_append_target_multiname(target, symbol, namespace_set)?;
    for i in 0..indexes.len()
        invariant
            forall|k: u32| #[trigger]
                overrides@.contains_key(k) <==> before.contains_key(k) || indexes@.take(
                    i as int,
                ).contains(k),
            forall|k: u32| #[trigger]
                overrides@.contains_key(k) ==> overrides@[k] == if indexes@.take(
                    i as int,
                ).contains(k) {
                    target_idx
                } else {
                    before[k]
                },
    {
        broadcast use vstd::std_specs::hash::group_hash_axioms;

        proof {
            let seen = indexes@.take(i as int);
            let now = indexes@.take(i + 1);
            assert(now =~= seen.push(indexes@[i as int]));
            assert forall|k: u32| now.contains(k) <==> seen.contains(k) || k
                == indexes@[i as int] by {
                if seen.contains(k) {
                    let p = choose|p: int| 0 <= p < seen.len() && seen[p] == k;
                    assert(now[p] == k);
                }
                assert(now[i as int] == indexes@[i as int]);
            }
        }
        overrides.insert(indexes[i], target_idx);
    }
    assert(indexes@.take(indexes@.len() as int) =~= indexes@);
    assert(overrides@ =~= with_symbol(
        (PoolModel::of(old(target).constant_pool), before),
        PoolModel::of(snippet.constant_pool),
        namespace_set,
        symbol@,
    ).1);
    Ok(())
}

impl OverrideTable {
    /// Resolves each symbol that the snippet uses, by name, so that nothing here
    /// depends on how the snippet's own pool is numbered.
    pub fn build(target: &mut AbcFile, snippet: &AbcFile) -> (r: Result<OverrideTable, String>)
        ensures
            ({
                let (pool, table) = built(
                    PoolModel::of(old(target).constant_pool),
                    PoolModel::of(snippet.constant_pool),
                );
                &&& AbcModel::of(*final(target)) == AbcModel::of(*old(target)).with_pool(pool)
                &&& match table {
                    Ok(model) => r matches Ok(t) && t@ == model,
                    Err(message) => r matches Err(e) && e@ == message,
                }
            }),
    {
        broadcast use vstd::std_specs::hash::group_hash_axioms;

        let ghost target_model = AbcModel::of(*target);
        let ghost snippet_pool = PoolModel::of(snippet.constant_pool);
        let namespace_set = class_namespace_set(target)?;
        let mut multinames: HashMap<u32, u32> = HashMap::new();
        let mut strings: HashMap<u32, u32> = HashMap::new();

        let names = [
            "ByteArray",
            "socketConnection",
            "bytesAvailable",
            "readBytes",
            "length",
            "byteBuffer",
            "writeBytes",
            "toString",
            "clear",
            "handleMessage",
            "message",
            "debugMessage",
            "int",
        ];
        for i in 0..13
            invariant
                snippet_pool == PoolModel::of(snippet.constant_pool),
                forall|j: int| 0 <= j < 13 ==> (#[trigger] names@[j])@ == symbols()[j],
                names@.len() == 13,
                ({
                    let (pool, overrides) = with_symbols(
                        target_model.constant_pool,
                        snippet_pool,
                        namespace_set,
                        symbols().take(i as int),
                    );
                    &&& AbcModel::of(*target) == target_model.with_pool(pool)
                    &&& multinames@ == overrides
                }),
        {
            add_symbol(target, snippet, namespace_set, names[i], &mut multinames)?;
            assert(symbols().take(i + 1).drop_last() =~= symbols().take(i as int));
        }
        assert(symbols().take(13) =~= symbols());

        // The dynamic `chunk[i]` byte index: a `MultinameL` with no name
        // component. Reuse whichever one the target's own compiled code already
        // uses for this exact pattern instead of guessing at a namespace set.
        if let Some(snippet_idx) = find_late_bound(snippet.constant_pool.multinames.as_slice()) {
            match find_late_bound(target.constant_pool.multinames.as_slice()) {
                Some(target_idx) => {
                    multinames.insert(snippet_idx, target_idx);
                },
                None => {
                    return Err(
                        "target ABC has no MultinameL to reuse for dynamic byte indexing".to_owned(),
                    );
                },
            }
        }

        // The literal error-log string; already used verbatim by the target's
        // own `handleSocketData`.
        if let Some(snippet_idx) = find_string(
            snippet.constant_pool.strings.as_slice(),
            "handleMessage error: ",
        ) {
            match find_string(target.constant_pool.strings.as_slice(), "handleMessage error: ") {
                Some(target_idx) => {
                    strings.insert(snippet_idx, target_idx);
                },
                None => {
                    return Err(
                        "target ABC is missing the \"handleMessage error: \" string".to_owned(),
                    );
                },
            }
        }
        Ok(OverrideTable { multinames, strings })
    }
}

pub open spec fn body_of(method_idx: u32) -> spec_fn(BodyModel) -> bool {
    |b: BodyModel| b.method.0 == method_idx
}

/// The body that the snippet has for `handleSocketData`, or the message that
/// says what is missing.
pub open spec fn snippet_body(snippet: AbcModel) -> Result<BodyModel, Seq<char>> {
    match method_index(snippet, SNIPPET_CLASS_NAME@, METHOD_NAME@) {
        None => Err("snippet ABC is missing handleSocketData"@),
        Some(m) => match constant_pool::position(snippet.method_bodies, body_of(m)) {
            None => Err("snippet ABC is missing handleSocketData's method body"@),
            Some(b) => Ok(snippet.method_bodies[b]),
        },
    }
}

/// Whether the snippet's body, if it has one, can stand in for another: it
/// catches an exception, and its code is of a length that a file can declare.
pub open spec fn snippet_ready(snippet: AbcModel) -> bool {
    snippet_body(snippet) matches Ok(body) ==> body.exceptions.len() > 0 && body.code.len()
        <= u32::MAX
}

/// Whether these bytes are of a length that `swf` can read and, where they are an
/// ABC file, hold a body that can stand in for another.
pub open spec fn usable_snippet(snippet_abc: Seq<u8>) -> bool {
    &&& snippet_abc.len() <= u32::MAX
    &&& crate::swf_calls::swf_read_abc(snippet_abc) matches Ok(snippet) ==> snippet_ready(snippet)
}

/// Where in the target the body of method `m` is, given that it has an exception
/// handler, or the message that says what is missing.
pub open spec fn target_body(target: AbcModel, m: u32) -> Result<int, Seq<char>> {
    match constant_pool::position(target.method_bodies, body_of(m)) {
        None => Err("handleSocketData has no method body"@),
        Some(b) => if target.method_bodies[b].exceptions.len() == 0 {
            Err(
                "handleSocketData's original body has no exception handler; refusing to replace it without one to steal namespaces from"@,
            )
        } else {
            Ok(b)
        },
    }
}

/// The instructions of the snippet's code with every name replaced as the table says,
/// and every jump moved so that it leads to the instruction that it led to.
pub open spec fn replacement_ops(table: TableModel, code: Seq<u8>) -> Result<
    Seq<OpModel>,
    Seq<char>,
> {
    match disassembled_from(code, 0) {
        Err(e) => Err("failed to disassemble snippet method body: "@ + e),
        Ok(ops) => match remapped_all(table, ops) {
            Err(e) => Err(e),
            Ok(renamed) => relocation::relocated_all(
                boundaries_from(code, 0),
                starts_of(renamed),
                renamed,
            ),
        },
    }
}

/// The new body of method `m`: the snippet's, with its names replaced. Its exception
/// handler guards the instructions that the snippet's does and catches what `caught`
/// does.
pub open spec fn replacement(
    table: TableModel,
    m: u32,
    snippet: BodyModel,
    caught: Exception,
) -> Result<BodyModel, Seq<char>> {
    match replacement_ops(table, snippet.code) {
        Err(message) => Err(message),
        Ok(new_ops) => match relocation::moved_handler(
            boundaries_from(snippet.code, 0),
            starts_of(new_ops),
            snippet.exceptions[0],
            caught,
        ) {
            Err(message) => Err(message),
            Ok(handler) => Ok(
                BodyModel {
                    method: Index(m, core::marker::PhantomData),
                    code: assembled(new_ops),
                    exceptions: seq![handler],
                    ..snippet
                },
            ),
        },
    }
}

/// What [`apply_snippet`] makes of a file, and what it returns.
pub open spec fn applied_snippet(target: AbcModel, snippet: AbcModel) -> (
    AbcModel,
    Result<bool, Seq<char>>,
) {
    match method_index(target, CLASS_NAME@, METHOD_NAME@) {
        None => (target, Ok(false)),
        Some(m) => match snippet_body(snippet) {
            Err(message) => (target, Err(message)),
            Ok(body) => match target_body(target, m) {
                Err(message) => (target, Err(message)),
                Ok(b) => {
                    let (pool, table) = built(target.constant_pool, snippet.constant_pool);
                    let extended = target.with_pool(pool);
                    match table {
                        Err(message) => (extended, Err(message)),
                        Ok(table) => match replacement(
                            table,
                            m,
                            body,
                            target.method_bodies[b].exceptions[0],
                        ) {
                            Err(message) => (extended, Err(message)),
                            Ok(new_body) => (
                                AbcModel {
                                    method_bodies: target.method_bodies.update(b, new_body),
                                    ..extended
                                },
                                Ok(true),
                            ),
                        },
                    }
                },
            },
        },
    }
}

/// What [`apply_parsed`] makes of a file, and what it returns.
pub open spec fn applied_parsed(target: AbcModel, parsed: Result<AbcModel, Seq<char>>) -> (
    AbcModel,
    Result<bool, Seq<char>>,
) {
    match method_index(target, CLASS_NAME@, METHOD_NAME@) {
        None => (target, Ok(false)),
        Some(_) => match parsed {
            Err(e) => (target, Err("failed to parse embedded snippet ABC: "@ + e)),
            Ok(snippet) => applied_snippet(target, snippet),
        },
    }
}

/// What [`apply`] makes of a file, and what it returns.
pub open spec fn applied(target: AbcModel, snippet_abc: Seq<u8>) -> (
    AbcModel,
    Result<bool, Seq<char>>,
) {
    applied_parsed(target, crate::swf_calls::swf_read_abc(snippet_abc))
}

fn find_body(bodies: &[MethodBody], method_idx: usize) -> (pos: Option<usize>)
    requires
        method_idx <= u32::MAX,
    ensures
        match constant_pool::position(BodyModel::all(bodies@), body_of(method_idx as u32)) {
            Some(i) => pos matches Some(p) && p == i && p < bodies@.len(),
            None => pos is None,
        },
{
    let ghost all = BodyModel::all(bodies@);
    for i in 0..bodies.len()
        invariant
            method_idx <= u32::MAX,
            all == BodyModel::all(bodies@),
            forall|j: int| 0 <= j < i ==> !body_of(method_idx as u32)(#[trigger] all[j]),
    {
        if bodies[i].method.0 as usize == method_idx {
            proof {
                constant_pool::lemma_position_is(all, body_of(method_idx as u32), i as int);
            }
            return Some(i);
        }
    }
    proof {
        constant_pool::lemma_position_none(all, body_of(method_idx as u32));
    }
    None
}

/// Remaps the instructions one by one, up to the first without an override.
fn remap_all(table: &OverrideTable, ops: &mut Vec<Op>) -> (r: Result<(), String>)
    requires
        forall|i: int|
            0 <= i < old(ops)@.len() ==> crate::swf_calls::op_encodable(
                OpModel::of(#[trigger] old(ops)@[i]),
            ),
    ensures
        match remapped_all(table@, OpModel::all(old(ops)@)) {
            Ok(new_ops) => r is Ok && OpModel::all(final(ops)@) == new_ops,
            Err(message) => r matches Err(e) && e@ == message,
        },
        final(ops)@.len() == old(ops)@.len(),
        forall|i: int|
            0 <= i < final(ops)@.len() ==> crate::swf_calls::op_encodable(
                OpModel::of(#[trigger] final(ops)@[i]),
            ),
{
    let ghost before = OpModel::all(ops@);
    let n = ops.len();
    assert(before.take(0) =~= Seq::empty());
    assert(OpModel::all(ops@).take(0) =~= Seq::empty());
    for i in 0..n
        invariant
            before == OpModel::all(old(ops)@),
            n == ops@.len(),
            n == before.len(),
            remapped_all(table@, before.take(i as int)) == Ok::<Seq<OpModel>, Seq<char>>(
                OpModel::all(ops@).take(i as int),
            ),
            forall|j: int| i <= j < n ==> OpModel::of(#[trigger] ops@[j]) == before[j],
            forall|j: int|
                0 <= j < n ==> crate::swf_calls::op_encodable(OpModel::of(#[trigger] ops@[j])),
    {
        let ghost done = OpModel::all(ops@).take(i as int);
        proof {
            assert(before.take(i + 1).drop_last() =~= before.take(i as int));
            assert(before.take(i + 1).last() == OpModel::of(ops@[i as int]));
            lemma_remap_fails_early(table@, before, i + 1);
        }
        table.remap_op(&mut ops[i])?;
        assert(OpModel::all(ops@).take(i + 1) =~= done.push(OpModel::of(ops@[i as int])));
    }
    assert(before.take(n as int) =~= before);
    assert(OpModel::all(ops@).take(n as int) =~= OpModel::all(ops@));
    Ok(())
}

/// A message for a prefix is the message for the whole.
proof fn lemma_remap_fails_early(table: TableModel, ops: Seq<OpModel>, n: int)
    requires
        0 <= n <= ops.len(),
    ensures
        remapped_all(table, ops.take(n)) matches Err(e) ==> remapped_all(table, ops) == Err::<
            Seq<OpModel>,
            Seq<char>,
        >(e),
    decreases ops.len(),
{
    if n == ops.len() {
        assert(ops.take(n) =~= ops);
    } else {
        assert(ops.drop_last().take(n) =~= ops.take(n));
        lemma_remap_fails_early(table, ops.drop_last(), n);
    }
}

/// Whether the snippet is asked for: the target has the method to be replaced.
pub open spec fn wants_snippet(target: AbcModel) -> bool {
    method_index(target, CLASS_NAME@, METHOD_NAME@) is Some
}

/// The new body of method `method_idx`, made of the snippet's body and of what the
/// handler `caught` catches.
fn replace_body(
    table: &OverrideTable,
    method_idx: u32,
    snippet_body: &MethodBody,
    caught: Exception,
) -> (r: Result<MethodBody, String>)
    requires
        snippet_body.code@.len() <= u32::MAX,
        snippet_body.exceptions@.len() > 0,
    ensures
        match replacement(table@, method_idx, BodyModel::of(*snippet_body), caught) {
            Ok(body) => r matches Ok(b) && BodyModel::of(b) == body,
            Err(message) => r matches Err(e) && e@ == message,
        },
{
    let (mut ops, bounds) = match disassemble_with_starts(snippet_body.code.as_slice()) {
        Ok(read) => read,
        Err(e) => {
            return Err(join("failed to disassemble snippet method body: ", e.as_str()));
        },
    };
    proof {
        lemma_boundaries_within(snippet_body.code@, 0);
        assert forall|i: int| 0 <= i < bounds@.len() implies #[trigger] bounds@[i] <= u32::MAX by {
            assert(offsets(bounds@)[i] == bounds@[i]);
        }
    }
    remap_all(table, &mut ops)?;
    let (_, renamed_starts) = match reassemble_with_starts(ops.as_slice()) {
        Ok(written) => written,
        Err(e) => {
            return Err(join("failed to reassemble patched bytecode: ", e.as_str()));
        },
    };
    assert(offsets(renamed_starts@).len() == renamed_starts@.len());
    relocate_all(bounds.as_slice(), renamed_starts.as_slice(), &mut ops)?;
    let (code, starts) = match reassemble_with_starts(ops.as_slice()) {
        Ok(written) => written,
        Err(e) => {
            return Err(join("failed to reassemble patched bytecode: ", e.as_str()));
        },
    };
    assert(offsets(starts@).len() == starts@.len());
    let handler = move_handler(
        bounds.as_slice(),
        starts.as_slice(),
        &snippet_body.exceptions[0],
        caught,
    )?;
    let mut exceptions: Vec<Exception> = Vec::new();
    exceptions.push(handler);
    let body = MethodBody {
        method: Index(method_idx, core::marker::PhantomData),
        max_stack: snippet_body.max_stack,
        num_locals: snippet_body.num_locals,
        init_scope_depth: snippet_body.init_scope_depth,
        max_scope_depth: snippet_body.max_scope_depth,
        code,
        exceptions,
        traits: snippet_body.traits.clone(),
    };
    proof {
        let expected = replacement(
            table@,
            method_idx,
            BodyModel::of(*snippet_body),
            caught,
        )->Ok_0;
        assert(BodyModel::of(body).exceptions =~= expected.exceptions);
        assert(BodyModel::of(body).traits =~= expected.traits);
    }
    Ok(body)
}

/// The offsets of the instructions of some code lie within the code.
proof fn lemma_boundaries_within(code: Seq<u8>, pos: int)
    requires
        0 <= pos <= code.len(),
    ensures
        forall|i: int|
            0 <= i < boundaries_from(code, pos).len() ==> 0 <= #[trigger] boundaries_from(
                code,
                pos,
            )[i] <= code.len(),
    decreases code.len() - pos,
{
    if pos < code.len() {
        let (op, taken) = crate::swf_calls::swf_read_op(code.skip(pos));
        if op is Ok && 0 < taken <= code.len() - pos {
            let later = boundaries_from(code, pos + taken as int);
            lemma_boundaries_within(code, pos + taken as int);
            assert forall|i: int| 0 <= i < boundaries_from(code, pos).len() implies 0
                <= #[trigger] boundaries_from(code, pos)[i] <= code.len() by {
                if i > 0 {
                    assert(boundaries_from(code, pos)[i] == later[i - 1]);
                }
            }
        }
    }
}

/// Replaces `SmartFoxClient.handleSocketData`'s byte-at-a-time socket read loop
/// with the one of the snippet, which does a bulk `readBytes` and an in-memory
/// scan for the same `0x00`-delimited message framing. The snippet's try/catch
/// around `handleMessage` and its jumps keep to their instructions, whatever the
/// names of the target do to the length of the code.
///
/// Returns `Ok(true)` if applied, `Ok(false)` if the class or its method is not
/// there, `Err` if the target or the snippet is not of the expected shape.
pub fn apply_snippet(abc: &mut AbcFile, snippet: &AbcFile) -> (r: Result<bool, String>)
    requires
        wants_snippet(AbcModel::of(*old(abc))) ==> snippet_ready(AbcModel::of(*snippet)),
    ensures
        AbcModel::of(*final(abc)) == applied_snippet(
            AbcModel::of(*old(abc)),
            AbcModel::of(*snippet),
        ).0,
        text::result_view(r) == applied_snippet(AbcModel::of(*old(abc)), AbcModel::of(*snippet)).1,
{
    let ghost target_model = AbcModel::of(*abc);
    let ghost snippet_model = AbcModel::of(*snippet);
    let target_method_idx: usize = match find_method_index(abc, CLASS_NAME, METHOD_NAME) {
        Some(index) => index,
        None => {
            return Ok(false);
        },
    };
    let snippet_method_idx: usize = match find_method_index(
        snippet,
        SNIPPET_CLASS_NAME,
        METHOD_NAME,
    ) {
        Some(index) => index,
        None => {
            return Err("snippet ABC is missing handleSocketData".to_owned());
        },
    };
    let snippet_body_idx: usize = match find_body(
        snippet.method_bodies.as_slice(),
        snippet_method_idx,
    ) {
        Some(pos) => pos,
        None => {
            return Err("snippet ABC is missing handleSocketData's method body".to_owned());
        },
    };
    let snippet_body = &snippet.method_bodies[snippet_body_idx];
    assert(snippet_model.method_bodies[snippet_body_idx as int] == BodyModel::of(*snippet_body));

    let target_body_idx: usize = match find_body(abc.method_bodies.as_slice(), target_method_idx) {
        Some(pos) => pos,
        None => {
            return Err("handleSocketData has no method body".to_owned());
        },
    };
    if abc.method_bodies[target_body_idx].exceptions.len() == 0 {
        return Err(
            "handleSocketData's original body has no exception handler; refusing to replace it without one to steal namespaces from".to_owned(),
        );
    }
    let caught = Exception {
        from_offset: abc.method_bodies[target_body_idx].exceptions[0].from_offset,
        ..abc.method_bodies[target_body_idx].exceptions[0]
    };

    let table = OverrideTable::build(abc, snippet)?;
    let new_body = replace_body(
        &table,
        target_method_idx as u32,
        snippet_body,
        caught,
    )?;
    let ghost extended = AbcModel::of(*abc);
    let ghost new_model = BodyModel::of(new_body);
    abc.method_bodies[target_body_idx] = new_body;
    proof {
        assert(AbcModel::of(*abc).method_bodies =~= extended.method_bodies.update(
            target_body_idx as int,
            new_model,
        ));
    }
    Ok(true)
}

/// What came of parsing a snippet, with the file and the message as values.
pub open spec fn parsed_view(parsed: Result<AbcFile, String>) -> Result<AbcModel, Seq<char>> {
    match parsed {
        Ok(snippet) => Ok(AbcModel::of(snippet)),
        Err(e) => Err(e@),
    }
}

/// Applies a snippet that was parsed, as [`apply_snippet`] does, or reports why it
/// was not.
pub fn apply_parsed(abc: &mut AbcFile, parsed: Result<AbcFile, String>) -> (r: Result<bool, String>)
    requires
        wants_snippet(AbcModel::of(*old(abc))) ==> (parsed matches Ok(snippet) ==> snippet_ready(
            AbcModel::of(snippet),
        )),
    ensures
        AbcModel::of(*final(abc)) == applied_parsed(AbcModel::of(*old(abc)), parsed_view(parsed)).0,
        text::result_view(r) == applied_parsed(AbcModel::of(*old(abc)), parsed_view(parsed)).1,
{
    if find_method_index(abc, CLASS_NAME, METHOD_NAME).is_none() {
        return Ok(false);
    }
    match parsed {
        Ok(snippet) => apply_snippet(abc, &snippet),
        Err(e) => Err(join("failed to parse embedded snippet ABC: ", e.as_str())),
    }
}

/// Parses the snippet and applies it as [`apply_snippet`] does. The snippet is
/// looked at only where the target has the method.
pub fn apply(abc: &mut AbcFile, snippet_abc: &[u8]) -> (r: Result<bool, String>)
    requires
        wants_snippet(AbcModel::of(*old(abc))) ==> usable_snippet(snippet_abc@),
    ensures
        AbcModel::of(*final(abc)) == applied(AbcModel::of(*old(abc)), snippet_abc@).0,
        text::result_view(r) == applied(AbcModel::of(*old(abc)), snippet_abc@).1,
{
    if find_method_index(abc, CLASS_NAME, METHOD_NAME).is_none() {
        return Ok(false);
    }
    apply_parsed(abc, read_abc(snippet_abc))
}

/// Whether a snippet that was read can be applied.
pub fn is_snippet_ready(snippet: &AbcFile) -> (ready: bool)
    ensures
        ready == snippet_ready(AbcModel::of(*snippet)),
{
    let method_idx: usize = match find_method_index(snippet, SNIPPET_CLASS_NAME, METHOD_NAME) {
        Some(index) => index,
        None => {
            return true;
        },
    };
    let body_idx: usize = match find_body(snippet.method_bodies.as_slice(), method_idx) {
        Some(pos) => pos,
        None => {
            return true;
        },
    };
    let body = &snippet.method_bodies[body_idx];
    assert(AbcModel::of(*snippet).method_bodies[body_idx as int] == BodyModel::of(*body));
    body.exceptions.len() > 0 && body.code.len() as u64 <= 0xFFFF_FFFF
}

/// Whether [`apply`] can be called with these snippet bytes.
pub fn is_usable_snippet(snippet_abc: &[u8]) -> (usable: bool)
    ensures
        usable == usable_snippet(snippet_abc@),
{
    if snippet_abc.len() as u64 > 0xFFFF_FFFF {
        return false;
    }
    match read_abc(snippet_abc) {
        Ok(snippet) => is_snippet_ready(&snippet),
        Err(_) => true,
    }
}

} // verus!
