//! What the patch finds by name, told in terms of the entries of the pools.
use swf::avm2::types::{AbcFile, Op, TraitKind};
use vstd::prelude::*;
use super::laws;
use super::{OverrideTable, TableModel};
use crate::abc_model::{AbcModel, BodyModel, MultinameModel, OpModel, PoolModel, TraitModel};
use crate::constant_pool;

verus! {

/// Whether the string with this index holds this text.
pub open spec fn holds_text(pool: PoolModel, index: u32, text: Seq<char>) -> bool {
    1 <= index <= pool.strings.len() && pool.strings[index - 1] == vstd::utf8::encode_utf8(text)
}

/// Whether the string with this index is the first that holds this text.
pub open spec fn is_first_text(pool: PoolModel, index: u32, text: Seq<char>) -> bool {
    &&& holds_text(pool, index, text)
    &&& forall|j: int|
        0 <= j < index - 1 ==> #[trigger] pool.strings[j] != vstd::utf8::encode_utf8(text)
}

/// Whether a multiname is a `QName` with this name.
pub open spec fn is_plain_qname(m: MultinameModel, name_idx: u32) -> bool {
    m matches MultinameModel::QName { name, .. } && name.0 == name_idx
}

/// Whether a multiname is qualified by a namespace or a namespace set and has this name.
pub open spec fn has_name(m: MultinameModel, name_idx: u32) -> bool {
    ||| m matches MultinameModel::QName { name, .. } && name.0 == name_idx
    ||| m matches MultinameModel::QNameA { name, .. } && name.0 == name_idx
    ||| m matches MultinameModel::Multiname { name, .. } && name.0 == name_idx
    ||| m matches MultinameModel::MultinameA { name, .. } && name.0 == name_idx
}

/// Whether a multiname is a `Multiname` of this name under this namespace set.
pub open spec fn is_under(m: MultinameModel, set_idx: u32, name_idx: u32) -> bool {
    m matches MultinameModel::Multiname { namespace_set, name } && namespace_set.0 == set_idx
        && name.0 == name_idx
}

/// Whether a class has a name that is a `QName` of this text.
pub open spec fn is_class_of_name(abc: AbcModel, i: int, class_name: Seq<char>) -> bool {
    let multinames = abc.constant_pool.multinames;
    &&& 0 <= i < abc.instances.len()
    &&& 1 <= abc.instances[i].name.0 <= multinames.len()
    &&& multinames[abc.instances[i].name.0 - 1] matches MultinameModel::QName { name, .. }
    &&& holds_text(abc.constant_pool, name.0, class_name)
}

/// Whether a trait is method `m` and has a name that is a `QName` of this text.
pub open spec fn is_method_of_name(
    abc: AbcModel,
    t: TraitModel,
    method_name: Seq<char>,
    m: u32,
) -> bool {
    let multinames = abc.constant_pool.multinames;
    &&& t.kind matches TraitKind::Method { method, .. }
    &&& method.0 == m
    &&& 1 <= t.name.0 <= multinames.len()
    &&& multinames[t.name.0 - 1] matches MultinameModel::QName { name, .. }
    &&& holds_text(abc.constant_pool, name.0, method_name)
}

/// Whether the trait at `t` of the class at `i` is method `m` of this name, and the
/// class is of this name.
pub open spec fn is_method_of_class(
    abc: AbcModel,
    class_name: Seq<char>,
    method_name: Seq<char>,
    i: int,
    t: int,
    m: u32,
) -> bool {
    &&& is_class_of_name(abc, i, class_name)
    &&& 0 <= t < abc.instances[i].traits.len()
    &&& is_method_of_name(abc, abc.instances[i].traits[t], method_name, m)
}

/// A method that is found by the names of its class and itself is that: its class has
/// the one name, and its trait in that class has the other, each looked up in the
/// multinames and then in the strings.
pub proof fn found_method_has_the_names(
    abc: AbcModel,
    class_name: Seq<char>,
    method_name: Seq<char>,
)
    requires
        laws::is_numbered(abc.constant_pool),
    ensures
        super::method_index(abc, class_name, method_name) matches Some(m) ==> exists|
            i: int,
            t: int,
        | #[trigger]
            is_method_of_class(abc, class_name, method_name, i, t, m),
{
    if let Some(m) = super::method_index(abc, class_name, method_name) {
        let pool = abc.constant_pool;
        constant_pool::found_string_holds_the_text(pool.strings, class_name);
        constant_pool::found_string_holds_the_text(pool.strings, method_name);
        let n = pool.string_index(class_name)->Some_0;
        constant_pool::lemma_position(pool.multinames, constant_pool::qname(n));
        let k = pool.multiname_index(constant_pool::qname(n))->Some_0;
        constant_pool::lemma_position(abc.instances, constant_pool::instance_named(k));
        let i = constant_pool::position(abc.instances, constant_pool::instance_named(k))->Some_0;
        let p = pool.string_index(method_name)->Some_0;
        let traits = abc.instances[i].traits;
        let q = super::method_named(pool.multinames, p);
        constant_pool::lemma_position(traits, q);
        let t = constant_pool::position(traits, q)->Some_0;
        assert(is_method_of_class(abc, class_name, method_name, i, t, m));
    }
}

/// Whether a trait is a method whose name is a `QName` with this string index.
pub open spec fn is_method_with_name(
    multinames: Seq<MultinameModel>,
    t: TraitModel,
    name_idx: u32,
) -> bool {
    &&& t.kind is Method
    &&& 1 <= t.name.0 <= multinames.len()
    &&& is_plain_qname(multinames[t.name.0 - 1], name_idx)
}

/// The method that is found is the first of its name in the first class of its name:
/// where `class_name_idx` and `method_name_idx` are the first strings of the two names,
/// `class_idx` the first `QName` of the one, `i` the first class with that multiname for
/// its name, and `t` its first method with a `QName` of the other.
pub proof fn first_method_of_the_first_class_is_found(
    abc: AbcModel,
    class_name: Seq<char>,
    method_name: Seq<char>,
    class_name_idx: u32,
    method_name_idx: u32,
    class_idx: u32,
    i: int,
    t: int,
    m: u32,
)
    requires
        laws::is_numbered(abc.constant_pool),
        is_first_text(abc.constant_pool, class_name_idx, class_name),
        is_first_text(abc.constant_pool, method_name_idx, method_name),
        1 <= class_idx <= abc.constant_pool.multinames.len(),
        is_plain_qname(abc.constant_pool.multinames[class_idx - 1], class_name_idx),
        forall|j: int|
            0 <= j < class_idx - 1 ==> !is_plain_qname(
                #[trigger] abc.constant_pool.multinames[j],
                class_name_idx,
            ),
        0 <= i < abc.instances.len(),
        abc.instances[i].name.0 == class_idx,
        forall|j: int| 0 <= j < i ==> (#[trigger] abc.instances[j]).name.0 != class_idx,
        0 <= t < abc.instances[i].traits.len(),
        is_method_with_name(
            abc.constant_pool.multinames,
            abc.instances[i].traits[t],
            method_name_idx,
        ),
        forall|j: int|
            0 <= j < t ==> !is_method_with_name(
                abc.constant_pool.multinames,
                #[trigger] abc.instances[i].traits[j],
                method_name_idx,
            ),
        abc.instances[i].traits[t].kind matches TraitKind::Method { method, .. } && method.0 == m,
    ensures
        super::method_index(abc, class_name, method_name) == Some(m),
{
    let pool = abc.constant_pool;
    let traits = abc.instances[i].traits;
    constant_pool::first_string_is_found(pool.strings, class_name, class_name_idx);
    constant_pool::first_string_is_found(pool.strings, method_name, method_name_idx);
    let p = constant_pool::qname(class_name_idx);
    assert forall|j: int| 0 <= j < class_idx - 1 implies !p(#[trigger] pool.multinames[j]) by {
        assert(!is_plain_qname(pool.multinames[j], class_name_idx));
    }
    constant_pool::lemma_position_is(pool.multinames, p, class_idx - 1);
    let q = constant_pool::instance_named(class_idx);
    assert forall|j: int| 0 <= j < i implies !q(#[trigger] abc.instances[j]) by {
        assert(abc.instances[j].name.0 != class_idx);
    }
    constant_pool::lemma_position_is(abc.instances, q, i);
    let r = super::method_named(pool.multinames, method_name_idx);
    assert forall|j: int| 0 <= j < t implies !r(#[trigger] traits[j]) by {
        assert(!is_method_with_name(pool.multinames, traits[j], method_name_idx));
    }
    constant_pool::lemma_position_is(traits, r, t);
}

/// The namespace set that is taken for the class's own is that of the first `Multiname`
/// of `socketConnection`, by the first string of that text.
pub proof fn own_namespace_set_is_that_of_the_socket(pool: PoolModel, name_idx: u32, i: int)
    requires
        laws::is_numbered(pool),
        is_first_text(pool, name_idx, "socketConnection"@),
        0 <= i < pool.multinames.len(),
        pool.multinames[i] matches MultinameModel::Multiname { name, .. } && name.0 == name_idx,
        forall|j: int|
            0 <= j < i ==> !(#[trigger] pool.multinames[j] matches MultinameModel::Multiname {
                name,
                ..
            } && name.0 == name_idx),
    ensures
        pool.multinames[i] matches MultinameModel::Multiname { namespace_set, .. }
            && super::own_namespace_set(pool) == Ok::<u32, Seq<char>>(namespace_set.0),
{
    constant_pool::first_string_is_found(pool.strings, "socketConnection"@, name_idx);
    let p = super::in_any_namespace_set(name_idx);
    assert forall|j: int| 0 <= j < i implies !p(#[trigger] pool.multinames[j]) by {}
    constant_pool::lemma_position_is(pool.multinames, p, i);
}

/// A namespace set is taken for the class's own only if `socketConnection` is looked up
/// in it.
pub proof fn socket_is_looked_up_in_the_own_namespace_set(pool: PoolModel)
    requires
        laws::is_numbered(pool),
    ensures
        super::own_namespace_set(pool) matches Ok(set) ==> exists|i: int, name_idx: u32|
            #![trigger is_under(pool.multinames[i], set, name_idx)]
            0 <= i < pool.multinames.len() && is_under(pool.multinames[i], set, name_idx)
                && holds_text(pool, name_idx, "socketConnection"@),
{
    if let Ok(set) = super::own_namespace_set(pool) {
        constant_pool::found_string_holds_the_text(pool.strings, "socketConnection"@);
        let name_idx = pool.string_index("socketConnection"@)->Some_0;
        let p = super::in_any_namespace_set(name_idx);
        constant_pool::lemma_position(pool.multinames, p);
        let i = constant_pool::position(pool.multinames, p)->Some_0;
        assert(is_under(pool.multinames[i], set, name_idx));
    }
}

/// A symbol is resolved to the first `Multiname` of it under the class's own namespace
/// set, if there is one, and nothing is appended.
pub proof fn own_multiname_is_preferred(
    pool: PoolModel,
    symbol: Seq<char>,
    namespace_set: u32,
    name_idx: u32,
    i: int,
)
    requires
        laws::is_numbered(pool),
        is_first_text(pool, name_idx, symbol),
        0 <= i < pool.multinames.len(),
        is_under(pool.multinames[i], namespace_set, name_idx),
        forall|j: int|
            0 <= j < i ==> !is_under(#[trigger] pool.multinames[j], namespace_set, name_idx),
    ensures
        super::resolved(pool, symbol, namespace_set).0 == pool,
        super::resolved(pool, symbol, namespace_set).1 == i + 1,
{
    constant_pool::first_string_is_found(pool.strings, symbol, name_idx);
    let p = super::in_namespace_set(namespace_set, name_idx);
    assert forall|j: int| 0 <= j < i implies !p(#[trigger] pool.multinames[j]) by {
        assert(!is_under(pool.multinames[j], namespace_set, name_idx));
    }
    constant_pool::lemma_position_is(pool.multinames, p, i);
}

/// Where there is none under the own namespace set, a symbol is resolved to the first
/// multiname of its name, if there is one, and nothing is appended.
pub proof fn any_multiname_of_the_name_will_do(
    pool: PoolModel,
    symbol: Seq<char>,
    namespace_set: u32,
    name_idx: u32,
    i: int,
)
    requires
        laws::is_numbered(pool),
        is_first_text(pool, name_idx, symbol),
        forall|j: int|
            0 <= j < pool.multinames.len() ==> !is_under(
                #[trigger] pool.multinames[j],
                namespace_set,
                name_idx,
            ),
        0 <= i < pool.multinames.len(),
        has_name(pool.multinames[i], name_idx),
        forall|j: int| 0 <= j < i ==> !has_name(#[trigger] pool.multinames[j], name_idx),
    ensures
        super::resolved(pool, symbol, namespace_set).0 == pool,
        super::resolved(pool, symbol, namespace_set).1 == i + 1,
{
    constant_pool::first_string_is_found(pool.strings, symbol, name_idx);
    let p = super::in_namespace_set(namespace_set, name_idx);
    let q = constant_pool::named(name_idx);
    assert forall|j: int| 0 <= j < pool.multinames.len() implies !p(
        #[trigger] pool.multinames[j],
    ) by {
        assert(!is_under(pool.multinames[j], namespace_set, name_idx));
    }
    constant_pool::lemma_position_none(pool.multinames, p);
    assert forall|j: int| 0 <= j < i implies !q(#[trigger] pool.multinames[j]) by {
        assert(!has_name(pool.multinames[j], name_idx));
    }
    constant_pool::lemma_position_is(pool.multinames, q, i);
}

/// Where no multiname has the name, one under the own namespace set is appended, and
/// nothing else where the string is there.
pub proof fn missing_multiname_is_appended(
    pool: PoolModel,
    symbol: Seq<char>,
    namespace_set: u32,
    name_idx: u32,
)
    requires
        pool.strings.len() <= u32::MAX,
        pool.multinames.len() < u32::MAX,
        is_first_text(pool, name_idx, symbol),
        forall|j: int|
            0 <= j < pool.multinames.len() ==> !has_name(#[trigger] pool.multinames[j], name_idx),
    ensures
        ({
            let (after, index) = super::resolved(pool, symbol, namespace_set);
            &&& index == pool.multinames.len() + 1
            &&& after.multinames.len() == pool.multinames.len() + 1
            &&& forall|j: int|
                0 <= j < pool.multinames.len() ==> #[trigger] after.multinames[j]
                    == pool.multinames[j]
            &&& is_under(after.multinames[index - 1], namespace_set, name_idx)
            &&& after == (PoolModel { multinames: after.multinames, ..pool })
        }),
{
    constant_pool::first_string_is_found(pool.strings, symbol, name_idx);
    let p = super::in_namespace_set(namespace_set, name_idx);
    let q = constant_pool::named(name_idx);
    assert forall|j: int| 0 <= j < pool.multinames.len() implies !p(#[trigger] pool.multinames[j])
        && !q(pool.multinames[j]) by {
        assert(!has_name(pool.multinames[j], name_idx));
    }
    constant_pool::lemma_position_none(pool.multinames, p);
    constant_pool::lemma_position_none(pool.multinames, q);
}

/// Where the string is missing, it is appended, and a multiname of it under the own
/// namespace set, and nothing else.
pub proof fn missing_string_is_appended(
    pool: PoolModel,
    symbol: Seq<char>,
    namespace_set: u32,
)
    requires
        pool.strings.len() < u32::MAX,
        pool.multinames.len() < u32::MAX,
        forall|j: int|
            0 <= j < pool.strings.len() ==> #[trigger] pool.strings[j] != vstd::utf8::encode_utf8(
                symbol,
            ),
    ensures
        ({
            let (after, index) = super::resolved(pool, symbol, namespace_set);
            &&& index == pool.multinames.len() + 1
            &&& after.multinames.len() == pool.multinames.len() + 1
            &&& after.strings.len() == pool.strings.len() + 1
            &&& forall|j: int|
                0 <= j < pool.multinames.len() ==> #[trigger] after.multinames[j]
                    == pool.multinames[j]
            &&& forall|j: int|
                0 <= j < pool.strings.len() ==> #[trigger] after.strings[j] == pool.strings[j]
            &&& after.strings[pool.strings.len() as int] == vstd::utf8::encode_utf8(symbol)
            &&& is_under(
                after.multinames[index - 1],
                namespace_set,
                (pool.strings.len() + 1) as u32,
            )
            &&& after == (PoolModel {
                strings: after.strings,
                multinames: after.multinames,
                ..pool
            })
        }),
{
    constant_pool::found_string_holds_the_text(pool.strings, symbol);
}

/// An instruction that is remapped is of the same kind and keeps its other operands.
/// Only a multiname or a string is replaced, by what the table has for it.
pub proof fn remapping_keeps_kind_and_arguments(table: TableModel, op: Op, new_op: Op)
    requires
        super::remapped(table, OpModel::Plain(op)) == Ok::<OpModel, Seq<char>>(
            OpModel::Plain(new_op),
        ),
    ensures
        op matches Op::FindPropStrict { index: k } ==> (new_op matches Op::FindPropStrict { index }
            && table.multinames.contains_key(k.0) && index.0 == table.multinames[k.0]),
        op matches Op::ConstructProp { index: k, num_args: n } ==> (
        new_op matches Op::ConstructProp { index, num_args } && num_args == n
            && table.multinames.contains_key(k.0) && index.0 == table.multinames[k.0]),
        op matches Op::Coerce { index: k } ==> (new_op matches Op::Coerce { index }
            && table.multinames.contains_key(k.0) && index.0 == table.multinames[k.0]),
        op matches Op::GetProperty { index: k } ==> (new_op matches Op::GetProperty { index }
            && table.multinames.contains_key(k.0) && index.0 == table.multinames[k.0]),
        op matches Op::CallProperty { index: k, num_args: n } ==> (
        new_op matches Op::CallProperty { index, num_args } && num_args == n
            && table.multinames.contains_key(k.0) && index.0 == table.multinames[k.0]),
        op matches Op::CallPropVoid { index: k, num_args: n } ==> (
        new_op matches Op::CallPropVoid { index, num_args } && num_args == n
            && table.multinames.contains_key(k.0) && index.0 == table.multinames[k.0]),
        op matches Op::PushString { value: k } ==> (new_op matches Op::PushString { value }
            && table.strings.contains_key(k.0) && value.0 == table.strings[k.0]),
        !(op is FindPropStrict || op is ConstructProp || op is Coerce || op is GetProperty
            || op is CallProperty || op is CallPropVoid || op is PushString) ==> new_op == op,
{
}

/// An instruction is remapped whenever the table has what it refers to, and one that
/// refers to nothing that is overridden always. It stays an instruction of its sort: a
/// switch stays as it is, and no other becomes one.
pub proof fn remapping_is_owed(table: TableModel, op: OpModel)
    ensures
        op is Switch ==> super::remapped(table, op) == Ok::<OpModel, Seq<char>>(op),
        op matches OpModel::Plain(plain) ==> {
            &&& super::remapped(table, op) matches Ok(new_op) ==> new_op is Plain
            &&& plain matches Op::FindPropStrict { index } ==> (super::remapped(table, op) is Ok
                <==> table.multinames.contains_key(index.0))
            &&& plain matches Op::ConstructProp { index, .. } ==> (super::remapped(table, op) is Ok
                <==> table.multinames.contains_key(index.0))
            &&& plain matches Op::Coerce { index } ==> (super::remapped(table, op) is Ok
                <==> table.multinames.contains_key(index.0))
            &&& plain matches Op::GetProperty { index } ==> (super::remapped(table, op) is Ok
                <==> table.multinames.contains_key(index.0))
            &&& plain matches Op::CallProperty { index, .. } ==> (super::remapped(table, op) is Ok
                <==> table.multinames.contains_key(index.0))
            &&& plain matches Op::CallPropVoid { index, .. } ==> (super::remapped(table, op) is Ok
                <==> table.multinames.contains_key(index.0))
            &&& plain matches Op::PushString { value } ==> (super::remapped(table, op) is Ok
                <==> table.strings.contains_key(value.0))
            &&& !(plain is FindPropStrict || plain is ConstructProp || plain is Coerce
                || plain is GetProperty || plain is CallProperty || plain is CallPropVoid
                || plain is PushString) ==> super::remapped(table, op) == Ok::<
                OpModel,
                Seq<char>,
            >(op)
        },
{
}

/// Whether the body at `b` is the first of method `m`.
pub open spec fn is_first_body_of(bodies: Seq<BodyModel>, b: int, m: u32) -> bool {
    &&& 0 <= b < bodies.len()
    &&& bodies[b].method.0 == m
    &&& forall|j: int| 0 <= j < b ==> (#[trigger] bodies[j]).method.0 != m
}

proof fn lemma_first_body(bodies: Seq<BodyModel>, b: int, m: u32)
    requires
        is_first_body_of(bodies, b, m),
    ensures
        constant_pool::position(bodies, super::body_of(m)) == Some(b),
{
    assert forall|j: int| 0 <= j < b implies !super::body_of(m)(#[trigger] bodies[j]) by {
        assert(bodies[j].method.0 != m);
    }
    constant_pool::lemma_position_is(bodies, super::body_of(m), b);
}

/// The body that is replaced is the first of its method, and has a handler.
pub proof fn replaced_body_is_that_of_the_method(target: AbcModel, m: u32)
    ensures
        super::target_body(target, m) matches Ok(b) ==> is_first_body_of(
            target.method_bodies,
            b,
            m,
        ) && target.method_bodies[b].exceptions.len() > 0,
        forall|b: int|
            is_first_body_of(target.method_bodies, b, m) && target.method_bodies[b].exceptions.len()
                > 0 ==> super::target_body(target, m) == Ok::<int, Seq<char>>(b),
{
    let p = super::body_of(m);
    constant_pool::lemma_position(target.method_bodies, p);
    if let Ok(b) = super::target_body(target, m) {
        assert forall|j: int| 0 <= j < b implies (#[trigger] target.method_bodies[j]).method.0
            != m by {
            assert(!p(target.method_bodies[j]));
        }
    }
    assert forall|b: int|
        is_first_body_of(target.method_bodies, b, m) && target.method_bodies[b].exceptions.len()
            > 0 implies super::target_body(target, m) == Ok::<int, Seq<char>>(b) by {
        lemma_first_body(target.method_bodies, b, m);
    }
}

/// The body that is put in is the first of the method `handleSocketData` of the class
/// `HSD` of the snippet.
pub proof fn snippet_body_is_that_of_the_method(snippet: AbcModel)
    ensures
        super::snippet_body(snippet) matches Ok(body) ==> exists|m: u32, b: int|
            #![trigger is_first_body_of(snippet.method_bodies, b, m)]
            super::method_index(snippet, "HSD"@, "handleSocketData"@) == Some(m)
                && is_first_body_of(snippet.method_bodies, b, m) && body
                == snippet.method_bodies[b],
        forall|m: u32, b: int|
            #![trigger is_first_body_of(snippet.method_bodies, b, m)]
            super::method_index(snippet, "HSD"@, "handleSocketData"@) == Some(m)
                && is_first_body_of(snippet.method_bodies, b, m) ==> super::snippet_body(snippet)
                == Ok::<BodyModel, Seq<char>>(snippet.method_bodies[b]),
{
    if let Some(m) = super::method_index(snippet, "HSD"@, "handleSocketData"@) {
        let p = super::body_of(m);
        constant_pool::lemma_position(snippet.method_bodies, p);
        if let Some(b) = constant_pool::position(snippet.method_bodies, p) {
            assert forall|j: int| 0 <= j < b implies (
            #[trigger] snippet.method_bodies[j]).method.0 != m by {
                assert(!p(snippet.method_bodies[j]));
            }
            assert(is_first_body_of(snippet.method_bodies, b, m));
        }
    }
    assert forall|m: u32, b: int|
        #![trigger is_first_body_of(snippet.method_bodies, b, m)]
        super::method_index(snippet, "HSD"@, "handleSocketData"@) == Some(m) && is_first_body_of(
            snippet.method_bodies,
            b,
            m,
        ) implies super::snippet_body(snippet) == Ok::<BodyModel, Seq<char>>(
        snippet.method_bodies[b],
    ) by {
        lemma_first_body(snippet.method_bodies, b, m);
    }
}

/// An instruction without an override is refused with the index that has none.
pub proof fn missing_override_is_named(table: TableModel, index: u32, op: Op)
    requires
        !table.multinames.contains_key(index),
        ({
            ||| op matches Op::FindPropStrict { index: k } && k.0 == index
            ||| op matches Op::ConstructProp { index: k, .. } && k.0 == index
            ||| op matches Op::Coerce { index: k } && k.0 == index
            ||| op matches Op::GetProperty { index: k } && k.0 == index
            ||| op matches Op::CallProperty { index: k, .. } && k.0 == index
            ||| op matches Op::CallPropVoid { index: k, .. } && k.0 == index
        }),
    ensures
        super::remapped(table, OpModel::Plain(op)) == Err::<OpModel, Seq<char>>(
            "no override for multiname index "@ + crate::text::nat_text(index as nat),
        ),
{
}

/// A string without an override is refused with its index.
pub proof fn missing_string_override_is_named(table: TableModel, op: Op)
    ensures
        op matches Op::PushString { value } ==> (!table.strings.contains_key(value.0)
            ==> super::remapped(table, OpModel::Plain(op)) == Err::<OpModel, Seq<char>>(
            "no override for string index "@ + crate::text::nat_text(value.0 as nat),
        )),
{
}

/// The view of a table is its two maps, each under its name.
pub proof fn table_view_keeps_the_maps(table: OverrideTable)
    ensures
        table@.multinames == table.multinames@,
        table@.strings == table.strings@,
{
}

/// The view of a parsed snippet keeps the file, or the whole message.
pub proof fn parsed_view_keeps_the_result(parsed: Result<AbcFile, String>)
    ensures
        parsed matches Ok(snippet) ==> super::parsed_view(parsed) == Ok::<AbcModel, Seq<char>>(
            AbcModel::of(snippet),
        ),
        parsed matches Err(e) ==> super::parsed_view(parsed) == Err::<AbcModel, Seq<char>>(e@),
{
}

/// Offsets as integers are the same numbers in the same order.
pub proof fn offsets_keep_their_values(v: Seq<usize>, i: int)
    requires
        0 <= i < v.len(),
    ensures
        super::offsets(v).len() == v.len(),
        super::offsets(v)[i] == v[i],
{
}

} // verus!
