//! What the patch keeps of a file, and what its overrides lead to.
use swf::avm2::types::Exception;
use vstd::prelude::*;
use super::name_laws;
use super::{TableModel, CLASS_NAME, METHOD_NAME};
use crate::abc_model::{AbcModel, MultinameModel, OpModel, PoolModel, TraitModel};
use crate::constant_pool;

verus! {

/// Whether the multinames that a pool has beyond another's are in namespace sets.
pub open spec fn appends_in_namespace_sets(pool: PoolModel, later: PoolModel) -> bool {
    forall|i: int|
        pool.multinames.len() <= i < later.multinames.len()
            ==> #[trigger] later.multinames[i] is Multiname
}

/// Resolving symbols appends at most one string and one multiname for each.
proof fn lemma_symbols_extend(
    target: PoolModel,
    snippet: PoolModel,
    namespace_set: u32,
    symbols: Seq<Seq<char>>,
)
    ensures
        ({
            let pool = super::with_symbols(target, snippet, namespace_set, symbols).0;
            &&& target.extends_to(pool)
            &&& appends_in_namespace_sets(target, pool)
            &&& pool.strings.len() <= target.strings.len() + symbols.len()
            &&& pool.multinames.len() <= target.multinames.len() + symbols.len()
        }),
    decreases symbols.len(),
{
    if symbols.len() > 0 {
        lemma_symbols_extend(target, snippet, namespace_set, symbols.drop_last());
    }
}

/// Whatever comes of it, the patch only appends to the target's strings and
/// multinames, at most one of each per symbol, so that no index anywhere in the
/// file shifts. Of the rest of the file at most one method body is replaced, by
/// another body of the same method, and none unless the patch applies.
pub proof fn patch_keeps_every_index(target: AbcModel, snippet: AbcModel)
    ensures
        ({
            let (after, result) = super::applied_snippet(target, snippet);
            &&& target.constant_pool.extends_to(after.constant_pool)
            &&& appends_in_namespace_sets(target.constant_pool, after.constant_pool)
            &&& after.constant_pool.strings.len() <= target.constant_pool.strings.len()
                + super::symbols().len()
            &&& after.constant_pool.multinames.len() <= target.constant_pool.multinames.len()
                + super::symbols().len()
            &&& after == (AbcModel {
                constant_pool: after.constant_pool,
                method_bodies: after.method_bodies,
                ..target
            })
            &&& result != Ok::<bool, Seq<char>>(true) ==> after.method_bodies
                == target.method_bodies
            &&& result == Ok::<bool, Seq<char>>(false) ==> after == target
            &&& after.method_bodies.len() == target.method_bodies.len()
            &&& forall|i: int|
                0 <= i < target.method_bodies.len() ==> (#[trigger] after.method_bodies[i]).method
                    == target.method_bodies[i].method
        }),
{
    match super::own_namespace_set(target.constant_pool) {
        Ok(namespace_set) => {
            lemma_symbols_extend(
                target.constant_pool,
                snippet.constant_pool,
                namespace_set,
                super::symbols(),
            );
        },
        Err(_) => {},
    }
    match super::method_index(target, CLASS_NAME@, METHOD_NAME@) {
        Some(m) => {
            constant_pool::lemma_position(target.method_bodies, super::body_of(m));
        },
        None => {},
    }
}

/// The bytes of the string with this index.
pub open spec fn string_at(pool: PoolModel, index: u32) -> Option<Seq<u8>> {
    if 1 <= index <= pool.strings.len() {
        Some(pool.strings[index - 1])
    } else {
        None
    }
}

/// The bytes of the name of the multiname with this index.
pub open spec fn name_at(pool: PoolModel, index: u32) -> Option<Seq<u8>> {
    if 1 <= index <= pool.multinames.len() {
        match pool.multinames[index - 1].name_index() {
            Some(name_idx) => string_at(pool, name_idx),
            None => None,
        }
    } else {
        None
    }
}

/// Whether the multiname with this index gets its name at run time.
pub open spec fn is_late_bound_at(pool: PoolModel, index: u32) -> bool {
    1 <= index <= pool.multinames.len() && pool.multinames[index - 1] is MultinameL
}

/// Whether 32-bit indexes can number the strings and multinames of a pool.
pub open spec fn is_numbered(pool: PoolModel) -> bool {
    &&& pool.strings.len() <= u32::MAX
    &&& pool.multinames.len() <= u32::MAX
}

/// A symbol is resolved to a multiname with exactly that name.
pub proof fn resolved_multiname_has_the_name(
    pool: PoolModel,
    symbol: Seq<char>,
    namespace_set: u32,
)
    requires
        is_numbered(super::resolved(pool, symbol, namespace_set).0),
    ensures
        ({
            let (after, index) = super::resolved(pool, symbol, namespace_set);
            name_at(after, index) == Some(vstd::utf8::encode_utf8(symbol))
        }),
{
    let bytes = vstd::utf8::encode_utf8(symbol);
    constant_pool::lemma_position(pool.strings, constant_pool::equals(bytes));
    match pool.string_index(symbol) {
        Some(name_idx) => {
            constant_pool::lemma_position(
                pool.multinames,
                super::in_namespace_set(namespace_set, name_idx),
            );
            constant_pool::lemma_position(pool.multinames, constant_pool::named(name_idx));
        },
        None => {},
    }
}

/// Whether every override leads to a multiname of the same name.
pub open spec fn names_agree(
    overrides: Map<u32, u32>,
    target: PoolModel,
    snippet: PoolModel,
) -> bool {
    forall|k: u32| #[trigger]
        overrides.contains_key(k) ==> name_at(snippet, k) is Some && name_at(target, overrides[k])
            == name_at(snippet, k)
}

/// A multiname keeps its name when the pool grows.
proof fn lemma_name_kept(pool: PoolModel, later: PoolModel, index: u32)
    requires
        pool.extends_to(later),
        name_at(pool, index) is Some,
    ensures
        name_at(later, index) == name_at(pool, index),
{
}

/// All multinames with the name of a symbol have that name.
proof fn lemma_indexes_have_the_name(
    pool: PoolModel,
    symbol: Seq<char>,
    name_idx: u32,
    index: u32,
)
    requires
        is_numbered(pool),
        pool.string_index(symbol) == Some(name_idx),
        super::is_index_of_named(pool.multinames, name_idx, index),
    ensures
        name_at(pool, index) == Some(vstd::utf8::encode_utf8(symbol)),
{
    let bytes = vstd::utf8::encode_utf8(symbol);
    constant_pool::lemma_position(pool.strings, constant_pool::equals(bytes));
}

proof fn lemma_symbol_agrees(
    state: (PoolModel, Map<u32, u32>),
    snippet: PoolModel,
    namespace_set: u32,
    symbol: Seq<char>,
)
    requires
        is_numbered(super::with_symbol(state, snippet, namespace_set, symbol).0),
        is_numbered(snippet),
        names_agree(state.1, state.0, snippet),
    ensures
        ({
            let (pool, overrides) = super::with_symbol(state, snippet, namespace_set, symbol);
            names_agree(overrides, pool, snippet)
        }),
{
    let (before, old_overrides) = state;
    let (after, overrides) = super::with_symbol(state, snippet, namespace_set, symbol);
    assert forall|k: u32| #[trigger] overrides.contains_key(k) implies name_at(snippet, k) is Some
        && name_at(after, overrides[k]) == name_at(snippet, k) by {
        match snippet.string_index(symbol) {
            Some(name_idx) => {
                if super::is_index_of_named(snippet.multinames, name_idx, k) {
                    lemma_indexes_have_the_name(snippet, symbol, name_idx, k);
                    assert(constant_pool::position(
                        snippet.multinames,
                        constant_pool::named(name_idx),
                    ) is Some) by {
                        constant_pool::lemma_position(
                            snippet.multinames,
                            constant_pool::named(name_idx),
                        );
                    }
                    resolved_multiname_has_the_name(before, symbol, namespace_set);
                } else {
                    assert(old_overrides.contains_key(k));
                    lemma_name_kept(before, after, old_overrides[k]);
                }
            },
            None => {
                assert(old_overrides.contains_key(k));
            },
        }
    }
}

proof fn lemma_symbols_agree(
    target: PoolModel,
    snippet: PoolModel,
    namespace_set: u32,
    symbols: Seq<Seq<char>>,
)
    requires
        is_numbered(super::with_symbols(target, snippet, namespace_set, symbols).0),
        is_numbered(snippet),
    ensures
        ({
            let (pool, overrides) = super::with_symbols(target, snippet, namespace_set, symbols);
            names_agree(overrides, pool, snippet)
        }),
    decreases symbols.len(),
{
    if symbols.len() > 0 {
        let earlier = symbols.drop_last();
        lemma_symbols_agree(target, snippet, namespace_set, earlier);
        lemma_symbols_extend(target, snippet, namespace_set, earlier);
        lemma_symbol_agrees(
            super::with_symbols(target, snippet, namespace_set, earlier),
            snippet,
            namespace_set,
            symbols.last(),
        );
    }
}

/// Whether every override leads to a multiname of the same name or, from one that
/// gets its name at run time, to another such one.
pub open spec fn multinames_agree(
    overrides: Map<u32, u32>,
    target: PoolModel,
    snippet: PoolModel,
) -> bool {
    forall|k: u32| #[trigger]
        overrides.contains_key(k) ==> if is_late_bound_at(snippet, k) {
            is_late_bound_at(target, overrides[k])
        } else {
            name_at(snippet, k) is Some && name_at(target, overrides[k]) == name_at(snippet, k)
        }
}

/// Whether every override leads to an equal string.
pub open spec fn strings_agree(
    overrides: Map<u32, u32>,
    target: PoolModel,
    snippet: PoolModel,
) -> bool {
    forall|k: u32| #[trigger]
        overrides.contains_key(k) ==> string_at(snippet, k) is Some && string_at(
            target,
            overrides[k],
        ) == string_at(snippet, k)
}

proof fn lemma_byte_index_agrees(overrides: Map<u32, u32>, target: PoolModel, snippet: PoolModel)
    requires
        names_agree(overrides, target, snippet),
        is_numbered(target),
        is_numbered(snippet),
    ensures
        super::with_byte_index(overrides, target, snippet) matches Ok(multinames)
            ==> multinames_agree(multinames, target, snippet),
{
    constant_pool::lemma_position(snippet.multinames, super::late_bound());
    constant_pool::lemma_position(target.multinames, super::late_bound());
    assert(forall|k: u32| name_at(snippet, k) is Some ==> !is_late_bound_at(snippet, k));
}

proof fn lemma_literal_agrees(target: PoolModel, snippet: PoolModel)
    requires
        is_numbered(target),
        is_numbered(snippet),
    ensures
        super::literal_override(target, snippet) matches Ok(strings) ==> strings_agree(
            strings,
            target,
            snippet,
        ),
{
    let bytes = vstd::utf8::encode_utf8("handleMessage error: "@);
    constant_pool::lemma_position(snippet.strings, constant_pool::equals(bytes));
    constant_pool::lemma_position(target.strings, constant_pool::equals(bytes));
}

/// A table that was built leads from each multiname of the snippet to one of the
/// target that has the same name, or, from the one that gets its name at run
/// time, to another such one; and from each string to an equal one. (Pools that
/// their indexes cannot number are left out.)
pub proof fn overrides_keep_names(target: PoolModel, snippet: PoolModel)
    requires
        is_numbered(super::built(target, snippet).0),
        is_numbered(snippet),
    ensures
        ({
            let (pool, result) = super::built(target, snippet);
            result matches Ok(table) ==> {
                &&& multinames_agree(table.multinames, pool, snippet)
                &&& strings_agree(table.strings, pool, snippet)
            }
        }),
{
    match super::own_namespace_set(target) {
        Ok(namespace_set) => {
            lemma_symbols_agree(target, snippet, namespace_set, super::symbols());
            lemma_symbols_extend(target, snippet, namespace_set, super::symbols());
            let (pool, overrides) = super::with_symbols(
                target,
                snippet,
                namespace_set,
                super::symbols(),
            );
            lemma_byte_index_agrees(overrides, pool, snippet);
            lemma_literal_agrees(pool, snippet);
        },
        Err(_) => {},
    }
}

pub open spec fn without_override(table: TableModel) -> spec_fn(OpModel) -> bool {
    |op: OpModel| super::remapped(table, op) is Err
}

/// Remapping goes instruction by instruction: none is added, dropped or moved,
/// and where it fails it is for the first that has no override.
pub proof fn remapping_is_elementwise(table: TableModel, ops: Seq<OpModel>)
    ensures
        match constant_pool::position(ops, without_override(table)) {
            Some(i) => super::remapped_all(table, ops) == Err::<Seq<OpModel>, Seq<char>>(
                super::remapped(table, ops[i])->Err_0,
            ),
            None => {
                &&& super::remapped_all(table, ops) matches Ok(new_ops)
                &&& new_ops.len() == ops.len()
                &&& forall|i: int|
                    0 <= i < ops.len() ==> super::remapped(table, #[trigger] ops[i]) == Ok::<
                        OpModel,
                        Seq<char>,
                    >(new_ops[i])
            },
        },
    decreases ops.len(),
{
    let p = without_override(table);
    constant_pool::lemma_position(ops, p);
    if ops.len() > 0 {
        let earlier = ops.drop_last();
        remapping_is_elementwise(table, earlier);
        assert forall|i: int| 0 <= i < earlier.len() implies earlier[i] == #[trigger] ops[i] by {}
        match constant_pool::position(earlier, p) {
            Some(_) => {
                constant_pool::lemma_position_in_longer(earlier, ops, p);
                constant_pool::lemma_position(earlier, p);
            },
            None => {
                constant_pool::lemma_position(earlier, p);
                if p(ops.last()) {
                    constant_pool::lemma_position_is(ops, p, ops.len() - 1);
                } else {
                    assert forall|i: int| 0 <= i < ops.len() implies !p(#[trigger] ops[i]) by {
                        if i < earlier.len() {
                            assert(!p(earlier[i]));
                        }
                    }
                    constant_pool::lemma_position_none(ops, p);
                }
            },
        }
    }
}

/// Where the patch applies, it replaces the body of `handleSocketData` and no
/// other. The new body takes the place and the method of the old one, is as large
/// as the snippet's, and has one exception handler, which catches what the old one
/// caught. A search of the patched file finds the same method and the same body.
pub proof fn applied_patch_replaces_one_body(target: AbcModel, snippet: AbcModel)
    requires
        super::applied_snippet(target, snippet).1 == Ok::<bool, Seq<char>>(true),
    ensures
        ({
            let after = super::applied_snippet(target, snippet).0;
            let m = super::method_index(target, CLASS_NAME@, METHOD_NAME@)->Some_0;
            let b = super::target_body(target, m)->Ok_0;
            let old_body = target.method_bodies[b];
            let new_body = after.method_bodies[b];
            let body = super::snippet_body(snippet)->Ok_0;
            &&& super::method_index(after, CLASS_NAME@, METHOD_NAME@) == Some(m)
            &&& super::target_body(after, m) == Ok::<int, Seq<char>>(b)
            &&& 0 <= b < target.method_bodies.len()
            &&& forall|i: int|
                0 <= i < target.method_bodies.len() && i != b ==> #[trigger] after.method_bodies[i]
                    == target.method_bodies[i]
            &&& new_body.method == old_body.method
            &&& new_body.max_stack == body.max_stack
            &&& new_body.num_locals == body.num_locals
            &&& new_body.init_scope_depth == body.init_scope_depth
            &&& new_body.max_scope_depth == body.max_scope_depth
            &&& new_body.traits == body.traits
            &&& new_body.exceptions.len() == 1
            &&& old_body.exceptions[0] == (Exception {
                from_offset: old_body.exceptions[0].from_offset,
                to_offset: old_body.exceptions[0].to_offset,
                target_offset: old_body.exceptions[0].target_offset,
                ..new_body.exceptions[0]
            })
        }),
{
    let after = super::applied_snippet(target, snippet).0;
    let m = super::method_index(target, CLASS_NAME@, METHOD_NAME@)->Some_0;
    let b = super::target_body(target, m)->Ok_0;
    patch_keeps_every_index(target, snippet);
    constant_pool::lemma_position(target.method_bodies, super::body_of(m));
    assert forall|j: int| 0 <= j < b implies !super::body_of(m)(
        #[trigger] after.method_bodies[j],
    ) by {
        assert(!super::body_of(m)(target.method_bodies[j]));
    }
    constant_pool::lemma_position_is(after.method_bodies, super::body_of(m), b);
    lemma_method_found_in_longer(target, after, CLASS_NAME@, METHOD_NAME@);
}

/// A method that is found in a file is found in the file with a larger pool.
proof fn lemma_method_found_in_longer(
    abc: AbcModel,
    later: AbcModel,
    class_name: Seq<char>,
    name: Seq<char>,
)
    requires
        abc.constant_pool.extends_to(later.constant_pool),
        appends_in_namespace_sets(abc.constant_pool, later.constant_pool),
        abc.instances == later.instances,
        super::method_index(abc, class_name, name) is Some,
    ensures
        super::method_index(later, class_name, name) == super::method_index(abc, class_name, name),
{
    let pool = abc.constant_pool;
    let later_pool = later.constant_pool;
    constant_pool::lemma_position_in_longer(
        pool.strings,
        later_pool.strings,
        constant_pool::equals(vstd::utf8::encode_utf8(class_name)),
    );
    constant_pool::lemma_position_in_longer(
        pool.strings,
        later_pool.strings,
        constant_pool::equals(vstd::utf8::encode_utf8(name)),
    );
    let class_name_idx = pool.string_index(class_name)->Some_0;
    constant_pool::lemma_position_in_longer(
        pool.multinames,
        later_pool.multinames,
        constant_pool::qname(class_name_idx),
    );
    let class_idx = pool.multiname_index(constant_pool::qname(class_name_idx))->Some_0;
    let i = constant_pool::position(
        abc.instances,
        constant_pool::instance_named(class_idx),
    )->Some_0;
    let traits = abc.instances[i].traits;
    let name_idx = pool.string_index(name)->Some_0;
    let p = super::method_named(pool.multinames, name_idx);
    let later_p = super::method_named(later_pool.multinames, name_idx);
    assert forall|t: TraitModel| #[trigger] p(t) == later_p(t) by {}
    constant_pool::lemma_position(traits, p);
    let t = constant_pool::position(traits, p)->Some_0;
    assert forall|j: int| 0 <= j < t implies !later_p(#[trigger] traits[j]) by {
        assert(!p(traits[j]));
    }
    assert(p(traits[t]));
    constant_pool::lemma_position_is(traits, later_p, t);
}

/// Whether a multiname is under this namespace set and has for its name a string index
/// above `len` and up to `limit`.
pub open spec fn awaits_name(m: MultinameModel, namespace_set: u32, len: nat, limit: nat) -> bool {
    m matches MultinameModel::Multiname { namespace_set: set, name } && set.0 == namespace_set
        && len < name.0 <= limit
}

/// Whether no multiname under this namespace set has for its name one of the string
/// indexes behind the pool, up to `limit`.
pub open spec fn no_name_awaits(pool: PoolModel, namespace_set: u32, limit: nat) -> bool {
    forall|i: int|
        0 <= i < pool.multinames.len() ==> !awaits_name(
            #[trigger] pool.multinames[i],
            namespace_set,
            pool.strings.len(),
            limit,
        )
}

/// Whether a symbol has been resolved to this index, so that resolving it appends
/// nothing.
spec fn settled(pool: PoolModel, symbol: Seq<char>, namespace_set: u32, index: u32) -> bool {
    super::resolved(pool, symbol, namespace_set) == (pool, index)
}

/// Whether the snippet has a multiname for a symbol.
spec fn is_used(snippet: PoolModel, symbol: Seq<char>) -> bool {
    snippet.string_index(symbol) matches Some(name_idx) && snippet.multiname_index(
        constant_pool::named(name_idx),
    ) is Some
}

proof fn lemma_position_with_last<T>(s: Seq<T>, x: T, p: spec_fn(T) -> bool)
    ensures
        constant_pool::position(s.push(x), p) == match constant_pool::position(s, p) {
            Some(i) => Some(i),
            None => if p(x) {
                Some(s.len() as int)
            } else {
                None
            },
        },
{
    let longer = s.push(x);
    constant_pool::lemma_position(s, p);
    match constant_pool::position(s, p) {
        Some(_) => {
            constant_pool::lemma_position_in_longer(s, longer, p);
        },
        None => {
            assert forall|j: int| 0 <= j < s.len() implies !p(#[trigger] longer[j]) by {
                assert(longer[j] == s[j]);
            }
            assert(longer[s.len() as int] == x);
            if p(x) {
                constant_pool::lemma_position_is(longer, p, s.len() as int);
            } else {
                constant_pool::lemma_position_none(longer, p);
            }
        },
    }
}

/// Resolving a symbol again gives the same index and appends nothing. (Left out are
/// pools that their indexes cannot number, and a pool that gets a new string where a
/// multiname under the namespace set already has that string's index for its name.)
pub proof fn resolving_again_appends_nothing(pool: PoolModel, symbol: Seq<char>, namespace_set: u32)
    requires
        ({
            let after = super::resolved(pool, symbol, namespace_set).0;
            &&& is_numbered(after)
            &&& no_name_awaits(pool, namespace_set, after.strings.len())
        }),
    ensures
        ({
            let (after, index) = super::resolved(pool, symbol, namespace_set);
            super::resolved(after, symbol, namespace_set) == (after, index)
        }),
{
    let (after, index) = super::resolved(pool, symbol, namespace_set);
    let bytes = vstd::utf8::encode_utf8(symbol);
    constant_pool::lemma_position(pool.strings, constant_pool::equals(bytes));
    match pool.string_index(symbol) {
        Some(name_idx) => {
            let own = super::in_namespace_set(namespace_set, name_idx);
            if after.multinames.len() > pool.multinames.len() {
                lemma_position_with_last(
                    pool.multinames,
                    super::multiname_in(namespace_set, name_idx),
                    own,
                );
            }
        },
        None => {
            let name_idx = constant_pool::pool_index(pool.strings.len() as int);
            let own = super::in_namespace_set(namespace_set, name_idx);
            lemma_position_with_last(pool.strings, bytes, constant_pool::equals(bytes));
            assert forall|j: int| 0 <= j < pool.multinames.len() implies !own(
                #[trigger] pool.multinames[j],
            ) by {}
            constant_pool::lemma_position_none(pool.multinames, own);
            lemma_position_with_last(
                pool.multinames,
                super::multiname_in(namespace_set, name_idx),
                own,
            );
        },
    }
}

/// What is appended for a symbol has its own string for its name.
proof fn lemma_still_no_name_awaits(
    pool: PoolModel,
    symbol: Seq<char>,
    namespace_set: u32,
    limit: nat,
)
    requires
        is_numbered(super::resolved(pool, symbol, namespace_set).0),
        no_name_awaits(pool, namespace_set, limit),
    ensures
        no_name_awaits(super::resolved(pool, symbol, namespace_set).0, namespace_set, limit),
{
    let after = super::resolved(pool, symbol, namespace_set).0;
    let bytes = vstd::utf8::encode_utf8(symbol);
    constant_pool::lemma_position(pool.strings, constant_pool::equals(bytes));
    assert forall|i: int| 0 <= i < after.multinames.len() implies !awaits_name(
        #[trigger] after.multinames[i],
        namespace_set,
        after.strings.len(),
        limit,
    ) by {
        if i < pool.multinames.len() {
            assert(after.multinames[i] == pool.multinames[i]);
        }
    }
}

/// Resolving one symbol leaves another settled.
proof fn lemma_settled_stays(
    pool: PoolModel,
    symbol: Seq<char>,
    namespace_set: u32,
    index: u32,
    other: Seq<char>,
)
    requires
        settled(pool, symbol, namespace_set, index),
        is_numbered(super::resolved(pool, other, namespace_set).0),
        symbol != other,
    ensures
        settled(super::resolved(pool, other, namespace_set).0, symbol, namespace_set, index),
{
    let after = super::resolved(pool, other, namespace_set).0;
    let bytes = vstd::utf8::encode_utf8(symbol);
    let other_bytes = vstd::utf8::encode_utf8(other);
    assert(bytes != other_bytes) by {
        vstd::utf8::encode_utf8_decode_utf8(symbol);
        vstd::utf8::encode_utf8_decode_utf8(other);
    }
    constant_pool::lemma_position(pool.strings, constant_pool::equals(bytes));
    constant_pool::lemma_position(pool.strings, constant_pool::equals(other_bytes));
    assert(pool.string_index(symbol) is Some) by {
        if pool.string_index(symbol) is None {
            let appended = super::resolved(pool, symbol, namespace_set).0;
            assert(appended.strings.len() == pool.strings.len() + 1);
        }
    }
    let name_idx = pool.string_index(symbol)->Some_0;
    constant_pool::lemma_position_in_longer(
        pool.strings,
        after.strings,
        constant_pool::equals(bytes),
    );
    if after.multinames.len() > pool.multinames.len() {
        let appended = after.multinames.last();
        assert(after.multinames =~= pool.multinames.push(appended));
        assert(appended.name_index() != Some(name_idx));
        lemma_position_with_last(
            pool.multinames,
            appended,
            super::in_namespace_set(namespace_set, name_idx),
        );
        lemma_position_with_last(pool.multinames, appended, constant_pool::named(name_idx));
        assert(pool.multiname_index(constant_pool::named(name_idx)) is Some || pool.multiname_index(
            super::in_namespace_set(namespace_set, name_idx),
        ) is Some) by {
            if pool.multiname_index(constant_pool::named(name_idx)) is None
                && pool.multiname_index(super::in_namespace_set(namespace_set, name_idx)) is None {
                assert(super::resolved(pool, symbol, namespace_set).0.multinames.len()
                    == pool.multinames.len() + 1);
            }
        }
    }
}

/// The index to which the `i`th of these symbols is resolved.
spec fn resolved_index(
    target: PoolModel,
    snippet: PoolModel,
    namespace_set: u32,
    symbols: Seq<Seq<char>>,
    i: int,
) -> u32 {
    super::resolved(
        super::with_symbols(target, snippet, namespace_set, symbols.take(i)).0,
        symbols[i],
        namespace_set,
    ).1
}

/// Whether each symbol that the snippet uses is settled in `pool`, at the index to
/// which it was resolved.
spec fn all_settled(
    pool: PoolModel,
    target: PoolModel,
    snippet: PoolModel,
    namespace_set: u32,
    symbols: Seq<Seq<char>>,
) -> bool {
    forall|i: int|
        0 <= i < symbols.len() && is_used(snippet, #[trigger] symbols[i]) ==> settled(
            pool,
            symbols[i],
            namespace_set,
            resolved_index(target, snippet, namespace_set, symbols, i),
        )
}

proof fn lemma_all_settled(
    target: PoolModel,
    snippet: PoolModel,
    namespace_set: u32,
    symbols: Seq<Seq<char>>,
    limit: nat,
)
    requires
        ({
            let pool = super::with_symbols(target, snippet, namespace_set, symbols).0;
            is_numbered(pool) && pool.strings.len() <= limit
        }),
        no_name_awaits(target, namespace_set, limit),
        symbols.no_duplicates(),
    ensures
        ({
            let pool = super::with_symbols(target, snippet, namespace_set, symbols).0;
            &&& no_name_awaits(pool, namespace_set, limit)
            &&& all_settled(pool, target, snippet, namespace_set, symbols)
        }),
    decreases symbols.len(),
{
    if symbols.len() > 0 {
        let earlier = symbols.drop_last();
        let symbol = symbols.last();
        let before = super::with_symbols(target, snippet, namespace_set, earlier).0;
        let pool = super::with_symbols(target, snippet, namespace_set, symbols).0;
        lemma_all_settled(target, snippet, namespace_set, earlier, limit);
        if is_used(snippet, symbol) {
            resolving_again_appends_nothing(before, symbol, namespace_set);
            lemma_still_no_name_awaits(before, symbol, namespace_set, limit);
        }
        assert(symbols.take(symbols.len() - 1) =~= earlier);
        assert forall|i: int|
            0 <= i < symbols.len() && is_used(snippet, #[trigger] symbols[i]) implies settled(
            pool,
            symbols[i],
            namespace_set,
            resolved_index(target, snippet, namespace_set, symbols, i),
        ) by {
            if i < earlier.len() {
                assert(earlier[i] == symbols[i]);
                assert(earlier.take(i) =~= symbols.take(i));
                assert(symbols[i] != symbols[symbols.len() - 1]);
                if is_used(snippet, symbol) {
                    lemma_settled_stays(
                        before,
                        symbols[i],
                        namespace_set,
                        resolved_index(target, snippet, namespace_set, symbols, i),
                        symbol,
                    );
                }
            }
        }
    }
}

/// Resolving symbols that are settled appends nothing and gives the same overrides.
proof fn lemma_resolving_again(
    pool: PoolModel,
    target: PoolModel,
    snippet: PoolModel,
    namespace_set: u32,
    symbols: Seq<Seq<char>>,
)
    requires
        all_settled(pool, target, snippet, namespace_set, symbols),
    ensures
        super::with_symbols(pool, snippet, namespace_set, symbols) == (
            pool,
            super::with_symbols(target, snippet, namespace_set, symbols).1,
        ),
    decreases symbols.len(),
{
    if symbols.len() > 0 {
        let earlier = symbols.drop_last();
        assert forall|i: int|
            0 <= i < earlier.len() && is_used(snippet, #[trigger] earlier[i]) implies settled(
            pool,
            earlier[i],
            namespace_set,
            resolved_index(target, snippet, namespace_set, earlier, i),
        ) by {
            assert(earlier[i] == symbols[i]);
            assert(earlier.take(i) =~= symbols.take(i));
        }
        lemma_resolving_again(pool, target, snippet, namespace_set, earlier);
        assert(symbols.take(symbols.len() - 1) =~= earlier);
        assert(symbols[symbols.len() - 1] == symbols.last());
    }
}

proof fn lemma_symbols_are_distinct()
    ensures
        super::symbols().no_duplicates(),
{
    reveal_strlit("ByteArray");
    reveal_strlit("socketConnection");
    reveal_strlit("bytesAvailable");
    reveal_strlit("readBytes");
    reveal_strlit("length");
    reveal_strlit("byteBuffer");
    reveal_strlit("writeBytes");
    reveal_strlit("toString");
    reveal_strlit("clear");
    reveal_strlit("handleMessage");
    reveal_strlit("message");
    reveal_strlit("debugMessage");
    reveal_strlit("int");
    let lens = seq![9nat, 16, 14, 9, 6, 10, 10, 8, 5, 13, 7, 12, 3];
    assert forall|i: int| 0 <= i < 13 implies #[trigger] super::symbols()[i].len() == lens[i] by {}
    assert("ByteArray"@[0] != "readBytes"@[0]);
    assert("byteBuffer"@[0] != "writeBytes"@[0]);
    assert forall|i: int, j: int| 0 <= i < j < 13 implies #[trigger] super::symbols()[i]
        != #[trigger] super::symbols()[j] by {
        assert(super::symbols()[i].len() == lens[i]);
        assert(super::symbols()[j].len() == lens[j]);
    }
}

/// Building the table again, in the pool that the first time left, appends nothing
/// and gives the same table.
proof fn lemma_building_again(target: PoolModel, snippet: PoolModel)
    requires
        super::built(target, snippet).1 is Ok,
        is_numbered(super::built(target, snippet).0),
        no_name_awaits(
            target,
            super::own_namespace_set(target)->Ok_0,
            super::built(target, snippet).0.strings.len(),
        ),
    ensures
        super::built(super::built(target, snippet).0, snippet) == super::built(target, snippet),
{
    let namespace_set = super::own_namespace_set(target)->Ok_0;
    let pool = super::with_symbols(target, snippet, namespace_set, super::symbols()).0;
    let bytes = vstd::utf8::encode_utf8("socketConnection"@);
    let name_idx = target.string_index("socketConnection"@)->Some_0;
    lemma_symbols_extend(target, snippet, namespace_set, super::symbols());
    constant_pool::lemma_position_in_longer(
        target.strings,
        pool.strings,
        constant_pool::equals(bytes),
    );
    constant_pool::lemma_position_in_longer(
        target.multinames,
        pool.multinames,
        super::in_any_namespace_set(name_idx),
    );
    constant_pool::lemma_position(target.multinames, super::in_any_namespace_set(name_idx));
    assert(super::own_namespace_set(pool) == super::own_namespace_set(target));
    lemma_symbols_are_distinct();
    lemma_all_settled(target, snippet, namespace_set, super::symbols(), pool.strings.len());
    lemma_resolving_again(pool, target, snippet, namespace_set, super::symbols());
}

/// Applying the patch to a patched file leaves it as it is. (Left out are pools
/// that their indexes cannot number, and pools that get a new string where a multiname
/// under the class's own namespace set already has that string's index for its name.)
pub proof fn applying_again_changes_nothing(target: AbcModel, snippet: AbcModel)
    requires
        super::applied_snippet(target, snippet).1 == Ok::<bool, Seq<char>>(true),
        ({
            let pool = super::applied_snippet(target, snippet).0.constant_pool;
            &&& is_numbered(pool)
            &&& no_name_awaits(
                target.constant_pool,
                super::own_namespace_set(target.constant_pool)->Ok_0,
                pool.strings.len(),
            )
        }),
    ensures
        ({
            let after = super::applied_snippet(target, snippet).0;
            super::applied_snippet(after, snippet) == (after, Ok::<bool, Seq<char>>(true))
        }),
{
    let after = super::applied_snippet(target, snippet).0;
    let m = super::method_index(target, CLASS_NAME@, METHOD_NAME@)->Some_0;
    let b = super::target_body(target, m)->Ok_0;
    let body = super::snippet_body(snippet)->Ok_0;
    applied_patch_replaces_one_body(target, snippet);
    lemma_building_again(target.constant_pool, snippet.constant_pool);
    constant_pool::lemma_position(target.method_bodies, super::body_of(m));
    assert(after.method_bodies.update(b, after.method_bodies[b]) =~= after.method_bodies);
}

/// A multiname has one name.
proof fn lemma_symbol_of_index_is_unique(
    snippet: PoolModel,
    symbol: Seq<char>,
    other: Seq<char>,
    index: u32,
)
    requires
        is_numbered(snippet),
        snippet.string_index(symbol) matches Some(n) && super::is_index_of_named(
            snippet.multinames,
            n,
            index,
        ),
        snippet.string_index(other) matches Some(n) && super::is_index_of_named(
            snippet.multinames,
            n,
            index,
        ),
    ensures
        symbol == other,
{
    let name_idx = snippet.string_index(symbol)->Some_0;
    let other_idx = snippet.string_index(other)->Some_0;
    lemma_indexes_have_the_name(snippet, symbol, name_idx, index);
    lemma_indexes_have_the_name(snippet, other, other_idx, index);
    vstd::utf8::encode_utf8_decode_utf8(symbol);
    vstd::utf8::encode_utf8_decode_utf8(other);
}

/// Whether every multiname of a symbol is overridden by this one.
spec fn is_covered(
    overrides: Map<u32, u32>,
    snippet: PoolModel,
    symbol: Seq<char>,
    target_idx: u32,
) -> bool {
    snippet.string_index(symbol) matches Some(name_idx) ==> forall|k: u32|
        super::is_index_of_named(snippet.multinames, name_idx, k)
            ==> #[trigger] overrides.contains_key(k) && overrides[k] == target_idx
}

proof fn lemma_symbols_covered(
    target: PoolModel,
    snippet: PoolModel,
    namespace_set: u32,
    symbols: Seq<Seq<char>>,
    i: int,
)
    requires
        is_numbered(snippet),
        symbols.no_duplicates(),
        0 <= i < symbols.len(),
    ensures
        is_covered(
            super::with_symbols(target, snippet, namespace_set, symbols).1,
            snippet,
            symbols[i],
            resolved_index(target, snippet, namespace_set, symbols, i),
        ),
    decreases symbols.len(),
{
    let earlier = symbols.drop_last();
    let last = symbols.last();
    let overrides = super::with_symbols(target, snippet, namespace_set, symbols).1;
    assert(symbols.take(symbols.len() - 1) =~= earlier);
    if snippet.string_index(symbols[i]) is Some {
        let name_idx = snippet.string_index(symbols[i])->Some_0;
        if i < earlier.len() {
            assert(earlier[i] == symbols[i]);
            assert(earlier.take(i) =~= symbols.take(i));
            lemma_symbols_covered(target, snippet, namespace_set, earlier, i);
        }
        assert forall|k: u32|
            super::is_index_of_named(
                snippet.multinames,
                name_idx,
                k,
            ) implies #[trigger] overrides.contains_key(k) && overrides[k] == resolved_index(
            target,
            snippet,
            namespace_set,
            symbols,
            i,
        ) by {
            if i < earlier.len() {
                assert(symbols[i] != symbols[symbols.len() - 1]);
                let before = super::with_symbols(target, snippet, namespace_set, earlier).1;
                assert(before.contains_key(k));
                if let Some(n) = snippet.string_index(last) {
                    if super::is_index_of_named(snippet.multinames, n, k) {
                        lemma_symbol_of_index_is_unique(snippet, symbols[i], last, k);
                    }
                }
            } else {
                constant_pool::lemma_position(
                    snippet.multinames,
                    constant_pool::named(name_idx),
                );
            }
        }
    }
}

/// Where a table was built, it overrides every multiname that the snippet has for a
/// symbol, and all of them by the same one of the target. (A snippet pool that its
/// indexes cannot number is left out.)
pub proof fn all_multinames_of_a_symbol_are_overridden(
    target: PoolModel,
    snippet: PoolModel,
    i: int,
    k: u32,
    other: u32,
)
    requires
        is_numbered(snippet),
        0 <= i < super::symbols().len(),
        snippet.string_index(super::symbols()[i]) matches Some(name_idx)
            && super::is_index_of_named(snippet.multinames, name_idx, k)
            && super::is_index_of_named(snippet.multinames, name_idx, other),
    ensures
        super::built(target, snippet).1 matches Ok(table) ==> {
            &&& table.multinames.contains_key(k)
            &&& table.multinames.contains_key(other)
            &&& table.multinames[k] == table.multinames[other]
        },
{
    if let Ok(namespace_set) = super::own_namespace_set(target) {
        lemma_symbols_are_distinct();
        lemma_symbols_covered(target, snippet, namespace_set, super::symbols(), i);
        constant_pool::lemma_position(snippet.multinames, super::late_bound());
        let (pool, overrides) = super::with_symbols(
            target,
            snippet,
            namespace_set,
            super::symbols(),
        );
        assert(overrides.contains_key(k) && overrides.contains_key(other));
    }
}

proof fn lemma_symbol_is_overridden(
    target: PoolModel,
    snippet: PoolModel,
    k: u32,
    name_idx: u32,
    i: int,
)
    requires
        is_numbered(snippet),
        1 <= k <= snippet.multinames.len(),
        name_laws::has_name(snippet.multinames[k - 1], name_idx),
        0 <= i < super::symbols().len(),
        name_laws::is_first_text(snippet, name_idx, super::symbols()[i]),
    ensures
        super::built(target, snippet).1 matches Ok(table) ==> table.multinames.contains_key(k),
{
    constant_pool::first_string_is_found(snippet.strings, super::symbols()[i], name_idx);
    assert(constant_pool::pool_index(k - 1) == k);
    assert(snippet.multinames[k - 1].name_index() == Some(name_idx));
    assert(super::is_index_of_named(snippet.multinames, name_idx, k));
    all_multinames_of_a_symbol_are_overridden(target, snippet, i, k, k);
}

/// Where a table was built, every multiname of the snippet whose name is one of those
/// that the replacement body is written with has an override. (A multiname by another
/// string than the first of its text is left out, and a pool that its indexes cannot
/// number.)
pub proof fn every_name_of_the_body_is_overridden(
    target: PoolModel,
    snippet: PoolModel,
    k: u32,
    name_idx: u32,
)
    requires
        is_numbered(snippet),
        1 <= k <= snippet.multinames.len(),
        name_laws::has_name(snippet.multinames[k - 1], name_idx),
        1 <= name_idx <= snippet.strings.len(),
        forall|j: int|
            0 <= j < name_idx - 1 ==> #[trigger] snippet.strings[j] != snippet.strings[name_idx
                - 1],
        ({
            let bytes = snippet.strings[name_idx - 1];
            ||| bytes == vstd::utf8::encode_utf8("ByteArray"@)
            ||| bytes == vstd::utf8::encode_utf8("socketConnection"@)
            ||| bytes == vstd::utf8::encode_utf8("bytesAvailable"@)
            ||| bytes == vstd::utf8::encode_utf8("readBytes"@)
            ||| bytes == vstd::utf8::encode_utf8("length"@)
            ||| bytes == vstd::utf8::encode_utf8("byteBuffer"@)
            ||| bytes == vstd::utf8::encode_utf8("writeBytes"@)
            ||| bytes == vstd::utf8::encode_utf8("toString"@)
            ||| bytes == vstd::utf8::encode_utf8("clear"@)
            ||| bytes == vstd::utf8::encode_utf8("handleMessage"@)
            ||| bytes == vstd::utf8::encode_utf8("message"@)
            ||| bytes == vstd::utf8::encode_utf8("debugMessage"@)
            ||| bytes == vstd::utf8::encode_utf8("int"@)
        }),
    ensures
        super::built(target, snippet).1 matches Ok(table) ==> table.multinames.contains_key(k),
{
    let bytes = snippet.strings[name_idx - 1];
    if bytes == vstd::utf8::encode_utf8("ByteArray"@) {
        lemma_symbol_is_overridden(target, snippet, k, name_idx, 0);
    }
    if bytes == vstd::utf8::encode_utf8("socketConnection"@) {
        lemma_symbol_is_overridden(target, snippet, k, name_idx, 1);
    }
    if bytes == vstd::utf8::encode_utf8("bytesAvailable"@) {
        lemma_symbol_is_overridden(target, snippet, k, name_idx, 2);
    }
    if bytes == vstd::utf8::encode_utf8("readBytes"@) {
        lemma_symbol_is_overridden(target, snippet, k, name_idx, 3);
    }
    if bytes == vstd::utf8::encode_utf8("length"@) {
        lemma_symbol_is_overridden(target, snippet, k, name_idx, 4);
    }
    if bytes == vstd::utf8::encode_utf8("byteBuffer"@) {
        lemma_symbol_is_overridden(target, snippet, k, name_idx, 5);
    }
    if bytes == vstd::utf8::encode_utf8("writeBytes"@) {
        lemma_symbol_is_overridden(target, snippet, k, name_idx, 6);
    }
    if bytes == vstd::utf8::encode_utf8("toString"@) {
        lemma_symbol_is_overridden(target, snippet, k, name_idx, 7);
    }
    if bytes == vstd::utf8::encode_utf8("clear"@) {
        lemma_symbol_is_overridden(target, snippet, k, name_idx, 8);
    }
    if bytes == vstd::utf8::encode_utf8("handleMessage"@) {
        lemma_symbol_is_overridden(target, snippet, k, name_idx, 9);
    }
    if bytes == vstd::utf8::encode_utf8("message"@) {
        lemma_symbol_is_overridden(target, snippet, k, name_idx, 10);
    }
    if bytes == vstd::utf8::encode_utf8("debugMessage"@) {
        lemma_symbol_is_overridden(target, snippet, k, name_idx, 11);
    }
    if bytes == vstd::utf8::encode_utf8("int"@) {
        lemma_symbol_is_overridden(target, snippet, k, name_idx, 12);
    }
}

/// Whether a multiname has the name of one of these symbols, as a string of the pool.
spec fn is_named_by(pool: PoolModel, m: MultinameModel, symbols: Seq<Seq<char>>) -> bool {
    exists|j: int, name_idx: u32|
        0 <= j < symbols.len() && name_laws::has_name(m, name_idx) && #[trigger]
        name_laws::holds_text(pool, name_idx, symbols[j])
}

proof fn lemma_keys_are_named(
    target: PoolModel,
    snippet: PoolModel,
    namespace_set: u32,
    symbols: Seq<Seq<char>>,
    k: u32,
)
    requires
        is_numbered(snippet),
        super::with_symbols(target, snippet, namespace_set, symbols).1.contains_key(k),
    ensures
        1 <= k <= snippet.multinames.len(),
        is_named_by(snippet, snippet.multinames[k - 1], symbols),
    decreases symbols.len(),
{
    let earlier = symbols.drop_last();
    let before = super::with_symbols(target, snippet, namespace_set, earlier).1;
    if before.contains_key(k) {
        lemma_keys_are_named(target, snippet, namespace_set, earlier, k);
        let (j, name_idx) = choose|j: int, name_idx: u32|
            0 <= j < earlier.len() && name_laws::has_name(snippet.multinames[k - 1], name_idx)
                && #[trigger] name_laws::holds_text(snippet, name_idx, earlier[j]);
        assert(name_laws::holds_text(snippet, name_idx, symbols[j]));
    } else {
        let symbol = symbols.last();
        let name_idx = snippet.string_index(symbol)->Some_0;
        constant_pool::found_string_holds_the_text(snippet.strings, symbol);
        let i = choose|i: int|
            0 <= i < snippet.multinames.len() && constant_pool::pool_index(i) == k && (
            #[trigger] snippet.multinames[i]).name_index() == Some(name_idx);
        assert(k == i + 1);
        assert(name_laws::has_name(snippet.multinames[k - 1], name_idx));
        assert(name_laws::holds_text(snippet, name_idx, symbols[symbols.len() - 1]));
    }
}

/// Nothing else has an override: a multiname of the snippet that has one has one of
/// those names, or gets its name at run time.
pub proof fn nothing_else_is_overridden(target: PoolModel, snippet: PoolModel, k: u32)
    requires
        is_numbered(snippet),
        super::built(target, snippet).1 matches Ok(table) && table.multinames.contains_key(k),
    ensures
        1 <= k <= snippet.multinames.len(),
        snippet.multinames[k - 1] is MultinameL || exists|name_idx: u32| #[trigger]
            name_laws::has_name(snippet.multinames[k - 1], name_idx) && 1 <= name_idx
                <= snippet.strings.len() && ({
                let bytes = snippet.strings[name_idx - 1];
                ||| bytes == vstd::utf8::encode_utf8("ByteArray"@)
                ||| bytes == vstd::utf8::encode_utf8("socketConnection"@)
                ||| bytes == vstd::utf8::encode_utf8("bytesAvailable"@)
                ||| bytes == vstd::utf8::encode_utf8("readBytes"@)
                ||| bytes == vstd::utf8::encode_utf8("length"@)
                ||| bytes == vstd::utf8::encode_utf8("byteBuffer"@)
                ||| bytes == vstd::utf8::encode_utf8("writeBytes"@)
                ||| bytes == vstd::utf8::encode_utf8("toString"@)
                ||| bytes == vstd::utf8::encode_utf8("clear"@)
                ||| bytes == vstd::utf8::encode_utf8("handleMessage"@)
                ||| bytes == vstd::utf8::encode_utf8("message"@)
                ||| bytes == vstd::utf8::encode_utf8("debugMessage"@)
                ||| bytes == vstd::utf8::encode_utf8("int"@)
            }),
{
    constant_pool::lemma_position(snippet.multinames, super::late_bound());
    let namespace_set = super::own_namespace_set(target)->Ok_0;
    let overrides = super::with_symbols(target, snippet, namespace_set, super::symbols()).1;
    if overrides.contains_key(k) {
        lemma_keys_are_named(target, snippet, namespace_set, super::symbols(), k);
        let (j, name_idx) = choose|j: int, name_idx: u32|
            0 <= j < super::symbols().len() && name_laws::has_name(
                snippet.multinames[k - 1],
                name_idx,
            ) && #[trigger] name_laws::holds_text(snippet, name_idx, super::symbols()[j]);
        assert(name_laws::has_name(snippet.multinames[k - 1], name_idx));
    }
}

/// The multiname by which the snippet indexes bytes at run time, its first `MultinameL`,
/// is overridden by the target's first `MultinameL`.
pub proof fn byte_index_is_overridden(target: PoolModel, snippet: PoolModel, i: int)
    requires
        is_numbered(super::built(target, snippet).0),
        is_numbered(snippet),
        0 <= i < snippet.multinames.len(),
        snippet.multinames[i] is MultinameL,
        forall|j: int| 0 <= j < i ==> !(#[trigger] snippet.multinames[j] is MultinameL),
    ensures
        super::built(target, snippet).1 matches Ok(table) ==> {
            let k = (i + 1) as u32;
            &&& table.multinames.contains_key(k)
            &&& 1 <= table.multinames[k] <= target.multinames.len()
            &&& target.multinames[table.multinames[k] - 1] is MultinameL
            &&& forall|j: int|
                0 <= j < table.multinames[k] - 1 ==> !(
                #[trigger] target.multinames[j] is MultinameL)
        },
{
    if let Ok(table) = super::built(target, snippet).1 {
        let namespace_set = super::own_namespace_set(target)->Ok_0;
        let pool = super::with_symbols(target, snippet, namespace_set, super::symbols()).0;
        lemma_symbols_extend(target, snippet, namespace_set, super::symbols());
        let p = super::late_bound();
        assert forall|j: int| 0 <= j < i implies !p(#[trigger] snippet.multinames[j]) by {
            assert(!(snippet.multinames[j] is MultinameL));
        }
        constant_pool::lemma_position_is(snippet.multinames, p, i);
        constant_pool::lemma_position(pool.multinames, p);
        let t = constant_pool::position(pool.multinames, p)->Some_0;
        assert(t < target.multinames.len()) by {
            if t >= target.multinames.len() {
                assert(pool.multinames[t] is Multiname);
            }
        }
        assert forall|j: int| 0 <= j < t implies !(
        #[trigger] target.multinames[j] is MultinameL) by {
            assert(pool.multinames[j] == target.multinames[j]);
            assert(!p(pool.multinames[j]));
        }
        assert(pool.multinames[t] == target.multinames[t]);
    }
}

/// The only string with an override is that of the error log, by the first of its text
/// on both sides.
pub proof fn error_text_is_overridden(target: PoolModel, snippet: PoolModel)
    requires
        is_numbered(super::built(target, snippet).0),
        is_numbered(snippet),
    ensures
        super::built(target, snippet).1 matches Ok(table) ==> {
            &&& forall|k: u32|
                table.strings.contains_key(k) <==> #[trigger] name_laws::is_first_text(
                    snippet,
                    k,
                    "handleMessage error: "@,
                )
            &&& forall|k: u32| #[trigger]
                table.strings.contains_key(k) ==> name_laws::is_first_text(
                    super::built(target, snippet).0,
                    table.strings[k],
                    "handleMessage error: "@,
                )
        },
{
    if let Ok(table) = super::built(target, snippet).1 {
        let literal = "handleMessage error: "@;
        let pool = super::built(target, snippet).0;
        constant_pool::found_string_holds_the_text(snippet.strings, literal);
        constant_pool::found_string_holds_the_text(pool.strings, literal);
        assert forall|k: u32|
            table.strings.contains_key(k) <==> #[trigger] name_laws::is_first_text(
                snippet,
                k,
                literal,
            ) by {
            if name_laws::is_first_text(snippet, k, literal) {
                constant_pool::first_string_is_found(snippet.strings, literal, k);
            }
        }
    }
}

/// Whether some multiname of a pool gets its name at run time.
pub open spec fn has_late_bound(pool: PoolModel) -> bool {
    exists|i: int| 0 <= i < pool.multinames.len() && #[trigger] pool.multinames[i] is MultinameL
}

/// Whether some string of a pool is that of the error log.
pub open spec fn has_error_text(pool: PoolModel) -> bool {
    exists|i: int|
        0 <= i < pool.strings.len() && #[trigger] pool.strings[i] == vstd::utf8::encode_utf8(
            "handleMessage error: "@,
        )
}

/// A table is built whenever it can be: where the target has a namespace set for its
/// own, a `MultinameL` if the snippet has one, and the text of the error log if the
/// snippet has it. Otherwise the first of them that is missing is reported.
pub proof fn table_is_built_when_it_can_be(target: PoolModel, snippet: PoolModel)
    ensures
        super::own_namespace_set(target) is Ok && (has_late_bound(snippet) ==> has_late_bound(
            target,
        )) && (has_error_text(snippet) ==> has_error_text(target)) ==> super::built(
            target,
            snippet,
        ).1 is Ok,
        super::own_namespace_set(target) matches Err(e) ==> super::built(target, snippet) == (
            target,
            Err::<TableModel, Seq<char>>(e),
        ),
        super::own_namespace_set(target) is Ok && has_late_bound(snippet) && !has_late_bound(target)
            ==> super::built(target, snippet).1 == Err::<TableModel, Seq<char>>(
            "target ABC has no MultinameL to reuse for dynamic byte indexing"@,
        ),
        super::own_namespace_set(target) is Ok && (has_late_bound(snippet) ==> has_late_bound(
            target,
        )) && has_error_text(snippet) && !has_error_text(super::built(target, snippet).0)
            ==> super::built(target, snippet).1 == Err::<TableModel, Seq<char>>(
            "target ABC is missing the \"handleMessage error: \" string"@,
        ),
{
    let p = super::late_bound();
    let q = constant_pool::equals(vstd::utf8::encode_utf8("handleMessage error: "@));
    constant_pool::lemma_position(snippet.multinames, p);
    constant_pool::lemma_position(snippet.strings, q);
    if let Ok(namespace_set) = super::own_namespace_set(target) {
        let pool = super::with_symbols(target, snippet, namespace_set, super::symbols()).0;
        lemma_symbols_extend(target, snippet, namespace_set, super::symbols());
        constant_pool::lemma_position(pool.multinames, p);
        constant_pool::lemma_position(pool.strings, q);
        if has_late_bound(target) {
            let i = choose|i: int|
                0 <= i < target.multinames.len() && #[trigger] target.multinames[i] is MultinameL;
            assert(pool.multinames[i] == target.multinames[i]);
            assert(p(pool.multinames[i]));
        } else {
            if let Some(i) = constant_pool::position(pool.multinames, p) {
                if i < target.multinames.len() {
                    assert(pool.multinames[i] == target.multinames[i]);
                } else {
                    assert(pool.multinames[i] is Multiname);
                }
            }
        }
        if has_error_text(target) {
            let i = choose|i: int|
                0 <= i < target.strings.len() && #[trigger] target.strings[i]
                    == vstd::utf8::encode_utf8("handleMessage error: "@);
            assert(pool.strings[i] == target.strings[i]);
            assert(q(pool.strings[i]));
        }
    }
    if let Some(i) = constant_pool::position(snippet.multinames, p) {
        assert(snippet.multinames[i] is MultinameL);
    } else {
        if has_late_bound(snippet) {
            let i = choose|i: int|
                0 <= i < snippet.multinames.len() && #[trigger] snippet.multinames[i] is MultinameL;
            assert(p(snippet.multinames[i]));
        }
    }
    if let Some(i) = constant_pool::position(snippet.strings, q) {
        assert(q(snippet.strings[i]));
    } else {
        if has_error_text(snippet) {
            let i = choose|i: int|
                0 <= i < snippet.strings.len() && #[trigger] snippet.strings[i]
                    == vstd::utf8::encode_utf8("handleMessage error: "@);
            assert(q(snippet.strings[i]));
        }
    }
}

/// Whether a multiname is under this namespace set, by the name of one of these symbols.
spec fn is_appended_for(
    pool: PoolModel,
    m: MultinameModel,
    namespace_set: u32,
    symbols: Seq<Seq<char>>,
) -> bool {
    exists|j: int, name_idx: u32|
        0 <= j < symbols.len() && name_laws::is_under(m, namespace_set, name_idx) && #[trigger]
        name_laws::holds_text(pool, name_idx, symbols[j])
}

proof fn lemma_appended_under_own_set(
    target: PoolModel,
    snippet: PoolModel,
    namespace_set: u32,
    symbols: Seq<Seq<char>>,
    i: int,
)
    requires
        ({
            let pool = super::with_symbols(target, snippet, namespace_set, symbols).0;
            is_numbered(pool) && target.multinames.len() <= i < pool.multinames.len()
        }),
    ensures
        ({
            let pool = super::with_symbols(target, snippet, namespace_set, symbols).0;
            is_appended_for(pool, pool.multinames[i], namespace_set, symbols)
        }),
    decreases symbols.len(),
{
    let pool = super::with_symbols(target, snippet, namespace_set, symbols).0;
    if symbols.len() > 0 {
        let earlier = symbols.drop_last();
        let symbol = symbols.last();
        let before = super::with_symbols(target, snippet, namespace_set, earlier).0;
        if i < before.multinames.len() {
            lemma_appended_under_own_set(target, snippet, namespace_set, earlier, i);
            let (j, name_idx) = choose|j: int, name_idx: u32|
                0 <= j < earlier.len() && name_laws::is_under(
                    before.multinames[i],
                    namespace_set,
                    name_idx,
                ) && #[trigger] name_laws::holds_text(before, name_idx, earlier[j]);
            assert(pool.multinames[i] == before.multinames[i]);
            assert(name_laws::holds_text(pool, name_idx, symbols[j]));
        } else {
            constant_pool::found_string_holds_the_text(before.strings, symbol);
            let name_idx = match before.string_index(symbol) {
                Some(n) => n,
                None => constant_pool::pool_index(before.strings.len() as int),
            };
            assert(name_laws::is_under(pool.multinames[i], namespace_set, name_idx));
            assert(name_laws::holds_text(pool, name_idx, symbols[symbols.len() - 1]));
        }
    }
}

/// What is appended is under the class's own namespace set.
pub proof fn appended_multinames_are_under_the_own_set(
    target: PoolModel,
    snippet: PoolModel,
    i: int,
)
    requires
        is_numbered(super::built(target, snippet).0),
        target.multinames.len() <= i < super::built(target, snippet).0.multinames.len(),
    ensures
        super::own_namespace_set(target) matches Ok(own) && (super::built(
            target,
            snippet,
        ).0.multinames[i] matches MultinameModel::Multiname { namespace_set, .. }
            && namespace_set.0 == own),
{
    let own = super::own_namespace_set(target)->Ok_0;
    lemma_appended_under_own_set(target, snippet, own, super::symbols(), i);
}

/// Whether `k` is the index of a multiname of the snippet whose name is the `i`th
/// symbol.
pub open spec fn is_multiname_of_symbol(snippet: PoolModel, k: u32, i: int) -> bool {
    &&& 0 <= i < super::symbols().len()
    &&& 1 <= k <= snippet.multinames.len()
    &&& exists|name_idx: u32| #[trigger]
        name_laws::has_name(snippet.multinames[k - 1], name_idx) && name_laws::is_first_text(
            snippet,
            name_idx,
            super::symbols()[i],
        )
}

/// A symbol's override is what the symbol is resolved to.
proof fn lemma_override_is_resolved(target: PoolModel, snippet: PoolModel, k: u32, i: int)
    requires
        is_numbered(super::built(target, snippet).0),
        is_numbered(snippet),
        is_multiname_of_symbol(snippet, k, i),
        super::built(target, snippet).1 is Ok,
    ensures
        ({
            let own = super::own_namespace_set(target)->Ok_0;
            let before = super::with_symbols(target, snippet, own, super::symbols().take(i)).0;
            let table = super::built(target, snippet).1->Ok_0;
            &&& table.multinames.contains_key(k)
            &&& table.multinames[k] == super::resolved(before, super::symbols()[i], own).1
            &&& target.extends_to(before)
            &&& is_numbered(before)
        }),
{
    let own = super::own_namespace_set(target)->Ok_0;
    let symbols = super::symbols();
    let name_idx = choose|name_idx: u32| #[trigger]
        name_laws::has_name(snippet.multinames[k - 1], name_idx) && name_laws::is_first_text(
            snippet,
            name_idx,
            symbols[i],
        );
    constant_pool::first_string_is_found(snippet.strings, symbols[i], name_idx);
    assert(constant_pool::pool_index(k - 1) == k);
    assert(snippet.multinames[k - 1].name_index() == Some(name_idx));
    assert(super::is_index_of_named(snippet.multinames, name_idx, k));
    lemma_symbols_are_distinct();
    lemma_symbols_covered(target, snippet, own, symbols, i);
    constant_pool::lemma_position(snippet.multinames, super::late_bound());
    assert(super::with_symbols(target, snippet, own, symbols).1.contains_key(k));
    lemma_symbols_extend(target, snippet, own, symbols.take(i));
    lemma_prefix_extends(target, snippet, own, symbols, i);
}

proof fn lemma_prefix_extends(
    target: PoolModel,
    snippet: PoolModel,
    namespace_set: u32,
    symbols: Seq<Seq<char>>,
    i: int,
)
    requires
        0 <= i <= symbols.len(),
    ensures
        super::with_symbols(target, snippet, namespace_set, symbols.take(i)).0.extends_to(
            super::with_symbols(target, snippet, namespace_set, symbols).0,
        ),
    decreases symbols.len(),
{
    if i == symbols.len() {
        assert(symbols.take(i) =~= symbols);
    } else {
        assert(symbols.drop_last().take(i) =~= symbols.take(i));
        lemma_prefix_extends(target, snippet, namespace_set, symbols.drop_last(), i);
    }
}

/// The first string of a text stays the first when the pool grows.
proof fn lemma_first_text_stays(pool: PoolModel, later: PoolModel, index: u32, text: Seq<char>)
    requires
        pool.extends_to(later),
        name_laws::is_first_text(pool, index, text),
    ensures
        name_laws::is_first_text(later, index, text),
{
    assert forall|j: int| 0 <= j < index - 1 implies #[trigger] later.strings[j]
        != vstd::utf8::encode_utf8(text) by {
        assert(later.strings[j] == pool.strings[j]);
    }
}

/// A symbol that the target has under its own namespace set is overridden by the first
/// such multiname.
pub proof fn own_multinames_are_used(
    target: PoolModel,
    snippet: PoolModel,
    k: u32,
    i: int,
    name_idx: u32,
    t: int,
)
    requires
        is_numbered(super::built(target, snippet).0),
        is_numbered(snippet),
        is_multiname_of_symbol(snippet, k, i),
        name_laws::is_first_text(target, name_idx, super::symbols()[i]),
        super::own_namespace_set(target) matches Ok(own) && 0 <= t < target.multinames.len()
            && name_laws::is_under(target.multinames[t], own, name_idx) && forall|j: int|
            0 <= j < t ==> !name_laws::is_under(#[trigger] target.multinames[j], own, name_idx),
    ensures
        super::built(target, snippet).1 matches Ok(table) ==> {
            &&& table.multinames.contains_key(k)
            &&& table.multinames[k] == t + 1
        },
{
    if super::built(target, snippet).1 is Ok {
        let own = super::own_namespace_set(target)->Ok_0;
        let before = super::with_symbols(target, snippet, own, super::symbols().take(i)).0;
        lemma_override_is_resolved(target, snippet, k, i);
        assert(before.multinames[t] == target.multinames[t]);
        assert forall|j: int| 0 <= j < t implies !name_laws::is_under(
            #[trigger] before.multinames[j],
            own,
            name_idx,
        ) by {
            assert(before.multinames[j] == target.multinames[j]);
        }
        lemma_first_text_stays(target, before, name_idx, super::symbols()[i]);
        name_laws::own_multiname_is_preferred(before, super::symbols()[i], own, name_idx, t);
    }
}

/// A symbol that the target has, but not under its own namespace set, is overridden by
/// the first multiname of its name.
pub proof fn multinames_of_the_name_are_used(
    target: PoolModel,
    snippet: PoolModel,
    k: u32,
    i: int,
    name_idx: u32,
    t: int,
)
    requires
        is_numbered(super::built(target, snippet).0),
        is_numbered(snippet),
        is_multiname_of_symbol(snippet, k, i),
        name_laws::is_first_text(target, name_idx, super::symbols()[i]),
        super::own_namespace_set(target) matches Ok(own) && forall|j: int|
            0 <= j < target.multinames.len() ==> !name_laws::is_under(
                #[trigger] target.multinames[j],
                own,
                name_idx,
            ),
        0 <= t < target.multinames.len(),
        name_laws::has_name(target.multinames[t], name_idx),
        forall|j: int|
            0 <= j < t ==> !name_laws::has_name(#[trigger] target.multinames[j], name_idx),
    ensures
        super::built(target, snippet).1 matches Ok(table) ==> {
            &&& table.multinames.contains_key(k)
            &&& table.multinames[k] == t + 1
        },
{
    if super::built(target, snippet).1 is Ok {
        let own = super::own_namespace_set(target)->Ok_0;
        let earlier = super::symbols().take(i);
        let symbol = super::symbols()[i];
        let before = super::with_symbols(target, snippet, own, earlier).0;
        lemma_override_is_resolved(target, snippet, k, i);
        assert(before.multinames[t] == target.multinames[t]);
        assert forall|j: int| 0 <= j < t implies !name_laws::has_name(
            #[trigger] before.multinames[j],
            name_idx,
        ) by {
            assert(before.multinames[j] == target.multinames[j]);
        }
        assert forall|j: int| 0 <= j < before.multinames.len() implies !name_laws::is_under(
            #[trigger] before.multinames[j],
            own,
            name_idx,
        ) by {
            if j < target.multinames.len() {
                assert(before.multinames[j] == target.multinames[j]);
            } else if name_laws::is_under(before.multinames[j], own, name_idx) {
                lemma_appended_under_own_set(target, snippet, own, earlier, j);
                let (e, n) = choose|e: int, n: u32|
                    0 <= e < earlier.len() && name_laws::is_under(before.multinames[j], own, n)
                        && #[trigger] name_laws::holds_text(before, n, earlier[e]);
                assert(n == name_idx);
                assert(before.strings[name_idx - 1] == target.strings[name_idx - 1]);
                vstd::utf8::encode_utf8_decode_utf8(symbol);
                vstd::utf8::encode_utf8_decode_utf8(earlier[e]);
                lemma_symbols_are_distinct();
                assert(super::symbols()[e] != super::symbols()[i]);
            }
        }
        lemma_first_text_stays(target, before, name_idx, symbol);
        name_laws::any_multiname_of_the_name_will_do(before, symbol, own, name_idx, t);
    }
}

} // verus!
