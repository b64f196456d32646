//! Lowers the cap of the game's cache of per-item application domains.
use swf::avm2::types::{AbcFile, DefaultValue, Index, Multiname};
use vstd::prelude::*;
use crate::abc_model::{AbcModel, MethodModel, MultinameModel, PoolModel};
use crate::constant_pool::{find_instance, find_string, index_at, multiname_name_is};
use crate::text::{join, optional_decimal};
use crate::{constant_pool, text};

verus! {

pub const CLASS_NAME: &'static str = "PlayerDomainCache";

pub const EXPECTED_OLD_VALUE: i32 = 20;

pub const NEW_MAX_SIZE: i32 = 8;

/// The method that constructs a `PlayerDomainCache`, as the class declares it.
pub open spec fn constructor_index(abc: AbcModel) -> Option<u32> {
    match abc.constant_pool.string_index(CLASS_NAME@) {
        None => None,
        Some(name) => match abc.constant_pool.multiname_index(constant_pool::qualified(name)) {
            None => None,
            Some(multiname) => match constant_pool::position(
                abc.instances,
                constant_pool::instance_named(multiname),
            ) {
                None => None,
                Some(i) => Some(abc.instances[i].init_method.0),
            },
        },
    }
}

/// The integer that a default value stands for.
pub open spec fn int_default(ints: Seq<i32>, value: Option<DefaultValue>) -> Option<i32> {
    match value {
        Some(DefaultValue::Int(idx)) => if 1 <= idx.0 <= ints.len() {
            Some(ints[idx.0 - 1])
        } else {
            None
        },
        _ => None,
    }
}

/// The file with `cap` appended to the integers, and the first parameter of
/// method `m` defaulting to it.
pub open spec fn with_default(abc: AbcModel, m: int, cap: i32) -> AbcModel {
    let method = abc.methods[m];
    let param = swf::avm2::types::MethodParam {
        default_value: Some(
            DefaultValue::Int(
                Index(
                    constant_pool::pool_index(abc.constant_pool.ints.len() as int),
                    core::marker::PhantomData,
                ),
            ),
        ),
        ..method.params[0]
    };
    AbcModel {
        constant_pool: PoolModel {
            ints: abc.constant_pool.ints.push(cap),
            ..abc.constant_pool
        },
        methods: abc.methods.update(
            m,
            MethodModel { params: method.params.update(0, param), ..method },
        ),
        ..abc
    }
}

/// What [`apply`] makes of a file, and what it returns.
pub open spec fn applied(abc: AbcModel) -> (AbcModel, Result<bool, Seq<char>>) {
    match constructor_index(abc) {
        None => (abc, Ok(false)),
        Some(ctor) => if ctor >= abc.methods.len() {
            (abc, Err("constructor method index out of range"@))
        } else if abc.methods[ctor as int].params.len() == 0 {
            (abc, Err("PlayerDomainCache constructor has no parameters"@))
        } else {
            let old_value = int_default(
                abc.constant_pool.ints,
                abc.methods[ctor as int].params[0].default_value,
            );
            if old_value != Some(EXPECTED_OLD_VALUE) {
                (
                    abc,
                    Err(
                        "unexpected constructor default "@ + text::option_text(old_value)
                            + ", expected 20"@,
                    ),
                )
            } else {
                (with_default(abc, ctor as int, NEW_MAX_SIZE), Ok(true))
            }
        },
    }
}

/// Lowers the default cap of `types.PlayerDomainCache`, the number of per-item
/// `ApplicationDomain`s that it keeps, by editing the default of the first
/// constructor parameter. The cache is the game's own eviction mechanism; this
/// only tightens its bound.
///
/// Returns `Ok(true)` if applied, `Ok(false)` if the class is not there, `Err`
/// if it is there but not of the expected shape. Unless it applies, the file
/// stays as it is.
pub fn apply(abc: &mut AbcFile) -> (r: Result<bool, String>)
    ensures
        AbcModel::of(*final(abc)) == applied(AbcModel::of(*old(abc))).0,
        text::result_view(r) == applied(AbcModel::of(*old(abc))).1,
{
    let ghost model = AbcModel::of(*abc);
    let name_idx = match find_string(abc.constant_pool.strings.as_slice(), CLASS_NAME) {
        Some(index) => index,
        None => {
            return Ok(false);
        },
    };
    let multiname_idx = match find_qualified(abc.constant_pool.multinames.as_slice(), name_idx) {
        Some(index) => index,
        None => {
            return Ok(false);
        },
    };
    let instance_pos: usize = match find_instance(abc.instances.as_slice(), multiname_idx) {
        Some(pos) => pos,
        None => {
            return Ok(false);
        },
    };
    let ctor_idx: usize = abc.instances[instance_pos].init_method.0 as usize;
    if ctor_idx >= abc.methods.len() {
        return Err("constructor method index out of range".to_owned());
    }
    if abc.methods[ctor_idx].params.len() == 0 {
        return Err("PlayerDomainCache constructor has no parameters".to_owned());
    }
    let old_value: Option<i32> = match abc.methods[ctor_idx].params[0].default_value {
        Some(DefaultValue::Int(idx)) => if 1 <= idx.0 && (idx.0 as usize)
            <= abc.constant_pool.ints.len() {
            Some(abc.constant_pool.ints[idx.0 as usize - 1])
        } else {
            None
        },
        _ => None,
    };
    match old_value {
        Some(EXPECTED_OLD_VALUE) => {},
        _ => {
            let mut message = join(
                "unexpected constructor default ",
                optional_decimal(old_value).as_str(),
            );
            message.append(", expected 20");
            return Err(message);
        },
    }
    let new_idx = index_at(abc.constant_pool.ints.len());
    abc.constant_pool.ints.push(NEW_MAX_SIZE);
    abc.methods[ctor_idx].params[0].default_value = Some(
        DefaultValue::Int(Index(new_idx, core::marker::PhantomData)),
    );
    proof {
        let after = AbcModel::of(*abc);
        assert(after.methods =~= with_default(model, ctor_idx as int, NEW_MAX_SIZE).methods);
    }
    Ok(true)
}

/// The index of the first `QName` or `QNameA` with this name.
fn find_qualified(multinames: &[Multiname], name_idx: u32) -> (index: Option<u32>)
    ensures
        index == constant_pool::index_of(
            MultinameModel::all(multinames@),
            constant_pool::qualified(name_idx),
        ),
{
    let ghost all = MultinameModel::all(multinames@);
    for i in 0..multinames.len()
        invariant
            all == MultinameModel::all(multinames@),
            forall|j: int| 0 <= j < i ==> !constant_pool::qualified(name_idx)(#[trigger] all[j]),
    {
        if multiname_name_is(&multinames[i], name_idx) {
            proof {
                constant_pool::lemma_position_is(
                    all,
                    constant_pool::qualified(name_idx),
                    i as int,
                );
            }
            return Some(index_at(i));
        }
    }
    proof {
        constant_pool::lemma_position_none(all, constant_pool::qualified(name_idx));
    }
    None
}

/// Unless it applies, the patch leaves the file as it is.
pub proof fn skipped_patch_changes_nothing(abc: AbcModel)
    ensures
        applied(abc).1 != Ok::<bool, Seq<char>>(true) ==> applied(abc).0 == abc,
{
}

/// Where the patch applies, the cap that the constructor defaulted to was the
/// expected one and is now the new one. The constructor is still found, every
/// integer that had an index still has it, and nothing but that one default is
/// different. (An integer pool that its indexes cannot number is left out.)
pub proof fn applied_patch_lowers_the_cap(abc: AbcModel)
    requires
        applied(abc).1 == Ok::<bool, Seq<char>>(true),
        abc.constant_pool.ints.len() < u32::MAX,
    ensures
        ({
            let after = applied(abc).0;
            let ctor = constructor_index(abc)->Some_0 as int;
            let params = abc.methods[ctor].params;
            let new_params = after.methods[ctor].params;
            &&& constructor_index(after) == constructor_index(abc)
            &&& constructor_index(abc) is Some
            &&& int_default(abc.constant_pool.ints, params[0].default_value) == Some(
                EXPECTED_OLD_VALUE,
            )
            &&& int_default(after.constant_pool.ints, new_params[0].default_value) == Some(
                NEW_MAX_SIZE,
            )
            &&& new_params == params.update(
                0,
                (swf::avm2::types::MethodParam {
                    default_value: new_params[0].default_value,
                    ..params[0]
                }),
            )
            &&& after.constant_pool.ints.take(abc.constant_pool.ints.len() as int)
                == abc.constant_pool.ints
            &&& after.constant_pool == (PoolModel {
                ints: after.constant_pool.ints,
                ..abc.constant_pool
            })
            &&& after == (AbcModel {
                constant_pool: after.constant_pool,
                methods: abc.methods.update(
                    ctor,
                    (MethodModel { params: new_params, ..abc.methods[ctor] }),
                ),
                ..abc
            })
        }),
{
}

/// The patch does not apply twice: a patched file has the new cap where the
/// expected one is looked for.
pub proof fn patched_file_is_not_patched_again(abc: AbcModel)
    requires
        applied(abc).1 == Ok::<bool, Seq<char>>(true),
        abc.constant_pool.ints.len() < u32::MAX,
    ensures
        applied(applied(abc).0) == (
            applied(abc).0,
            Err::<bool, Seq<char>>("unexpected constructor default Some(8), expected 20"@),
        ),
{
    reveal_strlit("unexpected constructor default Some(8), expected 20");
    reveal_strlit("unexpected constructor default ");
    reveal_strlit(", expected 20");
    reveal_strlit("Some(");
    reveal_strlit("8");
    reveal_strlit(")");
    applied_patch_lowers_the_cap(abc);
    assert("unexpected constructor default "@ + text::option_text(Some(NEW_MAX_SIZE))
        + ", expected 20"@ =~= "unexpected constructor default Some(8), expected 20"@);
}

/// Whether the string with this index is the first that holds the name of the class.
pub open spec fn is_first_class_name(abc: AbcModel, name: u32) -> bool {
    let strings = abc.constant_pool.strings;
    &&& strings.len() <= u32::MAX
    &&& 1 <= name <= strings.len()
    &&& strings[name - 1] == vstd::utf8::encode_utf8("PlayerDomainCache"@)
    &&& forall|j: int|
        0 <= j < name - 1 ==> #[trigger] strings[j] != vstd::utf8::encode_utf8(
            "PlayerDomainCache"@,
        )
}

/// Whether a multiname is a `QName` or `QNameA` with this name.
pub open spec fn is_qname_of(m: MultinameModel, name_idx: u32) -> bool {
    ||| m matches MultinameModel::QName { name, .. } && name.0 == name_idx
    ||| m matches MultinameModel::QNameA { name, .. } && name.0 == name_idx
}

/// Whether the class at `i` is the one whose constructor is looked for: the first that
/// has for its name the first `QName` or `QNameA` of the name of the class.
pub open spec fn is_the_class(abc: AbcModel, name: u32, multiname: u32, i: int) -> bool {
    let multinames = abc.constant_pool.multinames;
    &&& is_first_class_name(abc, name)
    &&& multinames.len() <= u32::MAX
    &&& 1 <= multiname <= multinames.len()
    &&& is_qname_of(multinames[multiname - 1], name)
    &&& forall|j: int| 0 <= j < multiname - 1 ==> !is_qname_of(#[trigger] multinames[j], name)
    &&& 0 <= i < abc.instances.len()
    &&& abc.instances[i].name.0 == multiname
    &&& forall|j: int| 0 <= j < i ==> (#[trigger] abc.instances[j]).name.0 != multiname
}

/// The constructor of the class is the one that the class declares.
pub proof fn constructor_of_the_class_is_found(abc: AbcModel, name: u32, multiname: u32, i: int)
    requires
        is_the_class(abc, name, multiname, i),
    ensures
        constructor_index(abc) == Some(abc.instances[i].init_method.0),
{
    let pool = abc.constant_pool;
    constant_pool::first_string_is_found(pool.strings, "PlayerDomainCache"@, name);
    assert forall|j: int| 0 <= j < multiname - 1 implies !constant_pool::qualified(name)(
        #[trigger] pool.multinames[j],
    ) by {
        assert(!is_qname_of(pool.multinames[j], name));
    }
    constant_pool::lemma_position_is(
        pool.multinames,
        constant_pool::qualified(name),
        multiname - 1,
    );
    assert forall|j: int| 0 <= j < i implies !constant_pool::instance_named(multiname)(
        #[trigger] abc.instances[j],
    ) by {
        assert(abc.instances[j].name.0 != multiname);
    }
    constant_pool::lemma_position_is(abc.instances, constant_pool::instance_named(multiname), i);
}

/// A constructor is found only if there is such a class.
pub proof fn constructor_is_that_of_the_class(abc: AbcModel)
    requires
        abc.constant_pool.strings.len() <= u32::MAX,
        abc.constant_pool.multinames.len() <= u32::MAX,
        constructor_index(abc) is Some,
    ensures
        exists|name: u32, multiname: u32, i: int| is_the_class(abc, name, multiname, i),
{
    let pool = abc.constant_pool;
    constant_pool::found_string_holds_the_text(pool.strings, "PlayerDomainCache"@);
    let name = pool.string_index("PlayerDomainCache"@)->Some_0;
    let p = constant_pool::qualified(name);
    constant_pool::lemma_position(pool.multinames, p);
    let multiname = pool.multiname_index(p)->Some_0;
    let q = constant_pool::instance_named(multiname);
    constant_pool::lemma_position(abc.instances, q);
    let i = constant_pool::position(abc.instances, q)->Some_0;
    assert forall|j: int| 0 <= j < multiname - 1 implies !is_qname_of(
        #[trigger] pool.multinames[j],
        name,
    ) by {
        assert(!p(pool.multinames[j]));
    }
    assert forall|j: int| 0 <= j < i implies (#[trigger] abc.instances[j]).name.0 != multiname by {
        assert(!q(abc.instances[j]));
    }
    assert(is_the_class(abc, name, multiname, i));
}

/// The patch applies whenever it should: where the class is there, its constructor is
/// one of the methods and has a parameter, and the first one's default is an integer
/// of the pool that equals 20. It then defaults to an integer of the pool that equals
/// 8. (An integer pool that its indexes cannot number is left out.)
pub proof fn patch_applies_when_it_should(
    abc: AbcModel,
    name: u32,
    multiname: u32,
    i: int,
    default_idx: u32,
)
    requires
        is_the_class(abc, name, multiname, i),
        abc.constant_pool.ints.len() < u32::MAX,
        ({
            let ctor = abc.instances[i].init_method.0 as int;
            &&& ctor < abc.methods.len()
            &&& abc.methods[ctor].params.len() > 0
            &&& abc.methods[ctor].params[0].default_value matches Some(DefaultValue::Int(idx))
            &&& idx.0 == default_idx
            &&& 1 <= default_idx <= abc.constant_pool.ints.len()
            &&& abc.constant_pool.ints[default_idx - 1] == 20
        }),
    ensures
        ({
            let ctor = abc.instances[i].init_method.0 as int;
            let after = applied(abc).0;
            &&& applied(abc).1 == Ok::<bool, Seq<char>>(true)
            &&& after.methods.len() == abc.methods.len()
            &&& after.methods[ctor].params.len() == abc.methods[ctor].params.len()
            &&& after.methods[ctor].params[0].default_value matches Some(DefaultValue::Int(idx))
            &&& 1 <= idx.0 <= after.constant_pool.ints.len()
            &&& after.constant_pool.ints[idx.0 - 1] == 8
            &&& forall|j: int|
                0 <= j < abc.constant_pool.ints.len() ==> #[trigger] after.constant_pool.ints[j]
                    == abc.constant_pool.ints[j]
            &&& after.methods[ctor].params[0].name == abc.methods[ctor].params[0].name
            &&& after.methods[ctor].params[0].kind == abc.methods[ctor].params[0].kind
            &&& forall|j: int|
                1 <= j < abc.methods[ctor].params.len()
                    ==> #[trigger] after.methods[ctor].params[j] == abc.methods[ctor].params[j]
            &&& forall|j: int|
                0 <= j < abc.methods.len() && j != ctor ==> #[trigger] after.methods[j]
                    == abc.methods[j]
            &&& after.instances == abc.instances
            &&& after.method_bodies == abc.method_bodies
            &&& after.constant_pool.strings == abc.constant_pool.strings
            &&& after.constant_pool.multinames == abc.constant_pool.multinames
        }),
{
    constructor_of_the_class_is_found(abc, name, multiname, i);
}

/// The patch is refused whenever it should be: where the class is there, but its
/// constructor is none of the methods, or has no parameter, or the first one's default
/// is no integer of the pool, or is another one than 20.
pub proof fn patch_is_refused_when_it_should_be(
    abc: AbcModel,
    name: u32,
    multiname: u32,
    i: int,
)
    requires
        is_the_class(abc, name, multiname, i),
        ({
            let ctor = abc.instances[i].init_method.0 as int;
            ||| ctor >= abc.methods.len()
            ||| abc.methods[ctor].params.len() == 0
            ||| !(abc.methods[ctor].params[0].default_value matches Some(DefaultValue::Int(_)))
            ||| (abc.methods[ctor].params[0].default_value matches Some(DefaultValue::Int(idx))
                && !(1 <= idx.0 <= abc.constant_pool.ints.len()
                && abc.constant_pool.ints[idx.0 - 1] == 20))
        }),
    ensures
        applied(abc).1 is Err,
        applied(abc).0 == abc,
{
    constructor_of_the_class_is_found(abc, name, multiname, i);
}

/// Where there is no such class, the patch says that it was not found.
pub proof fn patch_misses_a_class_that_is_not_there(abc: AbcModel)
    requires
        abc.constant_pool.strings.len() <= u32::MAX,
        abc.constant_pool.multinames.len() <= u32::MAX,
        forall|name: u32, multiname: u32, i: int| !is_the_class(abc, name, multiname, i),
    ensures
        applied(abc) == (abc, Ok::<bool, Seq<char>>(false)),
{
    if constructor_index(abc) is Some {
        constructor_is_that_of_the_class(abc);
    }
}

/// Another default is refused with its value, which is `None` where it is no integer of
/// the pool.
pub proof fn other_default_is_named(
    abc: AbcModel,
    name: u32,
    multiname: u32,
    i: int,
    value: Option<i32>,
)
    requires
        is_the_class(abc, name, multiname, i),
        value != Some(20i32),
        ({
            let ctor = abc.instances[i].init_method.0 as int;
            &&& ctor < abc.methods.len()
            &&& abc.methods[ctor].params.len() > 0
            &&& match value {
                Some(v) => abc.methods[ctor].params[0].default_value matches Some(
                    DefaultValue::Int(idx),
                ) && 1 <= idx.0 <= abc.constant_pool.ints.len() && abc.constant_pool.ints[idx.0 - 1]
                    == v,
                None => abc.methods[ctor].params[0].default_value matches Some(
                    DefaultValue::Int(idx),
                ) ==> !(1 <= idx.0 <= abc.constant_pool.ints.len()),
            }
        }),
    ensures
        applied(abc) == (
            abc,
            Err::<bool, Seq<char>>(
                "unexpected constructor default "@ + text::option_text(value) + ", expected 20"@,
            ),
        ),
{
    constructor_of_the_class_is_found(abc, name, multiname, i);
}

} // verus!
