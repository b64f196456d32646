//! What an ABC file is, as a mathematical value.
//!
//! The model of a `swf` type has the fields of that type with every `Vec`
//! replaced by the sequence of the models of its elements. Types without a `Vec`
//! stand for themselves. A double is taken by its bit pattern.
use swf::avm2::types::{
    AbcFile, Class, ConstantPool, Exception, Index, Instance, Metadata, MetadataItem, Method,
    MethodBody, MethodFlags, MethodParam, Multiname, Namespace, NamespaceSet, Op, Script, Trait,
    TraitKind,
};
use vstd::float::FloatBitsProperties;
use vstd::prelude::*;

verus! {

pub struct AbcModel {
    pub major_version: u16,
    pub minor_version: u16,
    pub constant_pool: PoolModel,
    pub methods: Seq<MethodModel>,
    pub metadata: Seq<MetadataModel>,
    pub instances: Seq<InstanceModel>,
    pub classes: Seq<ClassModel>,
    pub scripts: Seq<ScriptModel>,
    pub method_bodies: Seq<BodyModel>,
}

pub struct PoolModel {
    pub ints: Seq<i32>,
    pub uints: Seq<u32>,
    pub doubles: Seq<u64>,
    pub strings: Seq<Seq<u8>>,
    pub namespaces: Seq<Namespace>,
    pub namespace_sets: Seq<Seq<Index<Namespace>>>,
    pub multinames: Seq<MultinameModel>,
}

pub enum MultinameModel {
    QName { namespace: Index<Namespace>, name: Index<String> },
    QNameA { namespace: Index<Namespace>, name: Index<String> },
    RTQName { name: Index<String> },
    RTQNameA { name: Index<String> },
    RTQNameL,
    RTQNameLA,
    Multiname { namespace_set: Index<NamespaceSet>, name: Index<String> },
    MultinameA { namespace_set: Index<NamespaceSet>, name: Index<String> },
    MultinameL { namespace_set: Index<NamespaceSet> },
    MultinameLA { namespace_set: Index<NamespaceSet> },
    TypeName { base_type: Index<Multiname>, parameters: Seq<Index<Multiname>> },
}

pub struct MethodModel {
    pub name: Index<String>,
    pub params: Seq<MethodParam>,
    pub return_type: Index<Multiname>,
    pub flags: MethodFlags,
    pub body: Option<Index<MethodBody>>,
}

pub struct MetadataModel {
    pub name: Index<String>,
    pub items: Seq<MetadataItem>,
}

pub struct TraitModel {
    pub name: Index<Multiname>,
    pub kind: TraitKind,
    pub metadata: Seq<Index<Metadata>>,
    pub is_final: bool,
    pub is_override: bool,
}

pub struct InstanceModel {
    pub name: Index<Multiname>,
    pub super_name: Index<Multiname>,
    pub is_sealed: bool,
    pub is_final: bool,
    pub is_interface: bool,
    pub protected_namespace: Option<Index<Namespace>>,
    pub interfaces: Seq<Index<Multiname>>,
    pub init_method: Index<Method>,
    pub traits: Seq<TraitModel>,
}

pub struct ClassModel {
    pub init_method: Index<Method>,
    pub traits: Seq<TraitModel>,
}

pub struct ScriptModel {
    pub init_method: Index<Method>,
    pub traits: Seq<TraitModel>,
}

pub struct BodyModel {
    pub method: Index<Method>,
    pub max_stack: u32,
    pub num_locals: u32,
    pub init_scope_depth: u32,
    pub max_scope_depth: u32,
    pub code: Seq<u8>,
    pub exceptions: Seq<Exception>,
    pub traits: Seq<TraitModel>,
}

/// An instruction. Only a switch holds a list.
pub enum OpModel {
    Plain(Op),
    Switch { default_offset: i32, case_offsets: Seq<i32> },
}

impl OpModel {
    pub open spec fn of(op: Op) -> OpModel {
        match op {
            Op::LookupSwitch(switch) => OpModel::Switch {
                default_offset: switch.default_offset,
                case_offsets: switch.case_offsets@,
            },
            _ => OpModel::Plain(op),
        }
    }

    pub open spec fn all(ops: Seq<Op>) -> Seq<OpModel> {
        ops.map_values(|op: Op| OpModel::of(op))
    }
}

impl MultinameModel {
    pub open spec fn of(m: Multiname) -> MultinameModel {
        match m {
            Multiname::QName { namespace, name } => MultinameModel::QName { namespace, name },
            Multiname::QNameA { namespace, name } => MultinameModel::QNameA { namespace, name },
            Multiname::RTQName { name } => MultinameModel::RTQName { name },
            Multiname::RTQNameA { name } => MultinameModel::RTQNameA { name },
            Multiname::RTQNameL => MultinameModel::RTQNameL,
            Multiname::RTQNameLA => MultinameModel::RTQNameLA,
            Multiname::Multiname { namespace_set, name } => MultinameModel::Multiname {
                namespace_set,
                name,
            },
            Multiname::MultinameA { namespace_set, name } => MultinameModel::MultinameA {
                namespace_set,
                name,
            },
            Multiname::MultinameL { namespace_set } => MultinameModel::MultinameL { namespace_set },
            Multiname::MultinameLA { namespace_set } => MultinameModel::MultinameLA {
                namespace_set,
            },
            Multiname::TypeName { base_type, parameters } => MultinameModel::TypeName {
                base_type,
                parameters: parameters@,
            },
        }
    }

    pub open spec fn all(multinames: Seq<Multiname>) -> Seq<MultinameModel> {
        multinames.map_values(|m: Multiname| MultinameModel::of(m))
    }
}

impl PoolModel {
    pub open spec fn byte_strings(strings: Seq<Vec<u8>>) -> Seq<Seq<u8>> {
        strings.map_values(|s: Vec<u8>| s@)
    }

    pub open spec fn of(pool: ConstantPool) -> PoolModel {
        PoolModel {
            ints: pool.ints@,
            uints: pool.uints@,
            doubles: Seq::new(pool.doubles@.len(), |i: int| pool.doubles@[i].to_bits_spec()),
            strings: PoolModel::byte_strings(pool.strings@),
            namespaces: pool.namespaces@,
            namespace_sets: pool.namespace_sets@.map_values(|s: NamespaceSet| s@),
            multinames: MultinameModel::all(pool.multinames@),
        }
    }
}

impl MethodModel {
    pub open spec fn of(m: Method) -> MethodModel {
        MethodModel {
            name: m.name,
            params: m.params@,
            return_type: m.return_type,
            flags: m.flags,
            body: m.body,
        }
    }

    pub open spec fn all(methods: Seq<Method>) -> Seq<MethodModel> {
        methods.map_values(|m: Method| MethodModel::of(m))
    }
}

impl MetadataModel {
    pub open spec fn of(m: Metadata) -> MetadataModel {
        MetadataModel { name: m.name, items: m.items@ }
    }
}

impl TraitModel {
    pub open spec fn of(t: Trait) -> TraitModel {
        TraitModel {
            name: t.name,
            kind: t.kind,
            metadata: t.metadata@,
            is_final: t.is_final,
            is_override: t.is_override,
        }
    }

    pub open spec fn all(traits: Seq<Trait>) -> Seq<TraitModel> {
        traits.map_values(|t: Trait| TraitModel::of(t))
    }
}

impl InstanceModel {
    pub open spec fn of(i: Instance) -> InstanceModel {
        InstanceModel {
            name: i.name,
            super_name: i.super_name,
            is_sealed: i.is_sealed,
            is_final: i.is_final,
            is_interface: i.is_interface,
            protected_namespace: i.protected_namespace,
            interfaces: i.interfaces@,
            init_method: i.init_method,
            traits: TraitModel::all(i.traits@),
        }
    }

    pub open spec fn all(instances: Seq<Instance>) -> Seq<InstanceModel> {
        instances.map_values(|i: Instance| InstanceModel::of(i))
    }
}

impl ClassModel {
    pub open spec fn of(c: Class) -> ClassModel {
        ClassModel { init_method: c.init_method, traits: TraitModel::all(c.traits@) }
    }
}

impl ScriptModel {
    pub open spec fn of(s: Script) -> ScriptModel {
        ScriptModel { init_method: s.init_method, traits: TraitModel::all(s.traits@) }
    }
}

impl BodyModel {
    pub open spec fn of(b: MethodBody) -> BodyModel {
        BodyModel {
            method: b.method,
            max_stack: b.max_stack,
            num_locals: b.num_locals,
            init_scope_depth: b.init_scope_depth,
            max_scope_depth: b.max_scope_depth,
            code: b.code@,
            exceptions: b.exceptions@,
            traits: TraitModel::all(b.traits@),
        }
    }

    pub open spec fn all(bodies: Seq<MethodBody>) -> Seq<BodyModel> {
        bodies.map_values(|b: MethodBody| BodyModel::of(b))
    }
}

impl AbcModel {
    /// The model of an ABC file.
    pub open spec fn of(abc: AbcFile) -> AbcModel {
        AbcModel {
            major_version: abc.major_version,
            minor_version: abc.minor_version,
            constant_pool: PoolModel::of(abc.constant_pool),
            methods: MethodModel::all(abc.methods@),
            metadata: abc.metadata@.map_values(|m: Metadata| MetadataModel::of(m)),
            instances: InstanceModel::all(abc.instances@),
            classes: abc.classes@.map_values(|c: Class| ClassModel::of(c)),
            scripts: abc.scripts@.map_values(|s: Script| ScriptModel::of(s)),
            method_bodies: BodyModel::all(abc.method_bodies@),
        }
    }

    /// This file with another constant pool.
    pub open spec fn with_pool(self, constant_pool: PoolModel) -> AbcModel {
        AbcModel { constant_pool, ..self }
    }
}

/// The model of a file holds all of the file: every entry of every table, in order,
/// and nothing else.
pub proof fn model_holds_the_file(abc: AbcFile)
    ensures
        ({
            let model = AbcModel::of(abc);
            &&& model.major_version == abc.major_version
            &&& model.minor_version == abc.minor_version
            &&& model.constant_pool.ints == abc.constant_pool.ints@
            &&& model.constant_pool.uints == abc.constant_pool.uints@
            &&& model.constant_pool.doubles.len() == abc.constant_pool.doubles@.len()
            &&& model.constant_pool.strings.len() == abc.constant_pool.strings@.len()
            &&& model.constant_pool.namespaces == abc.constant_pool.namespaces@
            &&& model.constant_pool.namespace_sets.len() == abc.constant_pool.namespace_sets@.len()
            &&& model.constant_pool.multinames.len() == abc.constant_pool.multinames@.len()
            &&& model.methods.len() == abc.methods@.len()
            &&& model.metadata.len() == abc.metadata@.len()
            &&& model.instances.len() == abc.instances@.len()
            &&& model.classes.len() == abc.classes@.len()
            &&& model.scripts.len() == abc.scripts@.len()
            &&& model.method_bodies.len() == abc.method_bodies@.len()
            &&& forall|i: int|
                0 <= i < abc.constant_pool.doubles@.len()
                    ==> #[trigger] model.constant_pool.doubles[i]
                    == abc.constant_pool.doubles@[i].to_bits_spec()
            &&& forall|i: int|
                0 <= i < abc.constant_pool.strings@.len()
                    ==> #[trigger] model.constant_pool.strings[i]
                    == abc.constant_pool.strings@[i]@
            &&& forall|i: int|
                0 <= i < abc.constant_pool.namespace_sets@.len()
                    ==> #[trigger] model.constant_pool.namespace_sets[i]
                    == abc.constant_pool.namespace_sets@[i]@
            &&& forall|i: int|
                0 <= i < abc.metadata@.len() ==> {
                    &&& (#[trigger] model.metadata[i]).name == abc.metadata@[i].name
                    &&& model.metadata[i].items == abc.metadata@[i].items@
                }
            &&& forall|i: int|
                0 <= i < abc.classes@.len() ==> (#[trigger] model.classes[i]).init_method
                    == abc.classes@[i].init_method && model.classes[i].traits.len()
                    == abc.classes@[i].traits@.len()
            &&& forall|i: int|
                0 <= i < abc.scripts@.len() ==> (#[trigger] model.scripts[i]).init_method
                    == abc.scripts@[i].init_method && model.scripts[i].traits.len()
                    == abc.scripts@[i].traits@.len()
        }),
{
}

/// The models of the methods, classes and bodies of a file hold all of them.
pub proof fn model_holds_methods_classes_and_bodies(abc: AbcFile, i: int)
    ensures
        ({
            let model = AbcModel::of(abc);
            &&& 0 <= i < abc.methods@.len() ==> {
                let (m, method) = (model.methods[i], abc.methods@[i]);
                &&& m.name == method.name
                &&& m.params == method.params@
                &&& m.return_type == method.return_type
                &&& m.flags == method.flags
                &&& m.body == method.body
            }
            &&& 0 <= i < abc.instances@.len() ==> {
                let (m, instance) = (model.instances[i], abc.instances@[i]);
                &&& m.name == instance.name
                &&& m.super_name == instance.super_name
                &&& m.is_sealed == instance.is_sealed
                &&& m.is_final == instance.is_final
                &&& m.is_interface == instance.is_interface
                &&& m.protected_namespace == instance.protected_namespace
                &&& m.interfaces == instance.interfaces@
                &&& m.init_method == instance.init_method
                &&& m.traits.len() == instance.traits@.len()
            }
            &&& 0 <= i < abc.method_bodies@.len() ==> {
                let (m, body) = (model.method_bodies[i], abc.method_bodies@[i]);
                &&& m.method == body.method
                &&& m.max_stack == body.max_stack
                &&& m.num_locals == body.num_locals
                &&& m.init_scope_depth == body.init_scope_depth
                &&& m.max_scope_depth == body.max_scope_depth
                &&& m.code == body.code@
                &&& m.exceptions == body.exceptions@
                &&& m.traits.len() == body.traits@.len()
            }
        }),
{
}

/// The model of a list of traits holds each trait, whole and in its place.
pub proof fn model_holds_traits(traits: Seq<Trait>, i: int)
    requires
        0 <= i < traits.len(),
    ensures
        ({
            let m = TraitModel::all(traits)[i];
            &&& TraitModel::all(traits).len() == traits.len()
            &&& m.name == traits[i].name
            &&& m.kind == traits[i].kind
            &&& m.metadata == traits[i].metadata@
            &&& m.is_final == traits[i].is_final
            &&& m.is_override == traits[i].is_override
        }),
{
}

/// Where a file's tables have traits, their models are those of the traits.
pub proof fn model_holds_the_traits_of_a_file(abc: AbcFile, i: int)
    ensures
        ({
            let model = AbcModel::of(abc);
            &&& 0 <= i < abc.instances@.len() ==> model.instances[i].traits == TraitModel::all(
                abc.instances@[i].traits@,
            )
            &&& 0 <= i < abc.classes@.len() ==> model.classes[i].traits == TraitModel::all(
                abc.classes@[i].traits@,
            )
            &&& 0 <= i < abc.scripts@.len() ==> model.scripts[i].traits == TraitModel::all(
                abc.scripts@[i].traits@,
            )
            &&& 0 <= i < abc.method_bodies@.len() ==> model.method_bodies[i].traits
                == TraitModel::all(abc.method_bodies@[i].traits@)
        }),
{
}

/// The model of a multiname is of the same kind and has the same indexes.
pub proof fn model_holds_multinames(pool: ConstantPool, i: int)
    requires
        0 <= i < pool.multinames@.len(),
    ensures
        ({
            let m = PoolModel::of(pool).multinames[i];
            match pool.multinames@[i] {
                Multiname::QName { namespace, name } => m == (MultinameModel::QName {
                    namespace,
                    name,
                }),
                Multiname::QNameA { namespace, name } => m == (MultinameModel::QNameA {
                    namespace,
                    name,
                }),
                Multiname::RTQName { name } => m == (MultinameModel::RTQName { name }),
                Multiname::RTQNameA { name } => m == (MultinameModel::RTQNameA { name }),
                Multiname::RTQNameL => m == MultinameModel::RTQNameL,
                Multiname::RTQNameLA => m == MultinameModel::RTQNameLA,
                Multiname::Multiname { namespace_set, name } => m == (MultinameModel::Multiname {
                    namespace_set,
                    name,
                }),
                Multiname::MultinameA { namespace_set, name } => m == (MultinameModel::MultinameA {
                    namespace_set,
                    name,
                }),
                Multiname::MultinameL { namespace_set } => m == (MultinameModel::MultinameL {
                    namespace_set,
                }),
                Multiname::MultinameLA { namespace_set } => m == (MultinameModel::MultinameLA {
                    namespace_set,
                }),
                Multiname::TypeName { base_type, parameters } => m == (MultinameModel::TypeName {
                    base_type,
                    parameters: parameters@,
                }),
            }
        }),
{
}

/// The model of an instruction is the instruction itself, or what a switch holds.
pub proof fn model_holds_instructions(ops: Seq<Op>, i: int)
    requires
        0 <= i < ops.len(),
    ensures
        OpModel::all(ops).len() == ops.len(),
        !(ops[i] is LookupSwitch) ==> OpModel::all(ops)[i] == OpModel::Plain(ops[i]),
        ops[i] matches Op::LookupSwitch(switch) ==> {
            &&& OpModel::all(ops)[i] matches OpModel::Switch { default_offset, case_offsets }
            &&& default_offset == switch.default_offset
            &&& case_offsets == switch.case_offsets@
        },
{
}

} // verus!
