//! The `swf` types that the patches work on.
//!
//! All of their fields are public. They are declared with their fields, so that
//! what is proved of a value is proved of those fields as `swf` defines them;
//! only the flag set of a method is opaque.
use vstd::prelude::*;

verus! {

#[verifier::external_type_specification]
pub struct ExIndex<T>(swf::avm2::types::Index<T>);

#[verifier::external_type_specification]
pub struct ExAbcFile(swf::avm2::types::AbcFile);

#[verifier::external_type_specification]
pub struct ExConstantPool(swf::avm2::types::ConstantPool);

#[verifier::external_type_specification]
pub struct ExNamespace(swf::avm2::types::Namespace);

#[verifier::external_type_specification]
pub struct ExMultiname(swf::avm2::types::Multiname);

#[verifier::external_type_specification]
pub struct ExMethod(swf::avm2::types::Method);

#[verifier::external_type_specification]
#[verifier::external_body]
pub struct ExMethodFlags(swf::avm2::types::MethodFlags);

#[verifier::external_type_specification]
pub struct ExMethodParam(swf::avm2::types::MethodParam);

#[verifier::external_type_specification]
pub struct ExMethodBody(swf::avm2::types::MethodBody);

#[verifier::external_type_specification]
pub struct ExException(swf::avm2::types::Exception);

#[verifier::external_type_specification]
pub struct ExDefaultValue(swf::avm2::types::DefaultValue);

#[verifier::external_type_specification]
pub struct ExMetadata(swf::avm2::types::Metadata);

#[verifier::external_type_specification]
pub struct ExMetadataItem(swf::avm2::types::MetadataItem);

#[verifier::external_type_specification]
pub struct ExInstance(swf::avm2::types::Instance);

#[verifier::external_type_specification]
pub struct ExTrait(swf::avm2::types::Trait);

#[verifier::external_type_specification]
pub struct ExTraitKind(swf::avm2::types::TraitKind);

#[verifier::external_type_specification]
pub struct ExClass(swf::avm2::types::Class);

#[verifier::external_type_specification]
pub struct ExScript(swf::avm2::types::Script);

#[verifier::external_type_specification]
pub struct ExOp(swf::avm2::types::Op);

#[verifier::external_type_specification]
pub struct ExLookupSwitch(swf::avm2::types::LookupSwitch);

} // verus!
