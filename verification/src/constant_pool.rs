//! Searching the constant pool of an ABC file.
//!
//! An index into a pool is one more than the position of the entry, so that 0
//! can stand for "none". Indexes are 32-bit numbers and wrap.
use swf::avm2::types::{Instance, Multiname};
use vstd::prelude::*;
use crate::abc_model::{InstanceModel, MultinameModel, PoolModel};

verus! {

/// The position of the first element of `s` that satisfies `p`.
pub open spec fn position<T>(s: Seq<T>, p: spec_fn(T) -> bool) -> Option<int>
    decreases s.len(),
{
    if s.len() == 0 {
        None
    } else if p(s[0]) {
        Some(0)
    } else {
        match position(s.drop_first(), p) {
            Some(i) => Some(i + 1),
            None => None,
        }
    }
}

/// The first satisfying position is the one that no satisfying one precedes.
pub proof fn lemma_position_is<T>(s: Seq<T>, p: spec_fn(T) -> bool, i: int)
    requires
        0 <= i < s.len(),
        p(s[i]),
        forall|j: int| 0 <= j < i ==> !p(#[trigger] s[j]),
    ensures
        position(s, p) == Some(i),
    decreases s.len(),
{
    if i > 0 {
        assert(!p(s[0]));
        let rest = s.drop_first();
        assert forall|j: int| 0 <= j < i - 1 implies !p(#[trigger] rest[j]) by {
            assert(rest[j] == s[j + 1]);
        }
        lemma_position_is(rest, p, i - 1);
    }
}

/// There is no satisfying position where no element satisfies.
pub proof fn lemma_position_none<T>(s: Seq<T>, p: spec_fn(T) -> bool)
    requires
        forall|j: int| 0 <= j < s.len() ==> !p(#[trigger] s[j]),
    ensures
        position(s, p) is None,
    decreases s.len(),
{
    if s.len() > 0 {
        assert(!p(s[0]));
        let rest = s.drop_first();
        assert forall|j: int| 0 <= j < rest.len() implies !p(#[trigger] rest[j]) by {
            assert(rest[j] == s[j + 1]);
        }
        lemma_position_none(rest, p);
    }
}

/// What `position` returns is the first satisfying position, and it returns
/// one if there is one.
pub proof fn lemma_position<T>(s: Seq<T>, p: spec_fn(T) -> bool)
    ensures
        match position(s, p) {
            Some(i) => {
                &&& 0 <= i < s.len()
                &&& p(s[i])
                &&& forall|j: int| 0 <= j < i ==> !p(#[trigger] s[j])
            },
            None => forall|j: int| 0 <= j < s.len() ==> !p(#[trigger] s[j]),
        },
    decreases s.len(),
{
    if s.len() > 0 && !p(s[0]) {
        let rest = s.drop_first();
        lemma_position(rest, p);
        assert forall|j: int| 0 < j < s.len() implies s[j] == #[trigger] rest[j - 1] by {}
        match position(rest, p) {
            Some(i) => {
                assert forall|j: int| 0 <= j < i + 1 implies !p(#[trigger] s[j]) by {
                    if j > 0 {
                        assert(!p(rest[j - 1]));
                    }
                }
            },
            None => {
                assert forall|j: int| 0 <= j < s.len() implies !p(#[trigger] s[j]) by {
                    if j > 0 {
                        assert(!p(rest[j - 1]));
                    }
                }
            },
        }
    }
}

/// Appending does not change which element is the first one to satisfy.
pub proof fn lemma_position_in_longer<T>(s: Seq<T>, longer: Seq<T>, p: spec_fn(T) -> bool)
    requires
        s.is_prefix_of(longer),
        position(s, p) is Some,
    ensures
        position(longer, p) == position(s, p),
{
    lemma_position(s, p);
    let i = position(s, p)->Some_0;
    assert(longer[i] == s[i]);
    assert forall|j: int| 0 <= j < i implies !p(#[trigger] longer[j]) by {
        assert(longer[j] == s[j]);
    }
    lemma_position_is(longer, p, i);
}

/// The index of the pool entry at `pos`.
pub open spec fn pool_index(pos: int) -> u32 {
    ((pos + 1) % 0x1_0000_0000) as u32
}

/// The pool index of an entry.
pub fn index_at(pos: usize) -> (index: u32)
    ensures
        index == pool_index(pos as int),
{
    let pos = pos as u64;
    assert(pos as u32 == pos % 0x1_0000_0000) by (bit_vector);
    (pos as u32).wrapping_add(1)
}

/// The pool index of the first entry that satisfies `p`.
pub open spec fn index_of<T>(s: Seq<T>, p: spec_fn(T) -> bool) -> Option<u32> {
    match position(s, p) {
        Some(pos) => Some(pool_index(pos)),
        None => None,
    }
}

pub open spec fn equals(bytes: Seq<u8>) -> spec_fn(Seq<u8>) -> bool {
    |s: Seq<u8>| s == bytes
}

/// The pool index of the first string that holds `text`, in UTF-8.
pub open spec fn string_index(strings: Seq<Seq<u8>>, text: Seq<char>) -> Option<u32> {
    index_of(strings, equals(vstd::utf8::encode_utf8(text)))
}

impl PoolModel {
    /// The index of the first string that holds `text`, in UTF-8.
    pub open spec fn string_index(self, text: Seq<char>) -> Option<u32> {
        string_index(self.strings, text)
    }

    /// Whether `later` is this pool with nothing but strings and multinames
    /// appended, so that every index means in it what it meant.
    pub open spec fn extends_to(self, later: PoolModel) -> bool {
        &&& self.strings.is_prefix_of(later.strings)
        &&& self.multinames.is_prefix_of(later.multinames)
        &&& later == (PoolModel {
            strings: later.strings,
            multinames: later.multinames,
            ..self
        })
    }

    /// The index of the first multiname that satisfies `p`.
    pub open spec fn multiname_index(self, p: spec_fn(MultinameModel) -> bool) -> Option<u32> {
        index_of(self.multinames, p)
    }
}

fn bytes_equal(a: &[u8], b: &[u8]) -> (equal: bool)
    ensures
        equal == (a@ == b@),
{
    if a.len() != b.len() {
        return false;
    }
    for i in 0..a.len()
        invariant
            a@.len() == b@.len(),
            forall|j: int| 0 <= j < i ==> a@[j] == b@[j],
    {
        if a[i] != b[i] {
            return false;
        }
    }
    assert(a@ =~= b@);
    true
}

/// Finds a string of the pool by its text.
pub fn find_string(strings: &[Vec<u8>], target: &str) -> (index: Option<u32>)
    ensures
        index == string_index(PoolModel::byte_strings(strings@), target@),
{
    let bytes = target.as_bytes();
    let ghost all = PoolModel::byte_strings(strings@);
    for i in 0..strings.len()
        invariant
            all == PoolModel::byte_strings(strings@),
            bytes@ == vstd::utf8::encode_utf8(target@),
            forall|j: int| 0 <= j < i ==> !equals(bytes@)(#[trigger] all[j]),
    {
        if bytes_equal(strings[i].as_slice(), bytes) {
            proof {
                lemma_position_is(all, equals(bytes@), i as int);
            }
            return Some(index_at(i));
        }
    }
    proof {
        lemma_position_none(all, equals(bytes@));
    }
    None
}

impl MultinameModel {
    /// The string index of the name, where the multiname is qualified by a
    /// namespace or a namespace set.
    pub open spec fn name_index(self) -> Option<u32> {
        match self {
            MultinameModel::QName { name, .. } => Some(name.0),
            MultinameModel::QNameA { name, .. } => Some(name.0),
            MultinameModel::Multiname { name, .. } => Some(name.0),
            MultinameModel::MultinameA { name, .. } => Some(name.0),
            _ => None,
        }
    }

    /// Whether this is a `QName` or `QNameA` with this name.
    pub open spec fn is_qualified(self, name_idx: u32) -> bool {
        match self {
            MultinameModel::QName { name, .. } => name.0 == name_idx,
            MultinameModel::QNameA { name, .. } => name.0 == name_idx,
            _ => false,
        }
    }

    /// Whether this is a `QName` with this name.
    pub open spec fn is_qname(self, name_idx: u32) -> bool {
        self matches MultinameModel::QName { name, .. } && name.0 == name_idx
    }
}

pub open spec fn named(name_idx: u32) -> spec_fn(MultinameModel) -> bool {
    |m: MultinameModel| m.name_index() == Some(name_idx)
}

pub open spec fn qualified(name_idx: u32) -> spec_fn(MultinameModel) -> bool {
    |m: MultinameModel| m.is_qualified(name_idx)
}

pub open spec fn qname(name_idx: u32) -> spec_fn(MultinameModel) -> bool {
    |m: MultinameModel| m.is_qname(name_idx)
}

pub open spec fn instance_named(multiname_idx: u32) -> spec_fn(InstanceModel) -> bool {
    |i: InstanceModel| i.name.0 == multiname_idx
}

/// The string index of the name of a multiname that is qualified by a namespace
/// or a namespace set.
pub fn multiname_name_idx(m: &Multiname) -> (index: Option<u32>)
    ensures
        index == MultinameModel::of(*m).name_index(),
{
    match m {
        Multiname::QName { name, .. } | Multiname::QNameA { name, .. } => Some(name.0),
        Multiname::Multiname { name, .. } | Multiname::MultinameA { name, .. } => Some(name.0),
        _ => None,
    }
}

/// Whether a multiname is a `QName` or `QNameA` with this name.
pub fn multiname_name_is(multiname: &Multiname, name_idx: u32) -> (is: bool)
    ensures
        is == MultinameModel::of(*multiname).is_qualified(name_idx),
{
    match multiname {
        Multiname::QName { name, .. } | Multiname::QNameA { name, .. } => name.0 == name_idx,
        _ => false,
    }
}

/// The position of the first class with this name.
pub fn find_instance(instances: &[Instance], multiname_idx: u32) -> (pos: Option<usize>)
    ensures
        match position(InstanceModel::all(instances@), instance_named(multiname_idx)) {
            Some(i) => pos matches Some(p) && p == i && p < instances@.len(),
            None => pos is None,
        },
{
    let ghost all = InstanceModel::all(instances@);
    for i in 0..instances.len()
        invariant
            all == InstanceModel::all(instances@),
            forall|j: int| 0 <= j < i ==> !instance_named(multiname_idx)(#[trigger] all[j]),
    {
        if instances[i].name.0 == multiname_idx {
            proof {
                lemma_position_is(all, instance_named(multiname_idx), i as int);
            }
            return Some(i);
        }
    }
    proof {
        lemma_position_none(all, instance_named(multiname_idx));
    }
    None
}

/// The index of an entry is one more than its position. (A position that 32 bits
/// cannot number is left out.)
pub proof fn index_is_one_more_than_position(pos: int)
    requires
        0 <= pos < u32::MAX,
    ensures
        pool_index(pos) == pos + 1,
{
}

/// Indexes wrap: the position behind the last that 32 bits number gets 0.
pub proof fn indexes_wrap(pos: int)
    requires
        0 <= pos,
    ensures
        pool_index(0xFFFF_FFFF) == 0,
        pool_index(pos + 0x1_0000_0000) == pool_index(pos),
{
}

/// A pool that is extended keeps every entry under its index, and gets no other than
/// strings and multinames.
pub proof fn extended_pool_keeps_its_entries(pool: PoolModel, later: PoolModel)
    requires
        pool.extends_to(later),
    ensures
        later.ints == pool.ints,
        later.uints == pool.uints,
        later.doubles == pool.doubles,
        later.namespaces == pool.namespaces,
        later.namespace_sets == pool.namespace_sets,
        later.strings.len() >= pool.strings.len(),
        later.multinames.len() >= pool.multinames.len(),
        forall|i: int|
            0 <= i < pool.strings.len() ==> #[trigger] later.strings[i] == pool.strings[i],
        forall|i: int|
            0 <= i < pool.multinames.len() ==> #[trigger] later.multinames[i]
                == pool.multinames[i],
{
}

/// A string that is found by its text holds the text in UTF-8, and is the first that
/// does; and one is found if there is one. (A pool that its indexes cannot number is
/// left out.)
pub proof fn found_string_holds_the_text(strings: Seq<Seq<u8>>, text: Seq<char>)
    requires
        strings.len() <= u32::MAX,
    ensures
        match string_index(strings, text) {
            Some(index) => {
                &&& 1 <= index <= strings.len()
                &&& strings[index - 1] == vstd::utf8::encode_utf8(text)
                &&& forall|j: int|
                    0 <= j < index - 1 ==> #[trigger] strings[j] != vstd::utf8::encode_utf8(text)
            },
            None => forall|j: int|
                0 <= j < strings.len() ==> #[trigger] strings[j] != vstd::utf8::encode_utf8(text),
        },
{
    let p = equals(vstd::utf8::encode_utf8(text));
    lemma_position(strings, p);
    match position(strings, p) {
        Some(i) => {
            assert forall|j: int| 0 <= j < i implies #[trigger] strings[j]
                != vstd::utf8::encode_utf8(text) by {
                assert(!p(strings[j]));
            }
        },
        None => {
            assert forall|j: int| 0 <= j < strings.len() implies #[trigger] strings[j]
                != vstd::utf8::encode_utf8(text) by {
                assert(!p(strings[j]));
            }
        },
    }
}

/// The first string that holds a text is the one that is found.
pub proof fn first_string_is_found(strings: Seq<Seq<u8>>, text: Seq<char>, index: u32)
    requires
        strings.len() <= u32::MAX,
        1 <= index <= strings.len(),
        strings[index - 1] == vstd::utf8::encode_utf8(text),
        forall|j: int|
            0 <= j < index - 1 ==> #[trigger] strings[j] != vstd::utf8::encode_utf8(text),
    ensures
        string_index(strings, text) == Some(index),
{
    lemma_position_is(strings, equals(vstd::utf8::encode_utf8(text)), index - 1);
}

/// A multiname has a name if it is qualified by a namespace or a namespace set, for
/// attributes or not; one whose name comes at run time, or whose namespace does, has
/// none.
pub proof fn qualified_multinames_have_names(m: MultinameModel)
    ensures
        m matches MultinameModel::QName { name, .. } ==> m.name_index() == Some(name.0),
        m matches MultinameModel::QNameA { name, .. } ==> m.name_index() == Some(name.0),
        m matches MultinameModel::Multiname { name, .. } ==> m.name_index() == Some(name.0),
        m matches MultinameModel::MultinameA { name, .. } ==> m.name_index() == Some(name.0),
        m is RTQName || m is RTQNameA || m is RTQNameL || m is RTQNameLA || m is MultinameL
            || m is MultinameLA || m is TypeName ==> m.name_index() is None,
{
}

/// Only a `QName` or a `QNameA` is taken for the name of a class whose constructor is
/// looked for, and only by its own name.
pub proof fn only_qnames_are_qualified(m: MultinameModel, name_idx: u32)
    ensures
        m matches MultinameModel::QName { name, .. } ==> m.is_qualified(name_idx) == (name.0
            == name_idx),
        m matches MultinameModel::QNameA { name, .. } ==> m.is_qualified(name_idx) == (name.0
            == name_idx),
        !(m is QName) && !(m is QNameA) ==> !m.is_qualified(name_idx),
{
}

} // verus!
