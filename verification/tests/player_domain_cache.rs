use aqw_patch::patches::player_domain_cache::{apply, EXPECTED_OLD_VALUE, NEW_MAX_SIZE};
use swf::avm2::types::{
    AbcFile, ConstantPool, DefaultValue, Index, Instance, Method, MethodFlags, MethodParam,
    Multiname,
};

fn method(defaults: &[Option<DefaultValue>]) -> Method {
    Method {
        name: Index::new(0),
        params: defaults
            .iter()
            .map(|d| MethodParam { name: None, kind: Index::new(0), default_value: *d })
            .collect(),
        return_type: Index::new(0),
        flags: MethodFlags::empty(),
        body: None,
    }
}

fn instance(name: u32, init_method: u32) -> Instance {
    Instance {
        name: Index::new(name),
        super_name: Index::new(0),
        is_sealed: true,
        is_final: false,
        is_interface: false,
        protected_namespace: None,
        interfaces: vec![],
        init_method: Index::new(init_method),
        traits: vec![],
    }
}

/// A file with `PlayerDomainCache` as its second class, whose constructor is
/// method 1 and whose integers are 5, 20, 7.
fn file(constructor: Method) -> AbcFile {
    AbcFile {
        major_version: 46,
        minor_version: 16,
        constant_pool: ConstantPool {
            ints: vec![5, 20, 7],
            uints: vec![],
            doubles: vec![],
            strings: vec![b"Other".to_vec(), b"PlayerDomainCache".to_vec()],
            namespaces: vec![],
            namespace_sets: vec![],
            multinames: vec![
                Multiname::Multiname { namespace_set: Index::new(1), name: Index::new(2) },
                Multiname::QName { namespace: Index::new(1), name: Index::new(1) },
                Multiname::QName { namespace: Index::new(1), name: Index::new(2) },
            ],
        },
        methods: vec![method(&[]), constructor, method(&[Some(DefaultValue::Int(Index::new(2)))])],
        metadata: vec![],
        instances: vec![instance(2, 0), instance(3, 1)],
        classes: vec![],
        scripts: vec![],
        method_bodies: vec![],
    }
}

fn int_default(index: u32) -> Option<DefaultValue> {
    Some(DefaultValue::Int(Index::new(index)))
}

fn refused(mut abc: AbcFile) -> String {
    let before = abc.clone();
    let message = apply(&mut abc).unwrap_err();
    assert_eq!(abc, before);
    message
}

#[test]
fn lowers_the_default_of_the_first_parameter() {
    let mut abc = file(method(&[int_default(2), int_default(2)]));
    let mut expected = abc.clone();
    assert_eq!(apply(&mut abc), Ok(true));
    expected.constant_pool.ints = vec![5, 20, 7, 8];
    expected.methods[1] = method(&[int_default(4), int_default(2)]);
    assert_eq!(abc, expected);
    assert_eq!((EXPECTED_OLD_VALUE, NEW_MAX_SIZE), (20, 8));
}

#[test]
fn a_qname_for_attributes_names_the_class_too() {
    let mut abc = file(method(&[int_default(2)]));
    abc.constant_pool.multinames[2] =
        Multiname::QNameA { namespace: Index::new(1), name: Index::new(2) };
    assert_eq!(apply(&mut abc), Ok(true));
    assert_eq!(abc.methods[1], method(&[int_default(4)]));
}

#[test]
fn a_patched_file_is_not_patched_again_at_once() {
    let mut abc = file(method(&[int_default(2)]));
    assert_eq!(apply(&mut abc), Ok(true));
    assert_eq!(refused(abc), "unexpected constructor default Some(8), expected 20");
}

#[test]
fn a_file_without_the_class_is_left_alone() {
    let mut without_string = file(method(&[int_default(2)]));
    without_string.constant_pool.strings.pop();
    let mut without_multiname = file(method(&[int_default(2)]));
    without_multiname.constant_pool.multinames.pop();
    let mut without_instance = file(method(&[int_default(2)]));
    without_instance.instances.pop();
    for mut abc in [without_string, without_multiname, without_instance] {
        let before = abc.clone();
        assert_eq!(apply(&mut abc), Ok(false));
        assert_eq!(abc, before);
    }
}

#[test]
fn a_constructor_out_of_range_is_refused() {
    let mut abc = file(method(&[int_default(2)]));
    abc.instances[1].init_method = Index::new(3);
    assert_eq!(refused(abc), "constructor method index out of range");
}

#[test]
fn a_constructor_without_parameters_is_refused() {
    assert_eq!(
        refused(file(method(&[]))),
        "PlayerDomainCache constructor has no parameters"
    );
}

#[test]
fn another_default_is_refused() {
    let none = "unexpected constructor default None, expected 20";
    assert_eq!(
        refused(file(method(&[int_default(1)]))),
        "unexpected constructor default Some(5), expected 20"
    );
    assert_eq!(refused(file(method(&[None]))), none);
    assert_eq!(refused(file(method(&[Some(DefaultValue::True)]))), none);
    assert_eq!(refused(file(method(&[Some(DefaultValue::Uint(Index::new(2)))]))), none);
    assert_eq!(refused(file(method(&[int_default(0)]))), none);
    assert_eq!(refused(file(method(&[int_default(4)]))), none);
}

#[test]
fn a_negative_default_is_named_in_the_message() {
    let mut abc = file(method(&[int_default(1)]));
    abc.constant_pool.ints[0] = i32::MIN;
    assert_eq!(
        refused(abc),
        "unexpected constructor default Some(-2147483648), expected 20"
    );
}
