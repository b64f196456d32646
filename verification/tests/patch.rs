use aqw_patch::patches::{handle_socket_data, player_domain_cache};
use aqw_patch::tag_splice::{find_do_abc_tag, TAG_DO_ABC, TAG_DO_ABC2};
use aqw_patch::{is_game_swf, patch, try_patch, PatchOutcome, GAME_SWF_NAME};
use swf::avm2::types::{
    AbcFile, ConstantPool, DefaultValue, Index, Instance, Method, MethodBody, MethodFlags,
    MethodParam, Multiname, Op, Trait, TraitKind,
};

const URL: &str = "https://game.aq.com/game/gamefiles/Game3098r24.swf?ver=1";

fn qname(name: u32) -> Multiname {
    Multiname::QName { namespace: Index::new(1), name: Index::new(name) }
}

fn method(default_value: Option<DefaultValue>) -> Method {
    Method {
        name: Index::new(0),
        params: vec![MethodParam { name: None, kind: Index::new(0), default_value }],
        return_type: Index::new(0),
        flags: if default_value.is_some() {
            MethodFlags::HAS_OPTIONAL
        } else {
            MethodFlags::empty()
        },
        body: None,
    }
}

fn instance(name: u32, init_method: u32, traits: Vec<Trait>) -> Instance {
    Instance {
        name: Index::new(name),
        super_name: Index::new(0),
        is_sealed: false,
        is_final: false,
        is_interface: false,
        protected_namespace: None,
        interfaces: vec![],
        init_method: Index::new(init_method),
        traits,
    }
}

fn method_trait(name: u32, method: u32) -> Trait {
    Trait {
        name: Index::new(name),
        kind: TraitKind::Method { disp_id: 0, method: Index::new(method) },
        metadata: vec![],
        is_final: false,
        is_override: false,
    }
}

/// A body of this method with one exception handler.
fn body(method: u32, code: Vec<u8>) -> MethodBody {
    // A file with one method and one body, which has no code and one handler.
    let bytes = [
        16, 0, 46, 0, 0, 0, 0, 0, 0, 0, 0, 1, 0, 0, 0, 0, 0, 0, 0, 1, 0, 1, 2, 3, 4, 0, 1, 0, 4, 5,
        8, 9, 0,
    ];
    let abc = swf::avm2::read::Reader::new(&bytes).read().unwrap();
    MethodBody { method: Index::new(method), code, ..abc.method_bodies[0].clone() }
}

fn class(init_method: u32) -> swf::avm2::types::Class {
    swf::avm2::types::Class { init_method: Index::new(init_method), traits: vec![] }
}

/// A file with both classes that are patched.
fn game_abc() -> AbcFile {
    AbcFile {
        major_version: 46,
        minor_version: 16,
        constant_pool: ConstantPool {
            ints: vec![20],
            uints: vec![],
            doubles: vec![],
            strings: vec![
                b"PlayerDomainCache".to_vec(),
                b"SmartFoxClient".to_vec(),
                b"handleSocketData".to_vec(),
                b"socketConnection".to_vec(),
            ],
            namespaces: vec![],
            namespace_sets: vec![],
            multinames: vec![
                qname(1),
                qname(2),
                qname(3),
                Multiname::Multiname { namespace_set: Index::new(5), name: Index::new(4) },
            ],
        },
        methods: vec![method(Some(DefaultValue::Int(Index::new(1)))), method(None)],
        metadata: vec![],
        instances: vec![instance(1, 0, vec![]), instance(2, 1, vec![method_trait(3, 1)])],
        classes: vec![class(1), class(1)],
        scripts: vec![],
        method_bodies: vec![body(1, vec![71])],
    }
}

fn snippet_abc() -> Vec<u8> {
    let code = handle_socket_data::reassemble(&[
        Op::GetProperty { index: Index::new(3) },
        Op::GetProperty { index: Index::new(4) },
        Op::ReturnVoid,
    ])
    .unwrap();
    bytes_of(AbcFile {
        constant_pool: ConstantPool {
            ints: vec![],
            strings: vec![
                b"HSD".to_vec(),
                b"handleSocketData".to_vec(),
                b"clear".to_vec(),
                b"socketConnection".to_vec(),
            ],
            multinames: vec![qname(1), qname(2), qname(3), qname(4)],
            ..game_abc().constant_pool
        },
        methods: vec![method(None)],
        instances: vec![instance(1, 0, vec![method_trait(2, 0)])],
        classes: vec![class(0)],
        method_bodies: vec![body(0, code)],
        ..game_abc()
    })
}

fn bytes_of(abc: AbcFile) -> Vec<u8> {
    let mut bytes = Vec::new();
    swf::avm2::write::Writer::new(&mut bytes).write(abc).unwrap();
    bytes
}

fn read(bytes: &[u8]) -> AbcFile {
    swf::avm2::read::Reader::new(bytes).read().unwrap()
}

fn tag(code: u16, body: &[u8]) -> Vec<u8> {
    let mut tag = ((code << 6) | 0x3F).to_le_bytes().to_vec();
    tag.extend_from_slice(&(body.len() as u32).to_le_bytes());
    tag.extend_from_slice(body);
    tag
}

const PREFIX: &[u8] = &[1, 0, 0, 0, b'g', b'a', b'm', b'e', 0];

/// A stream with a tag before the `DoAbc2` tag and two behind it.
fn stream(abc: AbcFile) -> Vec<u8> {
    let body = [PREFIX, &bytes_of(abc)].concat();
    [tag(9, &[1, 2, 3]), tag(TAG_DO_ABC2, &body), tag(1, &[]), tag(0, &[])].concat()
}

/// What the patches are to make of the file that these bytes hold.
fn patched_bytes(abc_bytes: &[u8]) -> Vec<u8> {
    let mut abc = read(abc_bytes);
    assert_eq!(player_domain_cache::apply(&mut abc), Ok(true));
    assert_eq!(
        handle_socket_data::apply_snippet(&mut abc, &read(&snippet_abc())),
        Ok(true)
    );
    bytes_of(abc)
}

fn results(outcome: &PatchOutcome) -> (Result<bool, String>, Result<bool, String>) {
    match outcome {
        PatchOutcome::Examined { player_domain_cache, handle_socket_data } => {
            (player_domain_cache.clone(), handle_socket_data.clone())
        }
        _ => panic!("the patches were not tried"),
    }
}

#[test]
fn the_game_client_is_known_by_its_file_name() {
    assert_eq!(GAME_SWF_NAME, "Game3098r24.swf");
    for url in [
        "Game3098r24.swf",
        "/Game3098r24.swf",
        "https://game.aq.com/game/gamefiles/Game3098r24.swf",
        "https://game.aq.com/Game3098r24.swf?ver=1&path=/other.swf",
        "https://game.aq.com/Game3098r24.swf#top",
        "https://game.aq.com/Game3098r24.swf#?x",
    ] {
        assert!(is_game_swf(url), "{url}");
    }
    for url in [
        "",
        "/",
        "?",
        "?/Game3098r24.swf",
        "Game3098r24.swf/",
        "Game3098r24.sw",
        "Game3098r24.swff",
        "xGame3098r24.swf",
        "game3098r24.swf",
        "https://game.aq.com/other.swf?Game3098r24.swf",
        "https://game.aq.com/other.swf#/Game3098r24.swf",
        "Game3098r24\u{2e}swf\u{fe0f}",
    ] {
        assert!(!is_game_swf(url), "{url}");
    }
}

#[test]
fn both_patches_are_applied_to_a_do_abc2_tag() {
    let mut data = stream(game_abc());
    let before = data.clone();
    let outcome = patch(URL, 10, &mut data, &snippet_abc());
    assert_eq!(results(&outcome), (Ok(true), Ok(true)));
    assert_eq!(outcome.applied(), 2);

    let (start, range, code) = find_do_abc_tag(&data, 10).unwrap();
    assert_eq!((start, code), (9, TAG_DO_ABC2));
    let new_body = &data[range.clone()];
    assert_eq!(&new_body[..PREFIX.len()], PREFIX);
    assert_eq!(&new_body[PREFIX.len()..], &patched_bytes(&bytes_of(game_abc()))[..]);
    assert_eq!(&data[..9], &before[..9]);
    assert_eq!(&data[range.end..], &before[before.len() - 12..]);

    let new_abc = read(&new_body[PREFIX.len()..]);
    assert_eq!(new_abc.constant_pool.ints, vec![20, 8]);
    assert_eq!(
        new_abc.methods[0].params[0].default_value,
        Some(DefaultValue::Int(Index::new(2)))
    );
    assert_eq!(new_abc.constant_pool.strings[4], b"clear".to_vec());
    assert_eq!(
        handle_socket_data::disassemble(&new_abc.method_bodies[0].code).unwrap(),
        vec![
            Op::GetProperty { index: Index::new(5) },
            Op::GetProperty { index: Index::new(4) },
            Op::ReturnVoid,
        ]
    );
}

#[test]
fn both_patches_are_applied_to_a_do_abc_tag() {
    let abc_bytes = bytes_of(game_abc());
    let mut data = [tag(TAG_DO_ABC, &abc_bytes), tag(0, &[])].concat();
    let outcome = patch(URL, 9, &mut data, &snippet_abc());
    assert_eq!(outcome.applied(), 2);
    assert_eq!(data, [tag(TAG_DO_ABC, &patched_bytes(&abc_bytes)), tag(0, &[])].concat());
}

#[test]
fn one_patch_is_enough_to_change_the_stream() {
    let mut abc = game_abc();
    abc.constant_pool.ints = vec![21];
    let mut data = stream(abc);
    let before = data.clone();
    let outcome = patch(URL, 10, &mut data, &snippet_abc());
    assert_eq!(
        results(&outcome),
        (
            Err("unexpected constructor default Some(21), expected 20".to_string()),
            Ok(true)
        )
    );
    assert_eq!(outcome.applied(), 1);
    assert_ne!(data, before);
}

#[test]
fn a_second_run_finds_the_cap_lowered() {
    let mut data = stream(game_abc());
    assert_eq!(patch(URL, 10, &mut data, &snippet_abc()).applied(), 2);
    let once = data.clone();
    let outcome = patch(URL, 10, &mut data, &snippet_abc());
    assert_eq!(
        results(&outcome).0,
        Err("unexpected constructor default Some(8), expected 20".to_string())
    );
    assert_eq!(data, once);
}

#[test]
fn a_stream_in_which_nothing_applies_is_left_alone() {
    let mut abc = game_abc();
    abc.instances.clear();
    abc.classes.clear();
    let mut data = stream(abc);
    let before = data.clone();
    let outcome = patch(URL, 10, &mut data, &snippet_abc());
    assert_eq!(results(&outcome), (Ok(false), Ok(false)));
    assert_eq!(outcome.applied(), 0);
    assert_eq!(data, before);
}

#[test]
fn another_file_is_left_alone() {
    let mut data = stream(game_abc());
    let before = data.clone();
    let outcome = patch("https://game.aq.com/other.swf", 10, &mut data, &snippet_abc());
    assert!(matches!(outcome, PatchOutcome::OtherFile));
    assert_eq!(outcome.applied(), 0);
    assert_eq!(data, before);
}

#[test]
fn a_stream_without_an_abc_tag_is_left_alone() {
    let mut data = [tag(9, &[1]), tag(0, &[])].concat();
    let before = data.clone();
    assert!(matches!(patch(URL, 10, &mut data, &snippet_abc()), PatchOutcome::NoAbcTag));
    assert_eq!(data, before);
}

#[test]
fn a_cut_do_abc2_prefix_is_reported() {
    let mut data = tag(TAG_DO_ABC2, &[1, 0, 0, 0, b'x']);
    let before = data.clone();
    match patch(URL, 10, &mut data, &snippet_abc()) {
        PatchOutcome::BadDoAbc2Header(e) => {
            assert_eq!(e, "failed to read DoAbc2 name: unexpected end of SWF or tag")
        }
        _ => panic!("the prefix was read"),
    }
    assert_eq!(data, before);
}

#[test]
fn a_tag_without_an_abc_file_is_reported() {
    let mut data = tag(TAG_DO_ABC, &[16, 0, 46]);
    let before = data.clone();
    let why = swf::avm2::read::Reader::new(&[16, 0, 46]).read().unwrap_err();
    match patch(URL, 10, &mut data, &snippet_abc()) {
        PatchOutcome::BadAbc(e) => assert_eq!(e, why.to_string()),
        _ => panic!("the file was read"),
    }
    assert_eq!(data, before);
}

#[test]
fn a_file_that_can_be_patched_is() {
    let mut data = stream(game_abc());
    let mut expected = data.clone();
    patch(URL, 10, &mut expected, &snippet_abc());
    assert_eq!(try_patch(URL, 10, &mut data, &snippet_abc()).unwrap().applied(), 2);
    assert_eq!(data, expected);
}

#[test]
fn a_tag_beyond_the_stream_is_not_patched() {
    let mut data = tag(TAG_DO_ABC, &bytes_of(game_abc()));
    data.pop();
    let before = data.clone();
    assert!(try_patch(URL, 10, &mut data, &snippet_abc()).is_none());
    assert_eq!(data, before);
    // Of another file nothing is asked.
    assert!(matches!(
        try_patch("x.swf", 10, &mut data, &snippet_abc()),
        Some(PatchOutcome::OtherFile)
    ));
}

#[test]
fn a_snippet_without_a_handler_is_not_applied() {
    let mut snippet = read(&snippet_abc());
    snippet.method_bodies[0].exceptions.clear();
    let bytes = bytes_of(snippet);
    let mut data = stream(game_abc());
    let before = data.clone();
    assert!(try_patch(URL, 10, &mut data, &bytes).is_none());
    assert_eq!(data, before);
}

#[test]
fn a_snippet_that_is_not_wanted_may_be_unusable() {
    let mut snippet = read(&snippet_abc());
    snippet.method_bodies[0].exceptions.clear();
    let bytes = bytes_of(snippet);
    let mut abc = game_abc();
    abc.instances[1].traits.clear();
    let mut data = stream(abc);
    let outcome = try_patch(URL, 10, &mut data, &bytes).unwrap();
    assert_eq!(results(&outcome), (Ok(true), Ok(false)));
    let mut without_tag = tag(0, &[]);
    assert!(matches!(
        try_patch(URL, 10, &mut without_tag, &bytes),
        Some(PatchOutcome::NoAbcTag)
    ));
}
