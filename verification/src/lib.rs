//! Runtime ABC bytecode patches applied to the officially-served AQW game
//! client, and the renderer's frame statistics.
//!
//! A patch only touches a matched SWF's `DoAbc`/`DoAbc2` tag. The tag stream is
//! walked and spliced here; ABC data is read and written by the `swf` crate, whose
//! calls are all in [`swf_calls`]. Targets are 64-bit: `swf` counts the entries of
//! a file in `usize`.
use swf::avm2::types::AbcFile;
use vstd::prelude::*;
use crate::abc_model::AbcModel;
use crate::patches::handle_socket_data::{find_method_index, is_usable_snippet};
use crate::swf_calls::{read_abc, write_abc};
use crate::tag_splice::{find_do_abc_tag, splice_tag, split_do_abc2_body};

pub mod abc_model;
pub mod constant_pool;
pub mod patches;
pub mod stats;
pub mod swf_calls;
pub mod swf_types;
pub mod tag_splice;
pub mod text;

verus! {

pub const GAME_SWF_NAME: &'static str = "Game3098r24.swf";

pub open spec fn ends_path() -> spec_fn(char) -> bool {
    |c: char| c == '?' || c == '#'
}

/// A URL up to its query or fragment.
pub open spec fn path_of(url: Seq<char>) -> Seq<char> {
    match constant_pool::position(url, ends_path()) {
        Some(i) => url.take(i),
        None => url,
    }
}

/// What follows the last slash of a path, or the whole of a path without one.
pub open spec fn last_segment(path: Seq<char>) -> Seq<char>
    decreases path.len(),
{
    if path.len() == 0 || path.last() == '/' {
        Seq::empty()
    } else {
        last_segment(path.drop_last()).push(path.last())
    }
}

/// Whether a URL is that of the game client: its path ends in the client's file
/// name.
pub open spec fn names_game_swf(url: Seq<char>) -> bool {
    last_segment(path_of(url)) == GAME_SWF_NAME@
}

/// Whether `segment` holds the characters of `text`.
fn is_text(segment: &Vec<char>, text: &str) -> (is: bool)
    ensures
        is == (segment@ == text@),
{
    let mut matched: usize = 0;
    for c in it: text.chars()
        invariant
            it.seq() == text@,
            matched == it.index(),
            matched <= segment@.len(),
            forall|j: int| 0 <= j < matched ==> segment@[j] == text@[j],
    {
        if matched == segment.len() || segment[matched] != c {
            return false;
        }
        matched += 1;
    }
    assert(matched == segment@.len() ==> segment@ =~= text@);
    matched == segment.len()
}

/// Whether a URL is that of the game client.
pub fn is_game_swf(url: &str) -> (is: bool)
    ensures
        is == names_game_swf(url@),
{
    let mut segment: Vec<char> = Vec::new();
    assert(url@.take(0).len() == 0);
    for c in it: url.chars()
        invariant
            it.seq() == url@,
            segment@ == last_segment(url@.take(it.index())),
            forall|j: int| 0 <= j < it.index() ==> !ends_path()(#[trigger] url@[j]),
    {
        if c == '?' || c == '#' {
            proof {
                constant_pool::lemma_position_is(url@, ends_path(), it.index());
            }
            return is_text(&segment, GAME_SWF_NAME);
        }
        proof {
            let seen = url@.take(it.index() + 1);
            assert(seen.drop_last() =~= url@.take(it.index()));
            assert(seen.last() == c);
        }
        if c == '/' {
            segment.clear();
        } else {
            segment.push(c);
        }
    }
    proof {
        constant_pool::lemma_position_none(url@, ends_path());
        assert(url@.take(url@.len() as int) =~= url@);
    }
    is_text(&segment, GAME_SWF_NAME)
}

/// What came of an attempt to patch a file. In every case but the last the file
/// stays as it is, and in the last unless a patch applied.
pub enum PatchOutcome {
    /// The URL is not that of the game client.
    OtherFile,
    /// There is no `DoAbc` or `DoAbc2` tag.
    NoAbcTag,
    /// The prefix of the `DoAbc2` tag is cut short.
    BadDoAbc2Header(String),
    /// The tag does not hold an ABC file.
    BadAbc(String),
    /// The patched ABC file could not be written. Writing to memory does not fail.
    NotEncoded(String),
    /// The patches were tried, with these results.
    Examined {
        player_domain_cache: Result<bool, String>,
        handle_socket_data: Result<bool, String>,
    },
}

/// A [`PatchOutcome`] with its messages taken as sequences of characters.
pub enum OutcomeModel {
    OtherFile,
    NoAbcTag,
    BadDoAbc2Header(Seq<char>),
    BadAbc(Seq<char>),
    NotEncoded(Seq<char>),
    Examined {
        player_domain_cache: Result<bool, Seq<char>>,
        handle_socket_data: Result<bool, Seq<char>>,
    },
}

impl View for PatchOutcome {
    type V = OutcomeModel;

    open spec fn view(&self) -> OutcomeModel {
        match *self {
            PatchOutcome::OtherFile => OutcomeModel::OtherFile,
            PatchOutcome::NoAbcTag => OutcomeModel::NoAbcTag,
            PatchOutcome::BadDoAbc2Header(e) => OutcomeModel::BadDoAbc2Header(e@),
            PatchOutcome::BadAbc(e) => OutcomeModel::BadAbc(e@),
            PatchOutcome::NotEncoded(e) => OutcomeModel::NotEncoded(e@),
            PatchOutcome::Examined {
                player_domain_cache,
                handle_socket_data,
            } => OutcomeModel::Examined {
                player_domain_cache: text::result_view(player_domain_cache),
                handle_socket_data: text::result_view(handle_socket_data),
            },
        }
    }
}

/// The number of patches that applied, given their results.
pub open spec fn count_applied(
    player_domain_cache: Result<bool, Seq<char>>,
    handle_socket_data: Result<bool, Seq<char>>,
) -> int {
    (if player_domain_cache == Ok::<bool, Seq<char>>(true) {
        1int
    } else {
        0
    }) + (if handle_socket_data == Ok::<bool, Seq<char>>(true) {
        1int
    } else {
        0
    })
}

impl OutcomeModel {
    /// The number of patches that applied.
    pub open spec fn applied(self) -> int {
        match self {
            OutcomeModel::Examined { player_domain_cache, handle_socket_data } => count_applied(
                player_domain_cache,
                handle_socket_data,
            ),
            _ => 0,
        }
    }
}

impl PatchOutcome {
    /// The number of patches that applied.
    pub fn applied(&self) -> (n: u32)
        ensures
            n == self@.applied(),
    {
        let mut n: u32 = 0;
        if let PatchOutcome::Examined { player_domain_cache, handle_socket_data } = self {
            if let Ok(true) = player_domain_cache {
                n += 1;
            }
            if let Ok(true) = handle_socket_data {
                n += 1;
            }
        }
        n
    }
}

/// Where in the body of a tag with this code the ABC data starts, or the message
/// that says why nowhere.
pub open spec fn abc_start(tag_code: u16, body: Seq<u8>) -> Result<int, Seq<char>> {
    if tag_code == tag_splice::TAG_DO_ABC2 {
        tag_splice::do_abc2_prefix_len(body)
    } else {
        Ok(0)
    }
}

/// An ABC file after both patches, and the results of the two.
pub open spec fn patched_abc(abc: AbcModel, snippet_abc: Seq<u8>) -> (
    AbcModel,
    Result<bool, Seq<char>>,
    Result<bool, Seq<char>>,
) {
    let (capped, domain_cache) = patches::player_domain_cache::applied(abc);
    let (new_abc, socket_data) = patches::handle_socket_data::applied(capped, snippet_abc);
    (new_abc, domain_cache, socket_data)
}

/// What [`patch`] makes of a tag stream, and what it reports.
pub open spec fn patched(url: Seq<char>, data: Seq<u8>, snippet_abc: Seq<u8>) -> (
    Seq<u8>,
    OutcomeModel,
) {
    if !names_game_swf(url) {
        (data, OutcomeModel::OtherFile)
    } else {
        match tag_splice::addressable_abc_tag(data) {
            None => (data, OutcomeModel::NoAbcTag),
            Some(tag) => {
                let body = data.subrange(tag.body_start, tag.body_end);
                match abc_start(tag.code, body) {
                    Err(e) => (data, OutcomeModel::BadDoAbc2Header(e)),
                    Ok(n) => match swf_calls::swf_read_abc(body.skip(n)) {
                        Err(e) => (data, OutcomeModel::BadAbc(e)),
                        Ok(abc) => {
                            let (new_abc, player_domain_cache, handle_socket_data) = patched_abc(
                                abc,
                                snippet_abc,
                            );
                            let new_data = if count_applied(
                                player_domain_cache,
                                handle_socket_data,
                            ) == 0 {
                                data
                            } else {
                                tag_splice::spliced(
                                    data,
                                    tag.header_start,
                                    tag.body_end,
                                    tag.code,
                                    body.take(n) + swf_calls::swf_abc_bytes(new_abc),
                                )
                            };
                            (
                                new_data,
                                OutcomeModel::Examined { player_domain_cache, handle_socket_data },
                            )
                        },
                    },
                }
            },
        }
    }
}

/// Whether the ABC file in the body of this tag has the method that the snippet
/// replaces.
pub open spec fn tag_wants_snippet(tag_code: u16, body: Seq<u8>) -> bool {
    abc_start(tag_code, body) matches Ok(n) && swf_calls::swf_read_abc(body.skip(n)) matches Ok(abc)
        && patches::handle_socket_data::wants_snippet(abc)
}

/// What a patch of the game client relies on: the ABC tag lies within the stream, and
/// the snippet can be applied if it is to be. Nothing is asked of other files.
pub open spec fn patchable(url: Seq<char>, data: Seq<u8>, snippet_abc: Seq<u8>) -> bool {
    names_game_swf(url) ==> (tag_splice::addressable_abc_tag(data) matches Some(tag) ==> {
        &&& tag.body_end <= data.len()
        &&& tag_wants_snippet(tag.code, data.subrange(tag.body_start, tag.body_end))
            ==> patches::handle_socket_data::usable_snippet(snippet_abc)
    })
}

/// A file that was read from a tag body can be written after both patches.
proof fn lemma_patched_is_encodable(abc: AbcModel, snippet_abc: Seq<u8>, len: nat)
    requires
        abc.fits_in(len),
        len <= u32::MAX,
    ensures
        patched_abc(abc, snippet_abc).0.encodable(),
{
    let capped = patches::player_domain_cache::applied(abc).0;
    let new_abc = patched_abc(abc, snippet_abc).0;
    match swf_calls::swf_read_abc(snippet_abc) {
        Ok(snippet) => {
            patches::handle_socket_data::laws::patch_keeps_every_index(capped, snippet);
        },
        Err(_) => {},
    }
    assert(patches::handle_socket_data::symbols().len() == 13);
    assert(new_abc.methods == capped.methods);
    assert forall|i: int| 0 <= i < new_abc.methods.len() implies (
    #[trigger] new_abc.methods[i]).params.len() <= u32::MAX by {
        assert(capped.methods[i].params.len() == abc.methods[i].params.len());
    }
}

/// Splits the body of a tag with this code into what stands before its ABC data and
/// that data.
fn split_tag_body(tag_code: u16, body: &[u8]) -> (parts: Result<(&[u8], &[u8]), String>)
    ensures
        match abc_start(tag_code, body@) {
            Ok(n) => {
                &&& 0 <= n <= body@.len()
                &&& parts matches Ok((prefix, abc))
                &&& prefix@ == body@.take(n)
                &&& abc@ == body@.skip(n)
            },
            Err(message) => parts matches Err(e) && e@ == message,
        },
{
    if tag_code == tag_splice::TAG_DO_ABC2 {
        split_do_abc2_body(body)
    } else {
        Ok(body.split_at(0))
    }
}

/// Whether the ABC file in the body of this tag has the method that the snippet
/// replaces.
fn does_tag_want_snippet(tag_code: u16, body: &[u8]) -> (wants: bool)
    requires
        body@.len() <= u32::MAX,
    ensures
        wants == tag_wants_snippet(tag_code, body@),
{
    match split_tag_body(tag_code, body) {
        Ok((_, abc_bytes)) => match read_abc(abc_bytes) {
            Ok(abc) => find_method_index(
                &abc,
                patches::handle_socket_data::CLASS_NAME,
                patches::handle_socket_data::METHOD_NAME,
            ).is_some(),
            Err(_) => false,
        },
        Err(_) => false,
    }
}

/// Applies the patches to an ABC file, one after the other.
pub fn apply_patches(abc: &mut AbcFile, snippet_abc: &[u8]) -> (outcome: PatchOutcome)
    requires
        patches::handle_socket_data::wants_snippet(AbcModel::of(*old(abc)))
            ==> patches::handle_socket_data::usable_snippet(snippet_abc@),
    ensures
        ({
            let (new_abc, player_domain_cache, handle_socket_data) = patched_abc(
                AbcModel::of(*old(abc)),
                snippet_abc@,
            );
            &&& AbcModel::of(*final(abc)) == new_abc
            &&& outcome@ == (OutcomeModel::Examined { player_domain_cache, handle_socket_data })
        }),
{
    let player_domain_cache = patches::player_domain_cache::apply(abc);
    let handle_socket_data = patches::handle_socket_data::apply(abc, snippet_abc);
    PatchOutcome::Examined { player_domain_cache, handle_socket_data }
}

/// Applies the patches to the ABC tag of a decompressed tag stream, where `url` is
/// that of the game client.
///
/// `snippet_abc` is the compiled replacement of `handleSocketData`. The stream
/// changes only if a patch applied, and then only in its first ABC tag.
pub fn patch(url: &str, version: u8, data: &mut Vec<u8>, snippet_abc: &[u8]) -> (outcome:
    PatchOutcome)
    requires
        patchable(url@, old(data)@, snippet_abc@),
    ensures
        final(data)@ == patched(url@, old(data)@, snippet_abc@).0,
        outcome@ == patched(url@, old(data)@, snippet_abc@).1,
{
    if !is_game_swf(url) {
        return PatchOutcome::OtherFile;
    }
    proof {
        tag_splice::lemma_found_at_or_after(data@, 0);
    }
    let (header_start, body_range, tag_code) = match find_do_abc_tag(data.as_slice(), version) {
        Some(found) => found,
        None => {
            return PatchOutcome::NoAbcTag;
        },
    };
    let body = vstd::slice::slice_to_vec(
        vstd::slice::slice_subrange(data.as_slice(), body_range.start, body_range.end),
    );
    let (prefix, abc_bytes): (&[u8], &[u8]) = match split_tag_body(tag_code, body.as_slice()) {
        Ok(parts) => parts,
        Err(e) => {
            return PatchOutcome::BadDoAbc2Header(e);
        },
    };
    let mut abc = match read_abc(abc_bytes) {
        Ok(abc) => abc,
        Err(e) => {
            return PatchOutcome::BadAbc(e);
        },
    };
    let ghost model = AbcModel::of(abc);
    let outcome = apply_patches(&mut abc, snippet_abc);
    if outcome.applied() == 0 {
        return outcome;
    }
    proof {
        lemma_patched_is_encodable(model, snippet_abc@, abc_bytes@.len());
    }
    let mut new_abc_bytes = match write_abc(abc) {
        Ok(bytes) => bytes,
        Err(e) => {
            return PatchOutcome::NotEncoded(e);
        },
    };
    let mut new_body = vstd::slice::slice_to_vec(prefix);
    new_body.append(&mut new_abc_bytes);
    splice_tag(data, header_start, body_range, tag_code, new_body.as_slice());
    outcome
}

/// Patches a file as [`patch`] does if it can be patched. Otherwise returns `None`
/// and leaves the file as it is.
pub fn try_patch(url: &str, version: u8, data: &mut Vec<u8>, snippet_abc: &[u8]) -> (outcome:
    Option<PatchOutcome>)
    ensures
        if patchable(url@, old(data)@, snippet_abc@) {
            &&& final(data)@ == patched(url@, old(data)@, snippet_abc@).0
            &&& outcome matches Some(o)
            &&& o@ == patched(url@, old(data)@, snippet_abc@).1
        } else {
            &&& final(data)@ == old(data)@
            &&& outcome is None
        },
{
    if is_game_swf(url) {
        proof {
            tag_splice::lemma_found_at_or_after(data@, 0);
        }
        if let Some((_, body_range, tag_code)) = find_do_abc_tag(data.as_slice(), version) {
            if body_range.end > data.len() {
                return None;
            }
            let body = vstd::slice::slice_subrange(
                data.as_slice(),
                body_range.start,
                body_range.end,
            );
            if !is_usable_snippet(snippet_abc) && does_tag_want_snippet(tag_code, body) {
                return None;
            }
        }
    }
    Some(patch(url, version, data, snippet_abc))
}

/// A file that is not the game client is left alone, whatever it holds.
pub proof fn other_files_are_left_alone(url: Seq<char>, data: Seq<u8>, snippet_abc: Seq<u8>)
    requires
        !names_game_swf(url),
    ensures
        patchable(url, data, snippet_abc),
        patched(url, data, snippet_abc) == (data, OutcomeModel::OtherFile),
{
}

/// A query or a fragment does not make a URL another file's.
pub proof fn query_and_fragment_are_ignored(url: Seq<char>, suffix: Seq<char>)
    requires
        suffix.len() > 0,
        suffix[0] == '?' || suffix[0] == '#',
    ensures
        names_game_swf(url + suffix) == names_game_swf(url),
{
    let full = url + suffix;
    constant_pool::lemma_position(url, ends_path());
    match constant_pool::position(url, ends_path()) {
        Some(i) => {
            constant_pool::lemma_position_in_longer(url, full, ends_path());
            assert(full.take(i) =~= url.take(i));
        },
        None => {
            assert forall|j: int| 0 <= j < url.len() implies !ends_path()(#[trigger] full[j]) by {
                assert(full[j] == url[j]);
            }
            constant_pool::lemma_position_is(full, ends_path(), url.len() as int);
            assert(full.take(url.len() as int) =~= url);
        },
    }
}

proof fn lemma_last_segment_behind_slash(head: Seq<char>, path: Seq<char>)
    requires
        head.len() > 0,
        head.last() == '/',
    ensures
        last_segment(head + path) == last_segment(path),
    decreases path.len(),
{
    if path.len() == 0 {
        assert(head + path =~= head);
    } else {
        assert((head + path).drop_last() =~= head + path.drop_last());
        lemma_last_segment_behind_slash(head, path.drop_last());
    }
}

/// The directory that a file is in does not matter.
pub proof fn directory_is_ignored(directory: Seq<char>, name: Seq<char>)
    requires
        directory.len() > 0,
        directory.last() == '/',
        forall|i: int| 0 <= i < directory.len() ==> !ends_path()(#[trigger] directory[i]),
    ensures
        names_game_swf(directory + name) == names_game_swf(name),
{
    let full = directory + name;
    let n = directory.len() as int;
    constant_pool::lemma_position(name, ends_path());
    match constant_pool::position(name, ends_path()) {
        Some(i) => {
            assert forall|j: int| 0 <= j < n + i implies !ends_path()(#[trigger] full[j]) by {
                if j < n {
                    assert(full[j] == directory[j]);
                } else {
                    assert(full[j] == name[j - n]);
                }
            }
            assert(full[n + i] == name[i]);
            constant_pool::lemma_position_is(full, ends_path(), n + i);
            assert(full.take(n + i) =~= directory + name.take(i));
        },
        None => {
            assert forall|j: int| 0 <= j < full.len() implies !ends_path()(#[trigger] full[j]) by {
                if j < n {
                    assert(full[j] == directory[j]);
                } else {
                    assert(full[j] == name[j - n]);
                }
            }
            constant_pool::lemma_position_none(full, ends_path());
        },
    }
    lemma_last_segment_behind_slash(directory, path_of(name));
}

/// A stream in which no patch applied is left as it is.
pub proof fn unpatched_stream_is_unchanged(url: Seq<char>, data: Seq<u8>, snippet_abc: Seq<u8>)
    ensures
        patched(url, data, snippet_abc).1.applied() == 0 ==> patched(url, data, snippet_abc).0
            == data,
{
}

/// Where a patch applied, the new stream has the ABC tag at the same place and with
/// the same code, and every byte before and behind the tag is kept. The tag holds
/// the prefix it held and then the patched ABC file as `swf` writes it. (A body
/// that a tag cannot declare the length of is left out.)
pub proof fn only_the_abc_tag_changes(url: Seq<char>, data: Seq<u8>, snippet_abc: Seq<u8>)
    requires
        patchable(url, data, snippet_abc),
        patched(url, data, snippet_abc).1.applied() > 0,
        ({
            let tag = tag_splice::first_abc_tag(data)->Some_0;
            let body = data.subrange(tag.body_start, tag.body_end);
            let n = abc_start(tag.code, body)->Ok_0;
            let abc = swf_calls::swf_read_abc(body.skip(n))->Ok_0;
            n + swf_calls::swf_abc_bytes(patched_abc(abc, snippet_abc).0).len() <= u32::MAX
        }),
    ensures
        ({
            let tag = tag_splice::first_abc_tag(data)->Some_0;
            let body = data.subrange(tag.body_start, tag.body_end);
            let n = abc_start(tag.code, body)->Ok_0;
            let abc = swf_calls::swf_read_abc(body.skip(n))->Ok_0;
            let new_data = patched(url, data, snippet_abc).0;
            &&& tag_splice::first_abc_tag(new_data) matches Some(new_tag)
            &&& new_tag.header_start == tag.header_start
            &&& new_tag.code == tag.code
            &&& new_tag.body_end <= new_data.len()
            &&& new_data.take(new_tag.header_start) == data.take(tag.header_start)
            &&& new_data.skip(new_tag.body_end) == data.skip(tag.body_end)
            &&& ({
                let new_body = new_data.subrange(new_tag.body_start, new_tag.body_end);
                &&& abc_start(new_tag.code, new_body) == Ok::<int, Seq<char>>(n)
                &&& new_body.take(n) == body.take(n)
                &&& new_body.skip(n) == swf_calls::swf_abc_bytes(patched_abc(abc, snippet_abc).0)
            })
        }),
{
    let tag = tag_splice::first_abc_tag(data)->Some_0;
    let body = data.subrange(tag.body_start, tag.body_end);
    let n = abc_start(tag.code, body)->Ok_0;
    let abc = swf_calls::swf_read_abc(body.skip(n))->Ok_0;
    let bytes = swf_calls::swf_abc_bytes(patched_abc(abc, snippet_abc).0);
    let new_body = body.take(n) + bytes;
    tag_splice::lemma_found_at_or_after(data, 0);
    if tag.code == tag_splice::TAG_DO_ABC2 {
        tag_splice::lemma_prefix_is_kept(body, bytes);
    }
    assert(new_body.take(n) =~= body.take(n));
    assert(new_body.skip(n) =~= bytes);
    tag_splice::spliced_tag_is_found_again(data, new_body);
}

/// The socket patch leaves the lowered cap in place: the domain cache patch finds it
/// in a file to which both were applied.
proof fn lemma_cap_stays_lowered(abc: AbcModel, snippet_abc: Seq<u8>)
    requires
        patched_abc(abc, snippet_abc).1 == Ok::<bool, Seq<char>>(true),
        abc.constant_pool.ints.len() < u32::MAX,
    ensures
        patches::player_domain_cache::applied(patched_abc(abc, snippet_abc).0).1 == Err::<
            bool,
            Seq<char>,
        >("unexpected constructor default Some(8), expected 20"@),
{
    let capped = patches::player_domain_cache::applied(abc).0;
    let new_abc = patched_abc(abc, snippet_abc).0;
    patches::player_domain_cache::applied_patch_lowers_the_cap(abc);
    patches::player_domain_cache::patched_file_is_not_patched_again(abc);
    match swf_calls::swf_read_abc(snippet_abc) {
        Ok(snippet) => {
            patches::handle_socket_data::laws::patch_keeps_every_index(capped, snippet);
        },
        Err(_) => {},
    }
    let pool = capped.constant_pool;
    let class_name = patches::player_domain_cache::CLASS_NAME@;
    constant_pool::lemma_position_in_longer(
        pool.strings,
        new_abc.constant_pool.strings,
        constant_pool::equals(vstd::utf8::encode_utf8(class_name)),
    );
    constant_pool::lemma_position_in_longer(
        pool.multinames,
        new_abc.constant_pool.multinames,
        constant_pool::qualified(pool.string_index(class_name)->Some_0),
    );
}

/// A patched stream has the lower cap when it is read: a second run finds it, and
/// refuses to lower it again. This holds where `swf` reads back the file that it
/// wrote. (Bodies, pools and streams that cannot be counted are left out.)
pub proof fn patched_stream_has_the_lower_cap(url: Seq<char>, data: Seq<u8>, snippet_abc: Seq<u8>)
    requires
        patchable(url, data, snippet_abc),
        patched(url, data, snippet_abc).1 matches OutcomeModel::Examined {
            player_domain_cache,
            ..
        } && player_domain_cache == Ok::<bool, Seq<char>>(true),
        patched(url, data, snippet_abc).0.len() <= usize::MAX,
        ({
            let tag = tag_splice::first_abc_tag(data)->Some_0;
            let body = data.subrange(tag.body_start, tag.body_end);
            let n = abc_start(tag.code, body)->Ok_0;
            let abc = swf_calls::swf_read_abc(body.skip(n))->Ok_0;
            let new_abc = patched_abc(abc, snippet_abc).0;
            &&& n + swf_calls::swf_abc_bytes(new_abc).len() <= u32::MAX
            &&& abc.constant_pool.ints.len() < u32::MAX
            &&& swf_calls::swf_read_abc(swf_calls::swf_abc_bytes(new_abc)) == Ok::<
                AbcModel,
                Seq<char>,
            >(new_abc)
        }),
    ensures
        patched(url, patched(url, data, snippet_abc).0, snippet_abc).1 matches
            OutcomeModel::Examined { player_domain_cache, .. } && player_domain_cache == Err::<
            bool,
            Seq<char>,
        >("unexpected constructor default Some(8), expected 20"@),
{
    let tag = tag_splice::first_abc_tag(data)->Some_0;
    let body = data.subrange(tag.body_start, tag.body_end);
    let n = abc_start(tag.code, body)->Ok_0;
    let abc = swf_calls::swf_read_abc(body.skip(n))->Ok_0;
    only_the_abc_tag_changes(url, data, snippet_abc);
    lemma_cap_stays_lowered(abc, snippet_abc);
}

/// Whether the file name stands at `i` of a URL as the last segment of its path: at the
/// start or behind a slash, at the end or before a query or fragment, and with none of
/// the two before it.
pub open spec fn is_file_name_at(url: Seq<char>, name: Seq<char>, i: int) -> bool {
    let end = i + name.len();
    &&& 0 <= i
    &&& end <= url.len()
    &&& url.subrange(i, end) == name
    &&& i == 0 || url[i - 1] == '/'
    &&& end == url.len() || url[end] == '?' || url[end] == '#'
    &&& forall|j: int| 0 <= j < end ==> #[trigger] url[j] != '?' && url[j] != '#'
}

proof fn lemma_last_segment_stands_last(path: Seq<char>)
    ensures
        ({
            let n = last_segment(path).len();
            &&& n <= path.len()
            &&& path.skip(path.len() - n) == last_segment(path)
            &&& n == path.len() || path[path.len() - n - 1] == '/'
            &&& forall|j: int| 0 <= j < n ==> #[trigger] last_segment(path)[j] != '/'
        }),
    decreases path.len(),
{
    if path.len() == 0 || path.last() == '/' {
        assert(path.skip(path.len() as int) =~= Seq::empty());
    } else {
        let shorter = path.drop_last();
        lemma_last_segment_stands_last(shorter);
        let n = last_segment(path).len();
        assert(path.skip(path.len() - n) =~= shorter.skip(shorter.len() - (n - 1)).push(
            path.last(),
        ));
    }
}

proof fn lemma_last_segment_of_name(name: Seq<char>)
    requires
        forall|j: int| 0 <= j < name.len() ==> #[trigger] name[j] != '/',
    ensures
        last_segment(name) == name,
    decreases name.len(),
{
    if name.len() > 0 {
        lemma_last_segment_of_name(name.drop_last());
        assert(name.drop_last().push(name.last()) =~= name);
    } else {
        assert(name =~= Seq::empty());
    }
}

/// A URL is that of the game client exactly if `Game3098r24.swf` is the last segment of
/// its path.
pub proof fn game_client_is_known_by_its_file_name(url: Seq<char>)
    ensures
        names_game_swf(url) <==> exists|i: int| #[trigger]
            is_file_name_at(url, "Game3098r24.swf"@, i),
{
    let name = "Game3098r24.swf"@;
    reveal_strlit("Game3098r24.swf");
    assert forall|j: int| 0 <= j < name.len() implies #[trigger] name[j] != '/' by {}
    let path = path_of(url);
    constant_pool::lemma_position(url, ends_path());
    assert forall|j: int| 0 <= j < path.len() implies #[trigger] path[j] != '?' && path[j]
        != '#' by {
        assert(!ends_path()(url[j]));
    }
    if names_game_swf(url) {
        lemma_last_segment_stands_last(path);
        let i = path.len() - name.len();
        assert(path.skip(i) == name);
        assert(url.subrange(i, path.len() as int) =~= path.skip(i));
        assert forall|j: int| 0 <= j < path.len() implies #[trigger] url[j] != '?' && url[j]
            != '#' by {
            assert(path[j] == url[j]);
        }
        assert(is_file_name_at(url, name, i));
    }
    if exists|i: int| #[trigger] is_file_name_at(url, name, i) {
        let i = choose|i: int| #[trigger] is_file_name_at(url, name, i);
        let end = i + name.len();
        assert forall|j: int| 0 <= j < end implies !ends_path()(#[trigger] url[j]) by {}
        if end < url.len() {
            constant_pool::lemma_position_is(url, ends_path(), end);
        } else {
            constant_pool::lemma_position_none(url, ends_path());
        }
        assert(path =~= url.take(end));
        assert(path =~= url.take(i) + name);
        lemma_last_segment_of_name(name);
        if i > 0 {
            lemma_last_segment_behind_slash(url.take(i), name);
        } else {
            assert(path =~= name);
        }
    }
}

/// A patch counts as applied exactly if its result is `Ok(true)`.
pub proof fn applied_patches_are_counted(
    player_domain_cache: Result<bool, Seq<char>>,
    handle_socket_data: Result<bool, Seq<char>>,
)
    ensures
        ({
            let first = player_domain_cache == Ok::<bool, Seq<char>>(true);
            let second = handle_socket_data == Ok::<bool, Seq<char>>(true);
            let n = (OutcomeModel::Examined { player_domain_cache, handle_socket_data }).applied();
            &&& first && second ==> n == 2
            &&& first != second ==> n == 1
            &&& !first && !second ==> n == 0
        }),
        OutcomeModel::OtherFile.applied() == 0,
        OutcomeModel::NoAbcTag.applied() == 0,
{
}

/// The view of an outcome is of the same kind and has the same results and messages.
pub proof fn outcome_view_keeps_the_outcome(outcome: PatchOutcome)
    ensures
        outcome is OtherFile ==> outcome@ is OtherFile,
        outcome is NoAbcTag ==> outcome@ is NoAbcTag,
        outcome matches PatchOutcome::BadDoAbc2Header(e) ==> outcome@
            == OutcomeModel::BadDoAbc2Header(e@),
        outcome matches PatchOutcome::BadAbc(e) ==> outcome@ == OutcomeModel::BadAbc(e@),
        outcome matches PatchOutcome::NotEncoded(e) ==> outcome@ == OutcomeModel::NotEncoded(e@),
        outcome matches PatchOutcome::Examined { player_domain_cache, handle_socket_data } ==> {
            &&& outcome@ matches OutcomeModel::Examined {
                player_domain_cache: first,
                handle_socket_data: second,
            }
            &&& match player_domain_cache {
                Ok(b) => first == Ok::<bool, Seq<char>>(b),
                Err(e) => first == Err::<bool, Seq<char>>(e@),
            }
            &&& match handle_socket_data {
                Ok(b) => second == Ok::<bool, Seq<char>>(b),
                Err(e) => second == Err::<bool, Seq<char>>(e@),
            }
        },
{
}

/// The ABC data of a `DoAbc` tag is its whole body, that of a `DoAbc2` tag what follows
/// the flags and the name.
pub proof fn abc_data_follows_the_prefix(body: Seq<u8>)
    ensures
        abc_start(72, body) == Ok::<int, Seq<char>>(0),
        abc_start(82, body) == tag_splice::do_abc2_prefix_len(body),
{
}

/// The patches are tried on every game client whose ABC tag holds an ABC file, the cap
/// first, and the socket patch on what the first left. If one of them applied, the
/// stream gets a new tag of the same code in the place of the old one: what preceded the
/// ABC data, and the file after both as `swf` writes it. Otherwise the stream stays.
pub proof fn patches_are_tried_on_the_abc_file(
    url: Seq<char>,
    data: Seq<u8>,
    snippet_abc: Seq<u8>,
    n: int,
    abc: AbcModel,
)
    requires
        names_game_swf(url),
        tag_splice::addressable_abc_tag(data) matches Some(tag) && ({
            let body = data.subrange(tag.body_start, tag.body_end);
            &&& abc_start(tag.code, body) == Ok::<int, Seq<char>>(n)
            &&& swf_calls::swf_read_abc(body.skip(n)) == Ok::<AbcModel, Seq<char>>(abc)
        }),
    ensures
        ({
            let tag = tag_splice::addressable_abc_tag(data)->Some_0;
            let body = data.subrange(tag.body_start, tag.body_end);
            let first = patches::player_domain_cache::applied(abc);
            let second = patches::handle_socket_data::applied(first.0, snippet_abc);
            let (new_data, outcome) = patched(url, data, snippet_abc);
            &&& outcome == (OutcomeModel::Examined {
                player_domain_cache: first.1,
                handle_socket_data: second.1,
            })
            &&& first.1 == Ok::<bool, Seq<char>>(true) || second.1 == Ok::<bool, Seq<char>>(true)
                ==> new_data == tag_splice::spliced(
                data,
                tag.header_start,
                tag.body_end,
                tag.code,
                body.take(n) + swf_calls::swf_abc_bytes(second.0),
            )
            &&& first.1 != Ok::<bool, Seq<char>>(true) && second.1 != Ok::<bool, Seq<char>>(true)
                ==> new_data == data
        }),
{
}

/// A game client without an ABC tag, with a cut prefix, or without an ABC file in the
/// tag is reported as such, with the message, and stays as it is.
pub proof fn unreadable_client_is_reported(url: Seq<char>, data: Seq<u8>, snippet_abc: Seq<u8>)
    requires
        names_game_swf(url),
    ensures
        tag_splice::addressable_abc_tag(data) is None ==> patched(url, data, snippet_abc) == (
            data,
            OutcomeModel::NoAbcTag,
        ),
        tag_splice::addressable_abc_tag(data) matches Some(tag) ==> {
            let body = data.subrange(tag.body_start, tag.body_end);
            &&& abc_start(tag.code, body) matches Err(e) ==> patched(url, data, snippet_abc) == (
                data,
                OutcomeModel::BadDoAbc2Header(e),
            )
            &&& abc_start(tag.code, body) matches Ok(n) ==> (swf_calls::swf_read_abc(
                body.skip(n),
            ) matches Err(e) ==> patched(url, data, snippet_abc) == (
                data,
                OutcomeModel::BadAbc(e),
            ))
        },
{
}

/// A game client can be patched if it has no ABC tag, or if the tag lies within the
/// stream and the snippet is usable. It cannot if the tag reaches beyond the stream, or
/// if the tag's file has the method and the snippet is not usable.
pub proof fn client_within_the_stream_is_patchable(
    url: Seq<char>,
    data: Seq<u8>,
    snippet_abc: Seq<u8>,
)
    requires
        names_game_swf(url),
    ensures
        tag_splice::addressable_abc_tag(data) is None ==> patchable(url, data, snippet_abc),
        tag_splice::addressable_abc_tag(data) matches Some(tag) ==> {
            let body = data.subrange(tag.body_start, tag.body_end);
            let usable = patches::handle_socket_data::usable_snippet(snippet_abc);
            &&& tag.body_end <= data.len() && usable ==> patchable(url, data, snippet_abc)
            &&& tag.body_end > data.len() ==> !patchable(url, data, snippet_abc)
            &&& tag.body_end <= data.len() && abc_start(tag.code, body) is Err ==> patchable(
                url,
                data,
                snippet_abc,
            )
            &&& tag.body_end <= data.len() ==> (abc_start(tag.code, body) matches Ok(n) ==> (
            match swf_calls::swf_read_abc(body.skip(n)) {
                Ok(abc) => patchable(url, data, snippet_abc) == (usable
                    || patches::handle_socket_data::method_index(
                    abc,
                    "SmartFoxClient"@,
                    "handleSocketData"@,
                ) is None),
                Err(_) => patchable(url, data, snippet_abc),
            }))
        },
{
}

} // verus!
