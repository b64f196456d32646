//! Finding and replacing the ABC tag of a decompressed SWF tag stream.
use std::ops::Range;
use vstd::prelude::*;
use crate::swf_calls::{read_tag_header, skip_str, skip_u32, TagHeader};
use crate::text::join;

verus! {

/// The tag code that ends a stream.
pub const TAG_END: u16 = 0;

/// The tag code of a tag whose body is ABC data.
pub const TAG_DO_ABC: u16 = 72;

/// The tag code of a tag whose body is flags, a name, and ABC data.
pub const TAG_DO_ABC2: u16 = 82;

/// Where a `DoAbc` or `DoAbc2` tag lies in a tag stream.
pub struct AbcTag {
    pub header_start: int,
    pub body_start: int,
    pub body_end: int,
    pub code: u16,
}

pub open spec fn is_abc_code(code: u16) -> bool {
    code == TAG_DO_ABC || code == TAG_DO_ABC2
}

/// The first ABC tag at or after `pos`, which is where a tag starts.
///
/// The body of the tag that is found may reach beyond the stream; the tags
/// before it lie within the stream.
pub open spec fn first_abc_tag_from(data: Seq<u8>, pos: int) -> Option<AbcTag>
    decreases data.len() - pos,
{
    if !(0 <= pos <= data.len()) {
        None
    } else {
        match TagHeader::at_start_of(data.skip(pos)) {
            None => None,
            Some(header) => {
                let body_start = pos + header.size;
                let body_end = body_start + header.length;
                if is_abc_code(header.code) {
                    Some(AbcTag { header_start: pos, body_start, body_end, code: header.code })
                } else if header.code == TAG_END || body_end > data.len() {
                    None
                } else {
                    first_abc_tag_from(data, body_end)
                }
            },
        }
    }
}

/// The first ABC tag of a tag stream.
pub open spec fn first_abc_tag(data: Seq<u8>) -> Option<AbcTag> {
    first_abc_tag_from(data, 0)
}

/// The first ABC tag of a tag stream, if its declared end is a `usize`.
pub open spec fn addressable_abc_tag(data: Seq<u8>) -> Option<AbcTag> {
    match first_abc_tag(data) {
        Some(tag) => if tag.body_end <= usize::MAX {
            Some(tag)
        } else {
            None
        },
        None => None,
    }
}

/// Finds the first `DoAbc`/`DoAbc2` tag in a decompressed SWF tag stream.
/// Returns the tag header's start offset, the byte range of its body, and its
/// tag code. The range is what the header declares: it may end beyond `data`.
/// A tag whose declared end is no `usize` is not found.
pub fn find_do_abc_tag(data: &[u8], version: u8) -> (found: Option<(usize, Range<usize>, u16)>)
    ensures
        match addressable_abc_tag(data@) {
            Some(tag) => {
                &&& found matches Some((header_start, body_range, tag_code))
                &&& header_start == tag.header_start
                &&& body_range.start == tag.body_start
                &&& body_range.end == tag.body_end
                &&& tag_code == tag.code
            },
            None => found is None,
        },
{
    let mut header_start: usize = 0;
    let mut rest: &[u8] = data;
    loop
        invariant
            header_start <= data@.len(),
            rest@ == data@.skip(header_start as int),
            first_abc_tag(data@) == first_abc_tag_from(data@, header_start as int),
        decreases rest@.len(),
    {
        let (tag_code, length, body) = match read_tag_header(rest, version) {
            Some(header) => header,
            None => {
                return None;
            },
        };
        let body_start: usize = data.len() - body.len();
        if tag_code == TAG_DO_ABC || tag_code == TAG_DO_ABC2 {
            return match body_start.checked_add(length) {
                Some(body_end) => Some((header_start, body_start..body_end, tag_code)),
                None => None,
            };
        }
        if tag_code == TAG_END {
            return None;
        }
        if length > body.len() {
            return None;
        }
        header_start = body_start + length;
        rest = body.split_at(length).1;
    }
}

/// Why reading a `DoAbc2` body stops short of its end.
pub open spec fn eof_text() -> Seq<char> {
    "unexpected end of SWF or tag"@
}

/// The length of the `flags + name` prefix of a `DoAbc2` body, or the message
/// that says which of the two is cut short. The name ends with a zero byte.
pub open spec fn do_abc2_prefix_len(body: Seq<u8>) -> Result<int, Seq<char>> {
    if body.len() < 4 {
        Err("failed to read DoAbc2 flags: "@ + eof_text())
    } else if !body.skip(4).contains(0) {
        Err("failed to read DoAbc2 name: "@ + eof_text())
    } else {
        Ok(4 + body.skip(4).index_of_first(0)->Some_0 + 1)
    }
}

/// Splits a `DoAbc2` tag body into its `flags + name` prefix and its raw ABC
/// data. `DoAbc` tags have no such prefix; their whole body is ABC data.
pub fn split_do_abc2_body(body: &[u8]) -> (parts: Result<(&[u8], &[u8]), String>)
    ensures
        match do_abc2_prefix_len(body@) {
            Ok(n) => {
                &&& 5 <= n <= body@.len()
                &&& parts matches Ok((prefix, abc))
                &&& prefix@ == body@.take(n)
                &&& abc@ == body@.skip(n)
            },
            Err(message) => parts matches Err(e) && e@ == message,
        },
{
    let after_flags = match skip_u32(body) {
        Ok(rest) => rest,
        Err(e) => {
            return Err(join("failed to read DoAbc2 flags: ", e.as_str()));
        },
    };
    let after_name = match skip_str(after_flags) {
        Ok(rest) => rest,
        Err(e) => {
            return Err(join("failed to read DoAbc2 name: ", e.as_str()));
        },
    };
    proof {
        after_flags@.index_of_first_ensures(0);
    }
    let prefix_len: usize = body.len() - after_name.len();
    Ok(body.split_at(prefix_len))
}

/// The prefix of a `DoAbc2` body stays the prefix whatever follows it.
pub proof fn lemma_prefix_is_kept(body: Seq<u8>, abc: Seq<u8>)
    requires
        do_abc2_prefix_len(body) is Ok,
    ensures
        ({
            let n = do_abc2_prefix_len(body)->Ok_0;
            &&& 5 <= n <= body.len()
            &&& do_abc2_prefix_len(body.take(n) + abc) == Ok::<int, Seq<char>>(n)
        }),
{
    let n = do_abc2_prefix_len(body)->Ok_0;
    let name = body.skip(4);
    name.index_of_first_ensures(0);
    let new_body = body.take(n) + abc;
    let new_name = new_body.skip(4);
    assert(new_name[n - 5] == name[n - 5]);
    assert(new_name.contains(0));
    new_name.index_of_first_ensures(0);
    let i = new_name.index_of_first(0)->Some_0;
    if i < n - 5 {
        assert(new_name[i] == name[i]);
    }
}

/// The header that a tag with this code and a body of `len` bytes gets: the
/// short form where the length fits in its six bits, else the long form. The
/// code is kept in ten bits and the length in 32.
pub open spec fn encoded_header(tag_code: u16, len: nat) -> Seq<u8> {
    let code_bits = (tag_code % 1024) * 64;
    if len < 0x3F {
        le16_bytes((code_bits + len) as nat)
    } else {
        le16_bytes((code_bits + 0x3F) as nat) + le32_bytes(len % 0x1_0000_0000)
    }
}

pub open spec fn le16_bytes(n: nat) -> Seq<u8> {
    seq![(n % 0x100) as u8, (n / 0x100 % 0x100) as u8]
}

pub open spec fn le32_bytes(n: nat) -> Seq<u8> {
    seq![
        (n % 0x100) as u8,
        (n / 0x100 % 0x100) as u8,
        (n / 0x1_0000 % 0x100) as u8,
        (n / 0x100_0000 % 0x100) as u8,
    ]
}

/// `data` with the bytes from `header_start` up to `body_end` replaced by a tag
/// with this code and this body.
pub open spec fn spliced(
    data: Seq<u8>,
    header_start: int,
    body_end: int,
    tag_code: u16,
    new_body: Seq<u8>,
) -> Seq<u8> {
    data.take(header_start) + encoded_header(tag_code, new_body.len()) + new_body + data.skip(
        body_end,
    )
}

fn push_u16(out: &mut Vec<u8>, n: u16)
    ensures
        final(out)@ == old(out)@ + le16_bytes(n as nat),
{
    out.push((n % 0x100) as u8);
    out.push((n / 0x100) as u8);
}

fn push_u32(out: &mut Vec<u8>, n: u32)
    ensures
        final(out)@ == old(out)@ + le32_bytes(n as nat),
{
    out.push((n % 0x100) as u8);
    out.push((n / 0x100 % 0x100) as u8);
    out.push((n / 0x1_0000 % 0x100) as u8);
    out.push((n / 0x100_0000) as u8);
}

/// Replaces the tag at `header_start`/`body_range` with a freshly-encoded
/// header for `new_body`, splicing directly into the tag stream. Handles the
/// short-form/long-form tag header size change on its own.
pub fn splice_tag(
    data: &mut Vec<u8>,
    header_start: usize,
    body_range: Range<usize>,
    tag_code: u16,
    new_body: &[u8],
)
    requires
        header_start <= body_range.end <= old(data)@.len(),
    ensures
        final(data)@ == spliced(
            old(data)@,
            header_start as int,
            body_range.end as int,
            tag_code,
            new_body@,
        ),
{
    let mut tail = data.split_off(body_range.end);
    data.truncate(header_start);
    if new_body.len() < 0x3F {
        let len = new_body.len() as u16;
        assert((tag_code << 6) | len == (tag_code % 1024) * 64 + len) by (bit_vector)
            requires
                len < 0x3F,
        ;
        push_u16(data, (tag_code << 6) | len);
    } else {
        assert((tag_code << 6) | 0x3F == (tag_code % 1024) * 64 + 0x3F) by (bit_vector);
        push_u16(data, (tag_code << 6) | 0x3F);
        let len = new_body.len() as u64;
        assert(len as u32 == len % 0x1_0000_0000) by (bit_vector);
        push_u32(data, len as u32);
    }
    data.extend_from_slice(new_body);
    data.append(&mut tail);
    assert(data@ == spliced(
        old(data)@,
        header_start as int,
        body_range.end as int,
        tag_code,
        new_body@,
    ));
}

/// A tag that a walk from `pos` finds does not start before `pos`, and its body is
/// of a length that 32 bits can hold.
pub proof fn lemma_found_at_or_after(data: Seq<u8>, pos: int)
    ensures
        first_abc_tag_from(data, pos) matches Some(tag) ==> {
            &&& 0 <= pos <= tag.header_start < tag.body_start <= data.len()
            &&& tag.body_start <= tag.body_end < tag.body_start + 0x1_0000_0000
            &&& is_abc_code(tag.code)
        },
    decreases data.len() - pos,
{
    if 0 <= pos <= data.len() {
        match TagHeader::at_start_of(data.skip(pos)) {
            Some(header) => {
                let body_end = pos + header.size + header.length;
                if !is_abc_code(header.code) && header.code != TAG_END && body_end <= data.len() {
                    lemma_found_at_or_after(data, body_end);
                }
            },
            None => {},
        }
    }
}

/// A header that was encoded for a body reads back as that code and length.
proof fn lemma_header_reads_back(rest: Seq<u8>, tag_code: u16, len: nat)
    requires
        tag_code < 1024,
        len <= u32::MAX,
        encoded_header(tag_code, len).is_prefix_of(rest),
    ensures
        TagHeader::at_start_of(rest) == Some(
            TagHeader { code: tag_code, length: len, size: encoded_header(tag_code, len).len() },
        ),
{
    let header = encoded_header(tag_code, len);
    let code_bits = (tag_code % 1024) * 64;
    if len < 0x3F {
        assert(rest[0] == header[0] && rest[1] == header[1]);
        lemma_le16_reads_back(rest, (code_bits + len) as nat);
    } else {
        assert(rest[0] == header[0] && rest[1] == header[1]);
        assert(rest[2] == header[2] && rest[3] == header[3] && rest[4] == header[4] && rest[5]
            == header[5]);
        lemma_le16_reads_back(rest, (code_bits + 0x3F) as nat);
        lemma_le32_reads_back(rest.skip(2), len);
    }
}

proof fn lemma_le16_reads_back(s: Seq<u8>, n: nat)
    requires
        n < 0x1_0000,
        s.len() >= 2,
        s[0] == le16_bytes(n)[0],
        s[1] == le16_bytes(n)[1],
    ensures
        crate::swf_calls::le16(s) == n,
{
}

proof fn lemma_le32_reads_back(s: Seq<u8>, n: nat)
    requires
        n < 0x1_0000_0000,
        s.len() >= 4,
        forall|i: int| 0 <= i < 4 ==> s[i] == #[trigger] le32_bytes(n)[i],
    ensures
        crate::swf_calls::le32(s) == n,
{
    assert(s[0] == le32_bytes(n)[0]);
    assert(s[1] == le32_bytes(n)[1]);
    assert(s[2] == le32_bytes(n)[2]);
    assert(s[3] == le32_bytes(n)[3]);
}

/// A header is determined by the bytes that it takes.
proof fn lemma_header_is_local(a: Seq<u8>, b: Seq<u8>)
    requires
        TagHeader::at_start_of(a) matches Some(header) && header.size <= b.len() && forall|i: int|
            0 <= i < header.size ==> #[trigger] b[i] == a[i],
    ensures
        TagHeader::at_start_of(b) == TagHeader::at_start_of(a),
{
    let header = TagHeader::at_start_of(a)->Some_0;
    assert(b[0] == a[0] && b[1] == a[1]);
    if header.size == 6 {
        assert(b[2] == a[2] && b[3] == a[3] && b[4] == a[4] && b[5] == a[5]);
    }
}

/// The walk over the tags before `header_start` sees nothing of a splice there.
proof fn lemma_walk_to_spliced_tag(data: Seq<u8>, pos: int, new_body: Seq<u8>)
    requires
        new_body.len() <= u32::MAX,
        first_abc_tag_from(data, pos) matches Some(tag) && tag.body_end <= data.len(),
    ensures
        ({
            let tag = first_abc_tag_from(data, pos)->Some_0;
            let body_start = tag.header_start + encoded_header(tag.code, new_body.len()).len();
            first_abc_tag_from(
                spliced(data, tag.header_start, tag.body_end, tag.code, new_body),
                pos,
            ) == Some(
                AbcTag {
                    header_start: tag.header_start,
                    body_start,
                    body_end: body_start + new_body.len(),
                    code: tag.code,
                },
            )
        }),
    decreases data.len() - pos,
{
    let tag = first_abc_tag_from(data, pos)->Some_0;
    let new_data = spliced(data, tag.header_start, tag.body_end, tag.code, new_body);
    lemma_found_at_or_after(data, pos);
    let header = TagHeader::at_start_of(data.skip(pos))->Some_0;
    if is_abc_code(header.code) {
        let encoded = encoded_header(tag.code, new_body.len());
        assert(new_data.skip(pos).take(encoded.len() as int) == encoded);
        lemma_header_reads_back(new_data.skip(pos), tag.code, new_body.len());
    } else {
        let body_end = pos + header.size + header.length;
        lemma_found_at_or_after(data, body_end);
        assert forall|i: int| 0 <= i < header.size implies new_data.skip(pos)[i] == data.skip(
            pos,
        )[i] by {}
        lemma_header_is_local(data.skip(pos), new_data.skip(pos));
        lemma_walk_to_spliced_tag(data, body_end, new_body);
    }
}

/// Replacing the first ABC tag of a stream keeps it the first one: a search of
/// the new stream finds it at the same place, with the same code and with
/// exactly the new body. Every byte before and behind the tag is kept.
pub proof fn spliced_tag_is_found_again(data: Seq<u8>, new_body: Seq<u8>)
    requires
        new_body.len() <= u32::MAX,
        first_abc_tag(data) matches Some(tag) && tag.body_end <= data.len(),
    ensures
        ({
            let tag = first_abc_tag(data)->Some_0;
            let new_data = spliced(data, tag.header_start, tag.body_end, tag.code, new_body);
            &&& first_abc_tag(new_data) matches Some(found)
            &&& found.header_start == tag.header_start
            &&& found.code == tag.code
            &&& found.body_end <= new_data.len()
            &&& new_data.subrange(found.body_start, found.body_end) == new_body
            &&& new_data.take(found.header_start) == data.take(tag.header_start)
            &&& new_data.skip(found.body_end) == data.skip(tag.body_end)
        }),
{
    lemma_found_at_or_after(data, 0);
    lemma_walk_to_spliced_tag(data, 0, new_body);
}

/// Splicing the body that a tag already has changes nothing but the form of the
/// header: a second splice with the same body leaves the stream as it is.
pub proof fn splicing_twice_is_splicing_once(data: Seq<u8>, new_body: Seq<u8>)
    requires
        new_body.len() <= u32::MAX,
        first_abc_tag(data) matches Some(tag) && tag.body_end <= data.len(),
    ensures
        ({
            let tag = first_abc_tag(data)->Some_0;
            let once = spliced(data, tag.header_start, tag.body_end, tag.code, new_body);
            &&& first_abc_tag(once) matches Some(again)
            &&& spliced(once, again.header_start, again.body_end, again.code, new_body) == once
        }),
{
    let tag = first_abc_tag(data)->Some_0;
    lemma_found_at_or_after(data, 0);
    lemma_walk_to_spliced_tag(data, 0, new_body);
    let once = spliced(data, tag.header_start, tag.body_end, tag.code, new_body);
    let again = first_abc_tag(once)->Some_0;
    assert(spliced(once, again.header_start, again.body_end, again.code, new_body) =~= once);
}

/// A tag further back in a stream.
pub open spec fn shifted(found: Option<AbcTag>, by: int) -> Option<AbcTag> {
    match found {
        Some(tag) => Some(
            AbcTag {
                header_start: tag.header_start + by,
                body_start: tag.body_start + by,
                body_end: tag.body_end + by,
                code: tag.code,
            },
        ),
        None => None,
    }
}

proof fn lemma_walk_behind_prefix(prefix: Seq<u8>, data: Seq<u8>, pos: int)
    requires
        0 <= pos <= data.len(),
    ensures
        first_abc_tag_from(prefix + data, prefix.len() + pos) == shifted(
            first_abc_tag_from(data, pos),
            prefix.len() as int,
        ),
    decreases data.len() - pos,
{
    assert((prefix + data).skip(prefix.len() + pos) =~= data.skip(pos));
    if let Some(header) = TagHeader::at_start_of(data.skip(pos)) {
        let body_end = pos + header.size + header.length;
        if !is_abc_code(header.code) && header.code != TAG_END && body_end <= data.len() {
            lemma_walk_behind_prefix(prefix, data, body_end);
        }
    }
}

/// A whole tag of another kind in front of a stream shifts what is found by the length
/// of that tag, and by nothing else. What is found stays found while its end is a
/// `usize`.
pub proof fn other_tag_in_front_shifts_what_is_found(tag: Seq<u8>, data: Seq<u8>)
    requires
        TagHeader::at_start_of(tag) matches Some(header) && {
            &&& tag.len() == header.size + header.length
            &&& header.code != TAG_END
            &&& header.code != TAG_DO_ABC
            &&& header.code != TAG_DO_ABC2
        },
    ensures
        first_abc_tag(tag + data) == shifted(first_abc_tag(data), tag.len() as int),
        match shifted(addressable_abc_tag(data), tag.len() as int) {
            Some(found) => addressable_abc_tag(tag + data) == if found.body_end <= usize::MAX {
                Some(found)
            } else {
                None
            },
            None => addressable_abc_tag(tag + data) is None,
        },
{
    let whole = tag + data;
    let header = TagHeader::at_start_of(tag)->Some_0;
    assert(whole.skip(0) =~= whole);
    assert forall|i: int| 0 <= i < header.size implies #[trigger] whole[i] == tag[i] by {}
    lemma_header_is_local(tag, whole);
    lemma_walk_behind_prefix(tag, data, 0);
}

/// A tag that is found is a `DoAbc` or a `DoAbc2` tag: there is a header of that code
/// where it starts, and its body is what the header declares.
pub proof fn found_tag_is_an_abc_tag(data: Seq<u8>)
    ensures
        first_abc_tag(data) matches Some(tag) ==> {
            &&& tag.code == TAG_DO_ABC || tag.code == TAG_DO_ABC2
            &&& 0 <= tag.header_start <= data.len()
            &&& TagHeader::at_start_of(data.skip(tag.header_start)) matches Some(header)
            &&& tag.code == header.code
            &&& tag.body_start == tag.header_start + header.size
            &&& tag.body_end == tag.body_start + header.length
        },
{
    lemma_found_tag_has_its_header(data, 0);
}

proof fn lemma_found_tag_has_its_header(data: Seq<u8>, pos: int)
    requires
        0 <= pos,
    ensures
        first_abc_tag_from(data, pos) matches Some(tag) ==> {
            &&& tag.code == TAG_DO_ABC || tag.code == TAG_DO_ABC2
            &&& 0 <= tag.header_start <= data.len()
            &&& TagHeader::at_start_of(data.skip(tag.header_start)) matches Some(header)
            &&& tag.code == header.code
            &&& tag.body_start == tag.header_start + header.size
            &&& tag.body_end == tag.body_start + header.length
        },
    decreases data.len() - pos,
{
    if pos <= data.len() {
        if let Some(header) = TagHeader::at_start_of(data.skip(pos)) {
            let body_end = pos + header.size + header.length;
            if !is_abc_code(header.code) && header.code != TAG_END && body_end <= data.len() {
                lemma_found_tag_has_its_header(data, body_end);
            }
        }
    }
}

/// An ABC tag at the start of a stream is the one that is found, whatever follows and
/// though its body may reach beyond the stream.
pub proof fn abc_tag_at_the_start_is_found(data: Seq<u8>)
    requires
        TagHeader::at_start_of(data) matches Some(header) && (header.code == TAG_DO_ABC
            || header.code == TAG_DO_ABC2),
    ensures
        ({
            let header = TagHeader::at_start_of(data)->Some_0;
            first_abc_tag(data) == Some(
                AbcTag {
                    header_start: 0,
                    body_start: header.size as int,
                    body_end: (header.size + header.length) as int,
                    code: header.code,
                },
            )
        }),
{
    assert(data.skip(0) =~= data);
}

/// Nothing is found in a stream that starts with the end tag, with a cut header, or
/// with another tag that is cut.
pub proof fn search_ends_at_the_end(data: Seq<u8>)
    requires
        match TagHeader::at_start_of(data) {
            Some(header) => header.code == TAG_END || (header.code != TAG_DO_ABC && header.code
                != TAG_DO_ABC2 && header.size + header.length > data.len()),
            None => true,
        },
    ensures
        first_abc_tag(data) is None,
{
    assert(data.skip(0) =~= data);
}

/// What is found is the first ABC tag, unless its end is no `usize`.
pub proof fn addressable_tag_is_the_first(data: Seq<u8>)
    ensures
        first_abc_tag(data) is None ==> addressable_abc_tag(data) is None,
        first_abc_tag(data) matches Some(tag) ==> {
            &&& tag.body_end <= usize::MAX ==> addressable_abc_tag(data) == Some(tag)
            &&& tag.body_end > usize::MAX ==> addressable_abc_tag(data) is None
        },
{
}

/// The prefix of a `DoAbc2` body is four bytes of flags and a name that ends with its
/// first zero byte. There is one exactly if the body has four bytes and a zero byte
/// behind them.
pub proof fn do_abc2_prefix_ends_with_the_name(body: Seq<u8>)
    ensures
        do_abc2_prefix_len(body) matches Ok(n) ==> {
            &&& 5 <= n <= body.len()
            &&& body[n - 1] == 0
            &&& forall|j: int| 4 <= j < n - 1 ==> #[trigger] body[j] != 0
        },
        (exists|j: int| 4 <= j < body.len() && #[trigger] body[j] == 0)
            <==> do_abc2_prefix_len(body) is Ok,
{
    let name = body.skip(4);
    if body.len() >= 4 {
        assert forall|j: int| 4 <= j < body.len() implies #[trigger] body[j] == name[j - 4] by {}
        if name.contains(0) {
            name.index_of_first_ensures(0);
            let i = name.index_of_first(0)->Some_0;
            assert(body[i + 4] == 0);
            assert forall|j: int| 4 <= j < i + 4 implies #[trigger] body[j] != 0 by {
                assert(name[j - 4] != 0);
            }
        } else {
            assert forall|j: int| 4 <= j < body.len() implies #[trigger] body[j] != 0 by {
                assert(name.contains(name[j - 4]));
            }
        }
    }
}

/// A header that is written reads back as its code and length, whatever follows it,
/// and is in the short form exactly if the length is below 63. (Codes of more than ten
/// bits and lengths of more than 32 are left out.)
pub proof fn written_header_reads_back(tag_code: u16, len: nat, rest: Seq<u8>)
    requires
        tag_code < 1024,
        len <= u32::MAX,
    ensures
        ({
            let header = encoded_header(tag_code, len);
            &&& TagHeader::at_start_of(header + rest) == Some(
                TagHeader { code: tag_code, length: len, size: header.len() },
            )
            &&& len < 63 ==> header.len() == 2
            &&& len >= 63 ==> header.len() == 6
        }),
{
    let header = encoded_header(tag_code, len);
    assert(header =~= (header + rest).take(header.len() as int));
    lemma_header_reads_back(header + rest, tag_code, len);
}

/// A splice keeps every byte before and behind what it replaces, and puts a tag of this
/// code with exactly this body in its place.
pub proof fn splice_puts_the_tag_in_place(
    data: Seq<u8>,
    header_start: int,
    body_end: int,
    tag_code: u16,
    new_body: Seq<u8>,
)
    requires
        0 <= header_start <= body_end <= data.len(),
        tag_code < 1024,
        new_body.len() <= u32::MAX,
    ensures
        ({
            let after = spliced(data, header_start, body_end, tag_code, new_body);
            &&& header_start <= after.len()
            &&& forall|j: int| 0 <= j < header_start ==> #[trigger] after[j] == data[j]
            &&& TagHeader::at_start_of(after.skip(header_start)) matches Some(header)
            &&& header.code == tag_code
            &&& header.length == new_body.len()
            &&& header.size == if new_body.len() < 63 {
                2nat
            } else {
                6nat
            }
            &&& ({
                let body_start = header_start + header.size;
                let new_end = body_start + new_body.len();
                &&& after.subrange(body_start, new_end) == new_body
                &&& after.skip(new_end) == data.skip(body_end)
            })
        }),
{
    let after = spliced(data, header_start, body_end, tag_code, new_body);
    let header = encoded_header(tag_code, new_body.len());
    let rest = new_body + data.skip(body_end);
    written_header_reads_back(tag_code, new_body.len(), rest);
    assert(after.skip(header_start) =~= header + rest);
    let body_start = header_start + header.len();
    assert(after.subrange(body_start, body_start + new_body.len()) =~= new_body);
    assert(after.skip(body_start + new_body.len()) =~= data.skip(body_end));
}

/// Of a code only ten bits are written, and of a length of 63 or more, in the long form,
/// 32.
pub proof fn written_codes_and_lengths_wrap(tag_code: u16, len: nat, rest: Seq<u8>)
    ensures
        encoded_header(tag_code, len) == encoded_header(tag_code % 1024, len),
        len >= 63 ==> TagHeader::at_start_of(encoded_header(tag_code, len) + rest) == Some(
            TagHeader { code: tag_code % 1024, length: len % 0x1_0000_0000, size: 6 },
        ),
{
    if len >= 63 {
        let header = encoded_header(tag_code, len);
        let code_bits = (tag_code % 1024) * 64;
        let whole = header + rest;
        let n = len % 0x1_0000_0000;
        assert(whole[0] == header[0] && whole[1] == header[1]);
        assert(whole[2] == header[2] && whole[3] == header[3] && whole[4] == header[4] && whole[5]
            == header[5]);
        lemma_le16_reads_back(whole, (code_bits + 0x3F) as nat);
        lemma_le32_reads_back(whole.skip(2), n);
    }
}

} // verus!
