use aqw_patch::tag_splice::{
    find_do_abc_tag, splice_tag, split_do_abc2_body, TAG_DO_ABC, TAG_DO_ABC2, TAG_END,
};
use swf::TagCode;

/// A tag in short form.
fn short_tag(code: u16, body: &[u8]) -> Vec<u8> {
    assert!(body.len() < 0x3F);
    let mut tag = ((code << 6) | body.len() as u16).to_le_bytes().to_vec();
    tag.extend_from_slice(body);
    tag
}

/// A tag in long form.
fn long_tag(code: u16, body: &[u8]) -> Vec<u8> {
    let mut tag = ((code << 6) | 0x3F).to_le_bytes().to_vec();
    tag.extend_from_slice(&(body.len() as u32).to_le_bytes());
    tag.extend_from_slice(body);
    tag
}

fn concat(parts: &[Vec<u8>]) -> Vec<u8> {
    parts.concat()
}

#[test]
fn tag_codes_are_those_of_swf() {
    assert_eq!(TAG_END, TagCode::End as u16);
    assert_eq!(TAG_DO_ABC, TagCode::DoAbc as u16);
    assert_eq!(TAG_DO_ABC2, TagCode::DoAbc2 as u16);
}

#[test]
fn finds_a_do_abc_tag_behind_other_tags() {
    let data = concat(&[
        short_tag(9, &[1, 2, 3]),
        long_tag(77, &[0; 100]),
        short_tag(TAG_DO_ABC, &[7, 8]),
        short_tag(TAG_DO_ABC2, &[9]),
        short_tag(TAG_END, &[]),
    ]);
    assert_eq!(find_do_abc_tag(&data, 10), Some((111, 113..115, TAG_DO_ABC)));
    assert_eq!(&data[113..115], &[7, 8]);
}

#[test]
fn finds_a_long_do_abc2_tag() {
    let data = concat(&[long_tag(TAG_DO_ABC2, &[5; 70]), short_tag(TAG_END, &[])]);
    assert_eq!(find_do_abc_tag(&data, 0), Some((0, 6..76, TAG_DO_ABC2)));
    assert_eq!(find_do_abc_tag(&data, 255), Some((0, 6..76, TAG_DO_ABC2)));
}

#[test]
fn the_search_stops_at_the_end_tag() {
    let data = concat(&[short_tag(TAG_END, &[]), short_tag(TAG_DO_ABC, &[1])]);
    assert_eq!(find_do_abc_tag(&data, 10), None);
}

#[test]
fn there_is_no_tag_in_an_empty_or_cut_stream() {
    assert_eq!(find_do_abc_tag(&[], 10), None);
    assert_eq!(find_do_abc_tag(&[1], 10), None);
    // A long header without its length.
    assert_eq!(find_do_abc_tag(&long_tag(TAG_DO_ABC, &[])[..5], 10), None);
    // A tag that is passed over has to be whole.
    let mut data = short_tag(9, &[1, 2, 3]);
    data.pop();
    assert_eq!(find_do_abc_tag(&data, 10), None);
}

#[test]
fn a_tag_that_is_found_may_reach_beyond_the_stream() {
    let mut data = short_tag(TAG_DO_ABC, &[1, 2, 3]);
    data.truncate(3);
    assert_eq!(find_do_abc_tag(&data, 10), Some((0, 2..5, TAG_DO_ABC)));
}

#[test]
fn splits_flags_and_name_from_the_abc() {
    let body = [1, 0, 0, 0, b'f', b'r', b'a', b'm', b'e', 0, 16, 0, 46, 0];
    let (prefix, abc) = split_do_abc2_body(&body).unwrap();
    assert_eq!(prefix, &body[..10]);
    assert_eq!(abc, &[16, 0, 46, 0]);
}

#[test]
fn a_name_may_be_empty_and_the_abc_too() {
    let (prefix, abc) = split_do_abc2_body(&[0, 0, 0, 0, 0]).unwrap();
    assert_eq!(prefix, &[0, 0, 0, 0, 0]);
    assert_eq!(abc.len(), 0);
}

#[test]
fn cut_flags_are_an_error() {
    assert_eq!(
        split_do_abc2_body(&[1, 0, 0]).unwrap_err(),
        "failed to read DoAbc2 flags: unexpected end of SWF or tag"
    );
}

#[test]
fn a_cut_name_is_an_error() {
    assert_eq!(
        split_do_abc2_body(&[1, 0, 0, 0, b'x']).unwrap_err(),
        "failed to read DoAbc2 name: unexpected end of SWF or tag"
    );
}

#[test]
fn a_short_body_gets_a_short_header() {
    let mut data = concat(&[
        short_tag(9, &[1]),
        long_tag(TAG_DO_ABC, &[4; 80]),
        short_tag(TAG_END, &[]),
    ]);
    splice_tag(&mut data, 3, 9..89, TAG_DO_ABC, &[6; 62]);
    let expected = concat(&[
        short_tag(9, &[1]),
        short_tag(TAG_DO_ABC, &[6; 62]),
        short_tag(TAG_END, &[]),
    ]);
    assert_eq!(data, expected);
}

#[test]
fn a_body_of_sixty_three_bytes_gets_a_long_header() {
    let mut data = concat(&[short_tag(TAG_DO_ABC2, &[4]), short_tag(TAG_END, &[])]);
    splice_tag(&mut data, 0, 2..3, TAG_DO_ABC2, &[6; 63]);
    let expected = concat(&[long_tag(TAG_DO_ABC2, &[6; 63]), short_tag(TAG_END, &[])]);
    assert_eq!(data, expected);
    assert_eq!(&data[..6], &[0xBF, 0x14, 63, 0, 0, 0]);
}

#[test]
fn the_length_is_little_endian() {
    let mut data = short_tag(TAG_DO_ABC, &[]);
    splice_tag(&mut data, 0, 2..2, TAG_DO_ABC, &vec![1; 0x0001_0203]);
    assert_eq!(&data[..6], &[0x3F, 0x12, 0x03, 0x02, 0x01, 0x00]);
    assert_eq!(data.len(), 6 + 0x0001_0203);
}

#[test]
fn a_spliced_tag_is_found_again() {
    for len in [0, 1, 62, 63, 64, 300] {
        let mut data = concat(&[
            short_tag(9, &[1, 2, 3]),
            short_tag(TAG_DO_ABC, &[7, 8]),
            short_tag(1, &[]),
            short_tag(TAG_END, &[]),
        ]);
        let before = data.clone();
        let (start, range, code) = find_do_abc_tag(&data, 10).unwrap();
        let new_body: Vec<u8> = (0..len).map(|i| i as u8).collect();
        splice_tag(&mut data, start, range, code, &new_body);
        let (new_start, new_range, new_code) = find_do_abc_tag(&data, 10).unwrap();
        assert_eq!(new_start, start);
        assert_eq!(new_code, code);
        assert_eq!(&data[new_range.clone()], &new_body[..]);
        assert_eq!(&data[..start], &before[..start]);
        assert_eq!(&data[new_range.end..], &before[before.len() - 4..]);
    }
}

#[test]
fn splicing_the_same_body_again_changes_nothing() {
    let mut data = concat(&[long_tag(TAG_DO_ABC, &[7, 8]), short_tag(TAG_END, &[])]);
    let (start, range, code) = find_do_abc_tag(&data, 10).unwrap();
    splice_tag(&mut data, start, range, code, &[7, 8]);
    let once = data.clone();
    assert_eq!(once, concat(&[short_tag(TAG_DO_ABC, &[7, 8]), short_tag(TAG_END, &[])]));
    let (start, range, code) = find_do_abc_tag(&data, 10).unwrap();
    splice_tag(&mut data, start, range, code, &[7, 8]);
    assert_eq!(data, once);
}

#[test]
fn a_tag_in_front_shifts_what_is_found() {
    let data = concat(&[
        short_tag(9, &[1]),
        short_tag(TAG_DO_ABC, &[7, 8]),
        short_tag(TAG_END, &[]),
    ]);
    assert_eq!(find_do_abc_tag(&data, 10), Some((3, 5..7, TAG_DO_ABC)));
    for front in [short_tag(1, &[]), short_tag(77, &[5; 62]), long_tag(12, &[6; 300])] {
        let whole = [front.clone(), data.clone()].concat();
        let n = front.len();
        assert_eq!(
            find_do_abc_tag(&whole, 0),
            Some((3 + n, 5 + n..7 + n, TAG_DO_ABC))
        );
        let none = [front.clone(), short_tag(TAG_END, &[])].concat();
        assert_eq!(find_do_abc_tag(&none, 10), None);
    }
}
