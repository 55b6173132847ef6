use micheline::annotation::{encode_annotation, read_annotation, split_labels};
use micheline::frame::{
    read_int_be, read_vec, write_array, write_int_be, write_int_be_into_offset,
};
use micheline::node::{encode_primitive, read_list, write_list};
use micheline::zarith::{read_zarith, write_zarith};
use micheline::{DecodeError, Encodable, Node, RawPrimitive};

/// An alphabet of one primitive, written as the byte 0.
#[derive(Debug, PartialEq)]
struct Only;

impl Encodable for Only {
    fn wire(&self) -> vstd::seq::Seq<u8> {
        unreachable!()
    }

    fn parse(_: vstd::seq::Seq<u8>) -> Result<(Self, vstd::prelude::nat), DecodeError> {
        unreachable!()
    }

    fn lemma_parse_wire(&self, _: vstd::seq::Seq<u8>) {
    }

    fn encode_to_buffer(&self, buffer: &mut Vec<u8>) -> usize {
        buffer.push(0);
        1
    }

    fn decode_from_buffer(buffer: &[u8]) -> Result<(Self, usize), DecodeError> {
        match buffer.first() {
            None => Err(DecodeError::TruncatedInput),
            Some(0) => Ok((Only, 1)),
            Some(_) => Err(DecodeError::InvalidPrimitive),
        }
    }
}

type Raw = Node<RawPrimitive>;

fn text(s: &str) -> String {
    String::from(s)
}

fn round_trip(node: Raw, again: Raw) {
    let bytes = node.encode();
    assert_eq!(Raw::from(&bytes), Ok(again));
}

#[test]
fn length_prefix_is_big_endian() {
    let mut buffer = vec![0xaa];
    write_int_be(&mut buffer, 0x0102_0304);
    assert_eq!(buffer, vec![0xaa, 1, 2, 3, 4]);
    write_int_be(&mut buffer, 0xffff_ffff);
    assert_eq!(buffer, vec![0xaa, 1, 2, 3, 4, 0xff, 0xff, 0xff, 0xff]);
    assert_eq!(read_int_be(&[1, 2, 3, 4, 5]), Ok(0x0102_0304));
    assert_eq!(read_int_be(&[0xff, 0xff, 0xff, 0xff]), Ok(0xffff_ffff));
    assert_eq!(read_int_be(&[0, 0, 0, 0]), Ok(0));
}

#[test]
fn length_prefix_needs_four_bytes() {
    assert_eq!(read_int_be(&[]), Err(DecodeError::TruncatedInput));
    assert_eq!(read_int_be(&[1, 2, 3]), Err(DecodeError::TruncatedInput));
}

#[test]
fn length_prefix_is_patched_in_place() {
    let mut buffer = vec![9, 0, 0, 0, 0, 7, 8];
    write_int_be_into_offset(&mut buffer, 0x0a0b_0c0d, 1);
    assert_eq!(buffer, vec![9, 0x0a, 0x0b, 0x0c, 0x0d, 7, 8]);
    write_int_be_into_offset(&mut buffer, 2, 3);
    assert_eq!(buffer, vec![9, 0x0a, 0x0b, 0, 0, 0, 2]);
}

#[test]
fn blobs_are_framed() {
    let mut buffer = vec![1];
    assert_eq!(write_array(&mut buffer, b"ab"), 6);
    assert_eq!(buffer, vec![1, 0, 0, 0, 2, 0x61, 0x62]);
    assert_eq!(write_array(&mut buffer, b""), 4);
    assert_eq!(buffer, vec![1, 0, 0, 0, 2, 0x61, 0x62, 0, 0, 0, 0]);
    assert_eq!(read_vec(&[0, 0, 0, 2, 0x61, 0x62, 0x63]), Ok((vec![0x61, 0x62], 6)));
    assert_eq!(read_vec(&[0, 0, 0, 0]), Ok((vec![], 4)));
}

#[test]
fn truncated_frames_are_refused() {
    assert_eq!(read_vec(&[0, 0, 0]), Err(DecodeError::TruncatedInput));
    assert_eq!(read_vec(&[0, 0, 0, 3, 1, 2]), Err(DecodeError::TruncatedInput));
    assert_eq!(read_vec(&[0xff, 0xff, 0xff, 0xff, 1]), Err(DecodeError::TruncatedInput));
}

fn zarith_bytes(value: i32) -> Vec<u8> {
    let mut buffer = Vec::new();
    let written = write_zarith(&mut buffer, value);
    assert_eq!(written, buffer.len());
    buffer
}

#[test]
fn zarith_group_boundaries() {
    assert_eq!(zarith_bytes(0), vec![0x00]);
    assert_eq!(zarith_bytes(1), vec![0x01]);
    assert_eq!(zarith_bytes(-1), vec![0x41]);
    assert_eq!(zarith_bytes(0x3f), vec![0x3f]);
    assert_eq!(zarith_bytes(-0x3f), vec![0x7f]);
    assert_eq!(zarith_bytes(0x40), vec![0x80, 0x01]);
    assert_eq!(zarith_bytes(-0x40), vec![0xc0, 0x01]);
    assert_eq!(zarith_bytes(0x1fff), vec![0xbf, 0x7f]);
    assert_eq!(zarith_bytes(-0x1fff), vec![0xff, 0x7f]);
    assert_eq!(zarith_bytes(0x2000), vec![0x80, 0x80, 0x01]);
    assert_eq!(zarith_bytes(-0x2000), vec![0xc0, 0x80, 0x01]);
    assert_eq!(zarith_bytes(i32::MAX), vec![0xbf, 0xff, 0xff, 0xff, 0x0f]);
    assert_eq!(zarith_bytes(-i32::MAX), vec![0xff, 0xff, 0xff, 0xff, 0x0f]);
}

#[test]
fn zarith_reads_back() {
    let values = [
        0,
        1,
        -1,
        0x3f,
        -0x3f,
        0x40,
        -0x40,
        0x1fff,
        -0x1fff,
        0x2000,
        -0x2000,
        0x1337,
        -0x1337,
        0x616263,
        i32::MAX,
        -i32::MAX,
    ];
    for value in values {
        let mut bytes = zarith_bytes(value);
        let length = bytes.len();
        bytes.push(0x80);
        assert_eq!(read_zarith(&bytes), Ok((value, length)));
    }
}

#[test]
fn zarith_takes_spare_groups() {
    assert_eq!(read_zarith(&[0x80, 0x00]), Ok((0, 2)));
    assert_eq!(read_zarith(&[0x40]), Ok((0, 1)));
    assert_eq!(read_zarith(&[0x81, 0x80, 0x80, 0x80, 0x80, 0x80, 0x80, 0x00, 0x55]), Ok((1, 8)));
    assert_eq!(read_zarith(&[0xc1, 0x81, 0x00]), Ok((-65, 3)));
}

#[test]
fn zarith_out_of_range() {
    assert_eq!(
        read_zarith(&[0x80, 0x80, 0x80, 0x80, 0x10]),
        Err(DecodeError::IntegerOutOfRange)
    );
    assert_eq!(
        read_zarith(&[0xc0, 0x80, 0x80, 0x80, 0x10]),
        Err(DecodeError::IntegerOutOfRange)
    );
    assert_eq!(
        read_zarith(&[0x80, 0x80, 0x80, 0x80, 0x80, 0x80, 0x80, 0x80, 0x80, 0x80, 0x01]),
        Err(DecodeError::IntegerOutOfRange)
    );
    assert_eq!(
        Raw::from(&[0x00, 0xbf, 0xff, 0xff, 0xff, 0x1f]),
        Err(DecodeError::IntegerOutOfRange)
    );
}

#[test]
fn zarith_truncated() {
    assert_eq!(read_zarith(&[]), Err(DecodeError::TruncatedInput));
    assert_eq!(read_zarith(&[0x80]), Err(DecodeError::TruncatedInput));
    assert_eq!(read_zarith(&[0xff, 0xff, 0xff]), Err(DecodeError::TruncatedInput));
    assert_eq!(
        read_zarith(&[0x80, 0x80, 0x80, 0x80, 0x90]),
        Err(DecodeError::TruncatedInput)
    );
    assert_eq!(Raw::from(&[0x00]), Err(DecodeError::TruncatedInput));
}

#[test]
fn labels_are_cut_at_spaces() {
    assert_eq!(split_labels(""), vec![text("")]);
    assert_eq!(split_labels("%a"), vec![text("%a")]);
    assert_eq!(split_labels("%a %b"), vec![text("%a"), text("%b")]);
    assert_eq!(split_labels(" "), vec![text(""), text("")]);
    assert_eq!(split_labels("a  b "), vec![text("a"), text(""), text("b"), text("")]);
    assert_eq!(split_labels("é ü"), vec![text("é"), text("ü")]);
}

#[test]
fn annotation_field_joins_with_one_space() {
    let mut buffer = Vec::new();
    assert_eq!(encode_annotation(&mut buffer, &vec![]), 4);
    assert_eq!(buffer, vec![0, 0, 0, 0]);

    let mut buffer = Vec::new();
    assert_eq!(encode_annotation(&mut buffer, &vec![text("")]), 4);
    assert_eq!(buffer, vec![0, 0, 0, 0]);

    let mut buffer = vec![7];
    assert_eq!(encode_annotation(&mut buffer, &vec![text("%a"), text("é"), text(":c")]), 12);
    assert_eq!(buffer, b"\x07\x00\x00\x00\x08%a \xc3\xa9 :c");
}

#[test]
fn annotation_field_reads_back() {
    assert_eq!(
        read_annotation(b"\x00\x00\x00\x08%a \xc3\xa9 :c\x01\x02"),
        Ok((vec![text("%a"), text("é"), text(":c")], 12))
    );
    assert_eq!(read_annotation(&[0, 0, 0, 0]), Ok((vec![text("")], 4)));
    assert_eq!(read_annotation(&[0, 0, 0, 1, 0x20]), Ok((vec![text(""), text("")], 5)));
}

#[test]
fn annotation_field_errors() {
    assert_eq!(read_annotation(&[0, 0, 0]), Err(DecodeError::TruncatedInput));
    assert_eq!(read_annotation(&[0, 0, 0, 2, 0x61]), Err(DecodeError::TruncatedInput));
    assert_eq!(read_annotation(&[0, 0, 0, 2, 0x61, 0xff]), Err(DecodeError::InvalidUtf8));
    assert_eq!(read_annotation(&[0, 0, 0, 1, 0xc3]), Err(DecodeError::InvalidUtf8));
}

#[test]
fn unknown_tags_are_refused() {
    assert_eq!(Raw::from(&[0xff]), Err(DecodeError::UnknownTag));
    assert_eq!(Raw::from(&[0x0b, 0x00]), Err(DecodeError::UnknownTag));
    assert_eq!(Raw::from(&[0x80, 0x00, 0x00, 0x00, 0x00]), Err(DecodeError::UnknownTag));
    assert_eq!(
        Raw::from(&[0x02, 0x00, 0x00, 0x00, 0x03, 0x00, 0x01, 0x0c]),
        Err(DecodeError::UnknownTag)
    );
    assert_eq!(Raw::from(&[0x05, 0x00, 0xff]), Err(DecodeError::UnknownTag));
}

#[test]
fn truncated_input_is_refused() {
    assert_eq!(Raw::from(&[]), Err(DecodeError::TruncatedInput));
    assert_eq!(Raw::from(&[0x01]), Err(DecodeError::TruncatedInput));
    assert_eq!(Raw::from(&[0x01, 0x00, 0x00, 0x00]), Err(DecodeError::TruncatedInput));
    assert_eq!(
        Raw::from(&[0x01, 0x00, 0x00, 0x00, 0x05, 0x61]),
        Err(DecodeError::TruncatedInput)
    );
    assert_eq!(
        Raw::from(&[0x0a, 0x00, 0x00, 0x00, 0x02, 0x61]),
        Err(DecodeError::TruncatedInput)
    );
    assert_eq!(
        Raw::from(&[0x02, 0xff, 0xff, 0xff, 0xff, 0x00, 0x01]),
        Err(DecodeError::TruncatedInput)
    );
    assert_eq!(Raw::from(&[0x03]), Err(DecodeError::TruncatedInput));
    assert_eq!(Raw::from(&[0x05, 0x07]), Err(DecodeError::TruncatedInput));
    assert_eq!(Raw::from(&[0x07, 0x07, 0x00, 0x01]), Err(DecodeError::TruncatedInput));
    assert_eq!(Raw::from(&[0x04, 0x07, 0x00, 0x00]), Err(DecodeError::TruncatedInput));
    assert_eq!(
        Raw::from(&[0x09, 0x07, 0x00, 0x00, 0x00, 0x00]),
        Err(DecodeError::TruncatedInput)
    );
}

#[test]
fn a_child_may_not_reach_past_its_list() {
    assert_eq!(
        Raw::from(&[0x02, 0x00, 0x00, 0x00, 0x01, 0x00, 0x01]),
        Err(DecodeError::TruncatedInput)
    );
    assert_eq!(
        Raw::from(&[0x02, 0x00, 0x00, 0x00, 0x03, 0x00, 0x01, 0x00, 0x02]),
        Err(DecodeError::TruncatedInput)
    );
    assert_eq!(
        Raw::from(&[0x02, 0x00, 0x00, 0x00, 0x05, 0x01, 0x00, 0x00, 0x00, 0x01, 0x61]),
        Err(DecodeError::TruncatedInput)
    );
    assert_eq!(
        Raw::from(&[0x02, 0x00, 0x00, 0x00, 0x02, 0x00, 0x81, 0x00]),
        Err(DecodeError::TruncatedInput)
    );
}

#[test]
fn invalid_text_is_refused() {
    assert_eq!(
        Raw::from(&[0x01, 0x00, 0x00, 0x00, 0x01, 0xff]),
        Err(DecodeError::InvalidUtf8)
    );
    assert_eq!(
        Raw::from(&[0x01, 0x00, 0x00, 0x00, 0x02, 0xc3, 0x28]),
        Err(DecodeError::InvalidUtf8)
    );
    assert_eq!(
        Raw::from(&[0x04, 0x07, 0x00, 0x00, 0x00, 0x01, 0x80]),
        Err(DecodeError::InvalidUtf8)
    );
    assert_eq!(
        Raw::from(&[0x0a, 0x00, 0x00, 0x00, 0x01, 0xff]),
        Ok(Node::Bytes(vec![0xff]))
    );
}

#[test]
fn a_rejected_primitive_is_reported() {
    assert_eq!(Node::<Only>::from(&[0x03, 0x01]), Err(DecodeError::InvalidPrimitive));
    assert_eq!(
        Node::<Only>::from(&[0x05, 0x00, 0x03, 0x02]),
        Err(DecodeError::InvalidPrimitive)
    );
    assert_eq!(Node::<Only>::from(&[0x03]), Err(DecodeError::TruncatedInput));
    assert_eq!(Node::<Only>::from(&[0x03, 0x00]), Ok(Node::Prim(Only, vec![], vec![])));
}

#[test]
fn raw_primitives_are_one_byte() {
    let mut buffer = vec![1];
    assert_eq!(RawPrimitive(0x43).encode_to_buffer(&mut buffer), 1);
    assert_eq!(buffer, vec![1, 0x43]);
    assert_eq!(RawPrimitive::decode_from_buffer(&[0x62, 0x00]), Ok((RawPrimitive(0x62), 1)));
    assert_eq!(RawPrimitive::decode_from_buffer(&[0xff]), Ok((RawPrimitive(0xff), 1)));
    assert_eq!(RawPrimitive::decode_from_buffer(&[]), Err(DecodeError::TruncatedInput));
}

#[test]
fn what_follows_the_tree_is_ignored() {
    assert_eq!(Raw::from(&[0x00, 0x01, 0xff, 0xff]), Ok(Node::Int(1)));
    assert_eq!(Raw::from(&[0x03, 0x12, 0x0b]), Ok(Node::Prim(RawPrimitive(0x12), vec![], vec![])));
}

#[test]
fn trees_are_read_at_an_offset() {
    let buffer = [0xff, 0x00, 0xb7, 0x4c, 0x03, 0x12];
    assert_eq!(Raw::from_offset(&buffer, 1), Ok((Node::Int(0x1337), 3)));
    assert_eq!(
        Raw::from_offset(&buffer, 4),
        Ok((Node::Prim(RawPrimitive(0x12), vec![], vec![]), 2))
    );
    assert_eq!(Raw::from_offset(&buffer, 0), Err(DecodeError::UnknownTag));
    assert_eq!(Raw::from_offset(&buffer, 6), Err(DecodeError::TruncatedInput));
    assert_eq!(Raw::from_offset(&buffer, 7), Err(DecodeError::TruncatedInput));
    assert_eq!(Raw::from_offset(&buffer, usize::MAX), Err(DecodeError::TruncatedInput));
}

#[test]
fn every_kind_counts_its_discriminant() {
    let mut buffer = Vec::new();
    assert_eq!(Raw::Int(1).encode_to_buffer(&mut buffer), 2);
    assert_eq!(Raw::String(text("a")).encode_to_buffer(&mut buffer), 6);
    assert_eq!(Raw::Bytes(vec![1, 2]).encode_to_buffer(&mut buffer), 7);
    assert_eq!(Raw::Sequence(vec![]).encode_to_buffer(&mut buffer), 5);
    assert_eq!(Raw::Prim(RawPrimitive(1), vec![], vec![]).encode_to_buffer(&mut buffer), 2);
    assert_eq!(buffer.len(), 22);
}

#[test]
fn lists_hold_texts_and_blobs() {
    let node = Raw::Sequence(vec![Node::String(text("a")), Node::Bytes(vec![0x62])]);
    assert_eq!(
        node.encode(),
        vec![0x02, 0, 0, 0, 12, 0x01, 0, 0, 0, 1, 0x61, 0x0a, 0, 0, 0, 1, 0x62]
    );
    assert_eq!(
        Raw::from(&[0x02, 0, 0, 0, 12, 0x01, 0, 0, 0, 1, 0x61, 0x0a, 0, 0, 0, 1, 0x62]),
        Ok(Node::Sequence(vec![Node::String(text("a")), Node::Bytes(vec![0x62])]))
    );
}

#[test]
fn lists_are_framed() {
    let mut buffer = vec![0xee];
    let values: Vec<Raw> = vec![Node::Int(1), Node::Sequence(vec![]), Node::Int(-1)];
    assert_eq!(write_list(&mut buffer, &values), 13);
    assert_eq!(buffer, vec![0xee, 0, 0, 0, 9, 0x00, 0x01, 0x02, 0, 0, 0, 0, 0x00, 0x41]);
    assert_eq!(
        read_list::<RawPrimitive>(&buffer[1..]),
        Ok((vec![Node::Int(1), Node::Sequence(vec![]), Node::Int(-1)], 13))
    );
    assert_eq!(read_list::<RawPrimitive>(&[0, 0, 0, 0, 0xff]), Ok((vec![], 4)));
    assert_eq!(read_list::<RawPrimitive>(&[0, 0]), Err(DecodeError::TruncatedInput));
}

fn tag_of(args: Vec<Raw>, annot: Vec<String>) -> u8 {
    let mut buffer = Vec::new();
    let written = encode_primitive(&mut buffer, &RawPrimitive(0x21), &args, &annot);
    assert_eq!(written, buffer.len());
    assert_eq!(buffer[1], 0x21);
    buffer[0]
}

#[test]
fn primitives_carry_the_tag_of_their_shape() {
    let some = || vec![text("%a")];
    assert_eq!(tag_of(vec![], vec![]), 3);
    assert_eq!(tag_of(vec![], some()), 4);
    assert_eq!(tag_of(vec![], vec![text("")]), 4);
    assert_eq!(tag_of(vec![Node::Int(1)], vec![]), 5);
    assert_eq!(tag_of(vec![Node::Int(1)], some()), 6);
    assert_eq!(tag_of(vec![Node::Int(1), Node::Int(2)], vec![]), 7);
    assert_eq!(tag_of(vec![Node::Int(1), Node::Int(2)], some()), 8);
    assert_eq!(tag_of(vec![Node::Int(1), Node::Int(2), Node::Int(3)], vec![]), 9);
    assert_eq!(tag_of(vec![Node::Int(1), Node::Int(2), Node::Int(3)], some()), 9);
    assert_eq!(
        tag_of(vec![Node::Int(1), Node::Int(2), Node::Int(3), Node::Int(4)], some()),
        9
    );
}

#[test]
fn primitives_of_every_shape_read_back() {
    let args = |n: i32| -> Vec<Raw> { (0..n).map(|i| Node::Int(i * 100)).collect() };
    for count in 0..5 {
        for labels in [vec![text("%a")], vec![text("%a"), text(":b"), text("")]] {
            round_trip(
                Node::Prim(RawPrimitive(count as u8), args(count), labels.clone()),
                Node::Prim(RawPrimitive(count as u8), args(count), labels),
            );
        }
    }
    for count in 0..3 {
        round_trip(
            Node::Prim(RawPrimitive(9), args(count), vec![]),
            Node::Prim(RawPrimitive(9), args(count), vec![]),
        );
    }
}

#[test]
fn three_arguments_without_labels_come_back_with_one_empty_label() {
    let args = || -> Vec<Raw> { vec![Node::Int(42), Node::Int(43), Node::Int(44)] };
    let bytes = Raw::Prim(RawPrimitive(0), args(), vec![]).encode();
    assert_eq!(bytes, b"\x09\x00\x00\x00\x00\x06\x00\x2a\x00\x2b\x00\x2c\x00\x00\x00\x00");
    assert_eq!(Raw::from(&bytes), Ok(Node::Prim(RawPrimitive(0), args(), vec![text("")])));
    assert_eq!(Raw::Prim(RawPrimitive(0), args(), vec![text("")]).encode(), bytes);
}

#[test]
fn one_empty_label_is_an_empty_field() {
    let bytes = Raw::Prim(RawPrimitive(5), vec![], vec![text("")]).encode();
    assert_eq!(bytes, vec![0x04, 0x05, 0, 0, 0, 0]);
    assert_eq!(Raw::from(&bytes), Ok(Node::Prim(RawPrimitive(5), vec![], vec![text("")])));
}

#[test]
fn a_label_with_a_space_comes_back_as_two() {
    let bytes = Raw::Prim(RawPrimitive(5), vec![], vec![text("a b")]).encode();
    assert_eq!(bytes, b"\x04\x05\x00\x00\x00\x03a b");
    assert_eq!(
        Raw::from(&bytes),
        Ok(Node::Prim(RawPrimitive(5), vec![], vec![text("a"), text("b")]))
    );
}

#[test]
fn the_general_form_takes_any_number_of_arguments() {
    assert_eq!(
        Raw::from(b"\x09\x07\x00\x00\x00\x02\x00\x01\x00\x00\x00\x02%a"),
        Ok(Node::Prim(RawPrimitive(7), vec![Node::Int(1)], vec![text("%a")]))
    );
    assert_eq!(
        Raw::from(b"\x09\x07\x00\x00\x00\x00\x00\x00\x00\x00"),
        Ok(Node::Prim(RawPrimitive(7), vec![], vec![text("")]))
    );
}

#[test]
fn the_general_form_counts_its_discriminant() {
    let inner = || -> Raw {
        Node::Prim(
            RawPrimitive(1),
            vec![Node::Int(1), Node::Int(2), Node::Int(3)],
            vec![text("%x")],
        )
    };
    let bytes = Raw::Sequence(vec![inner(), Node::Int(7)]).encode();
    assert_eq!(
        bytes,
        b"\x02\x00\x00\x00\x14\x09\x01\x00\x00\x00\x06\x00\x01\x00\x02\x00\x03\x00\x00\x00\x02%x\x00\x07"
    );
    assert_eq!(Raw::from(&bytes), Ok(Node::Sequence(vec![inner(), Node::Int(7)])));
    assert_eq!(Raw::from_offset(&bytes, 5), Ok((inner(), 18)));
}

#[test]
fn texts_and_blobs_read_back() {
    for s in ["", "a", "Hello world", "héllo wörld", "日本語", "a b  c"] {
        round_trip(Node::String(text(s)), Node::String(text(s)));
        round_trip(Node::Bytes(s.as_bytes().to_vec()), Node::Bytes(s.as_bytes().to_vec()));
    }
    round_trip(Node::Bytes(vec![0, 0xff, 0x80, 0x20]), Node::Bytes(vec![0, 0xff, 0x80, 0x20]));
    assert_eq!(Raw::String(text("é")).encode(), vec![0x01, 0, 0, 0, 2, 0xc3, 0xa9]);
}

#[test]
fn nested_trees_read_back() {
    let tree = || -> Raw {
        Node::Sequence(vec![
            Node::Sequence(vec![]),
            Node::Prim(
                RawPrimitive(0x43),
                vec![Node::Prim(RawPrimitive(0x62), vec![], vec![]), Node::Int(-77)],
                vec![text("%one")],
            ),
            Node::Sequence(vec![
                Node::String(text("x")),
                Node::Prim(
                    RawPrimitive(0x07),
                    vec![
                        Node::Bytes(vec![1, 2, 3]),
                        Node::Int(i32::MAX),
                        Node::Sequence(vec![Node::Int(0)]),
                    ],
                    vec![text("%a"), text("%b")],
                ),
            ]),
            Node::Prim(RawPrimitive(0x12), vec![Node::Int(-i32::MAX)], vec![]),
        ])
    };
    round_trip(tree(), tree());
}

#[test]
fn sequences_keep_order_and_count() {
    let items = || -> Vec<Raw> { (0..100).map(|i| Node::Int(i * i - 50)).collect() };
    round_trip(Node::Sequence(items()), Node::Sequence(items()));
    round_trip(Node::Sequence(vec![]), Node::Sequence(vec![]));
    assert_eq!(Raw::Sequence(vec![]).encode(), vec![0x02, 0, 0, 0, 0]);
}
