//! Trees in memory, and the codec that writes them to bytes and reads them
//! back.

use vstd::prelude::*;
use vstd::slice::slice_subrange;
use vstd::utf8::*;
use crate::annotation::{annotation_field, encode_annotation, read_annotation, texts};
use crate::error::DecodeError;
use crate::frame::{
    be32, framed, parse_frame, read_int_be, read_vec, write_array, write_int_be,
    write_int_be_into_offset,
};
use crate::primitive::Encodable;
use crate::tree::{
    decode, encodable, encode_list, encode_tree, lemma_encode_list_push, parse_args, parse_at,
    parse_framed_list, parse_list, parse_prim, parse_tree, prim_tag, Tree, TAG_BYTES, TAG_INT,
    TAG_PRIM_0, TAG_PRIM_0_ANNOT, TAG_PRIM_1, TAG_PRIM_1_ANNOT, TAG_PRIM_2, TAG_PRIM_2_ANNOT,
    TAG_PRIM_N, TAG_SEQUENCE, TAG_STRING,
};
use crate::zarith::{read_zarith, write_zarith};

verus! {

/// A Micheline tree.
#[derive(Debug, PartialEq)]
pub enum Node<P: Encodable> {
    /// A signed integer. The most negative `i32` is out of range.
    Int(i32),
    /// A text.
    String(std::string::String),
    /// A blob of bytes.
    Bytes(Vec<u8>),
    /// A primitive applied to arguments, with its annotations.
    Prim(P, Vec<Node<P>>, Vec<std::string::String>),
    /// Trees in a row.
    Sequence(Vec<Node<P>>),
}

/// The trees that a row of nodes stands for.
pub open spec fn trees<P: Encodable>(nodes: Seq<Node<P>>) -> Seq<Tree<P>>
    decreases nodes,
{
    Seq::new(
        nodes.len(),
        |i: int|
            if 0 <= i < nodes.len() {
                tree_of(nodes[i])
            } else {
                arbitrary()
            },
    )
}

/// The tree that a node stands for.
pub open spec fn tree_of<P: Encodable>(node: Node<P>) -> Tree<P>
    decreases node,
{
    match node {
        Node::Int(v) => Tree::Int(v as int),
        Node::String(text) => Tree::String(text@),
        Node::Bytes(blob) => Tree::Bytes(blob@),
        Node::Prim(prim, args, annot) => Tree::Prim(prim, trees(args@), texts(annot@)),
        Node::Sequence(items) => Tree::Sequence(trees(items@)),
    }
}

impl<P: Encodable> View for Node<P> {
    type V = Tree<P>;

    open spec fn view(&self) -> Tree<P> {
        tree_of(*self)
    }
}

/// Appends a row of nodes behind the length of their bytes, and returns the
/// number of bytes appended.
pub fn write_list<P: Encodable>(buffer: &mut Vec<u8>, values: &Vec<Node<P>>) -> (written: usize)
    requires
        forall|i: int| 0 <= i < values@.len() ==> encodable(#[trigger] trees(values@)[i]),
        encode_list(trees(values@)).len() <= 0xffff_ffff,
    ensures
        final(buffer)@ == old(buffer)@ + framed(encode_list(trees(values@))),
        written == framed(encode_list(trees(values@))).len(),
    decreases values, 0nat,
{
    let size_offset: usize = buffer.len();
    let mut size: usize = 0;
    write_int_be(buffer, 0);
    let ghost items = trees(values@);
    let ghost start = buffer@;
    let mut i: usize = 0;
    assert(items.take(0) =~= Seq::<Tree<P>>::empty());
    while i < values.len()
        invariant
            i <= values@.len(),
            items == trees(values@),
            forall|i: int| 0 <= i < values@.len() ==> encodable(#[trigger] items[i]),
            start == old(buffer)@ + be32(0),
            buffer@ == start + encode_list(items.take(i as int)),
            size == encode_list(items.take(i as int)).len(),
        decreases values@.len() - i,
    {
        proof {
            lemma_encode_list_push(items.take(i as int), items[i as int]);
            assert(items.take(i + 1) =~= items.take(i as int).push(items[i as int]));
        }
        let taken: usize = values[i].encode_to_buffer(buffer);
        assert(buffer.len() <= usize::MAX);
        size += taken;
        i += 1;
    }
    assert(items.take(i as int) =~= items);
    write_int_be_into_offset(buffer, size as u32, size_offset);
    assert(buffer@ =~= old(buffer)@ + framed(encode_list(items)));
    assert(buffer.len() <= usize::MAX);
    size + 4
}

/// The discriminant of a primitive with `count` arguments, annotated or not.
fn primitive_tag(count: usize, annotated: bool) -> (tag: u8)
    ensures
        tag == prim_tag(count as nat, annotated),
{
    if count == 0 {
        if annotated {
            TAG_PRIM_0_ANNOT
        } else {
            TAG_PRIM_0
        }
    } else if count == 1 {
        if annotated {
            TAG_PRIM_1_ANNOT
        } else {
            TAG_PRIM_1
        }
    } else if count == 2 {
        if annotated {
            TAG_PRIM_2_ANNOT
        } else {
            TAG_PRIM_2
        }
    } else {
        TAG_PRIM_N
    }
}

/// Appends a primitive application: the discriminant that its number of
/// arguments and its annotations call for, then its fields. Returns the
/// number of bytes appended.
pub fn encode_primitive<P: Encodable>(
    buffer: &mut Vec<u8>,
    prim: &P,
    args: &Vec<Node<P>>,
    annot: &Vec<std::string::String>,
) -> (written: usize)
    requires
        encodable(Tree::Prim(*prim, trees(args@), texts(annot@))),
    ensures
        final(buffer)@ == old(buffer)@ + encode_tree(
            Tree::Prim(*prim, trees(args@), texts(annot@)),
        ),
        written == encode_tree(Tree::Prim(*prim, trees(args@), texts(annot@))).len(),
    decreases args, 1nat,
{
    let ghost items = trees(args@);
    let ghost labels = texts(annot@);
    let count: usize = args.len();
    let annotated: bool = annot.len() > 0;
    let tag: u8 = primitive_tag(count, annotated);
    buffer.push(tag);
    let width: usize = prim.encode_to_buffer(buffer);
    assert(buffer.len() <= usize::MAX);
    let mut size: usize = width + 1;
    let ghost head = seq![tag] + prim.wire();
    assert(buffer@ =~= old(buffer)@ + head);
    if count > 2 {
        let taken: usize = write_list(buffer, args);
        assert(buffer.len() <= usize::MAX);
        size += taken;
        let last: usize = encode_annotation(buffer, annot);
        assert(buffer.len() <= usize::MAX);
        size += last;
        assert(buffer@ =~= old(buffer)@ + (head + framed(encode_list(items)) + annotation_field(
            labels,
        )));
    } else {
        let mut i: usize = 0;
        assert(items.take(0) =~= Seq::<Tree<P>>::empty());
        while i < count
            invariant
                i <= count == args@.len(),
                items == trees(args@),
                forall|k: int| 0 <= k < items.len() ==> encodable(#[trigger] items[k]),
                buffer@ == old(buffer)@ + head + encode_list(items.take(i as int)),
                size == head.len() + encode_list(items.take(i as int)).len(),
            decreases count - i,
        {
            proof {
                lemma_encode_list_push(items.take(i as int), items[i as int]);
                assert(items.take(i + 1) =~= items.take(i as int).push(items[i as int]));
            }
            let taken: usize = args[i].encode_to_buffer(buffer);
            assert(buffer.len() <= usize::MAX);
            size += taken;
            i += 1;
        }
        assert(items.take(count as int) =~= items);
        if annotated {
            let last: usize = encode_annotation(buffer, annot);
            assert(buffer.len() <= usize::MAX);
            size += last;
            assert(buffer@ =~= old(buffer)@ + (head + encode_list(items) + annotation_field(
                labels,
            )));
        } else {
            assert(buffer@ =~= old(buffer)@ + (head + encode_list(items)));
        }
    }
    size
}

impl<P: Encodable> Node<P> {
    /// Appends the bytes of this tree and returns how many they are.
    pub fn encode_to_buffer(&self, buffer: &mut Vec<u8>) -> (written: usize)
        requires
            encodable(self@),
        ensures
            final(buffer)@ == old(buffer)@ + encode_tree(self@),
            written == encode_tree(self@).len(),
        decreases self, 0nat,
    {
        let size: usize = match self {
            Node::Int(v) => {
                buffer.push(TAG_INT);
                let taken: usize = write_zarith(buffer, *v);
                assert(buffer.len() <= usize::MAX);
                taken + 1
            },
            Node::String(v) => {
                buffer.push(TAG_STRING);
                let taken: usize = write_array(buffer, v.as_str().as_bytes());
                assert(buffer.len() <= usize::MAX);
                taken + 1
            },
            Node::Bytes(v) => {
                buffer.push(TAG_BYTES);
                let taken: usize = write_array(buffer, v.as_slice());
                assert(buffer.len() <= usize::MAX);
                taken + 1
            },
            Node::Sequence(v) => {
                buffer.push(TAG_SEQUENCE);
                let taken: usize = write_list(buffer, v);
                assert(buffer.len() <= usize::MAX);
                taken + 1
            },
            Node::Prim(prim, args, annot) => encode_primitive(buffer, prim, args, annot),
        };
        assert(buffer@ =~= old(buffer)@ + encode_tree(self@));
        size
    }

    /// The bytes of this tree.
    pub fn encode(self) -> (bytes: Vec<u8>)
        requires
            encodable(self@),
        ensures
            bytes@ == encode_tree(self@),
    {
        let mut buffer: Vec<u8> = Vec::new();
        self.encode_to_buffer(&mut buffer);
        assert(buffer@ =~= encode_tree(self@));
        buffer
    }
}

/// Reads the framed row of nodes at the front of `buffer`, with the number
/// of bytes that prefix and payload take together. The nodes fill the
/// payload from end to end: one that would reach past it is truncated.
pub fn read_list<P: Encodable>(buffer: &[u8]) -> (result: Result<
    (Vec<Node<P>>, usize),
    DecodeError,
>)
    ensures
        match result {
            Ok((items, taken)) => {
                &&& parse_framed_list::<P>(buffer@) == Ok::<(Seq<Tree<P>>, nat), DecodeError>(
                    (trees(items@), taken as nat),
                )
                &&& 4 <= taken <= buffer@.len()
            },
            Err(e) => parse_framed_list::<P>(buffer@) == Err::<(Seq<Tree<P>>, nat), DecodeError>(
                e,
            ),
        },
    decreases buffer@.len(), 1nat,
{
    proof {
        reveal_with_fuel(parse_framed_list, 1);
        reveal_with_fuel(parse_list, 1);
        reveal(parse_frame);
    }
    let size: usize = match read_int_be(buffer) {
        Ok(n) => n as usize,
        Err(e) => {
            return Err(e);
        },
    };
    if buffer.len() - 4 < size {
        return Err(DecodeError::TruncatedInput);
    }
    let end: usize = size + 4;
    let payload: &[u8] = slice_subrange(buffer, 4, end);
    let mut items: Vec<Node<P>> = Vec::new();
    let mut offset: usize = 0;
    assert(payload@.skip(0) =~= payload@);
    assert(trees(items@) =~= Seq::<Tree<P>>::empty());
    assert(Seq::<Tree<P>>::empty() + parse_list::<P>(payload@)->Ok_0 =~= parse_list::<P>(
        payload@,
    )->Ok_0);
    while offset < size
        invariant
            offset <= size,
            size == payload@.len(),
            size < buffer@.len(),
            end == size + 4,
            parse_frame(buffer@) == Ok::<(Seq<u8>, nat), DecodeError>((payload@, end as nat)),
            parse_list::<P>(payload@) == match parse_list::<P>(payload@.skip(offset as int)) {
                Ok(others) => Ok::<Seq<Tree<P>>, DecodeError>(trees(items@) + others),
                Err(e) => Err::<Seq<Tree<P>>, DecodeError>(e),
            },
        decreases size - offset,
    {
        let ghost before = trees(items@);
        let ghost here = payload@.skip(offset as int);
        proof {
            reveal_with_fuel(parse_framed_list, 1);
            reveal_with_fuel(parse_list, 1);
            reveal_with_fuel(parse_tree, 1);
        }
        let (item, taken) = match Node::from_offset(payload, offset) {
            Ok(found) => found,
            Err(e) => {
                assert(parse_list::<P>(here) == Err::<Seq<Tree<P>>, DecodeError>(e));
                return Err(e);
            },
        };
        proof {
            assert(here.skip(taken as int) =~= payload@.skip(offset + taken));
            assert(trees(items@.push(item)) =~= before.push(item@));
            match parse_list::<P>(here.skip(taken as int)) {
                Ok(others) => {
                    assert(before.push(item@) + others =~= before + (seq![item@] + others));
                },
                Err(_) => {},
            }
        }
        offset += taken;
        items.push(item);
    }
    proof {
        reveal_with_fuel(parse_list, 1);
        assert(payload@.skip(offset as int).len() == 0);
        assert(trees(items@) + Seq::<Tree<P>>::empty() =~= trees(items@));
    }
    Ok((items, end))
}

/// Reads the arguments of the primitive under discriminant `tag`, which
/// start at `offset` in `buffer`, with the number of bytes they take.
fn read_args<P: Encodable>(tag: u8, buffer: &[u8], offset: usize) -> (result: Result<
    (Vec<Node<P>>, usize),
    DecodeError,
>)
    requires
        offset <= buffer@.len(),
    ensures
        match result {
            Ok((args, taken)) => {
                &&& parse_args::<P>(tag, buffer@.skip(offset as int)) == Ok::<
                    (Seq<Tree<P>>, nat),
                    DecodeError,
                >((trees(args@), taken as nat))
                &&& taken <= buffer@.len() - offset
            },
            Err(e) => parse_args::<P>(tag, buffer@.skip(offset as int)) == Err::<
                (Seq<Tree<P>>, nat),
                DecodeError,
            >(e),
        },
    decreases buffer@.len() - offset, 2nat,
{
    let ghost fields = buffer@.skip(offset as int);
    proof {
        assert(buffer@.len() == buffer.len());
        reveal_with_fuel(parse_args, 1);
        reveal_with_fuel(parse_tree, 1);
        reveal_with_fuel(parse_framed_list, 1);
    }
    let mut args: Vec<Node<P>> = Vec::new();
    if tag == TAG_PRIM_0 || tag == TAG_PRIM_0_ANNOT {
        assert(trees(args@) =~= Seq::<Tree<P>>::empty());
        Ok((args, 0))
    } else if tag == TAG_PRIM_N {
        let list: &[u8] = slice_subrange(buffer, offset, buffer.len());
        assert(list@ =~= fields);
        read_list(list)
    } else {
        let (first, size) = match Node::from_offset(buffer, offset) {
            Ok(found) => found,
            Err(e) => {
                return Err(e);
            },
        };
        args.push(first);
        if tag == TAG_PRIM_1 || tag == TAG_PRIM_1_ANNOT {
            assert(trees(args@) =~= seq![first@]);
            Ok((args, size))
        } else {
            assert(fields.skip(size as int) =~= buffer@.skip(offset + size));
            let (second, more) = match Node::from_offset(buffer, offset + size) {
                Ok(found) => found,
                Err(e) => {
                    return Err(e);
                },
            };
            args.push(second);
            assert(trees(args@) =~= seq![first@, second@]);
            Ok((args, size + more))
        }
    }
}

/// Reads the fields of the primitive application under discriminant `tag`,
/// which start at `offset` in `buffer`, with the number of bytes they take.
fn read_prim<P: Encodable>(tag: u8, buffer: &[u8], offset: usize) -> (result: Result<
    (Node<P>, usize),
    DecodeError,
>)
    requires
        offset <= buffer@.len(),
    ensures
        match result {
            Ok((node, taken)) => {
                &&& parse_prim::<P>(tag, buffer@.skip(offset as int)) == Ok::<
                    (Tree<P>, nat),
                    DecodeError,
                >((node@, taken as nat))
                &&& taken <= buffer@.len() - offset
            },
            Err(e) => parse_prim::<P>(tag, buffer@.skip(offset as int)) == Err::<
                (Tree<P>, nat),
                DecodeError,
            >(e),
        },
    decreases buffer@.len() - offset, 3nat,
{
    let body: &[u8] = slice_subrange(buffer, offset, buffer.len());
    proof {
        reveal_with_fuel(parse_prim, 1);
        reveal_with_fuel(parse_args, 1);
    }
    assert(body@ =~= buffer@.skip(offset as int));
    let (prim, prim_size) = match P::decode_from_buffer(body) {
        Ok(found) => found,
        Err(e) => {
            return Err(e);
        },
    };
    if prim_size > body.len() {
        return Err(DecodeError::TruncatedInput);
    }
    let args_start: usize = offset + prim_size;
    assert(body@.skip(prim_size as int) =~= buffer@.skip(args_start as int));
    let (args, args_size) = match read_args(tag, buffer, args_start) {
        Ok(found) => found,
        Err(e) => {
            return Err(e);
        },
    };
    if tag == TAG_PRIM_0_ANNOT || tag == TAG_PRIM_1_ANNOT || tag == TAG_PRIM_2_ANNOT || tag
        == TAG_PRIM_N {
        let field: &[u8] = slice_subrange(buffer, args_start + args_size, buffer.len());
        assert(field@ =~= body@.skip(prim_size + args_size));
        let (annot, annot_size) = match read_annotation(field) {
            Ok(found) => found,
            Err(e) => {
                return Err(e);
            },
        };
        Ok((Node::Prim(prim, args, annot), prim_size + args_size + annot_size))
    } else {
        let annot: Vec<std::string::String> = Vec::new();
        assert(texts(annot@) =~= Seq::<Seq<char>>::empty());
        Ok((Node::Prim(prim, args, annot), prim_size + args_size))
    }
}

impl<P: Encodable> Node<P> {
    /// Reads the tree that starts at `offset` in `buffer`, with the number of
    /// bytes it takes, discriminant included. An offset at or past the end
    /// of the buffer finds the input truncated.
    pub fn from_offset(buffer: &[u8], offset: usize) -> (result: Result<
        (Node<P>, usize),
        DecodeError,
    >)
        ensures
            match result {
                Ok((node, taken)) => {
                    &&& parse_at::<P>(buffer@, offset as nat) == Ok::<(Tree<P>, nat), DecodeError>(
                        (node@, taken as nat),
                    )
                    &&& 1 <= taken <= buffer@.len() - offset
                },
                Err(e) => parse_at::<P>(buffer@, offset as nat) == Err::<
                    (Tree<P>, nat),
                    DecodeError,
                >(e),
            },
        decreases buffer@.len() - offset, 0nat,
    {
        proof {
            reveal_with_fuel(parse_tree, 1);
            reveal_with_fuel(parse_prim, 1);
            reveal_with_fuel(parse_framed_list, 1);
        }
        if offset >= buffer.len() {
            return Err(DecodeError::TruncatedInput);
        }
        let tag: u8 = buffer[offset];
        let start: usize = offset + 1;
        let body: &[u8] = slice_subrange(buffer, start, buffer.len());
        let ghost bytes = buffer@.skip(offset as int);
        assert(body@ =~= bytes.skip(1));
        assert(body@ =~= buffer@.skip(start as int));
        if tag == TAG_INT {
            match read_zarith(body) {
                Ok((value, size)) => Ok((Node::Int(value), size + 1)),
                Err(e) => Err(e),
            }
        } else if tag == TAG_STRING {
            let (value, size) = match read_vec(body) {
                Ok(found) => found,
                Err(e) => {
                    return Err(e);
                },
            };
            match std::string::String::from_utf8(value) {
                Ok(text) => {
                    proof {
                        encode_utf8_decode_utf8(text@);
                    }
                    Ok((Node::String(text), size + 1))
                },
                Err(_) => Err(DecodeError::InvalidUtf8),
            }
        } else if tag == TAG_BYTES {
            match read_vec(body) {
                Ok((value, size)) => Ok((Node::Bytes(value), size + 1)),
                Err(e) => Err(e),
            }
        } else if tag == TAG_SEQUENCE {
            match read_list(body) {
                Ok((items, size)) => Ok((Node::Sequence(items), size + 1)),
                Err(e) => Err(e),
            }
        } else if TAG_PRIM_0 <= tag && tag <= TAG_PRIM_N {
            match read_prim(tag, buffer, start) {
                Ok((node, size)) => Ok((node, size + 1)),
                Err(e) => Err(e),
            }
        } else {
            Err(DecodeError::UnknownTag)
        }
    }

    /// Reads the tree that `buffer` starts with. What follows the tree is
    /// not looked at.
    pub fn from(buffer: &[u8]) -> (result: Result<Node<P>, DecodeError>)
        ensures
            match result {
                Ok(node) => decode::<P>(buffer@) == Ok::<Tree<P>, DecodeError>(node@),
                Err(e) => decode::<P>(buffer@) == Err::<Tree<P>, DecodeError>(e),
            },
    {
        proof {
            reveal_with_fuel(parse_tree, 1);
            assert(buffer@.skip(0) =~= buffer@);
        }
        match Node::from_offset(buffer, 0) {
            Ok((value, _)) => Ok(value),
            Err(e) => Err(e),
        }
    }
}

} // verus!
