//! The wire format, stated over mathematical trees: what bytes a tree is
//! written as, and what tree the front of a byte sequence reads as.

use vstd::prelude::*;
use vstd::utf8::*;
use crate::annotation::{annotation_blob, annotation_field, parse_annotation};
use crate::error::DecodeError;
use crate::frame::{framed, parse_frame};
use crate::primitive::Encodable;
use crate::zarith::{in_range, parse_zarith, zarith};

verus! {

/// What a tree is, apart from how it is held in memory.
pub enum Tree<P> {
    /// A signed integer.
    Int(int),
    /// A text.
    String(Seq<char>),
    /// A blob of bytes.
    Bytes(Seq<u8>),
    /// A primitive applied to arguments, with its annotations.
    Prim(P, Seq<Tree<P>>, Seq<Seq<char>>),
    /// Trees in a row.
    Sequence(Seq<Tree<P>>),
}

/// The discriminant of an integer.
pub const TAG_INT: u8 = 0;

/// The discriminant of a text.
pub const TAG_STRING: u8 = 1;

/// The discriminant of a sequence.
pub const TAG_SEQUENCE: u8 = 2;

/// The discriminant of a primitive without arguments or annotations.
pub const TAG_PRIM_0: u8 = 3;

/// The discriminant of an annotated primitive without arguments.
pub const TAG_PRIM_0_ANNOT: u8 = 4;

/// The discriminant of a primitive with one argument.
pub const TAG_PRIM_1: u8 = 5;

/// The discriminant of an annotated primitive with one argument.
pub const TAG_PRIM_1_ANNOT: u8 = 6;

/// The discriminant of a primitive with two arguments.
pub const TAG_PRIM_2: u8 = 7;

/// The discriminant of an annotated primitive with two arguments.
pub const TAG_PRIM_2_ANNOT: u8 = 8;

/// The discriminant of a primitive in the general form: a framed list of
/// arguments and an annotation field that is always there.
pub const TAG_PRIM_N: u8 = 9;

/// The discriminant of a blob of bytes.
pub const TAG_BYTES: u8 = 10;

/// The discriminant of a primitive with `args` arguments, annotated or not.
/// Three arguments or more take the general form either way.
pub open spec fn prim_tag(args: nat, annotated: bool) -> u8 {
    if args == 0 {
        if annotated {
            TAG_PRIM_0_ANNOT
        } else {
            TAG_PRIM_0
        }
    } else if args == 1 {
        if annotated {
            TAG_PRIM_1_ANNOT
        } else {
            TAG_PRIM_1
        }
    } else if args == 2 {
        if annotated {
            TAG_PRIM_2_ANNOT
        } else {
            TAG_PRIM_2
        }
    } else {
        TAG_PRIM_N
    }
}

/// The bytes of trees in a row, one after the other.
pub open spec fn encode_list<P: Encodable>(items: Seq<Tree<P>>) -> Seq<u8>
    decreases items,
{
    if items.len() == 0 {
        Seq::empty()
    } else {
        encode_list(items.drop_last()) + encode_tree(items.last())
    }
}

/// The bytes of a tree: its discriminant, then its payload. A primitive with
/// up to two arguments is followed by them one after the other, and by an
/// annotation field where it has labels; with three arguments or more it is
/// followed by their framed list and by an annotation field in any case.
pub open spec fn encode_tree<P: Encodable>(tree: Tree<P>) -> Seq<u8>
    decreases tree,
{
    match tree {
        Tree::Int(v) => seq![TAG_INT] + zarith(v),
        Tree::String(text) => seq![TAG_STRING] + framed(encode_utf8(text)),
        Tree::Bytes(blob) => seq![TAG_BYTES] + framed(blob),
        Tree::Sequence(items) => seq![TAG_SEQUENCE] + framed(encode_list(items)),
        Tree::Prim(prim, args, annot) => {
            let head = seq![prim_tag(args.len(), annot.len() > 0)] + prim.wire();
            if args.len() > 2 {
                head + framed(encode_list(args)) + annotation_field(annot)
            } else if annot.len() > 0 {
                head + encode_list(args) + annotation_field(annot)
            } else {
                head + encode_list(args)
            }
        },
    }
}

/// One more tree in a row adds its bytes behind those of the others.
pub proof fn lemma_encode_list_push<P: Encodable>(items: Seq<Tree<P>>, last: Tree<P>)
    ensures
        encode_list(items.push(last)) == encode_list(items) + encode_tree(last),
{
    assert(items.push(last).drop_last() =~= items);
}

/// The bytes of a row start with the bytes of its first tree.
pub proof fn lemma_encode_list_front<P: Encodable>(items: Seq<Tree<P>>)
    requires
        items.len() > 0,
    ensures
        encode_list(items) == encode_tree(items[0]) + encode_list(items.drop_first()),
    decreases items.len(),
{
    if items.len() == 1 {
        assert(items.drop_last() =~= Seq::<Tree<P>>::empty());
        assert(items.drop_first() =~= Seq::<Tree<P>>::empty());
        assert(encode_list(items) =~= encode_tree(items[0]) + encode_list(items.drop_first()));
    } else {
        lemma_encode_list_front(items.drop_last());
        assert(items.drop_last().drop_first() =~= items.drop_first().drop_last());
        assert(items.drop_first().last() == items.last());
        assert(encode_list(items) =~= encode_tree(items[0]) + encode_list(items.drop_first()));
    }
}

/// Whether a tree can be written: its integers are in range, and whatever
/// goes behind a length prefix is short enough for the prefix.
pub open spec fn encodable<P: Encodable>(tree: Tree<P>) -> bool
    decreases tree,
{
    match tree {
        Tree::Int(v) => in_range(v),
        Tree::String(text) => encode_utf8(text).len() <= 0xffff_ffff,
        Tree::Bytes(blob) => blob.len() <= 0xffff_ffff,
        Tree::Sequence(items) => {
            &&& forall|i: int| 0 <= i < items.len() ==> encodable(#[trigger] items[i])
            &&& encode_list(items).len() <= 0xffff_ffff
        },
        Tree::Prim(prim, args, annot) => {
            &&& forall|i: int| 0 <= i < args.len() ==> encodable(#[trigger] args[i])
            &&& args.len() > 2 ==> encode_list(args).len() <= 0xffff_ffff
            &&& annotation_blob(annot).len() <= 0xffff_ffff
        },
    }
}

/// The trees that fill `bytes` from end to end. A tree takes at least its
/// discriminant and nothing past the end, so the test on `taken` never
/// fails: it is what makes the definition well-founded.
#[verifier::opaque]
pub open spec fn parse_list<P: Encodable>(bytes: Seq<u8>) -> Result<Seq<Tree<P>>, DecodeError>
    decreases bytes.len(), 1nat,
{
    if bytes.len() == 0 {
        Ok(Seq::empty())
    } else {
        match parse_tree::<P>(bytes) {
            Err(e) => Err(e),
            Ok((first, taken)) => if taken == 0 || taken > bytes.len() {
                Err(DecodeError::TruncatedInput)
            } else {
                match parse_list::<P>(bytes.skip(taken as int)) {
                    Err(e) => Err(e),
                    Ok(others) => Ok(seq![first] + others),
                }
            },
        }
    }
}

/// The framed list at the front of `bytes`, with the number of bytes that
/// prefix and payload take together. The trees of the list fill the payload
/// from end to end: one that would reach past it is truncated.
#[verifier::opaque]
pub open spec fn parse_framed_list<P: Encodable>(bytes: Seq<u8>) -> Result<
    (Seq<Tree<P>>, nat),
    DecodeError,
>
    decreases bytes.len(), 2nat,
{
    match parse_frame(bytes) {
        Err(e) => Err(e),
        Ok((payload, taken)) => {
            proof {
                reveal(parse_frame);
            }
            match parse_list::<P>(payload) {
                Err(e) => Err(e),
                Ok(items) => Ok((items, taken)),
            }
        },
    }
}

/// The arguments that follow the primitive under discriminant `tag`, with
/// the number of bytes they take: none, one or two trees in a row, or a
/// framed list. The test on `taken` never fails, as in `parse_list`.
#[verifier::opaque]
pub open spec fn parse_args<P: Encodable>(tag: u8, bytes: Seq<u8>) -> Result<
    (Seq<Tree<P>>, nat),
    DecodeError,
>
    decreases bytes.len(), 3nat,
{
    if tag == TAG_PRIM_0 || tag == TAG_PRIM_0_ANNOT {
        Ok((Seq::empty(), 0))
    } else if tag == TAG_PRIM_N {
        parse_framed_list::<P>(bytes)
    } else {
        match parse_tree::<P>(bytes) {
            Err(e) => Err(e),
            Ok((first, taken)) => if tag == TAG_PRIM_1 || tag == TAG_PRIM_1_ANNOT {
                Ok((seq![first], taken))
            } else if taken > bytes.len() {
                Err(DecodeError::TruncatedInput)
            } else {
                match parse_tree::<P>(bytes.skip(taken as int)) {
                    Err(e) => Err(e),
                    Ok((second, more)) => Ok((seq![first, second], taken + more)),
                }
            },
        }
    }
}

/// Whether a primitive under discriminant `tag` has an annotation field.
pub open spec fn has_annotation_field(tag: u8) -> bool {
    tag == TAG_PRIM_0_ANNOT || tag == TAG_PRIM_1_ANNOT || tag == TAG_PRIM_2_ANNOT || tag
        == TAG_PRIM_N
}

/// The primitive application under discriminant `tag` whose fields start at
/// the front of `bytes`, with the number of bytes the fields take. What the
/// primitive reads as is for the alphabet to say; an alphabet that claims
/// more bytes than there are finds the input truncated.
#[verifier::opaque]
pub open spec fn parse_prim<P: Encodable>(tag: u8, bytes: Seq<u8>) -> Result<
    (Tree<P>, nat),
    DecodeError,
>
    decreases bytes.len(), 4nat,
{
    match P::parse(bytes) {
        Err(e) => Err(e),
        Ok((prim, width)) => if width > bytes.len() {
            Err(DecodeError::TruncatedInput)
        } else {
            match parse_args::<P>(tag, bytes.skip(width as int)) {
                Err(e) => Err(e),
                Ok((args, taken)) => if !has_annotation_field(tag) {
                    Ok((Tree::Prim(prim, args, Seq::empty()), width + taken))
                } else {
                    match parse_annotation(bytes.skip((width + taken) as int)) {
                        Err(e) => Err(e),
                        Ok((annot, last)) => Ok(
                            (Tree::Prim(prim, args, annot), width + taken + last),
                        ),
                    }
                },
            }
        },
    }
}

/// The tree at the front of `bytes`, with the number of bytes it takes,
/// discriminant included.
#[verifier::opaque]
pub open spec fn parse_tree<P: Encodable>(bytes: Seq<u8>) -> Result<(Tree<P>, nat), DecodeError>
    decreases bytes.len(), 0nat,
{
    if bytes.len() == 0 {
        Err(DecodeError::TruncatedInput)
    } else {
        let tag = bytes[0];
        let body = bytes.skip(1);
        if tag == TAG_INT {
            match parse_zarith(body) {
                Err(e) => Err(e),
                Ok((v, taken)) => Ok((Tree::Int(v), taken + 1)),
            }
        } else if tag == TAG_STRING {
            match parse_frame(body) {
                Err(e) => Err(e),
                Ok((blob, taken)) => if valid_utf8(blob) {
                    Ok((Tree::String(decode_utf8(blob)), taken + 1))
                } else {
                    Err(DecodeError::InvalidUtf8)
                },
            }
        } else if tag == TAG_BYTES {
            match parse_frame(body) {
                Err(e) => Err(e),
                Ok((blob, taken)) => Ok((Tree::Bytes(blob), taken + 1)),
            }
        } else if tag == TAG_SEQUENCE {
            match parse_framed_list::<P>(body) {
                Err(e) => Err(e),
                Ok((items, taken)) => Ok((Tree::Sequence(items), taken + 1)),
            }
        } else if TAG_PRIM_0 <= tag <= TAG_PRIM_N {
            match parse_prim::<P>(tag, body) {
                Err(e) => Err(e),
                Ok((tree, taken)) => Ok((tree, taken + 1)),
            }
        } else {
            Err(DecodeError::UnknownTag)
        }
    }
}

/// The tree that starts at `offset` in `bytes`, with the number of bytes it
/// takes. Nothing starts past the end, and at the end the input is over.
pub open spec fn parse_at<P: Encodable>(bytes: Seq<u8>, offset: nat) -> Result<
    (Tree<P>, nat),
    DecodeError,
> {
    if offset > bytes.len() {
        Err(DecodeError::TruncatedInput)
    } else {
        parse_tree::<P>(bytes.skip(offset as int))
    }
}

/// The tree that `bytes` start with. What follows the tree is not looked at.
pub open spec fn decode<P: Encodable>(bytes: Seq<u8>) -> Result<Tree<P>, DecodeError> {
    match parse_tree::<P>(bytes) {
        Err(e) => Err(e),
        Ok((tree, _)) => Ok(tree),
    }
}

} // verus!
