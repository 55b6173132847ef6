//! What holds of the wire format as a whole: trees read back from their own
//! bytes, primitives carry the discriminant that their shape calls for, and
//! malformed input is refused with the error that names the fault.

use vstd::prelude::*;
use vstd::utf8::*;
use crate::annotation::{
    annotation_blob, annotation_field, join, lemma_split_join, no_space, parse_annotation, split,
};
use crate::error::DecodeError;
use crate::frame::{be32_value, framed, lemma_parse_framed, parse_frame};
use crate::primitive::Encodable;
use crate::tree::{
    decode, encodable, encode_list, encode_tree, has_annotation_field, lemma_encode_list_front,
    parse_args, parse_framed_list, parse_list, parse_prim, parse_tree, prim_tag, Tree, TAG_BYTES,
    TAG_INT, TAG_PRIM_0, TAG_PRIM_0_ANNOT, TAG_PRIM_N, TAG_SEQUENCE, TAG_STRING,
};
use crate::zarith::{in_range, lemma_parse_zarith, lemma_parse_zarith_taken, zarith};

verus! {

/// Whether no label anywhere in a tree holds a space.
pub open spec fn spaceless<P: Encodable>(tree: Tree<P>) -> bool
    decreases tree,
{
    match tree {
        Tree::Prim(prim, args, annot) => {
            &&& forall|i: int| 0 <= i < annot.len() ==> no_space(#[trigger] annot[i])
            &&& forall|i: int| 0 <= i < args.len() ==> spaceless(#[trigger] args[i])
        },
        Tree::Sequence(items) => forall|i: int|
            0 <= i < items.len() ==> spaceless(#[trigger] items[i]),
        _ => true,
    }
}

/// The labels that an annotation field written from `annot` reads back as.
/// A field written from no label reads back as one empty label.
pub open spec fn labels_read_back(annot: Seq<Seq<char>>) -> Seq<Seq<char>> {
    if annot.len() == 0 {
        seq![Seq::empty()]
    } else {
        annot
    }
}

/// The trees that the bytes of a row read back as.
pub open spec fn row_read_back<P: Encodable>(items: Seq<Tree<P>>) -> Seq<Tree<P>>
    decreases items,
{
    Seq::new(
        items.len(),
        |i: int|
            if 0 <= i < items.len() {
                read_back(items[i])
            } else {
                arbitrary()
            },
    )
}

/// The tree that the bytes of a tree read back as. It is the tree itself,
/// but for one thing: a primitive with three arguments or more always has
/// an annotation field on the wire, so where it has no label it comes back
/// with one empty label.
pub open spec fn read_back<P: Encodable>(tree: Tree<P>) -> Tree<P>
    decreases tree,
{
    match tree {
        Tree::Prim(prim, args, annot) => Tree::Prim(
            prim,
            row_read_back(args),
            if args.len() > 2 {
                labels_read_back(annot)
            } else {
                annot
            },
        ),
        Tree::Sequence(items) => Tree::Sequence(row_read_back(items)),
        other => other,
    }
}

/// Whether a tree is free of the one shape that does not come back as it
/// was: a primitive with three arguments or more and no label.
pub open spec fn symmetric<P: Encodable>(tree: Tree<P>) -> bool
    decreases tree,
{
    match tree {
        Tree::Prim(prim, args, annot) => {
            &&& args.len() > 2 ==> annot.len() > 0
            &&& forall|i: int| 0 <= i < args.len() ==> symmetric(#[trigger] args[i])
        },
        Tree::Sequence(items) => forall|i: int|
            0 <= i < items.len() ==> symmetric(#[trigger] items[i]),
        _ => true,
    }
}

/// A symmetric tree reads back as itself.
pub proof fn lemma_read_back_symmetric<P: Encodable>(tree: Tree<P>)
    requires
        symmetric(tree),
    ensures
        read_back(tree) == tree,
    decreases tree,
{
    match tree {
        Tree::Prim(prim, args, annot) => {
            assert forall|i: int| 0 <= i < args.len() implies read_back(args[i]) == args[i] by {
                lemma_read_back_symmetric(args[i]);
            }
            assert(row_read_back(args) =~= args);
        },
        Tree::Sequence(items) => {
            assert forall|i: int| 0 <= i < items.len() implies read_back(items[i])
                == items[i] by {
                lemma_read_back_symmetric(items[i]);
            }
            assert(row_read_back(items) =~= items);
        },
        _ => {},
    }
}

/// An annotation field reads back as the labels it was written from,
/// whatever follows it, where no label holds a space; a field written from
/// no label reads back as one empty label.
pub proof fn lemma_parse_annotation_field(annot: Seq<Seq<char>>, rest: Seq<u8>)
    requires
        forall|i: int| 0 <= i < annot.len() ==> no_space(#[trigger] annot[i]),
        annotation_blob(annot).len() <= 0xffff_ffff,
    ensures
        parse_annotation(annotation_field(annot) + rest) == Ok::<
            (Seq<Seq<char>>, nat),
            DecodeError,
        >((labels_read_back(annot), annotation_field(annot).len())),
{
    reveal(parse_annotation);
    let blob = annotation_blob(annot);
    lemma_parse_framed(blob, rest);
    encode_utf8_valid_utf8(join(annot));
    encode_utf8_decode_utf8(join(annot));
    if annot.len() > 0 {
        lemma_split_join(annot);
    } else {
        assert(split(join(annot)) =~= seq![Seq::<char>::empty()]);
    }
}

/// Every integer in range reads back from its bytes, whatever follows them.
pub proof fn lemma_parse_int<P: Encodable>(v: int, rest: Seq<u8>)
    requires
        in_range(v),
    ensures
        parse_tree::<P>(encode_tree(Tree::<P>::Int(v)) + rest) == Ok::<(Tree<P>, nat), DecodeError>(
            (Tree::Int(v), encode_tree(Tree::<P>::Int(v)).len()),
        ),
{
    reveal_with_fuel(parse_tree, 1);
    let bytes = encode_tree(Tree::<P>::Int(v)) + rest;
    lemma_parse_zarith(v, rest);
    assert(bytes[0] == TAG_INT);
    assert(bytes.skip(1) =~= zarith(v) + rest);
}

/// Every text that fits behind a length prefix reads back from its bytes,
/// whatever follows them.
pub proof fn lemma_parse_string<P: Encodable>(text: Seq<char>, rest: Seq<u8>)
    requires
        encode_utf8(text).len() <= 0xffff_ffff,
    ensures
        parse_tree::<P>(encode_tree(Tree::<P>::String(text)) + rest) == Ok::<
            (Tree<P>, nat),
            DecodeError,
        >((Tree::String(text), encode_tree(Tree::<P>::String(text)).len())),
{
    reveal_with_fuel(parse_tree, 1);
    let blob = encode_utf8(text);
    let bytes = encode_tree(Tree::<P>::String(text)) + rest;
    lemma_parse_framed(blob, rest);
    encode_utf8_valid_utf8(text);
    encode_utf8_decode_utf8(text);
    assert(bytes[0] == TAG_STRING);
    assert(bytes.skip(1) =~= framed(blob) + rest);
}

/// Every blob that fits behind a length prefix reads back from its bytes,
/// whatever follows them.
pub proof fn lemma_parse_bytes<P: Encodable>(blob: Seq<u8>, rest: Seq<u8>)
    requires
        blob.len() <= 0xffff_ffff,
    ensures
        parse_tree::<P>(encode_tree(Tree::<P>::Bytes(blob)) + rest) == Ok::<
            (Tree<P>, nat),
            DecodeError,
        >((Tree::Bytes(blob), encode_tree(Tree::<P>::Bytes(blob)).len())),
{
    reveal_with_fuel(parse_tree, 1);
    let bytes = encode_tree(Tree::<P>::Bytes(blob)) + rest;
    lemma_parse_framed(blob, rest);
    assert(bytes[0] == TAG_BYTES);
    assert(bytes.skip(1) =~= framed(blob) + rest);
}

/// A row of trees that fills a payload reads back tree by tree.
pub proof fn lemma_parse_row<P: Encodable>(items: Seq<Tree<P>>)
    requires
        forall|i: int| 0 <= i < items.len() ==> encodable(#[trigger] items[i]),
        forall|i: int| 0 <= i < items.len() ==> spaceless(#[trigger] items[i]),
    ensures
        parse_list::<P>(encode_list(items)) == Ok::<Seq<Tree<P>>, DecodeError>(
            row_read_back(items),
        ),
    decreases items, 0nat,
{
    reveal_with_fuel(parse_list, 1);
    reveal_with_fuel(parse_tree, 1);
    if items.len() == 0 {
        assert(row_read_back(items) =~= Seq::<Tree<P>>::empty());
    } else {
        let first = items[0];
        let others = items.drop_first();
        let bytes = encode_list(items);
        lemma_encode_list_front(items);
        lemma_parse_tree(first, encode_list(others));
        assert forall|i: int| 0 <= i < others.len() implies encodable(#[trigger] others[i])
            && spaceless(others[i]) by {
            assert(others[i] == items[i + 1]);
        }
        lemma_parse_row(others);
        let taken = encode_tree(first).len();
        assert(bytes =~= encode_tree(first) + encode_list(others));
        assert(1 <= taken <= bytes.len());
        assert(bytes.skip(taken as int) =~= encode_list(others));
        assert(seq![read_back(first)] + row_read_back(others) =~= row_read_back(items)) by {
            assert forall|i: int| 0 <= i < items.len() implies (seq![read_back(first)]
                + row_read_back(others))[i] == row_read_back(items)[i] by {
                if i > 0 {
                    assert(others[i - 1] == items[i]);
                }
            }
        }
    }
}

/// A framed row of trees reads back tree by tree, whatever follows it.
pub proof fn lemma_parse_framed_row<P: Encodable>(items: Seq<Tree<P>>, rest: Seq<u8>)
    requires
        forall|i: int| 0 <= i < items.len() ==> encodable(#[trigger] items[i]),
        forall|i: int| 0 <= i < items.len() ==> spaceless(#[trigger] items[i]),
        encode_list(items).len() <= 0xffff_ffff,
    ensures
        parse_framed_list::<P>(framed(encode_list(items)) + rest) == Ok::<
            (Seq<Tree<P>>, nat),
            DecodeError,
        >((row_read_back(items), framed(encode_list(items)).len())),
    decreases items, 1nat,
{
    reveal_with_fuel(parse_framed_list, 1);
    reveal_with_fuel(parse_list, 1);
    lemma_parse_framed(encode_list(items), rest);
    lemma_parse_row(items);
}

/// The arguments of a primitive read back one by one, whatever follows
/// them.
pub proof fn lemma_parse_arguments<P: Encodable>(
    args: Seq<Tree<P>>,
    annotated: bool,
    rest: Seq<u8>,
)
    requires
        forall|i: int| 0 <= i < args.len() ==> encodable(#[trigger] args[i]),
        forall|i: int| 0 <= i < args.len() ==> spaceless(#[trigger] args[i]),
        args.len() > 2 ==> encode_list(args).len() <= 0xffff_ffff,
    ensures
        parse_args::<P>(
            prim_tag(args.len(), annotated),
            (if args.len() > 2 {
                framed(encode_list(args))
            } else {
                encode_list(args)
            }) + rest,
        ) == Ok::<(Seq<Tree<P>>, nat), DecodeError>(
            (
                row_read_back(args),
                if args.len() > 2 {
                    framed(encode_list(args)).len()
                } else {
                    encode_list(args).len()
                },
            ),
        ),
    decreases args, 2nat,
{
    reveal_with_fuel(parse_args, 1);
    reveal_with_fuel(parse_tree, 1);
    reveal_with_fuel(parse_framed_list, 1);
    let tag = prim_tag(args.len(), annotated);
    if args.len() > 2 {
        lemma_parse_framed_row(args, rest);
    } else if args.len() == 0 {
        assert(row_read_back(args) =~= Seq::<Tree<P>>::empty());
        assert(encode_list(args) =~= Seq::<u8>::empty());
    } else if args.len() == 1 {
        lemma_encode_list_front(args);
        assert(args.drop_first() =~= Seq::<Tree<P>>::empty());
        assert(encode_list(args) =~= encode_tree(args[0]));
        lemma_parse_tree(args[0], rest);
        assert(row_read_back(args) =~= seq![read_back(args[0])]);
    } else {
        let first = args[0];
        let second = args[1];
        let others = args.drop_first();
        lemma_encode_list_front(args);
        lemma_encode_list_front(others);
        assert(others[0] == second);
        assert(others.drop_first() =~= Seq::<Tree<P>>::empty());
        assert(encode_list(others) =~= encode_tree(second));
        let bytes = encode_list(args) + rest;
        assert(bytes =~= encode_tree(first) + (encode_tree(second) + rest));
        lemma_parse_tree(first, encode_tree(second) + rest);
        lemma_parse_tree(second, rest);
        assert(bytes.skip(encode_tree(first).len() as int) =~= encode_tree(second) + rest);
        assert(row_read_back(args) =~= seq![read_back(first), read_back(second)]);
    }
}

/// A primitive application reads back from its fields, whatever follows
/// them.
pub proof fn lemma_parse_application<P: Encodable>(
    prim: P,
    args: Seq<Tree<P>>,
    annot: Seq<Seq<char>>,
    rest: Seq<u8>,
)
    requires
        encodable(Tree::Prim(prim, args, annot)),
        spaceless(Tree::Prim(prim, args, annot)),
    ensures
        parse_prim::<P>(
            prim_tag(args.len(), annot.len() > 0),
            encode_tree(Tree::Prim(prim, args, annot)).skip(1) + rest,
        ) == Ok::<(Tree<P>, nat), DecodeError>(
            (
                read_back(Tree::Prim(prim, args, annot)),
                (encode_tree(Tree::Prim(prim, args, annot)).len() - 1) as nat,
            ),
        ),
    decreases args, 3nat,
{
    reveal_with_fuel(parse_prim, 1);
    reveal_with_fuel(parse_args, 1);
    let tree = Tree::Prim(prim, args, annot);
    let tag = prim_tag(args.len(), annot.len() > 0);
    let row = if args.len() > 2 {
        framed(encode_list(args))
    } else {
        encode_list(args)
    };
    let field = if has_annotation_field(tag) {
        annotation_field(annot)
    } else {
        Seq::<u8>::empty()
    };
    let bytes = encode_tree(tree).skip(1) + rest;
    assert(bytes =~= prim.wire() + (row + (field + rest)));
    prim.lemma_parse_wire(row + (field + rest));
    let width = prim.wire().len();
    assert(bytes.skip(width as int) =~= row + (field + rest));
    lemma_parse_arguments(args, annot.len() > 0, field + rest);
    if has_annotation_field(tag) {
        assert(bytes.skip((width + row.len()) as int) =~= field + rest);
        lemma_parse_annotation_field(annot, rest);
    } else {
        assert(annot =~= Seq::<Seq<char>>::empty());
    }
    assert(encode_tree(tree).len() - 1 == width + row.len() + field.len());
}

/// Every tree that can be written, and whose labels hold no space, reads
/// back from its own bytes, whatever follows them: as itself, but for
/// primitives with three arguments or more and no label, which come back
/// with one empty label.
pub proof fn lemma_parse_tree<P: Encodable>(tree: Tree<P>, rest: Seq<u8>)
    requires
        encodable(tree),
        spaceless(tree),
    ensures
        parse_tree::<P>(encode_tree(tree) + rest) == Ok::<(Tree<P>, nat), DecodeError>(
            (read_back(tree), encode_tree(tree).len()),
        ),
    decreases tree, 4nat,
{
    let bytes = encode_tree(tree) + rest;
    match tree {
        Tree::Int(v) => {
            lemma_parse_int::<P>(v, rest);
        },
        Tree::String(text) => {
            lemma_parse_string::<P>(text, rest);
        },
        Tree::Bytes(blob) => {
            lemma_parse_bytes::<P>(blob, rest);
        },
        Tree::Sequence(items) => {
            reveal_with_fuel(parse_tree, 1);
            reveal_with_fuel(parse_framed_list, 1);
            lemma_parse_framed_row(items, rest);
            assert(bytes[0] == TAG_SEQUENCE);
            assert(bytes.skip(1) =~= framed(encode_list(items)) + rest);
        },
        Tree::Prim(prim, args, annot) => {
            reveal_with_fuel(parse_tree, 1);
            reveal_with_fuel(parse_prim, 1);
            lemma_parse_application(prim, args, annot, rest);
            assert(bytes[0] == prim_tag(args.len(), annot.len() > 0));
            assert(bytes.skip(1) =~= encode_tree(tree).skip(1) + rest);
        },
    }
}

/// A tree that can be written, whose labels hold no space, and that is
/// symmetric, is decoded from its own bytes as itself.
pub proof fn lemma_round_trip<P: Encodable>(tree: Tree<P>)
    requires
        encodable(tree),
        spaceless(tree),
        symmetric(tree),
    ensures
        decode::<P>(encode_tree(tree)) == Ok::<Tree<P>, DecodeError>(tree),
{
    lemma_parse_tree(tree, Seq::empty());
    lemma_read_back_symmetric(tree);
    assert(encode_tree(tree) + Seq::<u8>::empty() =~= encode_tree(tree));
}

/// Every integer in range is decoded from its own bytes as itself.
pub proof fn lemma_int_round_trip<P: Encodable>(v: int)
    requires
        in_range(v),
    ensures
        decode::<P>(encode_tree(Tree::<P>::Int(v))) == Ok::<Tree<P>, DecodeError>(Tree::Int(v)),
{
    lemma_round_trip(Tree::<P>::Int(v));
}

/// Every text that fits behind a length prefix, the empty one too, is
/// decoded from its own bytes as itself.
pub proof fn lemma_string_round_trip<P: Encodable>(text: Seq<char>)
    requires
        encode_utf8(text).len() <= 0xffff_ffff,
    ensures
        decode::<P>(encode_tree(Tree::<P>::String(text))) == Ok::<Tree<P>, DecodeError>(
            Tree::String(text),
        ),
{
    lemma_round_trip(Tree::<P>::String(text));
}

/// Every blob that fits behind a length prefix, the empty one too, is
/// decoded from its own bytes as itself.
pub proof fn lemma_bytes_round_trip<P: Encodable>(blob: Seq<u8>)
    requires
        blob.len() <= 0xffff_ffff,
    ensures
        decode::<P>(encode_tree(Tree::<P>::Bytes(blob))) == Ok::<Tree<P>, DecodeError>(
            Tree::Bytes(blob),
        ),
{
    lemma_round_trip(Tree::<P>::Bytes(blob));
}

/// Every sequence that can be written is decoded from its own bytes with the
/// same children in the same order, where the children are symmetric and
/// hold no label with a space.
pub proof fn lemma_sequence_round_trip<P: Encodable>(items: Seq<Tree<P>>)
    requires
        encodable(Tree::Sequence(items)),
        spaceless(Tree::Sequence(items)),
        symmetric(Tree::Sequence(items)),
    ensures
        decode::<P>(encode_tree(Tree::Sequence(items))) == Ok::<Tree<P>, DecodeError>(
            Tree::Sequence(items),
        ),
{
    lemma_round_trip(Tree::Sequence(items));
}

/// A primitive application is written under the discriminant that its
/// number of arguments and the presence of labels call for: 3 to 8 for
/// none, one or two arguments, the even ones with labels; 9 for three
/// arguments or more, with labels or without.
pub proof fn lemma_primitive_tag<P: Encodable>(
    prim: P,
    args: Seq<Tree<P>>,
    annot: Seq<Seq<char>>,
)
    ensures
        encode_tree(Tree::Prim(prim, args, annot)).len() >= 1,
        encode_tree(Tree::Prim(prim, args, annot))[0] == prim_tag(args.len(), annot.len() > 0),
        args.len() == 0 && annot.len() == 0 ==> encode_tree(Tree::Prim(prim, args, annot))[0] == 3,
        args.len() == 0 && annot.len() > 0 ==> encode_tree(Tree::Prim(prim, args, annot))[0] == 4,
        args.len() == 1 && annot.len() == 0 ==> encode_tree(Tree::Prim(prim, args, annot))[0] == 5,
        args.len() == 1 && annot.len() > 0 ==> encode_tree(Tree::Prim(prim, args, annot))[0] == 6,
        args.len() == 2 && annot.len() == 0 ==> encode_tree(Tree::Prim(prim, args, annot))[0] == 7,
        args.len() == 2 && annot.len() > 0 ==> encode_tree(Tree::Prim(prim, args, annot))[0] == 8,
        args.len() >= 3 ==> encode_tree(Tree::Prim(prim, args, annot))[0] == 9,
{
}

/// A primitive application that can be written is decoded from its own
/// bytes as itself, where its labels and those below it hold no space and
/// its arguments are symmetric; with three arguments or more and no label,
/// it comes back with one empty label.
pub proof fn lemma_primitive_round_trip<P: Encodable>(
    prim: P,
    args: Seq<Tree<P>>,
    annot: Seq<Seq<char>>,
)
    requires
        encodable(Tree::Prim(prim, args, annot)),
        spaceless(Tree::Prim(prim, args, annot)),
        forall|i: int| 0 <= i < args.len() ==> symmetric(#[trigger] args[i]),
    ensures
        decode::<P>(encode_tree(Tree::Prim(prim, args, annot))) == Ok::<Tree<P>, DecodeError>(
            Tree::Prim(
                prim,
                args,
                if args.len() > 2 {
                    labels_read_back(annot)
                } else {
                    annot
                },
            ),
        ),
{
    let tree = Tree::Prim(prim, args, annot);
    lemma_parse_tree(tree, Seq::empty());
    assert(encode_tree(tree) + Seq::<u8>::empty() =~= encode_tree(tree));
    assert forall|i: int| 0 <= i < args.len() implies read_back(args[i]) == args[i] by {
        lemma_read_back_symmetric(args[i]);
    }
    assert(row_read_back(args) =~= args);
}

/// Input that starts with a byte above the last discriminant is refused as
/// an unknown tag.
pub proof fn lemma_unknown_tag<P: Encodable>(bytes: Seq<u8>)
    requires
        bytes.len() >= 1,
        bytes[0] > TAG_BYTES,
    ensures
        decode::<P>(bytes) == Err::<Tree<P>, DecodeError>(DecodeError::UnknownTag),
{
    reveal_with_fuel(parse_tree, 1);
}

/// No input at all is truncated.
pub proof fn lemma_truncated_empty<P: Encodable>()
    ensures
        decode::<P>(Seq::<u8>::empty()) == Err::<Tree<P>, DecodeError>(
            DecodeError::TruncatedInput,
        ),
{
    reveal_with_fuel(parse_tree, 1);
}

/// A text, a blob or a sequence is truncated where its length prefix is cut
/// short or announces more bytes than follow it.
pub proof fn lemma_truncated_payload<P: Encodable>(bytes: Seq<u8>)
    requires
        bytes.len() >= 1,
        bytes[0] == TAG_STRING || bytes[0] == TAG_BYTES || bytes[0] == TAG_SEQUENCE,
        bytes.len() < 5 || be32_value(bytes.skip(1)) > bytes.len() - 5,
    ensures
        decode::<P>(bytes) == Err::<Tree<P>, DecodeError>(DecodeError::TruncatedInput),
{
    reveal_with_fuel(parse_tree, 1);
    reveal_with_fuel(parse_framed_list, 1);
    reveal(parse_frame);
}

/// A framed row of trees ends within the input.
pub proof fn lemma_parse_framed_list_taken<P: Encodable>(bytes: Seq<u8>)
    ensures
        parse_framed_list::<P>(bytes) matches Ok((_, taken)) ==> 4 <= taken <= bytes.len(),
{
    reveal_with_fuel(parse_framed_list, 1);
    reveal(parse_frame);
}

/// The arguments of a primitive end within the input.
pub proof fn lemma_parse_args_taken<P: Encodable>(tag: u8, bytes: Seq<u8>)
    ensures
        parse_args::<P>(tag, bytes) matches Ok((_, taken)) ==> taken <= bytes.len(),
    decreases bytes.len(), 1nat,
{
    reveal_with_fuel(parse_args, 1);
    reveal_with_fuel(parse_tree, 1);
    reveal_with_fuel(parse_framed_list, 1);
    if tag == TAG_PRIM_0 || tag == TAG_PRIM_0_ANNOT {
    } else if tag == TAG_PRIM_N {
        lemma_parse_framed_list_taken::<P>(bytes);
    } else {
        lemma_parse_tree_taken::<P>(bytes);
        match parse_tree::<P>(bytes) {
            Ok((_, taken)) => {
                if taken <= bytes.len() {
                    lemma_parse_tree_taken::<P>(bytes.skip(taken as int));
                }
            },
            Err(_) => {},
        }
    }
}

/// The fields of a primitive application end within the input.
pub proof fn lemma_parse_prim_taken<P: Encodable>(tag: u8, bytes: Seq<u8>)
    ensures
        parse_prim::<P>(tag, bytes) matches Ok((_, taken)) ==> taken <= bytes.len(),
    decreases bytes.len(), 2nat,
{
    reveal_with_fuel(parse_prim, 1);
    reveal_with_fuel(parse_args, 1);
    reveal(parse_annotation);
    reveal(parse_frame);
    match P::parse(bytes) {
        Ok((prim, width)) => {
            if width <= bytes.len() {
                lemma_parse_args_taken::<P>(tag, bytes.skip(width as int));
            }
        },
        Err(_) => {},
    }
}

/// A tree ends within the input and takes at least its discriminant: the
/// reader never claims a byte that is not there.
pub proof fn lemma_parse_tree_taken<P: Encodable>(bytes: Seq<u8>)
    ensures
        parse_tree::<P>(bytes) matches Ok((_, taken)) ==> 1 <= taken <= bytes.len(),
    decreases bytes.len(), 0nat,
{
    reveal_with_fuel(parse_tree, 1);
    reveal_with_fuel(parse_prim, 1);
    reveal_with_fuel(parse_framed_list, 1);
    reveal(parse_frame);
    if bytes.len() > 0 {
        let tag = bytes[0];
        let body = bytes.skip(1);
        if tag == TAG_INT {
            lemma_parse_zarith_taken(body);
        } else if tag == TAG_SEQUENCE {
            lemma_parse_framed_list_taken::<P>(body);
        } else if TAG_PRIM_0 <= tag <= TAG_PRIM_N {
            lemma_parse_prim_taken::<P>(tag, body);
        }
    }
}

} // verus!
