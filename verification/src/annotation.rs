//! Annotations: an ordered list of labels, packed into one framed blob with
//! a single space between neighbours.

use vstd::prelude::*;
use vstd::std_specs::iter::IteratorSpec;
use vstd::utf8::*;
use crate::error::DecodeError;
use crate::frame::{framed, parse_frame, read_vec, write_array, MAX_PAYLOAD};

verus! {

/// The labels of a list, as texts.
pub open spec fn texts(annot: Seq<String>) -> Seq<Seq<char>> {
    Seq::new(annot.len(), |i: int| annot[i]@)
}

/// Whether a label is free of the separator.
pub open spec fn no_space(label: Seq<char>) -> bool {
    forall|i: int| 0 <= i < label.len() ==> label[i] != ' '
}

/// The labels in order, with one space between neighbours. No label gives
/// the empty text, and so does one empty label.
pub open spec fn join(labels: Seq<Seq<char>>) -> Seq<char>
    decreases labels.len(),
{
    if labels.len() == 0 {
        Seq::empty()
    } else if labels.len() == 1 {
        labels[0]
    } else {
        join(labels.drop_last()) + seq![' '] + labels.last()
    }
}

/// The pieces of `text` between its spaces, in order. There is always at
/// least one piece: the empty text gives one empty label.
pub open spec fn split(text: Seq<char>) -> Seq<Seq<char>>
    decreases text.len(),
{
    if text.len() == 0 {
        seq![Seq::empty()]
    } else {
        let before = split(text.drop_last());
        if text.last() == ' ' {
            before.push(Seq::empty())
        } else {
            before.drop_last().push(before.last().push(text.last()))
        }
    }
}

/// The blob that stands for a list of labels.
pub open spec fn annotation_blob(labels: Seq<Seq<char>>) -> Seq<u8> {
    encode_utf8(join(labels))
}

/// The annotation field of a list of labels: its blob behind its length.
pub open spec fn annotation_field(labels: Seq<Seq<char>>) -> Seq<u8> {
    framed(annotation_blob(labels))
}

/// The labels that the annotation field at the front of `bytes` holds, with
/// the number of bytes the field takes.
#[verifier::opaque]
pub open spec fn parse_annotation(bytes: Seq<u8>) -> Result<(Seq<Seq<char>>, nat), DecodeError> {
    match parse_frame(bytes) {
        Err(e) => Err(e),
        Ok((blob, taken)) => if valid_utf8(blob) {
            Ok((split(decode_utf8(blob)), taken))
        } else {
            Err(DecodeError::InvalidUtf8)
        },
    }
}

/// Splitting never gives an empty list.
pub proof fn lemma_split_len(text: Seq<char>)
    ensures
        split(text).len() >= 1,
    decreases text.len(),
{
    if text.len() > 0 {
        lemma_split_len(text.drop_last());
    }
}

/// Text without a space that follows other text only lengthens the last
/// piece.
pub proof fn lemma_split_extend(text: Seq<char>, label: Seq<char>)
    requires
        no_space(label),
    ensures
        split(text).len() >= 1,
        split(text + label) == split(text).drop_last().push(split(text).last() + label),
    decreases label.len(),
{
    lemma_split_len(text);
    let pieces = split(text);
    if label.len() == 0 {
        assert(text + label =~= text);
        assert(pieces.last() + label =~= pieces.last());
        assert(pieces.drop_last().push(pieces.last()) =~= pieces);
    } else {
        let shorter = label.drop_last();
        lemma_split_extend(text, shorter);
        assert((text + label).drop_last() =~= text + shorter);
        assert((text + label).last() == label.last());
        let before = split(text + shorter);
        assert(before.last() == pieces.last() + shorter);
        assert(before.drop_last() =~= pieces.drop_last());
        assert((pieces.last() + shorter).push(label.last()) =~= pieces.last() + label);
    }
}

/// Labels without spaces, at least one of them, come back from their joined
/// text as they were.
pub proof fn lemma_split_join(labels: Seq<Seq<char>>)
    requires
        labels.len() >= 1,
        forall|i: int| 0 <= i < labels.len() ==> no_space(#[trigger] labels[i]),
    ensures
        split(join(labels)) == labels,
    decreases labels.len(),
{
    let last = labels.last();
    if labels.len() == 1 {
        lemma_split_extend(Seq::empty(), last);
        assert(Seq::<char>::empty() + last =~= last);
        assert(split(Seq::<char>::empty()) =~= seq![Seq::<char>::empty()]);
        assert(split(join(labels)) =~= labels);
    } else {
        let init = labels.drop_last();
        lemma_split_join(init);
        let spaced = join(init) + seq![' '];
        assert(spaced.drop_last() =~= join(init));
        assert(split(spaced) == init.push(Seq::<char>::empty()));
        lemma_split_extend(spaced, last);
        assert(Seq::<char>::empty() + last =~= last);
        assert(init.push(Seq::<char>::empty()).drop_last() =~= init);
        assert(init.push(last) =~= labels);
    }
}

/// The pieces of a text, joined again, are that text.
pub proof fn lemma_join_split(text: Seq<char>)
    ensures
        join(split(text)) == text,
        forall|i: int| 0 <= i < split(text).len() ==> no_space(#[trigger] split(text)[i]),
    decreases text.len(),
{
    if text.len() == 0 {
        assert(split(text) =~= seq![Seq::<char>::empty()]);
    } else {
        let shorter = text.drop_last();
        lemma_join_split(shorter);
        lemma_split_len(shorter);
        let before = split(shorter);
        let c = text.last();
        if c == ' ' {
            let now = before.push(Seq::<char>::empty());
            assert(now.drop_last() =~= before);
            assert(join(now) =~= join(before) + seq![' '] + Seq::<char>::empty());
            assert(text =~= shorter + seq![' ']);
        } else {
            let now = before.drop_last().push(before.last().push(c));
            assert(now.drop_last() =~= before.drop_last());
            assert(text =~= shorter.push(c));
            if before.len() == 1 {
                assert(join(before) == before[0]);
                assert(join(now) =~= text);
            } else {
                assert(join(before) == join(before.drop_last()) + seq![' '] + before.last());
                assert(join(now) =~= join(before.drop_last()) + seq![' '] + before.last().push(c));
                assert(join(now) =~= text);
            }
            assert forall|i: int| 0 <= i < now.len() implies no_space(#[trigger] now[i]) by {
                if i < now.len() - 1 {
                    assert(now[i] == before[i]);
                } else {
                    assert(no_space(before.last()));
                }
            }
        }
    }
}

/// The bytes of two texts in a row are the bytes of the one followed by the
/// bytes of the other.
pub proof fn lemma_encode_utf8_concat(a: Seq<char>, b: Seq<char>)
    ensures
        encode_utf8(a + b) == encode_utf8(a) + encode_utf8(b),
    decreases a.len(),
{
    if a.len() == 0 {
        assert(a + b =~= b);
        assert(encode_utf8(a) + encode_utf8(b) =~= encode_utf8(b));
    } else {
        lemma_encode_utf8_concat(a.drop_first(), b);
        assert((a + b).drop_first() =~= a.drop_first() + b);
        assert((a + b)[0] == a[0]);
        assert(encode_utf8(a + b) =~= encode_utf8(a) + encode_utf8(b));
    }
}

/// A space is one byte.
pub proof fn lemma_encode_space()
    ensures
        encode_utf8(seq![' ']) == seq![0x20u8],
{
    let s = seq![' '];
    assert(is_ascii_chars(s));
    is_ascii_chars_encode_utf8(s);
    assert(s[0] as u8 == 0x20u8);
    assert(encode_utf8(s) =~= seq![0x20u8]);
}

/// One more label lengthens the blob by a space, unless the label is the
/// first, and by the bytes of the label.
pub proof fn lemma_blob_push(labels: Seq<Seq<char>>, label: Seq<char>)
    ensures
        annotation_blob(labels.push(label)) == if labels.len() == 0 {
            encode_utf8(label)
        } else {
            annotation_blob(labels) + seq![0x20u8] + encode_utf8(label)
        },
{
    let longer = labels.push(label);
    assert(longer.last() == label);
    assert(longer.drop_last() =~= labels);
    if labels.len() > 0 {
        lemma_encode_space();
        lemma_encode_utf8_concat(join(labels) + seq![' '], label);
        lemma_encode_utf8_concat(join(labels), seq![' ']);
    }
}

/// Cuts `text` at its spaces.
pub fn split_labels(text: &str) -> (labels: Vec<String>)
    ensures
        texts(labels@) == split(text@),
{
    let mut labels: Vec<String> = Vec::new();
    let mut current: String = String::new();
    let mut chars = text.chars();
    let ghost mut seen: Seq<char> = Seq::empty();
    let mut more: bool = true;
    while more
        invariant
            chars.obeys_prophetic_iter_laws(),
            text@ == seen + chars.remaining(),
            split(seen) == texts(labels@).push(current@),
            !more ==> chars.remaining().len() == 0,
        decreases text@.len() - seen.len() + if more { 1int } else { 0 },
    {
        let ghost before = chars.remaining();
        match chars.next() {
            Some(c) => {
                proof {
                    assert(seen.push(c).drop_last() =~= seen);
                    assert(seen.push(c) + before.drop_first() =~= seen + before);
                    seen = seen.push(c);
                }
                if c == ' ' {
                    labels.push(current);
                    current = String::new();
                } else {
                    current.push(c);
                }
                assert(split(seen) =~= texts(labels@).push(current@));
            },
            None => {
                more = false;
            },
        }
    }
    assert(seen =~= text@);
    labels.push(current);
    assert(texts(labels@) =~= split(text@));
    labels
}

/// Appends the annotation field of `annot` and returns how many bytes it
/// takes.
pub fn encode_annotation(buffer: &mut Vec<u8>, annot: &Vec<String>) -> (written: usize)
    requires
        annotation_blob(texts(annot@)).len() <= MAX_PAYLOAD,
    ensures
        final(buffer)@ == old(buffer)@ + annotation_field(texts(annot@)),
        written == annotation_field(texts(annot@)).len(),
{
    let mut joined: Vec<u8> = Vec::new();
    let mut i: usize = 0;
    assert(texts(annot@).take(0) =~= Seq::<Seq<char>>::empty());
    while i < annot.len()
        invariant
            i <= annot@.len(),
            joined@ == annotation_blob(texts(annot@).take(i as int)),
        decreases annot@.len() - i,
    {
        let ghost done = texts(annot@).take(i as int);
        let ghost start = joined@;
        if i > 0 {
            joined.push(0x20);
        }
        let ghost spaced = joined@;
        let bytes: &[u8] = annot[i].as_str().as_bytes();
        let mut j: usize = 0;
        while j < bytes.len()
            invariant
                j <= bytes@.len(),
                joined@ == spaced + bytes@.take(j as int),
            decreases bytes@.len() - j,
        {
            joined.push(bytes[j]);
            j += 1;
            assert(bytes@.take(j as int) =~= bytes@.take(j - 1).push(bytes@[j - 1]));
        }
        proof {
            assert(bytes@.take(j as int) =~= bytes@);
            lemma_blob_push(done, annot@[i as int]@);
            assert(texts(annot@).take(i + 1) =~= done.push(annot@[i as int]@));
            assert(start + seq![0x20u8] =~= start.push(0x20u8));
        }
        i += 1;
    }
    assert(texts(annot@).take(i as int) =~= texts(annot@));
    write_array(buffer, joined.as_slice())
}

/// Reads the annotation field at the front of `buffer`: its labels, and the
/// number of bytes the field takes. A blob that is not UTF-8 is refused.
pub fn read_annotation(buffer: &[u8]) -> (result: Result<(Vec<String>, usize), DecodeError>)
    ensures
        match result {
            Ok((annot, taken)) => {
                &&& parse_annotation(buffer@) == Ok::<(Seq<Seq<char>>, nat), DecodeError>(
                    (texts(annot@), taken as nat),
                )
                &&& 4 <= taken <= buffer@.len()
            },
            Err(e) => parse_annotation(buffer@) == Err::<(Seq<Seq<char>>, nat), DecodeError>(e),
        },
{
    reveal(parse_annotation);
    let (blob, size) = match read_vec(buffer) {
        Ok(found) => found,
        Err(e) => {
            return Err(e);
        },
    };
    match String::from_utf8(blob) {
        Ok(text) => {
            proof {
                encode_utf8_decode_utf8(text@);
            }
            Ok((split_labels(text.as_str()), size))
        },
        Err(_) => Err(DecodeError::InvalidUtf8),
    }
}

} // verus!
