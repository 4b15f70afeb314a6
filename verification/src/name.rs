//! Domain names on the wire.
//!
//! A name is a run of labels, each led by its length, and ends at a zero
//! octet or at a compression pointer: two octets, the first of them 192 or
//! more, that give the offset at which the rest of the name stands.
//! Decoding follows pointers only backwards, to an offset before every
//! offset it has read so far, so it always ends.

use crate::label::{label_views, label_wire, QueryToken, MAX_LABEL_LEN};
use crate::wire::put_u8;
use vstd::prelude::*;
use vstd::slice::{slice_subrange, slice_to_vec};

verus! {

/// The longest name, in octets of its uncompressed wire form.
pub const MAX_NAME_LEN: usize = 255;

/// The least value of a length octet that marks a compression pointer.
pub const POINTER_MARK: u8 = 192;

/// Why a name could not be decoded.
#[derive(Clone, Copy, Debug, PartialEq, Eq, Structural)]
pub enum MalformedName {
    /// A length octet, or the second octet of a pointer, lies past the end
    /// of the buffer.
    Truncated,
    /// A length octet is above 63 and is no pointer.
    BadLength,
    /// A label's octets run past the end of the buffer.
    LabelOverrun,
    /// A pointer's target is not before every offset read so far.
    BadPointer,
    /// The name is longer than 255 octets.
    TooLong,
}

/// What stands at one offset of an encoded name.
pub enum NameItem {
    /// The zero octet that ends a name.
    End,
    /// A label, by its octets.
    Label(Seq<u8>),
    /// A compression pointer, by its target offset.
    Pointer(int),
}

/// The target of the pointer whose two octets are `first`, `second`.
pub open spec fn pointer_target(first: u8, second: u8) -> int {
    (first - POINTER_MARK) * 256 + second
}

/// The item that stands at `pos` in `buf`.
pub open spec fn item_at(buf: Seq<u8>, pos: int) -> Result<NameItem, MalformedName> {
    if pos < 0 || pos >= buf.len() {
        Err(MalformedName::Truncated)
    } else if buf[pos] == 0 {
        Ok(NameItem::End)
    } else if buf[pos] >= POINTER_MARK {
        if pos + 1 >= buf.len() {
            Err(MalformedName::Truncated)
        } else {
            Ok(NameItem::Pointer(pointer_target(buf[pos], buf[pos + 1])))
        }
    } else if buf[pos] > MAX_LABEL_LEN {
        Err(MalformedName::BadLength)
    } else if pos + 1 + buf[pos] > buf.len() {
        Err(MalformedName::LabelOverrun)
    } else {
        Ok(NameItem::Label(buf.subrange(pos + 1, pos + 1 + buf[pos])))
    }
}

/// `labels` put in front of a decoded rest.
pub open spec fn prepend(
    labels: Seq<Seq<u8>>,
    rest: Result<Seq<Seq<u8>>, MalformedName>,
) -> Result<Seq<Seq<u8>>, MalformedName> {
    match rest {
        Ok(more) => Ok(labels + more),
        Err(e) => Err(e),
    }
}

/// The labels of the name that stands at `pos`.
///
/// `floor` is the earliest offset read so far: a pointer must aim below
/// it. `used` is the length of the labels already taken, each with its
/// length octet.
pub open spec fn labels_from(buf: Seq<u8>, pos: int, floor: int, used: int) -> Result<
    Seq<Seq<u8>>,
    MalformedName,
>
    decreases floor, buf.len() - pos,
{
    match item_at(buf, pos) {
        Err(e) => Err(e),
        Ok(NameItem::End) => Ok(Seq::empty()),
        Ok(NameItem::Pointer(target)) => if target < floor {
            labels_from(buf, target, target, used)
        } else {
            Err(MalformedName::BadPointer)
        },
        Ok(NameItem::Label(text)) => if used + text.len() + 2 > MAX_NAME_LEN {
            Err(MalformedName::TooLong)
        } else {
            prepend(
                seq![text],
                labels_from(buf, pos + 1 + text.len(), floor, used + text.len() + 1),
            )
        },
    }
}

/// The offset just after the name that stands at `pos`: after its zero
/// octet, or after the first pointer met.
pub open spec fn name_end(buf: Seq<u8>, pos: int) -> int
    decreases buf.len() - pos,
{
    match item_at(buf, pos) {
        Ok(NameItem::End) => pos + 1,
        Ok(NameItem::Pointer(_)) => pos + 2,
        Ok(NameItem::Label(text)) => name_end(buf, pos + 1 + text.len()),
        Err(_) => pos,
    }
}

/// The name that stands at `start`, with the offset at which parsing goes
/// on after it.
pub open spec fn parse_name(buf: Seq<u8>, start: int) -> Result<(Seq<Seq<u8>>, int), MalformedName> {
    match labels_from(buf, start, start, 0) {
        Ok(labels) => Ok((labels, name_end(buf, start))),
        Err(e) => Err(e),
    }
}

/// The wire form of a name, without compression.
pub open spec fn name_wire(name: Seq<Seq<u8>>) -> Seq<u8>
    decreases name.len(),
{
    if name.len() == 0 {
        seq![0u8]
    } else {
        label_wire(name[0]) + name_wire(name.skip(1))
    }
}

/// Whether every label of `name` has a length that one length octet can
/// carry.
pub open spec fn labels_fit(name: Seq<Seq<u8>>) -> bool {
    forall|i: int| 0 <= i < name.len() ==> (#[trigger] name[i]).len() <= MAX_LABEL_LEN
}

/// Whether `name` is a name of the data model: no label empty or longer
/// than 63 octets, and no more than 255 octets on the wire.
pub open spec fn valid_name(name: Seq<Seq<u8>>) -> bool {
    &&& forall|i: int| 0 <= i < name.len() ==> 1 <= (#[trigger] name[i]).len() <= MAX_LABEL_LEN
    &&& name_wire(name).len() <= MAX_NAME_LEN
}

/// A pointer may only go back: where a pointer stands whose target is
/// not before the pointer itself, the name is malformed, from whatever
/// earlier offset the walk has come.
pub proof fn lemma_forward_pointer_rejected(buf: Seq<u8>, pos: int, floor: int, used: int)
    requires
        floor <= pos,
        item_at(buf, pos) matches Ok(NameItem::Pointer(target)) && target >= pos,
    ensures
        labels_from(buf, pos, floor, used) == Err::<Seq<Seq<u8>>, _>(MalformedName::BadPointer),
        parse_name(buf, pos) == Err::<(Seq<Seq<u8>>, int), _>(MalformedName::BadPointer),
{
}

/// A pointer stands for the name at its target: where a pointer to an
/// earlier offset stands, decoding gives what decoding at that offset
/// gives, and goes on right after the pointer's two octets.
pub proof fn lemma_pointer_stands_for_target(buf: Seq<u8>, pos: int)
    requires
        item_at(buf, pos) matches Ok(NameItem::Pointer(target)) && target < pos,
    ensures
        parse_name(buf, pos) == match parse_name(buf, item_at(buf, pos)->Ok_0->Pointer_0) {
            Ok((labels, _)) => Ok::<_, MalformedName>((labels, pos + 2)),
            Err(e) => Err(e),
        },
{
}

/// One parsed item of an encoded name.
#[derive(Debug)]
pub enum ParsedLabel {
    /// The zero octet that ends a name.
    End,
    /// A label.
    Label(QueryToken),
    /// A compression pointer, by its target offset.
    Pointer(usize),
}

impl View for ParsedLabel {
    type V = NameItem;

    open spec fn view(&self) -> NameItem {
        match self {
            ParsedLabel::End => NameItem::End,
            ParsedLabel::Label(token) => NameItem::Label(token@),
            ParsedLabel::Pointer(target) => NameItem::Pointer(*target as int),
        }
    }
}

/// The view of what [`parse_label`] returns.
pub open spec fn parsed_view(r: Result<ParsedLabel, MalformedName>) -> Result<
    NameItem,
    MalformedName,
> {
    match r {
        Ok(item) => Ok(item@),
        Err(e) => Err(e),
    }
}

/// The view of what [`parse_label_stream`] returns.
pub open spec fn decoded_view(r: Result<(Vec<QueryToken>, usize), MalformedName>) -> Result<
    (Seq<Seq<u8>>, int),
    MalformedName,
> {
    match r {
        Ok((labels, next)) => Ok((label_views(labels@), next as int)),
        Err(e) => Err(e),
    }
}

/// Reads the item that stands at `start_index`: a label, a pointer or the
/// end of the name.
pub fn parse_label(buf: &[u8], start_index: usize) -> (r: Result<ParsedLabel, MalformedName>)
    ensures
        parsed_view(r) == item_at(buf@, start_index as int),
{
    if start_index >= buf.len() {
        return Err(MalformedName::Truncated);
    }
    let length = buf[start_index];
    if length == 0 {
        Ok(ParsedLabel::End)
    } else if length >= POINTER_MARK {
        if start_index + 1 >= buf.len() {
            return Err(MalformedName::Truncated);
        }
        let target = (length - POINTER_MARK) as usize * 256 + buf[start_index + 1] as usize;
        Ok(ParsedLabel::Pointer(target))
    } else if length as usize > MAX_LABEL_LEN {
        Err(MalformedName::BadLength)
    } else if length as usize > buf.len() - start_index - 1 {
        Err(MalformedName::LabelOverrun)
    } else {
        let first = start_index + 1;
        let text = slice_to_vec(slice_subrange(buf, first, first + length as usize));
        Ok(ParsedLabel::Label(QueryToken { data: text }))
    }
}

/// Decodes the name that stands at `start_index`, following compression
/// pointers, and gives its labels with the offset just after the name in
/// the stream it was read from.
pub fn parse_label_stream(buf: &[u8], start_index: usize) -> (r: Result<
    (Vec<QueryToken>, usize),
    MalformedName,
>)
    ensures
        decoded_view(r) == parse_name(buf@, start_index as int),
        r matches Ok((_, next)) ==> next <= buf.len(),
{
    let mut labels: Vec<QueryToken> = Vec::new();
    let mut pos: usize = start_index;
    let mut floor: usize = start_index;
    let mut used: usize = 0;
    let mut resume: Option<usize> = None;
    loop
        invariant
            used + 1 <= MAX_NAME_LEN,
            labels_from(buf@, start_index as int, start_index as int, 0) == prepend(
                label_views(labels@),
                labels_from(buf@, pos as int, floor as int, used as int),
            ),
            match resume {
                Some(end) => end == name_end(buf@, start_index as int) && end <= buf.len(),
                None => name_end(buf@, pos as int) == name_end(buf@, start_index as int),
            },
        decreases floor, buf@.len() - pos,
    {
        match parse_label(buf, pos) {
            Err(e) => {
                return Err(e);
            },
            Ok(ParsedLabel::End) => {
                assert(pos < buf.len());
                let end = match resume {
                    Some(end) => end,
                    None => pos + 1,
                };
                return Ok((labels, end));
            },
            Ok(ParsedLabel::Pointer(target)) => {
                if target >= floor {
                    return Err(MalformedName::BadPointer);
                }
                assert(pos + 1 < buf.len());
                if resume.is_none() {
                    resume = Some(pos + 2);
                }
                pos = target;
                floor = target;
            },
            Ok(ParsedLabel::Label(token)) => {
                assert(token@.len() == buf@[pos as int] && pos + 1 + token@.len() <= buf.len());
                let taken = token.data.len() + 1;
                if used + taken + 1 > MAX_NAME_LEN {
                    return Err(MalformedName::TooLong);
                }
                proof {
                    let rest = labels_from(
                        buf@,
                        pos + taken,
                        floor as int,
                        used + taken,
                    );
                    assert(label_views(labels@.push(token)) == label_views(labels@) + seq![token@]);
                    if let Ok(more) = rest {
                        assert(label_views(labels@) + (seq![token@] + more) == (label_views(
                            labels@,
                        ) + seq![token@]) + more);
                    }
                }
                used = used + taken;
                pos = pos + taken;
                labels.push(token);
            },
        }
    }
}

/// Appends the wire form of `name` to `buf`: each label led by its
/// length, then a zero octet. Nothing is compressed.
pub fn encode_name(name: &Vec<QueryToken>, buf: &mut Vec<u8>)
    requires
        labels_fit(label_views(name@)),
    ensures
        final(buf)@ == old(buf)@ + name_wire(label_views(name@)),
{
    let ghost labels = label_views(name@);
    let mut i: usize = 0;
    assert(labels.skip(0) == labels);
    while i < name.len()
        invariant
            i <= name.len(),
            labels == label_views(name@),
            labels_fit(labels),
            buf@ + name_wire(labels.skip(i as int)) == old(buf)@ + name_wire(labels),
        decreases name.len() - i,
    {
        proof {
            assert(labels.skip(i as int).skip(1) == labels.skip(i + 1));
        }
        name[i].write(buf);
        i += 1;
    }
    put_u8(buf, 0);
}

} // verus!
