//! How the parts of a structured message are drawn.

use vstd::prelude::*;

use crate::model::{
    field_text, fields_text, fields_view, message_text, parts_view, rendered, FieldSpec,
    MessagePart, PartSpec, TraceValue, TraceValueField, ValueSpec,
};
use crate::text::copy_str;
use crate::ui::color::Color;

verus! {

/// What a piece of a structured message is.
#[derive(Clone, Copy, Debug, PartialEq, Eq, Structural)]
pub enum MessageStyle {
    Default,
    JsonArray,
    JsonBool,
    JsonKey,
    JsonNull,
    JsonNumber,
    JsonObject,
    JsonPunctuation,
    JsonString,
}

/// A piece of a structured message, as text.
#[derive(Debug, PartialEq, Eq)]
pub struct StyledText {
    pub text: String,
    pub style: MessageStyle,
}

/// What a piece of a structured message holds.
#[verifier::ext_equal]
pub ghost struct StyledSpec {
    pub text: Seq<char>,
    pub style: MessageStyle,
}

impl View for StyledText {
    type V = StyledSpec;

    open spec fn view(&self) -> StyledSpec {
        StyledSpec { text: self.text@, style: self.style }
    }
}

impl StyledText {
    pub fn new(text: &str, style: MessageStyle) -> (r: StyledText)
        ensures
            r@ == (StyledSpec { text: text@, style }),
    {
        StyledText { text: copy_str(text), style }
    }
}

/// What each of `pieces` holds.
pub open spec fn styled_view(pieces: Seq<StyledText>) -> Seq<StyledSpec> {
    Seq::new(pieces.len(), |i: int| pieces[i]@)
}

/// The text that `pieces` make up.
pub open spec fn styled_text(pieces: Seq<StyledSpec>) -> Seq<char>
    decreases pieces.len(),
{
    if pieces.len() == 0 {
        Seq::empty()
    } else {
        styled_text(pieces.drop_last()) + pieces.last().text
    }
}

/// The color of a piece, and whether it is bold.
pub open spec fn look(style: MessageStyle, base: Color) -> (Color, bool) {
    match style {
        MessageStyle::Default => (base, false),
        MessageStyle::JsonArray => (Color::Reset, true),
        MessageStyle::JsonObject => (Color::Reset, true),
        MessageStyle::JsonBool => (Color::Reset, false),
        MessageStyle::JsonNumber => (Color::Reset, false),
        MessageStyle::JsonKey => (Color::Blue, true),
        MessageStyle::JsonNull => (Color::DarkGrey, false),
        MessageStyle::JsonPunctuation => (Color::DarkGrey, false),
        MessageStyle::JsonString => (Color::Green, false),
    }
}

/// The style of a value.
pub open spec fn style_of(value: ValueSpec) -> MessageStyle {
    match value {
        ValueSpec::Bool(_) => MessageStyle::JsonBool,
        ValueSpec::Null => MessageStyle::JsonNull,
        ValueSpec::Number(_) => MessageStyle::JsonNumber,
        ValueSpec::Text(_) => MessageStyle::JsonString,
        ValueSpec::Object(_) => MessageStyle::JsonObject,
        ValueSpec::Array(_) => MessageStyle::JsonArray,
        ValueSpec::Other(_) => MessageStyle::Default,
    }
}

pub open spec fn punctuation(text: Seq<char>) -> StyledSpec {
    StyledSpec { text, style: MessageStyle::JsonPunctuation }
}

/// The pieces of fields: keys, equals signs and values, with spaces between the
/// fields.
pub open spec fn field_pieces(fields: Seq<FieldSpec>) -> Seq<StyledSpec>
    decreases fields.len(),
{
    if fields.len() == 0 {
        Seq::empty()
    } else {
        let before = field_pieces(fields.drop_last());
        let field = fields.last();
        let gap = if fields.len() > 1 {
            seq![punctuation(seq![' '])]
        } else {
            Seq::empty()
        };
        before + gap + seq![
            StyledSpec { text: field.key, style: MessageStyle::JsonKey },
            punctuation(seq!['=']),
            StyledSpec { text: rendered(field.value), style: style_of(field.value) },
        ]
    }
}

/// Fields are drawn one behind the other: each as its key, an equals sign and its
/// value in the style of its kind, with a space between them.
pub proof fn law_field_pieces_grow(fields: Seq<FieldSpec>, field: FieldSpec)
    ensures
        field_pieces(Seq::empty()) == Seq::<StyledSpec>::empty(),
        ({
            let key = StyledSpec { text: field.key, style: MessageStyle::JsonKey };
            let sign = StyledSpec { text: seq!['='], style: MessageStyle::JsonPunctuation };
            let gap = StyledSpec { text: seq![' '], style: MessageStyle::JsonPunctuation };
            let value = StyledSpec {
                text: rendered(field.value),
                style: match field.value {
                    ValueSpec::Bool(_) => MessageStyle::JsonBool,
                    ValueSpec::Null => MessageStyle::JsonNull,
                    ValueSpec::Number(_) => MessageStyle::JsonNumber,
                    ValueSpec::Text(_) => MessageStyle::JsonString,
                    ValueSpec::Object(_) => MessageStyle::JsonObject,
                    ValueSpec::Array(_) => MessageStyle::JsonArray,
                    ValueSpec::Other(_) => MessageStyle::Default,
                },
            };
            field_pieces(fields.push(field)) == if fields.len() == 0 {
                seq![key, sign, value]
            } else {
                field_pieces(fields) + seq![gap, key, sign, value]
            }
        }),
{
    let all = fields.push(field);
    assert(all.drop_last() =~= fields);
    let key = StyledSpec { text: field.key, style: MessageStyle::JsonKey };
    let value = StyledSpec { text: rendered(field.value), style: style_of(field.value) };
    let sign = punctuation(seq!['=']);
    let gap = punctuation(seq![' ']);
    if fields.len() == 0 {
        reveal_with_fuel(field_pieces, 2);
        assert(field_pieces(all) =~= seq![key, sign, value]);
    } else {
        assert(field_pieces(all) =~= field_pieces(fields) + seq![gap, key, sign, value]);
    }
}

/// How a piece looks: plain text has the color of the message, keys are bold and blue,
/// strings green, and punctuation and nothing stand back.
pub proof fn law_looks_of_pieces(base: Color)
    ensures
        look(MessageStyle::Default, base) == (base, false),
        look(MessageStyle::JsonKey, base) == (Color::Blue, true),
        look(MessageStyle::JsonString, base) == (Color::Green, false),
        look(MessageStyle::JsonPunctuation, base) == (Color::DarkGrey, false),
        look(MessageStyle::JsonNull, base) == (Color::DarkGrey, false),
        look(MessageStyle::JsonBool, base) == (Color::Reset, false),
        look(MessageStyle::JsonNumber, base) == (Color::Reset, false),
        look(MessageStyle::JsonArray, base) == (Color::Reset, true),
        look(MessageStyle::JsonObject, base) == (Color::Reset, true),
{
}

/// The pieces of a message: its texts, and its fields in parentheses.
pub open spec fn message_pieces(parts: Seq<PartSpec>) -> Seq<StyledSpec>
    decreases parts.len(),
{
    if parts.len() == 0 {
        Seq::empty()
    } else {
        let before = message_pieces(parts.drop_last());
        match parts.last() {
            PartSpec::Text(text) => before.push(
                StyledSpec { text, style: MessageStyle::Default },
            ),
            PartSpec::Fields(fields) => {
                let open = if message_text(parts.drop_last()).len() == 0 {
                    seq!['(']
                } else {
                    seq![' ', '(']
                };
                before.push(punctuation(open)) + field_pieces(fields) + seq![
                    punctuation(seq![')']),
                ]
            },
        }
    }
}

/// A message is drawn part by part: a text is one plain piece, and the pieces of
/// fields stand between parentheses.
pub proof fn law_message_pieces_grow(
    parts: Seq<PartSpec>,
    text: Seq<char>,
    fields: Seq<FieldSpec>,
)
    ensures
        message_pieces(Seq::empty()) == Seq::<StyledSpec>::empty(),
        message_pieces(parts.push(PartSpec::Text(text))) == message_pieces(parts).push(
            StyledSpec { text, style: MessageStyle::Default },
        ),
        message_pieces(parts.push(PartSpec::Fields(fields))) == message_pieces(parts) + (seq![
            StyledSpec {
                text: if message_text(parts).len() == 0 {
                    seq!['(']
                } else {
                    seq![' ', '(']
                },
                style: MessageStyle::JsonPunctuation,
            },
        ] + field_pieces(fields) + seq![
            StyledSpec { text: seq![')'], style: MessageStyle::JsonPunctuation },
        ]),
{
    let open = punctuation(
        if message_text(parts).len() == 0 {
            seq!['(']
        } else {
            seq![' ', '(']
        },
    );
    let close = punctuation(seq![')']);
    assert(parts.push(PartSpec::Text(text)).drop_last() =~= parts);
    assert(parts.push(PartSpec::Fields(fields)).drop_last() =~= parts);
    assert(message_pieces(parts.push(PartSpec::Fields(fields))) =~= message_pieces(parts) + (seq![
        open,
    ] + field_pieces(fields) + seq![close]));
}

proof fn lemma_styled_text_push(pieces: Seq<StyledSpec>, piece: StyledSpec)
    ensures
        styled_text(pieces.push(piece)) == styled_text(pieces) + piece.text,
{
    assert(pieces.push(piece).drop_last() =~= pieces);
}

/// The text of two runs of pieces is their texts, one behind the other.
pub proof fn lemma_styled_text_concat(a: Seq<StyledSpec>, b: Seq<StyledSpec>)
    ensures
        styled_text(a + b) == styled_text(a) + styled_text(b),
    decreases b.len(),
{
    if b.len() == 0 {
        assert(a + b =~= a);
        assert(styled_text(a) + styled_text(b) =~= styled_text(a));
    } else {
        lemma_styled_text_concat(a, b.drop_last());
        assert((a + b).drop_last() =~= a + b.drop_last());
        assert(styled_text(a + b) =~= styled_text(a) + styled_text(b));
    }
}

/// Drawing fields by pieces changes nothing of their text.
pub proof fn law_field_pieces_keep_the_text(fields: Seq<FieldSpec>)
    ensures
        styled_text(field_pieces(fields)) == fields_text(fields),
    decreases fields.len(),
{
    let items = Seq::new(fields.len(), |i: int| field_text(fields[i]));
    if fields.len() > 0 {
        let init = fields.drop_last();
        let field = fields.last();
        law_field_pieces_keep_the_text(init);
        assert(items.drop_last() =~= Seq::new(init.len(), |i: int| field_text(init[i])));
        let before = field_pieces(init);
        let gap = if fields.len() > 1 {
            seq![punctuation(seq![' '])]
        } else {
            Seq::empty()
        };
        let key = StyledSpec { text: field.key, style: MessageStyle::JsonKey };
        let equals = punctuation(seq!['=']);
        let value = StyledSpec { text: rendered(field.value), style: style_of(field.value) };
        lemma_styled_text_concat(before, gap);
        assert(field_pieces(fields) =~= (before + gap).push(key).push(equals).push(value));
        lemma_styled_text_push(before + gap, key);
        lemma_styled_text_push((before + gap).push(key), equals);
        lemma_styled_text_push((before + gap).push(key).push(equals), value);
        if fields.len() > 1 {
            lemma_styled_text_push(Seq::empty(), punctuation(seq![' ']));
            assert(gap =~= Seq::empty().push(punctuation(seq![' '])));
            assert(styled_text(gap) =~= seq![' ']);
            assert(styled_text(field_pieces(fields)) =~= fields_text(fields));
        } else {
            assert(styled_text(gap) =~= Seq::empty());
            assert(styled_text(before) =~= Seq::empty());
            assert(items[0] == field_text(field));
            assert(styled_text(field_pieces(fields)) =~= fields_text(fields));
        }
    }
}

/// Drawing a message by pieces changes nothing of its text.
pub proof fn law_message_pieces_keep_the_text(parts: Seq<PartSpec>)
    ensures
        styled_text(message_pieces(parts)) == message_text(parts),
    decreases parts.len(),
{
    if parts.len() > 0 {
        let init = parts.drop_last();
        let before = message_pieces(init);
        law_message_pieces_keep_the_text(init);
        match parts.last() {
            PartSpec::Text(text) => {
                lemma_styled_text_push(before, StyledSpec { text, style: MessageStyle::Default });
            },
            PartSpec::Fields(fields) => {
                let open = if message_text(init).len() == 0 {
                    seq!['(']
                } else {
                    seq![' ', '(']
                };
                let opened = before.push(punctuation(open));
                let close = punctuation(seq![')']);
                law_field_pieces_keep_the_text(fields);
                lemma_styled_text_push(before, punctuation(open));
                lemma_styled_text_concat(opened, field_pieces(fields));
                lemma_styled_text_push(opened + field_pieces(fields), close);
                assert(message_pieces(parts) =~= (opened + field_pieces(fields)).push(close));
                assert(styled_text(message_pieces(parts)) =~= message_text(parts));
            },
        }
    }
}

/// The color of a piece, and whether it is bold.
pub fn message_part_style(style: MessageStyle, base_color: Color) -> (r: (Color, bool))
    ensures
        r == look(style, base_color),
{
    match style {
        MessageStyle::Default => (base_color, false),
        MessageStyle::JsonArray | MessageStyle::JsonObject => (Color::Reset, true),
        MessageStyle::JsonBool | MessageStyle::JsonNumber => (Color::Reset, false),
        MessageStyle::JsonKey => (Color::Blue, true),
        MessageStyle::JsonNull => (Color::DarkGrey, false),
        MessageStyle::JsonPunctuation => (Color::DarkGrey, false),
        MessageStyle::JsonString => (Color::Green, false),
    }
}

fn value_style(value: &TraceValue) -> (r: MessageStyle)
    ensures
        r == style_of(value@),
{
    match value {
        TraceValue::Bool(_) => MessageStyle::JsonBool,
        TraceValue::Null => MessageStyle::JsonNull,
        TraceValue::Number(_) => MessageStyle::JsonNumber,
        TraceValue::String(_) => MessageStyle::JsonString,
        TraceValue::Object(_) => MessageStyle::JsonObject,
        TraceValue::Array(_) => MessageStyle::JsonArray,
        TraceValue::Other(_) => MessageStyle::Default,
    }
}

/// Appends one piece.
fn push_piece(pieces: &mut Vec<StyledText>, text: &str, style: MessageStyle)
    ensures
        styled_view(final(pieces)@) == styled_view(old(pieces)@).push(
            StyledSpec { text: text@, style },
        ),
{
    let ghost before = styled_view(pieces@);
    pieces.push(StyledText::new(text, style));
    assert(styled_view(pieces@) =~= before.push(StyledSpec { text: text@, style }));
}

/// Appends the pieces of fields.
fn push_field_pieces(pieces: &mut Vec<StyledText>, fields: &[TraceValueField])
    ensures
        styled_view(final(pieces)@) == styled_view(old(pieces)@) + field_pieces(
            fields_view(fields@),
        ),
{
    let ghost start = styled_view(pieces@);
    let ghost all = fields_view(fields@);
    let mut i: usize = 0;
    assert(start + field_pieces(all.take(0)) =~= start);
    while i < fields.len()
        invariant
            i <= fields@.len(),
            all == fields_view(fields@),
            styled_view(pieces@) == start + field_pieces(all.take(i as int)),
        decreases fields@.len() - i,
    {
        assert(all.take(i + 1).drop_last() =~= all.take(i as int));
        assert(all.take(i + 1).last() == fields@[i as int]@);
        proof {
            reveal_strlit(" ");
            reveal_strlit("=");
            assert(" "@ =~= seq![' ']);
            assert("="@ =~= seq!['=']);
        }
        if i > 0 {
            push_piece(pieces, " ", MessageStyle::JsonPunctuation);
        }
        let value = fields[i].value.render_text();
        push_piece(pieces, fields[i].key.as_str(), MessageStyle::JsonKey);
        push_piece(pieces, "=", MessageStyle::JsonPunctuation);
        push_piece(pieces, value.as_str(), value_style(&fields[i].value));
        i = i + 1;
        assert(styled_view(pieces@) =~= start + field_pieces(all.take(i as int)));
    }
    assert(all.take(i as int) =~= all);
}

/// The pieces of a message, as they are drawn.
pub fn message_styles(parts: &[MessagePart]) -> (r: Vec<StyledText>)
    ensures
        styled_view(r@) == message_pieces(parts_view(parts@)),
{
    let ghost all = parts_view(parts@);
    let mut pieces: Vec<StyledText> = Vec::new();
    let mut empty = true;
    let mut i: usize = 0;
    assert(styled_view(pieces@) =~= message_pieces(all.take(0)));
    while i < parts.len()
        invariant
            i <= parts@.len(),
            all == parts_view(parts@),
            empty == (message_text(all.take(i as int)).len() == 0),
            styled_view(pieces@) == message_pieces(all.take(i as int)),
        decreases parts@.len() - i,
    {
        assert(all.take(i + 1).drop_last() =~= all.take(i as int));
        assert(all.take(i + 1).last() == parts@[i as int]@);
        match &parts[i] {
            MessagePart::Text(text) => {
                push_piece(&mut pieces, text.as_str(), MessageStyle::Default);
                empty = empty && text.as_str().is_empty();
            },
            MessagePart::Fields(fields) => {
                proof {
                    reveal_strlit("(");
                    reveal_strlit(" (");
                    reveal_strlit(")");
                    assert("("@ =~= seq!['(']);
                    assert(" ("@ =~= seq![' ', '(']);
                    assert(")"@ =~= seq![')']);
                }
                let open = if empty {
                    "("
                } else {
                    " ("
                };
                push_piece(&mut pieces, open, MessageStyle::JsonPunctuation);
                push_field_pieces(&mut pieces, fields.as_slice());
                push_piece(&mut pieces, ")", MessageStyle::JsonPunctuation);
                empty = false;
            },
        }
        i = i + 1;
        assert(styled_view(pieces@) =~= message_pieces(all.take(i as int)));
    }
    assert(all.take(i as int) =~= all);
    pieces
}

} // verus!
