use crate::content::{content_value, items_view, members_view, Content, Value};
use crate::error::ParseErrorView;
use crate::grammar::{
    document, done, element_head, elements, member_head, members, separator, value_after,
};
use crate::lexing::{
    decimal_digits, digit_run, is_digit, lemma_decimal_digits, lemma_occurs_at,
    lemma_occurs_split, lex, no_digit_at, occurs, quoted, space_run, token_at, Lexed,
};
use crate::parser::{parse_document, DEFAULT_MAX_DEPTH};
use crate::token::TokenView;
use vstd::prelude::*;

verus! {

/// `text` with a backslash put before each quote and each backslash.
pub open spec fn escaped(text: Seq<char>) -> Seq<char>
    decreases text.len(),
{
    if text.len() == 0 {
        Seq::empty()
    } else {
        let c = text[0];
        let rest = escaped(text.subrange(1, text.len() as int));
        if c == '"' || c == '\\' {
            seq!['\\', c] + rest
        } else {
            seq![c] + rest
        }
    }
}

/// `text` written as a string literal.
pub open spec fn rendered_string(text: Seq<char>) -> Seq<char> {
    seq!['"'] + escaped(text) + seq!['"']
}

/// A tree written as a document, without spaces: the members of an object
/// in the order of its list. A non-negative number is written in decimal;
/// nothing is written for `Null` or for a negative number, which no
/// document holds.
pub open spec fn rendered(tree: Content) -> Seq<char>
    decreases tree, 1nat,
{
    match tree {
        Content::Null => Seq::empty(),
        Content::Number(n) => if n >= 0 {
            decimal_digits(n as nat)
        } else {
            Seq::empty()
        },
        Content::StringLiteral(text) => rendered_string(text@),
        Content::Object(list) => seq!['{'] + rendered_members(list@),
        Content::Array(list) => seq!['['] + rendered_items(list@),
    }
}

/// The members of an object as they are written behind its opening brace,
/// the closing brace included.
pub open spec fn rendered_members(list: Seq<(String, Content)>) -> Seq<char>
    decreases list, 0nat,
{
    if list.len() == 0 {
        seq!['}']
    } else {
        let first = rendered_string(list[0].0@) + seq![':'] + rendered(list[0].1);
        if list.len() == 1 {
            first + seq!['}']
        } else {
            first + seq![','] + rendered_members(list.subrange(1, list.len() as int))
        }
    }
}

/// The elements of an array as they are written behind its opening bracket,
/// the closing bracket included.
pub open spec fn rendered_items(list: Seq<Content>) -> Seq<char>
    decreases list, 0nat,
{
    if list.len() == 0 {
        seq![']']
    } else {
        let first = rendered(list[0]);
        if list.len() == 1 {
            first + seq![']']
        } else {
            first + seq![','] + rendered_items(list.subrange(1, list.len() as int))
        }
    }
}

/// The tree holds only what a document can hold, no more than `room` levels
/// deep: no `Null`, no negative number.
pub open spec fn supported(tree: Content, room: nat) -> bool
    decreases tree,
{
    match tree {
        Content::Null => false,
        Content::Number(n) => n >= 0,
        Content::StringLiteral(_) => true,
        Content::Object(list) => room >= 1 && forall|i: int|
            0 <= i < list@.len() ==> supported((#[trigger] list@[i]).1, (room - 1) as nat),
        Content::Array(list) => room >= 1 && forall|i: int|
            0 <= i < list@.len() ==> supported(#[trigger] list@[i], (room - 1) as nat),
    }
}

/// A run of digits that something other than a digit follows is as long as
/// it looks.
proof fn lemma_digit_run_exact(src: Seq<char>, pos: nat, len: nat)
    requires
        pos + len <= src.len(),
        forall|i: int| pos <= i < pos + len ==> is_digit(#[trigger] src[i]),
        no_digit_at(src, pos + len),
    ensures
        digit_run(src, pos) == len,
    decreases len,
{
    if len > 0 {
        lemma_digit_run_exact(src, pos + 1, (len - 1) as nat);
    }
}

/// A number as it is written reads back as that number.
pub proof fn lemma_lex_number(src: Seq<char>, pos: nat, n: nat)
    requires
        n <= i32::MAX,
        occurs(src, pos, decimal_digits(n)),
        no_digit_at(src, pos + decimal_digits(n).len()),
    ensures
        lex(src, pos) == (Lexed {
            outcome: Ok((pos, TokenView::Number(n as int))),
            used: decimal_digits(n).len(),
        }),
{
    reveal(token_at);
    let digits = decimal_digits(n);
    lemma_decimal_digits(n);
    assert forall|i: int| pos <= i < pos + digits.len() implies is_digit(#[trigger] src[i]) by {
        lemma_occurs_at(src, pos, digits, i - pos);
    }
    lemma_digit_run_exact(src, pos, digits.len());
}

/// The inside of a string literal as it is written, and its closing quote,
/// read back as the text.
proof fn lemma_quoted_escaped(src: Seq<char>, pos: nat, text: Seq<char>)
    requires
        occurs(src, pos, escaped(text) + seq!['"']),
    ensures
        quoted(src, pos) == Some((text, escaped(text).len() + 1)),
    decreases text.len(),
{
    let whole = escaped(text) + seq!['"'];
    if text.len() == 0 {
        lemma_occurs_at(src, pos, whole, 0);
    } else {
        let c = text[0];
        let tail = text.subrange(1, text.len() as int);
        let rest = escaped(tail) + seq!['"'];
        if c == '"' || c == '\\' {
            assert(whole =~= seq!['\\', c] + rest);
            lemma_occurs_split(src, pos, seq!['\\', c], rest);
            lemma_occurs_at(src, pos, seq!['\\', c], 0);
            lemma_quoted_escaped(src, pos + 2, tail);
        } else {
            assert(whole =~= seq![c] + rest);
            lemma_occurs_split(src, pos, seq![c], rest);
            lemma_occurs_at(src, pos, seq![c], 0);
            lemma_quoted_escaped(src, pos + 1, tail);
        }
    }
}

/// A string literal as it is written reads back as its text.
pub proof fn lemma_lex_string(src: Seq<char>, pos: nat, text: Seq<char>)
    requires
        occurs(src, pos, rendered_string(text)),
    ensures
        lex(src, pos) == (Lexed {
            outcome: Ok((pos, TokenView::JsonString(text))),
            used: rendered_string(text).len(),
        }),
{
    reveal(token_at);
    let inside = escaped(text) + seq!['"'];
    assert(rendered_string(text) =~= seq!['"'] + inside);
    lemma_occurs_split(src, pos, seq!['"'], inside);
    lemma_occurs_at(src, pos, seq!['"'], 0);
    lemma_quoted_escaped(src, pos + 1, text);
}

/// A brace, a bracket, a colon or a comma is a token by itself.
pub proof fn lemma_lex_mark(src: Seq<char>, pos: nat)
    requires
        pos < src.len(),
    ensures
        src[pos as int] == '{' ==> lex(src, pos) == (Lexed {
            outcome: Ok((pos, TokenView::OpenObject)),
            used: 1,
        }),
        src[pos as int] == '}' ==> lex(src, pos) == (Lexed {
            outcome: Ok((pos, TokenView::CloseObject)),
            used: 1,
        }),
        src[pos as int] == '[' ==> lex(src, pos) == (Lexed {
            outcome: Ok((pos, TokenView::OpenArray)),
            used: 1,
        }),
        src[pos as int] == ']' ==> lex(src, pos) == (Lexed {
            outcome: Ok((pos, TokenView::CloseArray)),
            used: 1,
        }),
        src[pos as int] == ':' ==> lex(src, pos) == (Lexed {
            outcome: Ok((pos, TokenView::Colon)),
            used: 1,
        }),
        src[pos as int] == ',' ==> lex(src, pos) == (Lexed {
            outcome: Ok((pos, TokenView::Comma)),
            used: 1,
        }),
{
    reveal(token_at);
}

/// A supported tree as it is written reads back as its value: the first
/// token of what is written is read, and the value after it is the tree's.
proof fn lemma_value_reads_back(src: Seq<char>, pos: nat, tree: Content, room: nat)
    requires
        supported(tree, room),
        occurs(src, pos, rendered(tree)),
        tree is Number ==> no_digit_at(src, pos + rendered(tree).len()),
    ensures
        ({
            let first = lex(src, pos);
            &&& first.outcome is Ok
            &&& first.outcome->Ok_0.0 == pos
            &&& 1 <= first.used <= rendered(tree).len()
            &&& value_after(src, first.outcome->Ok_0, pos + first.used, room) == done(
                content_value(tree),
                (rendered(tree).len() - first.used) as nat,
            )
        }),
    decreases tree, 1nat,
{
    match tree {
        Content::Null => {},
        Content::Number(n) => {
            lemma_lex_number(src, pos, n as nat);
        },
        Content::StringLiteral(text) => {
            lemma_lex_string(src, pos, text@);
        },
        Content::Object(list) => {
            let body = rendered_members(list@);
            lemma_occurs_split(src, pos, seq!['{'], body);
            lemma_occurs_at(src, pos, seq!['{'], 0);
            lemma_lex_mark(src, pos);
            lemma_members_read_back(src, pos + 1, list@, (room - 1) as nat);
        },
        Content::Array(list) => {
            let body = rendered_items(list@);
            lemma_occurs_split(src, pos, seq!['['], body);
            lemma_occurs_at(src, pos, seq!['['], 0);
            lemma_lex_mark(src, pos);
            lemma_items_read_back(src, pos + 1, list@, (room - 1) as nat);
        },
    }
}

/// A name and a colon as they are written, and the token behind them, read
/// back as the beginning of a member.
proof fn lemma_member_head_reads_back(src: Seq<char>, pos: nat, key: Seq<char>)
    requires
        occurs(src, pos, rendered_string(key) + seq![':']),
        lex(src, pos + rendered_string(key).len() + 1).outcome is Ok,
    ensures
        ({
            let first = lex(src, pos + rendered_string(key).len() + 1);
            member_head(src, pos) == done(
                Some((key, first.outcome->Ok_0)),
                rendered_string(key).len() + 1 + first.used,
            )
        }),
{
    let name = rendered_string(key);
    lemma_occurs_split(src, pos, name, seq![':']);
    lemma_lex_string(src, pos, key);
    lemma_occurs_at(src, pos + name.len(), seq![':'], 0);
    lemma_lex_mark(src, pos + name.len());
}

/// A comma and a closing mark read back as what stands behind a value; a
/// closing mark reads back as the end of a container without content.
proof fn lemma_marks_read_back(src: Seq<char>, pos: nat)
    requires
        pos < src.len(),
    ensures
        src[pos as int] == ',' ==> separator(src, pos, true) == done(true, 1) && separator(
            src,
            pos,
            false,
        ) == done(true, 1),
        src[pos as int] == '}' ==> separator(src, pos, true) == done(false, 1) && member_head(
            src,
            pos,
        ) == done(None::<(Seq<char>, (nat, TokenView))>, 1),
        src[pos as int] == ']' ==> separator(src, pos, false) == done(false, 1) && element_head(
            src,
            pos,
        ) == done(None::<(nat, TokenView)>, 1),
{
    lemma_lex_mark(src, pos);
}

/// Where the members of an object stand as they are written, the first
/// stands in front, a mark behind it, and behind a comma the others.
proof fn lemma_first_member_stands(src: Seq<char>, pos: nat, list: Seq<(String, Content)>)
    requires
        list.len() > 0,
        occurs(src, pos, rendered_members(list)),
    ensures
        ({
            let name = rendered_string(list[0].0@) + seq![':'];
            let value = rendered(list[0].1);
            let rest = list.subrange(1, list.len() as int);
            let at_mark = pos + name.len() + value.len();
            &&& occurs(src, pos, name)
            &&& occurs(src, pos + name.len(), value)
            &&& at_mark < src.len()
            &&& no_digit_at(src, at_mark)
            &&& if list.len() == 1 {
                src[at_mark as int] == '}' && rendered_members(list).len() == name.len()
                    + value.len() + 1
            } else {
                src[at_mark as int] == ',' && occurs(src, at_mark + 1, rendered_members(rest))
                    && rendered_members(list).len() == name.len() + value.len() + 1
                    + rendered_members(rest).len()
            }
        }),
{
    let name = rendered_string(list[0].0@) + seq![':'];
    let value = rendered(list[0].1);
    let rest = list.subrange(1, list.len() as int);
    let tail = if list.len() == 1 {
        seq!['}']
    } else {
        seq![','] + rendered_members(rest)
    };
    assert(rendered_members(list) =~= name + (value + tail));
    lemma_occurs_split(src, pos, name, value + tail);
    lemma_occurs_split(src, pos + name.len(), value, tail);
    lemma_occurs_at(src, pos + name.len() + value.len(), tail, 0);
    if list.len() > 1 {
        lemma_occurs_split(src, pos + name.len() + value.len(), seq![','], rendered_members(rest));
    }
}

/// Where the elements of an array stand as they are written, the first
/// stands in front, a mark behind it, and behind a comma the others.
proof fn lemma_first_item_stands(src: Seq<char>, pos: nat, list: Seq<Content>)
    requires
        list.len() > 0,
        occurs(src, pos, rendered_items(list)),
    ensures
        ({
            let value = rendered(list[0]);
            let rest = list.subrange(1, list.len() as int);
            let at_mark = pos + value.len();
            &&& occurs(src, pos, value)
            &&& at_mark < src.len()
            &&& no_digit_at(src, at_mark)
            &&& if list.len() == 1 {
                src[at_mark as int] == ']' && rendered_items(list).len() == value.len() + 1
            } else {
                src[at_mark as int] == ',' && occurs(src, at_mark + 1, rendered_items(rest))
                    && rendered_items(list).len() == value.len() + 1 + rendered_items(rest).len()
            }
        }),
{
    let value = rendered(list[0]);
    let rest = list.subrange(1, list.len() as int);
    let tail = if list.len() == 1 {
        seq![']']
    } else {
        seq![','] + rendered_items(rest)
    };
    assert(rendered_items(list) =~= value + tail);
    lemma_occurs_split(src, pos, value, tail);
    lemma_occurs_at(src, pos + value.len(), tail, 0);
    if list.len() > 1 {
        lemma_occurs_split(src, pos + value.len(), seq![','], rendered_items(rest));
    }
}

/// The members of an object as they are written read back as the list.
proof fn lemma_members_read_back(
    src: Seq<char>,
    pos: nat,
    list: Seq<(String, Content)>,
    room: nat,
)
    requires
        forall|i: int| 0 <= i < list.len() ==> supported((#[trigger] list[i]).1, room),
        occurs(src, pos, rendered_members(list)),
    ensures
        members(src, pos, room) == done(members_view(list), rendered_members(list).len()),
    decreases list, 0nat,
{
    if list.len() == 0 {
        lemma_occurs_at(src, pos, seq!['}'], 0);
        lemma_marks_read_back(src, pos);
        assert(members_view(list) =~= Seq::empty());
    } else {
        let key = list[0].0@;
        let rest = list.subrange(1, list.len() as int);
        let at_value = pos + rendered_string(key).len() + 1;
        let at_mark = at_value + rendered(list[0].1).len();
        lemma_first_member_stands(src, pos, list);
        assert(supported(list[0].1, room));
        lemma_value_reads_back(src, at_value, list[0].1, room);
        lemma_member_head_reads_back(src, pos, key);
        lemma_marks_read_back(src, at_mark);
        let member = (key, content_value(list[0].1));
        if list.len() == 1 {
            assert(members_view(list) =~= seq![member]);
        } else {
            assert forall|i: int| 0 <= i < rest.len() implies supported(
                (#[trigger] rest[i]).1,
                room,
            ) by {
                assert(rest[i] == list[i + 1]);
            }
            lemma_members_read_back(src, at_mark + 1, rest, room);
            assert(members_view(list) =~= seq![member] + members_view(rest));
        }
    }
}

/// The elements of an array as they are written read back as the list.
proof fn lemma_items_read_back(src: Seq<char>, pos: nat, list: Seq<Content>, room: nat)
    requires
        forall|i: int| 0 <= i < list.len() ==> supported(#[trigger] list[i], room),
        occurs(src, pos, rendered_items(list)),
    ensures
        elements(src, pos, room) == done(items_view(list), rendered_items(list).len()),
    decreases list, 0nat,
{
    if list.len() == 0 {
        lemma_occurs_at(src, pos, seq![']'], 0);
        lemma_marks_read_back(src, pos);
        assert(items_view(list) =~= Seq::empty());
    } else {
        let rest = list.subrange(1, list.len() as int);
        let at_mark = pos + rendered(list[0]).len();
        lemma_first_item_stands(src, pos, list);
        assert(supported(list[0], room));
        lemma_value_reads_back(src, pos, list[0], room);
        lemma_marks_read_back(src, at_mark);
        let item = content_value(list[0]);
        if list.len() == 1 {
            assert(items_view(list) =~= seq![item]);
        } else {
            assert forall|i: int| 0 <= i < rest.len() implies supported(#[trigger] rest[i], room) by {
                assert(rest[i] == list[i + 1]);
            }
            lemma_items_read_back(src, at_mark + 1, rest, room);
            assert(items_view(list) =~= seq![item] + items_view(rest));
        }
    }
}

/// Writing a tree as a document and parsing the document gives the tree
/// back: its value, name for name and element for element, with the whole
/// text read.
///
/// This holds of every object and array that holds only what a document
/// can hold, nested no deeper than the parser may go.
pub proof fn lemma_round_trip(tree: Content, room: nat)
    requires
        tree is Object || tree is Array,
        supported(tree, room),
    ensures
        document(rendered(tree), 0, room) == done(tree@, rendered(tree).len()),
        room == DEFAULT_MAX_DEPTH ==> parse_document(rendered(tree)) == Ok::<Value, ParseErrorView>(
            tree@,
        ),
{
    let src = rendered(tree);
    assert(src.subrange(0, src.len() as int) =~= src);
    lemma_value_reads_back(src, 0, tree, room);
}

} // verus!
