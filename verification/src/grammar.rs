//! Specification of the grammar: one spec function per parsing routine of
//! [`crate::parser::Parser`], each mapping the input and a start position to
//! `None` (the parse aborts there) or `Some` of the parsed value and the
//! position after it.
//!
//! Whitespace and comments are skipped between all tokens via
//! [`crate::lex::skip_wsoc_end`]. A `None` means the whole parse is
//! abandoned: there is no recovery and no partial result.
use vstd::prelude::*;

use crate::ast::Enum;
use crate::ast::EnumFieldV;
use crate::ast::EnumV;
use crate::ast::enums_seq_view;
use crate::ast::Message;
use crate::ast::MessageField;
use crate::ast::msg_fields_seq_view;
use crate::ast::msgs_seq_view;
use crate::ast::Oneof;
use crate::ast::oneofs_seq_view;
use crate::ast::Frequency;
use crate::ast::MessageFieldV;
use crate::ast::MessageV;
use crate::ast::OneofV;
use crate::ast::Type;
use crate::lex::digits_end;
use crate::lex::lemma_digits_end_bounds;
use crate::lex::lemma_digits_end_shift;
use crate::lex::lemma_matches_at_shift;
use crate::lex::lemma_name_end_bounds;
use crate::lex::lemma_name_end_shift;
use crate::lex::lemma_skip_wsoc_end_bounds;
use crate::lex::lemma_skip_wsoc_end_shift;
use crate::lex::lemma_subrange_shift;
use crate::lex::matches_at;
use crate::lex::name_end;
use crate::lex::num_val;
use crate::lex::skip_wsoc_end;

verus! {

/// Position after an optional single-character skip: past `c` if `c` is
/// current, else unchanged. Only meaningful for `i` in bounds; out of
/// bounds, the cursor's `skip` is never reached (the parse aborts first).
pub open spec fn spec_skip(t: Seq<char>, i: int, c: char) -> int {
    if t[i] == c {
        i + 1
    } else {
        i
    }
}

/// Consuming the literal `p`: past it if present, else the parse aborts.
pub open spec fn spec_consume_lit(t: Seq<char>, i: int, p: Seq<char>) -> Option<int> {
    if matches_at(t, i, p) {
        Some(i + p.len())
    } else {
        None
    }
}

/// Consuming a name: skip whitespace and comments, then take the maximal
/// run of name characters. Aborts only when that run ends at the very end
/// of the input (the cursor would look past it); an empty name is accepted.
pub open spec fn spec_consume_name(t: Seq<char>, i: int) -> Option<(Seq<char>, int)> {
    let j = skip_wsoc_end(t, i);
    let k = name_end(t, j);
    if k < t.len() {
        Some((t.subrange(j, k), k))
    } else {
        None
    }
}

/// Consuming a number: the maximal digit run, read base 10 with wrapping
/// `u32` accumulation and no leading skip. Aborts when the run ends at the
/// end of the input; an empty run yields 0.
pub open spec fn spec_consume_number(t: Seq<char>, i: int) -> Option<(u32, int)> {
    let k = digits_end(t, i);
    if k < t.len() {
        Some((num_val(t.subrange(i, k)) as u32, k))
    } else {
        None
    }
}

/// First match at `i` among `choices`, in order; first match wins.
pub open spec fn spec_match_any(t: Seq<char>, i: int, choices: Seq<Seq<char>>) -> Option<int>
    decreases choices.len(),
{
    if choices.len() == 0 {
        None
    } else if matches_at(t, i, choices[0]) {
        Some(0)
    } else {
        match spec_match_any(t, i, choices.subrange(1, choices.len() as int)) {
            None => None,
            Some(k) => Some(k + 1),
        }
    }
}

/// The fixed candidate list of scalar type keywords, in dispatch order.
pub open spec fn type_kws() -> Seq<Seq<char>> {
    seq!["string"@, "int32"@]
}

/// The fixed candidate list of frequency keywords, in dispatch order.
pub open spec fn frequency_kws() -> Seq<Seq<char>> {
    seq!["optional"@, "repeated"@, "required"@]
}

/// The candidate list that opens a field: types first, then frequencies.
pub open spec fn field_start_kws() -> Seq<Seq<char>> {
    type_kws() + frequency_kws()
}

/// An optional frequency qualifier: the matching keyword consumed and
/// mapped, or nothing. Never aborts.
pub open spec fn spec_consume_frequency(t: Seq<char>, i: int) -> (Option<Frequency>, int) {
    if matches_at(t, i, "optional"@) {
        (Some(Frequency::Optional), i + "optional"@.len())
    } else if matches_at(t, i, "repeated"@) {
        (Some(Frequency::Repeated), i + "repeated"@.len())
    } else if matches_at(t, i, "required"@) {
        (Some(Frequency::Required), i + "required"@.len())
    } else {
        (None, i)
    }
}

/// A scalar type keyword, or the parse aborts.
pub open spec fn spec_consume_type(t: Seq<char>, i: int) -> Option<(Type, int)> {
    if matches_at(t, i, "string"@) {
        Some((Type::String, i + "string"@.len()))
    } else if matches_at(t, i, "int32"@) {
        Some((Type::Int32, i + "int32"@.len()))
    } else {
        None
    }
}

/// A message field: optional frequency, type, name, an optional `=`, the
/// number, an optional `;`, with whitespace/comments skipped between all
/// tokens and after the field.
pub open spec fn spec_consume_message_field(t: Seq<char>, i: int) -> Option<(MessageFieldV, int)> {
    let i0 = skip_wsoc_end(t, i);
    let (freq, i1) = spec_consume_frequency(t, i0);
    let i2 = skip_wsoc_end(t, i1);
    match spec_consume_type(t, i2) {
        None => None,
        Some((ty, i3)) => {
            let i4 = skip_wsoc_end(t, i3);
            match spec_consume_name(t, i4) {
                None => None,
                Some((nm, i5)) => {
                    let i6 = skip_wsoc_end(t, i5);
                    if i6 >= t.len() {
                        None
                    } else {
                        let i7 = spec_skip(t, i6, '=');
                        let i8 = skip_wsoc_end(t, i7);
                        match spec_consume_number(t, i8) {
                            None => None,
                            Some((pos, i9)) => {
                                let i10 = skip_wsoc_end(t, i9);
                                if i10 >= t.len() {
                                    None
                                } else {
                                    let i11 = spec_skip(t, i10, ';');
                                    let i12 = skip_wsoc_end(t, i11);
                                    Some(
                                        (
                                            MessageFieldV {
                                                ty,
                                                frequency: freq,
                                                name: nm,
                                                position: pos,
                                            },
                                            i12,
                                        ),
                                    )
                                }
                            },
                        }
                    }
                },
            }
        },
    }
}

/// An enum field: name, an optional `=`, the number, an optional `;`, with
/// whitespace/comments skipped between all tokens and after the field.
pub open spec fn spec_consume_enum_field(t: Seq<char>, i: int) -> Option<(EnumFieldV, int)> {
    let i0 = skip_wsoc_end(t, i);
    match spec_consume_name(t, i0) {
        None => None,
        Some((nm, i1)) => {
            let i2 = skip_wsoc_end(t, i1);
            if i2 >= t.len() {
                None
            } else {
                let i3 = spec_skip(t, i2, '=');
                let i4 = skip_wsoc_end(t, i3);
                match spec_consume_number(t, i4) {
                    None => None,
                    Some((pos, i5)) => {
                        let i6 = skip_wsoc_end(t, i5);
                        if i6 >= t.len() {
                            None
                        } else {
                            let i7 = spec_skip(t, i6, ';');
                            let i8 = skip_wsoc_end(t, i7);
                            Some((EnumFieldV { name: nm, position: pos }, i8))
                        }
                    },
                }
            }
        },
    }
}

/// The body loop of an `enum` block: enum fields until the closing `}` is
/// current. Aborts at the end of the input, and also when an iteration
/// consumes nothing at all, where an unchecked loop would never stop.
pub open spec fn spec_enum_fields_loop(t: Seq<char>, i: int) -> Option<(Seq<EnumFieldV>, int)>
    decreases t.len() - i,
{
    if i >= t.len() {
        None
    } else if t[i] == '}' {
        Some((Seq::empty(), i))
    } else {
        let i1 = skip_wsoc_end(t, i);
        match spec_consume_enum_field(t, i1) {
            None => None,
            Some((f, i2)) => {
                let i3 = skip_wsoc_end(t, i2);
                if i3 <= i || i3 > t.len() {
                    None
                } else {
                    match spec_enum_fields_loop(t, i3) {
                        None => None,
                        Some((rest, j)) => Some((seq![f] + rest, j)),
                    }
                }
            },
        }
    }
}

/// A body loop of message fields until the closing `}` is current, in the
/// same shape as the enum-field loop. Aborts at the end of the input, and
/// when an iteration consumes nothing (a successful field always does).
pub open spec fn spec_message_fields_loop(t: Seq<char>, i: int) -> Option<
    (Seq<MessageFieldV>, int),
>
    decreases t.len() - i,
{
    if i >= t.len() {
        None
    } else if t[i] == '}' {
        Some((Seq::empty(), i))
    } else {
        let i1 = skip_wsoc_end(t, i);
        match spec_consume_message_field(t, i1) {
            None => None,
            Some((f, i2)) => {
                let i3 = skip_wsoc_end(t, i2);
                if i3 <= i || i3 > t.len() {
                    None
                } else {
                    match spec_message_fields_loop(t, i3) {
                        None => None,
                        Some((rest, j)) => Some((seq![f] + rest, j)),
                    }
                }
            },
        }
    }
}

/// The message fields of a block body: leading skip, the loop, trailing
/// skip.
pub open spec fn spec_consume_message_fields(t: Seq<char>, i: int) -> Option<
    (Seq<MessageFieldV>, int),
> {
    let i0 = skip_wsoc_end(t, i);
    match spec_message_fields_loop(t, i0) {
        None => None,
        Some((fs, j)) => Some((fs, skip_wsoc_end(t, j))),
    }
}

/// The enum fields of a block body: leading skip, the loop, trailing skip.
pub open spec fn spec_consume_enum_fields(t: Seq<char>, i: int) -> Option<(Seq<EnumFieldV>, int)> {
    let i0 = skip_wsoc_end(t, i);
    match spec_enum_fields_loop(t, i0) {
        None => None,
        Some((fs, j)) => Some((fs, skip_wsoc_end(t, j))),
    }
}

/// An `enum` block: keyword, name, `{`, the fields, `}`.
pub open spec fn spec_consume_enum(t: Seq<char>, i: int) -> Option<(EnumV, int)> {
    let i0 = skip_wsoc_end(t, i);
    match spec_consume_lit(t, i0, "enum"@) {
        None => None,
        Some(i1) => {
            let i2 = skip_wsoc_end(t, i1);
            match spec_consume_name(t, i2) {
                None => None,
                Some((nm, i3)) => {
                    let i4 = skip_wsoc_end(t, i3);
                    if i4 >= t.len() {
                        None
                    } else {
                        let i5 = spec_skip(t, i4, '{');
                        let i6 = skip_wsoc_end(t, i5);
                        match spec_consume_enum_fields(t, i6) {
                            None => None,
                            Some((fs, i7)) => {
                                let i8 = skip_wsoc_end(t, i7);
                                if i8 >= t.len() {
                                    None
                                } else {
                                    let i9 = spec_skip(t, i8, '}');
                                    let i10 = skip_wsoc_end(t, i9);
                                    Some((EnumV { name: nm, fields: fs }, i10))
                                }
                            },
                        }
                    }
                },
            }
        },
    }
}

/// A field can start here: the current token is a type or frequency keyword.
pub open spec fn starts_field(t: Seq<char>, i: int) -> bool {
    spec_match_any(t, i, field_start_kws()) is Some
}

/// An `enum` block starts here.
pub open spec fn starts_enum(t: Seq<char>, i: int) -> bool {
    matches_at(t, i, "enum"@)
}

/// A `message` block starts here.
pub open spec fn starts_message(t: Seq<char>, i: int) -> bool {
    matches_at(t, i, "message"@)
}

/// A `oneof` block starts here.
pub open spec fn starts_oneof(t: Seq<char>, i: int) -> bool {
    matches_at(t, i, "oneof"@)
}

/// The members of a message or oneof body, grouped by kind in declaration
/// order within each kind.
pub ghost struct MembersV {
    pub fields: Seq<MessageFieldV>,
    pub enums: Seq<EnumV>,
    pub messages: Seq<MessageV>,
    pub oneofs: Seq<OneofV>,
}

/// The empty member grouping.
pub open spec fn members_empty() -> MembersV {
    MembersV { fields: Seq::empty(), enums: Seq::empty(), messages: Seq::empty(), oneofs: Seq::empty() }
}

/// The message a block header name and its members make.
pub open spec fn message_from_parts(nm: Seq<char>, ms: MembersV) -> MessageV {
    MessageV {
        name: nm,
        messages: ms.messages,
        enums: ms.enums,
        fields: ms.fields,
        oneofs: ms.oneofs,
    }
}

/// The oneof a block header name and its members make.
pub open spec fn oneof_from_parts(nm: Seq<char>, ms: MembersV) -> OneofV {
    OneofV {
        name: nm,
        messages: ms.messages,
        enums: ms.enums,
        fields: ms.fields,
        oneofs: ms.oneofs,
    }
}

/// The member grouping that a parser's four accumulating vectors denote.
pub open spec fn members_of(
    fields: Seq<MessageField>,
    enums: Seq<Enum>,
    messages: Seq<Message>,
    oneofs: Seq<Oneof>,
) -> MembersV {
    MembersV {
        fields: msg_fields_seq_view(fields),
        enums: enums_seq_view(enums),
        messages: msgs_seq_view(messages),
        oneofs: oneofs_seq_view(oneofs),
    }
}

/// Two member groupings, the first before the second, kind by kind.
pub open spec fn members_concat(a: MembersV, b: MembersV) -> MembersV {
    MembersV {
        fields: a.fields + b.fields,
        enums: a.enums + b.enums,
        messages: a.messages + b.messages,
        oneofs: a.oneofs + b.oneofs,
    }
}

pub proof fn lemma_spec_consume_name_bounds(t: Seq<char>, i: int)
    requires
        0 <= i,
    ensures
        spec_consume_name(t, i) matches Some((nm, j)) ==> i <= j < t.len(),
{
    if i <= t.len() {
        lemma_skip_wsoc_end_bounds(t, i);
        lemma_name_end_bounds(t, skip_wsoc_end(t, i));
    } else {
        assert(skip_wsoc_end(t, i) == i);
        assert(name_end(t, i) == i);
    }
}

/// The body loop of a message or oneof block: members by lookahead
/// dispatch, until no member can start here. Aborts when an iteration
/// consumes nothing at all, where an unchecked loop would never stop;
/// no member parse actually leaves the position unchanged.
pub open spec fn spec_members_loop(t: Seq<char>, i: int) -> Option<(MembersV, int)>
    decreases t.len() - i, 1int
        via spec_members_loop_decreases
{
    if !(starts_field(t, i) || starts_enum(t, i) || starts_message(t, i) || starts_oneof(t, i)) {
        Some((members_empty(), i))
    } else {
        let i1 = skip_wsoc_end(t, i);
        if starts_field(t, i1) {
            match spec_consume_message_field(t, i1) {
                None => None,
                Some((f, i2)) => {
                    let i3 = skip_wsoc_end(t, i2);
                    if i3 <= i || i3 > t.len() {
                        None
                    } else {
                        match spec_members_loop(t, i3) {
                            None => None,
                            Some((rest, j)) => Some(
                                (
                                    MembersV {
                                        fields: seq![f] + rest.fields,
                                        enums: rest.enums,
                                        messages: rest.messages,
                                        oneofs: rest.oneofs,
                                    },
                                    j,
                                ),
                            ),
                        }
                    }
                },
            }
        } else if starts_enum(t, i1) {
            match spec_consume_enum(t, i1) {
                None => None,
                Some((e, i2)) => {
                    let i3 = skip_wsoc_end(t, i2);
                    if i3 <= i || i3 > t.len() {
                        None
                    } else {
                        match spec_members_loop(t, i3) {
                            None => None,
                            Some((rest, j)) => Some(
                                (
                                    MembersV {
                                        fields: rest.fields,
                                        enums: seq![e] + rest.enums,
                                        messages: rest.messages,
                                        oneofs: rest.oneofs,
                                    },
                                    j,
                                ),
                            ),
                        }
                    }
                },
            }
        } else if starts_message(t, i1) {
            match spec_consume_message(t, i1) {
                None => None,
                Some((m, i2)) => {
                    let i3 = skip_wsoc_end(t, i2);
                    if i3 <= i || i3 > t.len() {
                        None
                    } else {
                        match spec_members_loop(t, i3) {
                            None => None,
                            Some((rest, j)) => Some(
                                (
                                    MembersV {
                                        fields: rest.fields,
                                        enums: rest.enums,
                                        messages: seq![m] + rest.messages,
                                        oneofs: rest.oneofs,
                                    },
                                    j,
                                ),
                            ),
                        }
                    }
                },
            }
        } else if starts_oneof(t, i1) {
            match spec_consume_oneof(t, i1) {
                None => None,
                Some((o, i2)) => {
                    let i3 = skip_wsoc_end(t, i2);
                    if i3 <= i || i3 > t.len() {
                        None
                    } else {
                        match spec_members_loop(t, i3) {
                            None => None,
                            Some((rest, j)) => Some(
                                (
                                    MembersV {
                                        fields: rest.fields,
                                        enums: rest.enums,
                                        messages: rest.messages,
                                        oneofs: seq![o] + rest.oneofs,
                                    },
                                    j,
                                ),
                            ),
                        }
                    }
                },
            }
        } else {
            None
        }
    }
}

#[via_fn]
proof fn spec_members_loop_decreases(t: Seq<char>, i: int) {
    if starts_field(t, i) || starts_enum(t, i) || starts_message(t, i) || starts_oneof(t, i) {
        lemma_starts_in_bounds(t, i);
        lemma_skip_wsoc_end_bounds(t, i);
    }
}

/// When any member can start at `i`, `i` is a position inside the input.
pub proof fn lemma_starts_in_bounds(t: Seq<char>, i: int)
    requires
        starts_field(t, i) || starts_enum(t, i) || starts_message(t, i) || starts_oneof(t, i),
    ensures
        0 <= i < t.len(),
{
    if starts_field(t, i) {
        reveal_strlit("string");
        reveal_strlit("int32");
        reveal_strlit("optional");
        reveal_strlit("repeated");
        reveal_strlit("required");
        let kws = field_start_kws();
        assert(kws.len() == 5);
        assert(kws[0] == "string"@);
        assert(kws[1] == "int32"@);
        assert(kws[2] == "optional"@);
        assert(kws[3] == "repeated"@);
        assert(kws[4] == "required"@);
        assert forall|k: int| 0 <= k < kws.len() implies #[trigger] kws[k].len() > 0 by {
            if k == 0 {
            } else if k == 1 {
            } else if k == 2 {
            } else if k == 3 {
            } else {
                assert(k == 4);
            }
        }
        lemma_match_any_in_bounds(t, i, kws);
    } else if starts_enum(t, i) {
        reveal_strlit("enum");
    } else if starts_message(t, i) {
        reveal_strlit("message");
    } else {
        reveal_strlit("oneof");
    }
}

/// When no candidate among the first `k` matches, the first match over the
/// whole list is decided at or after `k`: a match at `k` is the first
/// match, and no match at all once `k` passes the end.
pub proof fn lemma_match_any_prefix(t: Seq<char>, i: int, choices: Seq<Seq<char>>, k: int)
    requires
        0 <= k <= choices.len(),
        forall|j: int| 0 <= j < k ==> !matches_at(t, i, #[trigger] choices[j]),
    ensures
        k < choices.len() && matches_at(t, i, choices[k]) ==> spec_match_any(t, i, choices)
            == Some(k),
        k == choices.len() ==> spec_match_any(t, i, choices) is None,
    decreases choices.len(),
{
    if choices.len() > 0 {
        if k == 0 {
            if !matches_at(t, i, choices[0]) && choices.len() > 0 {
                lemma_match_any_prefix(t, i, choices.subrange(1, choices.len() as int), 0);
            }
        } else {
            let rest = choices.subrange(1, choices.len() as int);
            assert forall|j: int| 0 <= j < k - 1 implies !matches_at(t, i, #[trigger] rest[j]) by {
                assert(rest[j] == choices[j + 1]);
            }
            lemma_match_any_prefix(t, i, rest, k - 1);
            if k < choices.len() {
                assert(rest[k - 1] == choices[k]);
            }
        }
    }
}

/// First-match dispatch over a two-candidate list, spelled out.
pub proof fn lemma_match_any_two(t: Seq<char>, i: int, a: Seq<char>, b: Seq<char>)
    ensures
        matches_at(t, i, a) ==> spec_match_any(t, i, seq![a, b]) == Some(0int),
        !matches_at(t, i, a) && matches_at(t, i, b) ==> spec_match_any(t, i, seq![a, b]) == Some(
            1int,
        ),
        !matches_at(t, i, a) && !matches_at(t, i, b) ==> spec_match_any(t, i, seq![a, b]) is None,
{
    reveal_with_fuel(spec_match_any, 3);
    let cs = seq![a, b];
    assert(cs.subrange(1, 2) =~= seq![b]);
    assert(seq![b].subrange(1, 1) =~= Seq::<Seq<char>>::empty());
}

/// First-match dispatch over a three-candidate list, spelled out.
pub proof fn lemma_match_any_three(t: Seq<char>, i: int, a: Seq<char>, b: Seq<char>, c: Seq<char>)
    ensures
        matches_at(t, i, a) ==> spec_match_any(t, i, seq![a, b, c]) == Some(0int),
        !matches_at(t, i, a) && matches_at(t, i, b) ==> spec_match_any(t, i, seq![a, b, c])
            == Some(1int),
        !matches_at(t, i, a) && !matches_at(t, i, b) && matches_at(t, i, c) ==> spec_match_any(
            t,
            i,
            seq![a, b, c],
        ) == Some(2int),
        !matches_at(t, i, a) && !matches_at(t, i, b) && !matches_at(t, i, c) ==> spec_match_any(
            t,
            i,
            seq![a, b, c],
        ) is None,
{
    reveal_with_fuel(spec_match_any, 2);
    let cs = seq![a, b, c];
    assert(cs.subrange(1, 3) =~= seq![b, c]);
    lemma_match_any_two(t, i, b, c);
}

/// A first match among candidates that are all nonempty pins `i` inside the
/// input.
pub proof fn lemma_match_any_in_bounds(t: Seq<char>, i: int, choices: Seq<Seq<char>>)
    requires
        spec_match_any(t, i, choices) is Some,
        forall|k: int| 0 <= k < choices.len() ==> #[trigger] choices[k].len() > 0,
    ensures
        0 <= i < t.len(),
    decreases choices.len(),
{
    if choices.len() > 0 && !matches_at(t, i, choices[0]) {
        lemma_match_any_in_bounds(t, i, choices.subrange(1, choices.len() as int));
    }
}

/// A `message` block: keyword, name, `{`, the member loop, `}`.
pub open spec fn spec_consume_message(t: Seq<char>, i: int) -> Option<(MessageV, int)>
    decreases t.len() - i, 0int
        via spec_consume_message_decreases
{
    let i0 = skip_wsoc_end(t, i);
    match spec_consume_lit(t, i0, "message"@) {
        None => None,
        Some(i1) => {
            let i2 = skip_wsoc_end(t, i1);
            match spec_consume_name(t, i2) {
                None => None,
                Some((nm, i3)) => {
                    let i4 = skip_wsoc_end(t, i3);
                    if i4 >= t.len() {
                        None
                    } else {
                        let i5 = spec_skip(t, i4, '{');
                        let i6 = skip_wsoc_end(t, i5);
                        match spec_members_loop(t, i6) {
                            None => None,
                            Some((ms, i7)) => {
                                let i8 = skip_wsoc_end(t, i7);
                                if i8 >= t.len() {
                                    None
                                } else {
                                    let i9 = spec_skip(t, i8, '}');
                                    let i10 = skip_wsoc_end(t, i9);
                                    Some((message_from_parts(nm, ms), i10))
                                }
                            },
                        }
                    }
                },
            }
        },
    }
}

#[via_fn]
proof fn spec_consume_message_decreases(t: Seq<char>, i: int) {
    reveal_strlit("message");
    lemma_compound_header_advances(t, i, "message"@);
}

/// A `oneof` block: keyword, name, `{`, the member loop, `}`.
pub open spec fn spec_consume_oneof(t: Seq<char>, i: int) -> Option<(OneofV, int)>
    decreases t.len() - i, 0int
        via spec_consume_oneof_decreases
{
    let i0 = skip_wsoc_end(t, i);
    match spec_consume_lit(t, i0, "oneof"@) {
        None => None,
        Some(i1) => {
            let i2 = skip_wsoc_end(t, i1);
            match spec_consume_name(t, i2) {
                None => None,
                Some((nm, i3)) => {
                    let i4 = skip_wsoc_end(t, i3);
                    if i4 >= t.len() {
                        None
                    } else {
                        let i5 = spec_skip(t, i4, '{');
                        let i6 = skip_wsoc_end(t, i5);
                        match spec_members_loop(t, i6) {
                            None => None,
                            Some((ms, i7)) => {
                                let i8 = skip_wsoc_end(t, i7);
                                if i8 >= t.len() {
                                    None
                                } else {
                                    let i9 = spec_skip(t, i8, '}');
                                    let i10 = skip_wsoc_end(t, i9);
                                    Some((oneof_from_parts(nm, ms), i10))
                                }
                            },
                        }
                    }
                },
            }
        },
    }
}

#[via_fn]
proof fn spec_consume_oneof_decreases(t: Seq<char>, i: int) {
    reveal_strlit("oneof");
    lemma_compound_header_advances(t, i, "oneof"@);
}

/// A successful enum-field loop never moves backwards and never leaves the
/// input.
pub proof fn lemma_enum_fields_loop_range(t: Seq<char>, i: int)
    requires
        0 <= i <= t.len(),
    ensures
        spec_enum_fields_loop(t, i) matches Some((fs, j)) ==> i <= j <= t.len(),
    decreases t.len() - i,
{
    if i < t.len() && t[i] != '}' {
        let i1 = skip_wsoc_end(t, i);
        match spec_consume_enum_field(t, i1) {
            None => {},
            Some((f, i2)) => {
                let i3 = skip_wsoc_end(t, i2);
                if i < i3 <= t.len() {
                    lemma_enum_fields_loop_range(t, i3);
                }
            },
        }
    }
}

/// A successful `enum` parse ends inside the input, at a position where
/// neither whitespace nor a comment starts (its own trailing skip has
/// already consumed them).
pub proof fn lemma_spec_consume_enum_range(t: Seq<char>, i: int)
    requires
        0 <= i <= t.len(),
    ensures
        spec_consume_enum(t, i) matches Some((ev, j)) ==> {
            &&& i <= j <= t.len()
            &&& !crate::lex::at_ws(t, j)
            &&& !crate::lex::is_comment_at(t, j)
        },
{
    reveal_strlit("enum");
    let i0 = skip_wsoc_end(t, i);
    lemma_skip_wsoc_end_bounds(t, i);
    if matches_at(t, i0, "enum"@) {
        let i1 = i0 + "enum"@.len();
        let i2 = skip_wsoc_end(t, i1);
        lemma_skip_wsoc_end_bounds(t, i1);
        lemma_spec_consume_name_bounds(t, i2);
        match spec_consume_name(t, i2) {
            None => {},
            Some((nm, i3)) => {
                let i4 = skip_wsoc_end(t, i3);
                lemma_skip_wsoc_end_bounds(t, i3);
                if i4 < t.len() {
                    let i5 = spec_skip(t, i4, '{');
                    let i6 = skip_wsoc_end(t, i5);
                    lemma_skip_wsoc_end_bounds(t, i5);
                    lemma_enum_fields_loop_range(t, i6);
                    match spec_enum_fields_loop(t, i6) {
                        None => {},
                        Some((fs, i7a)) => {
                            let i7 = skip_wsoc_end(t, i7a);
                            lemma_skip_wsoc_end_bounds(t, i7a);
                            let i8 = skip_wsoc_end(t, i7);
                            lemma_skip_wsoc_end_bounds(t, i7);
                            if i8 < t.len() {
                                let i9 = spec_skip(t, i8, '}');
                                lemma_skip_wsoc_end_bounds(t, i9);
                            }
                        },
                    }
                }
            },
        }
    }
}

/// A successful member loop never moves backwards and never leaves the
/// input.
pub proof fn lemma_members_loop_range(t: Seq<char>, i: int)
    requires
        0 <= i <= t.len(),
    ensures
        spec_members_loop(t, i) matches Some((ms, j)) ==> i <= j <= t.len(),
    decreases t.len() - i, 3int,
{
    if starts_field(t, i) || starts_enum(t, i) || starts_message(t, i) || starts_oneof(t, i) {
        let i1 = skip_wsoc_end(t, i);
        lemma_starts_in_bounds(t, i);
        lemma_skip_wsoc_end_bounds(t, i);
        if starts_field(t, i1) {
            match spec_consume_message_field(t, i1) {
                None => {},
                Some((f, i2)) => {
                    let i3 = skip_wsoc_end(t, i2);
                    if i < i3 <= t.len() {
                        lemma_members_loop_range(t, i3);
                    }
                },
            }
        } else if starts_enum(t, i1) {
            match spec_consume_enum(t, i1) {
                None => {},
                Some((e, i2)) => {
                    let i3 = skip_wsoc_end(t, i2);
                    if i < i3 <= t.len() {
                        lemma_members_loop_range(t, i3);
                    }
                },
            }
        } else if starts_message(t, i1) {
            lemma_spec_consume_message_range(t, i1);
            match spec_consume_message(t, i1) {
                None => {},
                Some((m, i2)) => {
                    let i3 = skip_wsoc_end(t, i2);
                    if i < i3 <= t.len() {
                        lemma_members_loop_range(t, i3);
                    }
                },
            }
        } else if starts_oneof(t, i1) {
            lemma_spec_consume_oneof_range(t, i1);
            match spec_consume_oneof(t, i1) {
                None => {},
                Some((o, i2)) => {
                    let i3 = skip_wsoc_end(t, i2);
                    if i < i3 <= t.len() {
                        lemma_members_loop_range(t, i3);
                    }
                },
            }
        }
    }
}

/// A successful `message` parse ends inside the input, at a position where
/// neither whitespace nor a comment starts (its own trailing skip has
/// already consumed them).
pub proof fn lemma_spec_consume_message_range(t: Seq<char>, i: int)
    requires
        0 <= i <= t.len(),
    ensures
        spec_consume_message(t, i) matches Some((mv, j)) ==> {
            &&& i <= j <= t.len()
            &&& !crate::lex::at_ws(t, j)
            &&& !crate::lex::is_comment_at(t, j)
        },
    decreases t.len() - i, 2int,
{
    reveal_strlit("message");
    lemma_compound_range(t, i, "message"@);
}

/// A successful `oneof` parse ends inside the input, at a position where
/// neither whitespace nor a comment starts.
pub proof fn lemma_spec_consume_oneof_range(t: Seq<char>, i: int)
    requires
        0 <= i <= t.len(),
    ensures
        spec_consume_oneof(t, i) matches Some((ov, j)) ==> {
            &&& i <= j <= t.len()
            &&& !crate::lex::at_ws(t, j)
            &&& !crate::lex::is_comment_at(t, j)
        },
    decreases t.len() - i, 2int,
{
    reveal_strlit("oneof");
    lemma_compound_range(t, i, "oneof"@);
}

/// Shared range argument for the two compound headers: every step of the
/// block parse moves forward and stays inside the input, and the final
/// trailing skip leaves no whitespace or comment at the result.
proof fn lemma_compound_range(t: Seq<char>, i: int, kw: Seq<char>)
    requires
        0 <= i <= t.len(),
        kw.len() > 0,
    ensures
        ({
            let i0 = skip_wsoc_end(t, i);
            matches_at(t, i0, kw) ==> {
                let i1 = i0 + kw.len();
                let i2 = skip_wsoc_end(t, i1);
                spec_consume_name(t, i2) matches Some((nm, i3)) ==> {
                    let i4 = skip_wsoc_end(t, i3);
                    i4 < t.len() ==> {
                        let i5 = spec_skip(t, i4, '{');
                        let i6 = skip_wsoc_end(t, i5);
                        spec_members_loop(t, i6) matches Some((ms, i7)) ==> {
                            let i8 = skip_wsoc_end(t, i7);
                            i8 < t.len() ==> {
                                let i9 = spec_skip(t, i8, '}');
                                let i10 = skip_wsoc_end(t, i9);
                                &&& i <= i10 <= t.len()
                                &&& !crate::lex::at_ws(t, i10)
                                &&& !crate::lex::is_comment_at(t, i10)
                            }
                        }
                    }
                }
            }
        }),
    decreases t.len() - i, 1int,
{
    let i0 = skip_wsoc_end(t, i);
    lemma_skip_wsoc_end_bounds(t, i);
    if matches_at(t, i0, kw) {
        let i1 = i0 + kw.len();
        let i2 = skip_wsoc_end(t, i1);
        lemma_skip_wsoc_end_bounds(t, i1);
        lemma_spec_consume_name_bounds(t, i2);
        match spec_consume_name(t, i2) {  
            None => {},
            Some((nm, i3)) => {
                let i4 = skip_wsoc_end(t, i3);
                lemma_skip_wsoc_end_bounds(t, i3);
                if i4 < t.len() {
                    let i5 = spec_skip(t, i4, '{');
                    let i6 = skip_wsoc_end(t, i5);
                    lemma_skip_wsoc_end_bounds(t, i5);
                    lemma_members_loop_range(t, i6);
                    match spec_members_loop(t, i6) {
                        None => {},
                        Some((ms, i7)) => {
                            let i8 = skip_wsoc_end(t, i7);
                            lemma_skip_wsoc_end_bounds(t, i7);
                            if i8 < t.len() {
                                let i9 = spec_skip(t, i8, '}');
                                lemma_skip_wsoc_end_bounds(t, i9);
                            }
                        },
                    }
                }
            },
        }
    }
}

/// After a nonempty keyword, a name and the optional brace, the member loop
/// begins strictly past where the block began.
proof fn lemma_compound_header_advances(t: Seq<char>, i: int, kw: Seq<char>)
    requires
        kw.len() > 0,
    ensures
        ({
            let i0 = skip_wsoc_end(t, i);
            matches_at(t, i0, kw) ==> {
                let i1 = i0 + kw.len();
                let i2 = skip_wsoc_end(t, i1);
                spec_consume_name(t, i2) matches Some((nm, i3)) ==> {
                    let i4 = skip_wsoc_end(t, i3);
                    i4 < t.len() ==> {
                        let i5 = spec_skip(t, i4, '{');
                        let i6 = skip_wsoc_end(t, i5);
                        i < i6 <= t.len()
                    }
                }
            }
        }),
{
    let i0 = skip_wsoc_end(t, i);
    if matches_at(t, i0, kw) {
        if i < 0 {
            assert(skip_wsoc_end(t, i) == i);
            assert(false);
        }
        if i > t.len() {
            assert(skip_wsoc_end(t, i) == i);
            assert(false);
        }
        lemma_skip_wsoc_end_bounds(t, i);
        let i1 = i0 + kw.len();
        let i2 = skip_wsoc_end(t, i1);
        lemma_skip_wsoc_end_bounds(t, i1);
        lemma_spec_consume_name_bounds(t, i2);
        match spec_consume_name(t, i2) {
            None => {},
            Some((nm, i3)) => {
                let i4 = skip_wsoc_end(t, i3);
                lemma_skip_wsoc_end_bounds(t, i3);
                if i4 < t.len() {
                    let i5 = spec_skip(t, i4, '{');
                    lemma_skip_wsoc_end_bounds(t, i5);
                }
            },
        }
    }
}

/// The first-match scan reads nothing before its position: shifting both
/// text and position by a left part changes nothing.
pub proof fn lemma_spec_match_any_shift(a: Seq<char>, s: Seq<char>, k: int, cs: Seq<Seq<char>>)
    requires
        0 <= k,
    ensures
        spec_match_any(a + s, a.len() + k, cs) == spec_match_any(s, k, cs),
    decreases cs.len(),
{
    if cs.len() > 0 {
        lemma_matches_at_shift(a, s, k, cs[0]);
        lemma_spec_match_any_shift(a, s, k, cs.subrange(1, cs.len() as int));
    }
}

/// Consuming a name reads nothing before its start position.
pub proof fn lemma_spec_consume_name_shift(a: Seq<char>, s: Seq<char>, k: int)
    requires
        0 <= k <= s.len(),
    ensures
        ({
            let r = spec_consume_name(s, k);
            let rr = spec_consume_name(a + s, a.len() + k);
            match r {
                None => rr is None,
                Some((nm, j)) => rr == Some((nm, a.len() + j)) && k <= j <= s.len(),
            }
        }),
{
    lemma_skip_wsoc_end_shift(a, s, k);
    lemma_skip_wsoc_end_bounds(s, k);
    let j = skip_wsoc_end(s, k);
    lemma_name_end_shift(a, s, j);
    lemma_name_end_bounds(s, j);
    let m = name_end(s, j);
    if m < s.len() {
        lemma_subrange_shift(a, s, j, m);
    }
}

/// Consuming a number reads nothing before its start position.
pub proof fn lemma_spec_consume_number_shift(a: Seq<char>, s: Seq<char>, k: int)
    requires
        0 <= k <= s.len(),
    ensures
        ({
            let r = spec_consume_number(s, k);
            let rr = spec_consume_number(a + s, a.len() + k);
            match r {
                None => rr is None,
                Some((v, j)) => rr == Some((v, a.len() + j)) && k <= j <= s.len(),
            }
        }),
{
    lemma_digits_end_shift(a, s, k);
    lemma_digits_end_bounds(s, k);
    let m = digits_end(s, k);
    if m < s.len() {
        lemma_subrange_shift(a, s, k, m);
    }
}

/// The frequency lookahead reads nothing before its position.
pub proof fn lemma_spec_consume_frequency_shift(a: Seq<char>, s: Seq<char>, k: int)
    requires
        0 <= k <= s.len(),
    ensures
        spec_consume_frequency(a + s, a.len() + k).0 == spec_consume_frequency(s, k).0,
        spec_consume_frequency(a + s, a.len() + k).1 == a.len() + spec_consume_frequency(
            s,
            k,
        ).1,
        k <= spec_consume_frequency(s, k).1 <= s.len(),
{
    lemma_matches_at_shift(a, s, k, "optional"@);
    lemma_matches_at_shift(a, s, k, "repeated"@);
    lemma_matches_at_shift(a, s, k, "required"@);
}

/// The type keyword read nothing before its position.
pub proof fn lemma_spec_consume_type_shift(a: Seq<char>, s: Seq<char>, k: int)
    requires
        0 <= k <= s.len(),
    ensures
        ({
            let r = spec_consume_type(s, k);
            let rr = spec_consume_type(a + s, a.len() + k);
            match r {
                None => rr is None,
                Some((ty, j)) => rr == Some((ty, a.len() + j)) && k <= j <= s.len(),
            }
        }),
{
    lemma_matches_at_shift(a, s, k, "string"@);
    lemma_matches_at_shift(a, s, k, "int32"@);
}

/// Parsing one message field reads nothing before its start position.
#[verifier::rlimit(100)]
pub proof fn lemma_spec_consume_message_field_shift(a: Seq<char>, s: Seq<char>, k: int)
    requires
        0 <= k <= s.len(),
    ensures
        ({
            let r = spec_consume_message_field(s, k);
            let rr = spec_consume_message_field(a + s, a.len() + k);
            match r {
                None => rr is None,
                Some((f, j)) => rr == Some((f, a.len() + j)) && k <= j <= s.len(),
            }
        }),
{
    let t2 = a + s;
    lemma_skip_wsoc_end_shift(a, s, k);
    lemma_skip_wsoc_end_bounds(s, k);
    let i0 = skip_wsoc_end(s, k);
    lemma_spec_consume_frequency_shift(a, s, i0);
    let i1 = spec_consume_frequency(s, i0).1;
    lemma_skip_wsoc_end_shift(a, s, i1);
    lemma_skip_wsoc_end_bounds(s, i1);
    let i2 = skip_wsoc_end(s, i1);
    lemma_spec_consume_type_shift(a, s, i2);
    match spec_consume_type(s, i2) {
        None => {},
        Some((ty, i3)) => {
            lemma_skip_wsoc_end_shift(a, s, i3);
            lemma_skip_wsoc_end_bounds(s, i3);
            let i4 = skip_wsoc_end(s, i3);
            lemma_spec_consume_name_shift(a, s, i4);
            match spec_consume_name(s, i4) {
                None => {},
                Some((nm, i5)) => {
                    lemma_skip_wsoc_end_shift(a, s, i5);
                    lemma_skip_wsoc_end_bounds(s, i5);
                    let i6 = skip_wsoc_end(s, i5);
                    if i6 < s.len() {
                        assert(t2[a.len() + i6] == s[i6]);
                        let i7 = spec_skip(s, i6, '=');
                        lemma_skip_wsoc_end_shift(a, s, i7);
                        lemma_skip_wsoc_end_bounds(s, i7);
                        let i8 = skip_wsoc_end(s, i7);
                        lemma_spec_consume_number_shift(a, s, i8);
                        match spec_consume_number(s, i8) {
                            None => {},
                            Some((pos, i9)) => {
                                lemma_skip_wsoc_end_shift(a, s, i9);
                                lemma_skip_wsoc_end_bounds(s, i9);
                                let i10 = skip_wsoc_end(s, i9);
                                if i10 < s.len() {
                                    assert(t2[a.len() + i10] == s[i10]);
                                    let i11 = spec_skip(s, i10, ';');
                                    lemma_skip_wsoc_end_shift(a, s, i11);
                                    lemma_skip_wsoc_end_bounds(s, i11);
                                }
                            },
                        }
                    }
                },
            }
        },
    }
}

/// Parsing one enum field reads nothing before its start position.
#[verifier::rlimit(100)]
pub proof fn lemma_spec_consume_enum_field_shift(a: Seq<char>, s: Seq<char>, k: int)
    requires
        0 <= k <= s.len(),
    ensures
        ({
            let r = spec_consume_enum_field(s, k);
            let rr = spec_consume_enum_field(a + s, a.len() + k);
            match r {
                None => rr is None,
                Some((f, j)) => rr == Some((f, a.len() + j)) && k <= j <= s.len(),
            }
        }),
{
    let t2 = a + s;
    lemma_skip_wsoc_end_shift(a, s, k);
    lemma_skip_wsoc_end_bounds(s, k);
    let i0 = skip_wsoc_end(s, k);
    lemma_spec_consume_name_shift(a, s, i0);
    match spec_consume_name(s, i0) {
        None => {},
        Some((nm, i1)) => {
            lemma_skip_wsoc_end_shift(a, s, i1);
            lemma_skip_wsoc_end_bounds(s, i1);
            let i2 = skip_wsoc_end(s, i1);
            if i2 < s.len() {
                assert(t2[a.len() + i2] == s[i2]);
                let i3 = spec_skip(s, i2, '=');
                lemma_skip_wsoc_end_shift(a, s, i3);
                lemma_skip_wsoc_end_bounds(s, i3);
                let i4 = skip_wsoc_end(s, i3);
                lemma_spec_consume_number_shift(a, s, i4);
                match spec_consume_number(s, i4) {
                    None => {},
                    Some((pos, i5)) => {
                        lemma_skip_wsoc_end_shift(a, s, i5);
                        lemma_skip_wsoc_end_bounds(s, i5);
                        let i6 = skip_wsoc_end(s, i5);
                        if i6 < s.len() {
                            assert(t2[a.len() + i6] == s[i6]);
                            let i7 = spec_skip(s, i6, ';');
                            lemma_skip_wsoc_end_shift(a, s, i7);
                            lemma_skip_wsoc_end_bounds(s, i7);
                        }
                    },
                }
            }
        },
    }
}

/// The enum-field loop reads nothing before its start position.
#[verifier::rlimit(100)]
pub proof fn lemma_spec_enum_fields_loop_shift(a: Seq<char>, s: Seq<char>, k: int)
    requires
        0 <= k <= s.len(),
    ensures
        ({
            let r = spec_enum_fields_loop(s, k);
            let rr = spec_enum_fields_loop(a + s, a.len() + k);
            match r {
                None => rr is None,
                Some((fs, j)) => rr == Some((fs, a.len() + j)),
            }
        }),
    decreases s.len() - k,
{
    let t2 = a + s;
    if k < s.len() {
        assert(t2[a.len() + k] == s[k]);
        if s[k] != '}' {
            lemma_skip_wsoc_end_shift(a, s, k);
            lemma_skip_wsoc_end_bounds(s, k);
            let i1 = skip_wsoc_end(s, k);
            lemma_spec_consume_enum_field_shift(a, s, i1);
            match spec_consume_enum_field(s, i1) {
                None => {},
                Some((f, i2)) => {
                    lemma_skip_wsoc_end_shift(a, s, i2);
                    lemma_skip_wsoc_end_bounds(s, i2);
                    let i3 = skip_wsoc_end(s, i2);
                    if k < i3 <= s.len() {
                        lemma_spec_enum_fields_loop_shift(a, s, i3);
                    }
                },
            }
        }
    }
}

/// Parsing an `enum` block reads nothing before its start position.
#[verifier::rlimit(100)]
pub proof fn lemma_spec_consume_enum_shift(a: Seq<char>, s: Seq<char>, k: int)
    requires
        0 <= k <= s.len(),
    ensures
        ({
            let r = spec_consume_enum(s, k);
            let rr = spec_consume_enum(a + s, a.len() + k);
            match r {
                None => rr is None,
                Some((ev, j)) => rr == Some((ev, a.len() + j)),
            }
        }),
{
    let t2 = a + s;
    lemma_skip_wsoc_end_shift(a, s, k);
    lemma_skip_wsoc_end_bounds(s, k);
    let i0 = skip_wsoc_end(s, k);
    lemma_matches_at_shift(a, s, i0, "enum"@);
    if matches_at(s, i0, "enum"@) {
        let i1 = i0 + "enum"@.len();
        lemma_skip_wsoc_end_shift(a, s, i1);
        lemma_skip_wsoc_end_bounds(s, i1);
        let i2 = skip_wsoc_end(s, i1);
        lemma_spec_consume_name_shift(a, s, i2);
        match spec_consume_name(s, i2) {
            None => {},
            Some((nm, i3)) => {
                lemma_skip_wsoc_end_shift(a, s, i3);
                lemma_skip_wsoc_end_bounds(s, i3);
                let i4 = skip_wsoc_end(s, i3);
                if i4 < s.len() {
                    assert(t2[a.len() + i4] == s[i4]);
                    let i5 = spec_skip(s, i4, '{');
                    lemma_skip_wsoc_end_shift(a, s, i5);
                    lemma_skip_wsoc_end_bounds(s, i5);
                    let i6 = skip_wsoc_end(s, i5);
                    lemma_spec_enum_fields_loop_shift(a, s, i6);
                    lemma_enum_fields_loop_range(s, i6);
                    match spec_enum_fields_loop(s, i6) {
                        None => {},
                        Some((fs, i7a)) => {
                            lemma_skip_wsoc_end_shift(a, s, i7a);
                            lemma_skip_wsoc_end_bounds(s, i7a);
                            let i7 = skip_wsoc_end(s, i7a);
                            lemma_skip_wsoc_end_shift(a, s, i7);
                            lemma_skip_wsoc_end_bounds(s, i7);
                            let i8 = skip_wsoc_end(s, i7);
                            if i8 < s.len() {
                                assert(t2[a.len() + i8] == s[i8]);
                                let i9 = spec_skip(s, i8, '}');
                                lemma_skip_wsoc_end_shift(a, s, i9);
                            }
                        },
                    }
                }
            },
        }
    }
}

/// The member loop reads nothing before its start position.
#[verifier::rlimit(100)]
pub proof fn lemma_spec_members_loop_shift(a: Seq<char>, s: Seq<char>, k: int)
    requires
        0 <= k <= s.len(),
    ensures
        ({
            let r = spec_members_loop(s, k);
            let rr = spec_members_loop(a + s, a.len() + k);
            match r {
                None => rr is None,
                Some((ms, j)) => rr == Some((ms, a.len() + j)),
            }
        }),
    decreases s.len() - k, 3int,
{
    let t2 = a + s;
    lemma_spec_match_any_shift(a, s, k, field_start_kws());
    lemma_matches_at_shift(a, s, k, "enum"@);
    lemma_matches_at_shift(a, s, k, "message"@);
    lemma_matches_at_shift(a, s, k, "oneof"@);
    if starts_field(s, k) || starts_enum(s, k) || starts_message(s, k) || starts_oneof(s, k) {
        lemma_starts_in_bounds(s, k);
        lemma_skip_wsoc_end_shift(a, s, k);
        lemma_skip_wsoc_end_bounds(s, k);
        let i1 = skip_wsoc_end(s, k);
        lemma_spec_match_any_shift(a, s, i1, field_start_kws());
        lemma_matches_at_shift(a, s, i1, "enum"@);
        lemma_matches_at_shift(a, s, i1, "message"@);
        lemma_matches_at_shift(a, s, i1, "oneof"@);
        if starts_field(s, i1) {
            lemma_spec_consume_message_field_shift(a, s, i1);
            match spec_consume_message_field(s, i1) {
                None => {},
                Some((f, i2)) => {
                    lemma_skip_wsoc_end_shift(a, s, i2);
                    lemma_skip_wsoc_end_bounds(s, i2);
                    let i3 = skip_wsoc_end(s, i2);
                    if k < i3 <= s.len() {
                        lemma_spec_members_loop_shift(a, s, i3);
                    }
                },
            }
        } else if starts_enum(s, i1) {
            lemma_spec_consume_enum_shift(a, s, i1);
            lemma_spec_consume_enum_range(s, i1);
            match spec_consume_enum(s, i1) {
                None => {},
                Some((e, i2)) => {
                    lemma_skip_wsoc_end_shift(a, s, i2);
                    lemma_skip_wsoc_end_bounds(s, i2);
                    let i3 = skip_wsoc_end(s, i2);
                    if k < i3 <= s.len() {
                        lemma_spec_members_loop_shift(a, s, i3);
                    }
                },
            }
        } else if starts_message(s, i1) {
            lemma_spec_consume_message_shift(a, s, i1);
            lemma_spec_consume_message_range(s, i1);
            match spec_consume_message(s, i1) {
                None => {},
                Some((m, i2)) => {
                    lemma_skip_wsoc_end_shift(a, s, i2);
                    lemma_skip_wsoc_end_bounds(s, i2);
                    let i3 = skip_wsoc_end(s, i2);
                    if k < i3 <= s.len() {
                        lemma_spec_members_loop_shift(a, s, i3);
                    }
                },
            }
        } else if starts_oneof(s, i1) {
            lemma_spec_consume_oneof_shift(a, s, i1);
            lemma_spec_consume_oneof_range(s, i1);
            match spec_consume_oneof(s, i1) {
                None => {},
                Some((o, i2)) => {
                    lemma_skip_wsoc_end_shift(a, s, i2);
                    lemma_skip_wsoc_end_bounds(s, i2);
                    let i3 = skip_wsoc_end(s, i2);
                    if k < i3 <= s.len() {
                        lemma_spec_members_loop_shift(a, s, i3);
                    }
                },
            }
        }
    }
}

/// Parsing a `message` block reads nothing before its start position.
#[verifier::rlimit(100)]
pub proof fn lemma_spec_consume_message_shift(a: Seq<char>, s: Seq<char>, k: int)
    requires
        0 <= k <= s.len(),
    ensures
        ({
            let r = spec_consume_message(s, k);
            let rr = spec_consume_message(a + s, a.len() + k);
            match r {
                None => rr is None,
                Some((mv, j)) => rr == Some((mv, a.len() + j)),
            }
        }),
    decreases s.len() - k, 2int,
{
    reveal_strlit("message");
    lemma_compound_header_advances(s, k, "message"@);
    let t2 = a + s;
    lemma_skip_wsoc_end_shift(a, s, k);
    lemma_skip_wsoc_end_bounds(s, k);
    let i0 = skip_wsoc_end(s, k);
    lemma_matches_at_shift(a, s, i0, "message"@);
    if matches_at(s, i0, "message"@) {
        let i1 = i0 + "message"@.len();
        lemma_skip_wsoc_end_shift(a, s, i1);
        lemma_skip_wsoc_end_bounds(s, i1);
        let i2 = skip_wsoc_end(s, i1);
        lemma_spec_consume_name_shift(a, s, i2);
        match spec_consume_name(s, i2) {
            None => {},
            Some((nm, i3)) => {
                lemma_skip_wsoc_end_shift(a, s, i3);
                lemma_skip_wsoc_end_bounds(s, i3);
                let i4 = skip_wsoc_end(s, i3);
                if i4 < s.len() {
                    assert(t2[a.len() + i4] == s[i4]);
                    let i5 = spec_skip(s, i4, '{');
                    lemma_skip_wsoc_end_shift(a, s, i5);
                    lemma_skip_wsoc_end_bounds(s, i5);
                    let i6 = skip_wsoc_end(s, i5);
                    lemma_spec_members_loop_shift(a, s, i6);
                    lemma_members_loop_range(s, i6);
                    match spec_members_loop(s, i6) {
                        None => {},
                        Some((ms, i7)) => {
                            lemma_skip_wsoc_end_shift(a, s, i7);
                            lemma_skip_wsoc_end_bounds(s, i7);
                            let i8 = skip_wsoc_end(s, i7);
                            if i8 < s.len() {
                                assert(t2[a.len() + i8] == s[i8]);
                                let i9 = spec_skip(s, i8, '}');
                                lemma_skip_wsoc_end_shift(a, s, i9);
                            }
                        },
                    }
                }
            },
        }
    }
}

/// Parsing a `oneof` block reads nothing before its start position.
#[verifier::rlimit(100)]
pub proof fn lemma_spec_consume_oneof_shift(a: Seq<char>, s: Seq<char>, k: int)
    requires
        0 <= k <= s.len(),
    ensures
        ({
            let r = spec_consume_oneof(s, k);
            let rr = spec_consume_oneof(a + s, a.len() + k);
            match r {
                None => rr is None,
                Some((ov, j)) => rr == Some((ov, a.len() + j)),
            }
        }),
    decreases s.len() - k, 2int,
{
    reveal_strlit("oneof");
    lemma_compound_header_advances(s, k, "oneof"@);
    let t2 = a + s;
    lemma_skip_wsoc_end_shift(a, s, k);
    lemma_skip_wsoc_end_bounds(s, k);
    let i0 = skip_wsoc_end(s, k);
    lemma_matches_at_shift(a, s, i0, "oneof"@);
    if matches_at(s, i0, "oneof"@) {
        let i1 = i0 + "oneof"@.len();
        lemma_skip_wsoc_end_shift(a, s, i1);
        lemma_skip_wsoc_end_bounds(s, i1);
        let i2 = skip_wsoc_end(s, i1);
        lemma_spec_consume_name_shift(a, s, i2);
        match spec_consume_name(s, i2) {
            None => {},
            Some((nm, i3)) => {
                lemma_skip_wsoc_end_shift(a, s, i3);
                lemma_skip_wsoc_end_bounds(s, i3);
                let i4 = skip_wsoc_end(s, i3);
                if i4 < s.len() {
                    assert(t2[a.len() + i4] == s[i4]);
                    let i5 = spec_skip(s, i4, '{');
                    lemma_skip_wsoc_end_shift(a, s, i5);
                    lemma_skip_wsoc_end_bounds(s, i5);
                    let i6 = skip_wsoc_end(s, i5);
                    lemma_spec_members_loop_shift(a, s, i6);
                    lemma_members_loop_range(s, i6);
                    match spec_members_loop(s, i6) {
                        None => {},
                        Some((ms, i7)) => {
                            lemma_skip_wsoc_end_shift(a, s, i7);
                            lemma_skip_wsoc_end_bounds(s, i7);
                            let i8 = skip_wsoc_end(s, i7);
                            if i8 < s.len() {
                                assert(t2[a.len() + i8] == s[i8]);
                                let i9 = spec_skip(s, i8, '}');
                                lemma_skip_wsoc_end_shift(a, s, i9);
                            }
                        },
                    }
                }
            },
        }
    }
}

} // verus!
