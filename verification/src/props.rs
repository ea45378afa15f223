//! Laws that tie the parser and the printer together: how indentation
//! grows with nesting, what a field without a qualifier looks like, that
//! comments are invisible both to the cursor's normalization step and to a
//! whole parse behind them, and that a parse that covers the whole input
//! leaves the cursor finished.
use vstd::prelude::*;

use crate::ast::EnumFieldV;
use crate::ast::MessageFieldV;
use crate::grammar::spec_consume_enum;
use crate::grammar::spec_consume_message;
use crate::grammar::spec_consume_oneof;
use crate::grammar::lemma_spec_consume_enum_range;
use crate::grammar::lemma_spec_consume_message_range;
use crate::grammar::lemma_spec_consume_oneof_range;
use crate::lex::at_ws;
use crate::lex::blank_from;
use crate::lex::is_comment_at;
use crate::lex::lemma_blank_from_iff_skip;
use crate::lex::lemma_skip_to_end_first;
use crate::lex::lemma_skip_wsoc_end_shift;
use crate::lex::skip_wsoc_end;
use crate::printer::dec_digits;
use crate::printer::print_enum_field;
use crate::printer::print_message_field;
use crate::printer::tabs;

verus! {

/// One more tab at the front for one more depth level.
proof fn lemma_tabs_unfold_front(d: int)
    requires
        0 <= d,
    ensures
        tabs(d + 1) == seq!['\t'] + tabs(d),
    decreases d,
{
    if d == 0 {
        assert(tabs(1) =~= seq!['\t'] + tabs(0));
    } else {
        lemma_tabs_unfold_front(d - 1);
        assert(tabs(d + 1) =~= seq!['\t'] + tabs(d));
    }
}

/// Nesting depth and indentation: printing a message field one level
/// deeper yields exactly the same line with one more tab character in
/// front. Together with the printers' definitions, which render every
/// nested block's contents at one level more than their parent's, each
/// additional level of nesting indents a leaf line by exactly one tab.
pub proof fn lemma_nesting_indents_message_field(f: MessageFieldV, d: int)
    requires
        0 <= d,
    ensures
        print_message_field(f, d + 1) == seq!['\t'] + print_message_field(f, d),
{
    lemma_tabs_unfold_front(d);
    assert(print_message_field(f, d + 1) =~= seq!['\t'] + print_message_field(f, d));
}

/// Nesting depth and indentation for enum fields, as for message fields.
pub proof fn lemma_nesting_indents_enum_field(f: EnumFieldV, d: int)
    requires
        0 <= d,
    ensures
        print_enum_field(f, d + 1) == seq!['\t'] + print_enum_field(f, d),
{
    lemma_tabs_unfold_front(d);
    assert(print_enum_field(f, d + 1) =~= seq!['\t'] + print_enum_field(f, d));
}

/// A field with no frequency prints with no qualifier token and no extra
/// space: after the indentation the line starts directly with the type
/// keyword.
pub proof fn lemma_frequency_omitted(f: MessageFieldV, d: int)
    requires
        f.frequency is None,
    ensures
        print_message_field(f, d) == tabs(d) + f.ty.spec_keyword() + " "@ + f.name + " "@
            + dec_digits(f.position as nat) + ";\n"@,
{
    assert(print_message_field(f, d) =~= tabs(d) + f.ty.spec_keyword() + " "@ + f.name + " "@
        + dec_digits(f.position as nat) + ";\n"@);
}

/// A `//` line comment: two slashes, a body free of newlines, and the
/// closing newline.
pub open spec fn is_comment_line(c: Seq<char>) -> bool {
    &&& c.len() >= 3
    &&& c[0] == '/'
    &&& c[1] == '/'
    &&& forall|x: int| 0 <= x < c.len() - 1 ==> c[x] != '\n'
    &&& c[c.len() - 1] == '\n'
}

/// Comment transparency: the cursor's normalization step runs between
/// every two grammar tokens, and a comment line inserted at such a point
/// is consumed whole. Skipping from the insertion point lands on the very
/// same character of the following text whether or not the comment line
/// stands there, so parsing is unaffected by comments between tokens.
pub proof fn lemma_comment_transparent(p: Seq<char>, c: Seq<char>, s: Seq<char>)
    requires
        is_comment_line(c),
    ensures
        skip_wsoc_end(p + c + s, p.len() as int) == p.len() + c.len() + skip_wsoc_end(s, 0),
        skip_wsoc_end(p + s, p.len() as int) == p.len() + skip_wsoc_end(s, 0),
{
    let t = p + c + s;
    assert(t.len() == p.len() + c.len() + s.len());
    assert(is_comment_at(t, p.len() as int)) by {
        assert(t[p.len() as int] == c[0]);
        assert(t[p.len() as int + 1] == c[1]);
    }
    assert(!at_ws(t, p.len() as int));
    let nl: int = p.len() + c.len() - 1;
    assert(t[nl] == c[c.len() - 1]);
    assert forall|x: int| p.len() <= x < nl implies t[x] != '\n' by {
        assert(t[x] == c[x - p.len()]);
    }
    lemma_skip_to_end_first(t, p.len() as int, '\n', nl);
    assert(skip_wsoc_end(t, p.len() as int) == skip_wsoc_end(t, nl));
    assert(at_ws(t, nl));
    assert(skip_wsoc_end(t, nl) == skip_wsoc_end(t, nl + 1));
    assert(p + c + s =~= (p + c) + s);
    lemma_skip_wsoc_end_shift(p + c, s, 0);
    lemma_skip_wsoc_end_shift(p, s, 0);
}

/// Whole-parse comment transparency for a comment line ahead of the
/// schema: parsing the input with a `//` comment line in front yields
/// exactly the AST of the input without it, every position moved past the
/// line; repeated use covers any number of leading comment lines. Inside
/// the schema, [`lemma_comment_transparent`] gives the same invisibility
/// for the cursor's normalization step, which runs between every two
/// grammar tokens.
pub proof fn lemma_comment_transparent_message(c: Seq<char>, t: Seq<char>)
    requires
        is_comment_line(c),
    ensures
        ({
            let r = spec_consume_message(t, 0);
            let rr = spec_consume_message(c + t, 0);
            match r {
                None => rr is None,
                Some((mv, j)) => rr == Some((mv, c.len() + j)),
            }
        }),
{
    lemma_comment_transparent(Seq::empty(), c, t);
    assert(Seq::<char>::empty() + c + t =~= c + t);
    assert(Seq::<char>::empty() + t =~= t);
    assert(skip_wsoc_end(c + t, 0) == c.len() + skip_wsoc_end(t, 0));
    crate::lex::lemma_skip_wsoc_end_shift(c, t, 0);
    assert(skip_wsoc_end(c + t, c.len() as int) == c.len() + skip_wsoc_end(t, 0));
    crate::grammar::lemma_spec_consume_message_shift(c, t, 0);
    assert(spec_consume_message(c + t, 0) == spec_consume_message(c + t, c.len() as int));
}

/// Whole-parse comment transparency ahead of a top-level `enum`.
pub proof fn lemma_comment_transparent_enum(c: Seq<char>, t: Seq<char>)
    requires
        is_comment_line(c),
    ensures
        ({
            let r = spec_consume_enum(t, 0);
            let rr = spec_consume_enum(c + t, 0);
            match r {
                None => rr is None,
                Some((ev, j)) => rr == Some((ev, c.len() + j)),
            }
        }),
{
    lemma_comment_transparent(Seq::empty(), c, t);
    assert(Seq::<char>::empty() + c + t =~= c + t);
    assert(Seq::<char>::empty() + t =~= t);
    assert(skip_wsoc_end(c + t, 0) == c.len() + skip_wsoc_end(t, 0));
    crate::lex::lemma_skip_wsoc_end_shift(c, t, 0);
    assert(skip_wsoc_end(c + t, c.len() as int) == c.len() + skip_wsoc_end(t, 0));
    crate::grammar::lemma_spec_consume_enum_shift(c, t, 0);
    assert(spec_consume_enum(c + t, 0) == spec_consume_enum(c + t, c.len() as int));
}

/// Exhaustive cursor: when a top-level `message` parse succeeds, the
/// cursor's final position is the end of the input exactly when nothing
/// but whitespace and comments followed the closing brace -- the parse's
/// own trailing skip has consumed them.
pub proof fn lemma_exhaustive_cursor_message(t: Seq<char>)
    ensures
        spec_consume_message(t, 0) matches Some((mv, j)) ==> (blank_from(t, j) <==> j
            == t.len()),
{
    lemma_spec_consume_message_range(t, 0);
    match spec_consume_message(t, 0) {
        None => {},
        Some((mv, j)) => {
            lemma_blank_from_iff_skip(t, j);
        },
    }
}

/// Exhaustive cursor for a top-level `oneof` parse.
pub proof fn lemma_exhaustive_cursor_oneof(t: Seq<char>)
    ensures
        spec_consume_oneof(t, 0) matches Some((ov, j)) ==> (blank_from(t, j) <==> j == t.len()),
{
    lemma_spec_consume_oneof_range(t, 0);
    match spec_consume_oneof(t, 0) {
        None => {},
        Some((ov, j)) => {
            lemma_blank_from_iff_skip(t, j);
        },
    }
}

/// Exhaustive cursor for a top-level `enum` parse.
pub proof fn lemma_exhaustive_cursor_enum(t: Seq<char>)
    ensures
        spec_consume_enum(t, 0) matches Some((ev, j)) ==> (blank_from(t, j) <==> j == t.len()),
{
    lemma_spec_consume_enum_range(t, 0);
    match spec_consume_enum(t, 0) {
        None => {},
        Some((ev, j)) => {
            lemma_blank_from_iff_skip(t, j);
        },
    }
}

} // verus!
