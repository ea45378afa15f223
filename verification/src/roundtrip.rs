//! The round-trip law: pretty-printing a well-formed AST and parsing the
//! result yields the very same AST.
//!
//! Well-formed means every name in the tree consists of name characters
//! (ASCII letters and underscores) only; an empty name is allowed. The AST
//! keeps each member kind in its own sequence, so although the printer
//! orders members by kind, the reparsed tree is equal to the original
//! outright.
use vstd::prelude::*;

use crate::ast::EnumFieldV;
use crate::ast::EnumV;
use crate::ast::MessageFieldV;
use crate::ast::MessageV;
use crate::ast::OneofV;
use crate::lex::at_ws;
use crate::lex::digit_val;
use crate::lex::digits_end;
use crate::lex::is_comment_at;
use crate::lex::is_digit_char;
use crate::lex::is_name_char;
use crate::lex::is_ws_char;
use crate::lex::lemma_skip_wsoc_end_bounds;
use crate::lex::matches_at;
use crate::lex::name_end;
use crate::lex::num_val;
use crate::lex::skip_wsoc_end;
use crate::printer::dec_digit_str;
use crate::printer::dec_digits;
use crate::printer::print_enum;
use crate::printer::print_enum_field;
use crate::printer::print_enum_fields;
use crate::printer::print_message;
use crate::printer::print_message_field;
use crate::printer::print_message_fields;
use crate::printer::print_messages;
use crate::printer::print_oneof;
use crate::printer::print_oneofs;
use crate::printer::print_enums;
use crate::printer::tabs;

verus! {

/// Every character of the name is a name character.
pub open spec fn wf_name(nm: Seq<char>) -> bool {
    forall|k: int| 0 <= k < nm.len() ==> is_name_char(#[trigger] nm[k])
}

/// A well-formed message field: its name is made of name characters.
pub open spec fn wf_msg_field(f: MessageFieldV) -> bool {
    wf_name(f.name)
}

/// A well-formed run of message fields.
pub open spec fn wf_msg_fields(fs: Seq<MessageFieldV>) -> bool {
    forall|i: int| 0 <= i < fs.len() ==> wf_msg_field(#[trigger] fs[i])
}

/// A well-formed run of enum fields: every name is made of name characters.
pub open spec fn wf_enum_fields(fs: Seq<EnumFieldV>) -> bool {
    forall|i: int| 0 <= i < fs.len() ==> wf_name(#[trigger] fs[i].name)
}

/// A well-formed enum: its name and all its member names are made of name
/// characters.
pub open spec fn wf_enum(e: EnumV) -> bool {
    &&& wf_name(e.name)
    &&& wf_enum_fields(e.fields)
}

/// A well-formed run of enums.
pub open spec fn wf_enums(es: Seq<EnumV>) -> bool {
    forall|i: int| 0 <= i < es.len() ==> wf_enum(#[trigger] es[i])
}

/// A well-formed message: every name anywhere in the tree is made of name
/// characters.
pub open spec fn wf_msg(m: MessageV) -> bool
    decreases m,
{
    &&& wf_name(m.name)
    &&& wf_msg_fields(m.fields)
    &&& wf_enums(m.enums)
    &&& wf_msgs(m.messages)
    &&& wf_oneofs(m.oneofs)
}

/// A well-formed run of messages.
pub open spec fn wf_msgs(ms: Seq<MessageV>) -> bool
    decreases ms,
{
    if ms.len() == 0 {
        true
    } else {
        wf_msgs(ms.subrange(0, ms.len() - 1)) && wf_msg(ms[ms.len() - 1])
    }
}

/// A well-formed oneof.
pub open spec fn wf_oneof(o: OneofV) -> bool
    decreases o,
{
    &&& wf_name(o.name)
    &&& wf_msg_fields(o.fields)
    &&& wf_enums(o.enums)
    &&& wf_msgs(o.messages)
    &&& wf_oneofs(o.oneofs)
}

/// A well-formed run of oneofs.
pub open spec fn wf_oneofs(os: Seq<OneofV>) -> bool
    decreases os,
{
    if os.len() == 0 {
        true
    } else {
        wf_oneofs(os.subrange(0, os.len() - 1)) && wf_oneof(os[os.len() - 1])
    }
}

/// Size of a message subtree, counting nested messages and oneofs; the
/// induction measure of the round-trip proof.
pub open spec fn msg_size(m: MessageV) -> nat
    decreases m, 1int,
{
    1 + msgs_size(m.messages) + oneofs_size(m.oneofs)
}

pub open spec fn msgs_size(ms: Seq<MessageV>) -> nat
    decreases ms, 2int,
{
    if ms.len() == 0 {
        0
    } else {
        msgs_size(ms.subrange(0, ms.len() - 1)) + msg_size(ms[ms.len() - 1])
    }
}

pub open spec fn oneof_size(o: OneofV) -> nat
    decreases o, 1int,
{
    1 + msgs_size(o.messages) + oneofs_size(o.oneofs)
}

pub open spec fn oneofs_size(os: Seq<OneofV>) -> nat
    decreases os, 2int,
{
    if os.len() == 0 {
        0
    } else {
        oneofs_size(os.subrange(0, os.len() - 1)) + oneof_size(os[os.len() - 1])
    }
}

/// Tabs are tabs: `d` of them, each one a tab character.
proof fn lemma_tabs_facts(d: int)
    requires
        0 <= d,
    ensures
        tabs(d).len() == d,
        forall|k: int| 0 <= k < d ==> tabs(d)[k] == '\t',
    decreases d,
{
    if d > 0 {
        lemma_tabs_facts(d - 1);
    }
}

/// Skipping whitespace and comments passes over any whitespace-only run.
proof fn lemma_skip_wsoc_ws_run(t: Seq<char>, x: int, y: int)
    requires
        0 <= x <= y <= t.len(),
        forall|k: int| x <= k < y ==> is_ws_char(#[trigger] t[k]),
    ensures
        skip_wsoc_end(t, x) == skip_wsoc_end(t, y),
    decreases y - x,
{
    if x < y {
        lemma_skip_wsoc_ws_run(t, x + 1, y);
    }
}

/// A position holding neither whitespace nor a comment is a fixed point of
/// the skip.
proof fn lemma_skip_wsoc_fixed(t: Seq<char>, x: int)
    requires
        !at_ws(t, x),
        !is_comment_at(t, x),
    ensures
        skip_wsoc_end(t, x) == x,
{
}

/// The head-first unfolding of a printed run of message fields.
proof fn lemma_print_message_fields_front(fs: Seq<MessageFieldV>, d: int)
    requires
        fs.len() > 0,
    ensures
        print_message_fields(fs, d) == print_message_field(fs[0], d) + print_message_fields(
            fs.subrange(1, fs.len() as int),
            d,
        ),
    decreases fs.len(),
{
    let rest = fs.subrange(1, fs.len() as int);
    if fs.len() == 1 {
        assert(fs.subrange(0, 0) =~= Seq::<MessageFieldV>::empty());
        assert(rest =~= Seq::<MessageFieldV>::empty());
        assert(print_message_fields(fs, d) =~= print_message_field(fs[0], d)
            + print_message_fields(rest, d));
    } else {
        let pre = fs.subrange(0, fs.len() - 1);
        lemma_print_message_fields_front(pre, d);
        assert(pre.subrange(1, pre.len() as int) =~= rest.subrange(0, rest.len() - 1));
        assert(pre[0] == fs[0]);
        assert(rest[rest.len() - 1] == fs[fs.len() - 1]);
        assert(print_message_fields(fs, d) =~= print_message_field(fs[0], d)
            + print_message_fields(rest, d));
    }
}

/// The head-first unfolding of a printed run of enum fields.
proof fn lemma_print_enum_fields_front(fs: Seq<EnumFieldV>, d: int)
    requires
        fs.len() > 0,
    ensures
        print_enum_fields(fs, d) == print_enum_field(fs[0], d) + print_enum_fields(
            fs.subrange(1, fs.len() as int),
            d,
        ),
    decreases fs.len(),
{
    let rest = fs.subrange(1, fs.len() as int);
    if fs.len() == 1 {
        assert(fs.subrange(0, 0) =~= Seq::<EnumFieldV>::empty());
        assert(rest =~= Seq::<EnumFieldV>::empty());
        assert(print_enum_fields(fs, d) =~= print_enum_field(fs[0], d) + print_enum_fields(
            rest,
            d,
        ));
    } else {
        let pre = fs.subrange(0, fs.len() - 1);
        lemma_print_enum_fields_front(pre, d);
        assert(pre.subrange(1, pre.len() as int) =~= rest.subrange(0, rest.len() - 1));
        assert(print_enum_fields(fs, d) =~= print_enum_field(fs[0], d) + print_enum_fields(
            rest,
            d,
        ));
    }
}

/// The head-first unfolding of a printed run of enums.
proof fn lemma_print_enums_front(es: Seq<EnumV>, d: int)
    requires
        es.len() > 0,
    ensures
        print_enums(es, d) == print_enum(es[0], d) + print_enums(
            es.subrange(1, es.len() as int),
            d,
        ),
    decreases es.len(),
{
    let rest = es.subrange(1, es.len() as int);
    if es.len() == 1 {
        assert(es.subrange(0, 0) =~= Seq::<EnumV>::empty());
        assert(rest =~= Seq::<EnumV>::empty());
        assert(print_enums(es, d) =~= print_enum(es[0], d) + print_enums(rest, d));
    } else {
        let pre = es.subrange(0, es.len() - 1);
        lemma_print_enums_front(pre, d);
        assert(pre.subrange(1, pre.len() as int) =~= rest.subrange(0, rest.len() - 1));
        assert(print_enums(es, d) =~= print_enum(es[0], d) + print_enums(rest, d));
    }
}

/// The head-first unfolding of a printed run of messages.
proof fn lemma_print_messages_front(ms: Seq<MessageV>, d: int)
    requires
        ms.len() > 0,
    ensures
        print_messages(ms, d) == print_message(ms[0], d) + print_messages(
            ms.subrange(1, ms.len() as int),
            d,
        ),
    decreases ms.len(),
{
    let rest = ms.subrange(1, ms.len() as int);
    if ms.len() == 1 {
        assert(ms.subrange(0, 0) =~= Seq::<MessageV>::empty());
        assert(rest =~= Seq::<MessageV>::empty());
        assert(print_messages(ms, d) =~= print_message(ms[0], d) + print_messages(rest, d));
    } else {
        let pre = ms.subrange(0, ms.len() - 1);
        lemma_print_messages_front(pre, d);
        assert(pre.subrange(1, pre.len() as int) =~= rest.subrange(0, rest.len() - 1));
        assert(print_messages(ms, d) =~= print_message(ms[0], d) + print_messages(rest, d));
    }
}

/// The head-first unfolding of a printed run of oneofs.
proof fn lemma_print_oneofs_front(os: Seq<OneofV>, d: int)
    requires
        os.len() > 0,
    ensures
        print_oneofs(os, d) == print_oneof(os[0], d) + print_oneofs(
            os.subrange(1, os.len() as int),
            d,
        ),
    decreases os.len(),
{
    let rest = os.subrange(1, os.len() as int);
    if os.len() == 1 {
        assert(os.subrange(0, 0) =~= Seq::<OneofV>::empty());
        assert(rest =~= Seq::<OneofV>::empty());
        assert(print_oneofs(os, d) =~= print_oneof(os[0], d) + print_oneofs(rest, d));
    } else {
        let pre = os.subrange(0, os.len() - 1);
        lemma_print_oneofs_front(pre, d);
        assert(pre.subrange(1, pre.len() as int) =~= rest.subrange(0, rest.len() - 1));
        assert(print_oneofs(os, d) =~= print_oneof(os[0], d) + print_oneofs(rest, d));
    }
}

/// A maximal run of name characters ends exactly at its first non-name
/// character.
proof fn lemma_name_end_run(t: Seq<char>, x: int, l: int)
    requires
        0 <= x,
        x + l < t.len(),
        0 <= l,
        forall|k: int| x <= k < x + l ==> is_name_char(#[trigger] t[k]),
        !is_name_char(t[x + l]),
    ensures
        name_end(t, x) == x + l,
    decreases l,
{
    if l > 0 {
        lemma_name_end_run(t, x + 1, l - 1);
    }
}

/// A maximal digit run ends exactly at its first non-digit character.
proof fn lemma_digits_end_run(t: Seq<char>, x: int, l: int)
    requires
        0 <= x,
        x + l < t.len(),
        0 <= l,
        forall|k: int| x <= k < x + l ==> is_digit_char(#[trigger] t[k]),
        !is_digit_char(t[x + l]),
    ensures
        digits_end(t, x) == x + l,
    decreases l,
{
    if l > 0 {
        lemma_digits_end_run(t, x + 1, l - 1);
    }
}

/// The decimal digit strings really are single digit characters with the
/// right values.
proof fn lemma_dec_digit_str_facts(d: nat)
    requires
        d < 10,
    ensures
        dec_digit_str(d).len() == 1,
        is_digit_char(dec_digit_str(d)[0]),
        digit_val(dec_digit_str(d)[0]) == d,
{
    reveal_strlit("0");
    reveal_strlit("1");
    reveal_strlit("2");
    reveal_strlit("3");
    reveal_strlit("4");
    reveal_strlit("5");
    reveal_strlit("6");
    reveal_strlit("7");
    reveal_strlit("8");
    reveal_strlit("9");
}

/// A printed number is all digit characters, at least one of them.
proof fn lemma_dec_digits_chars(n: nat)
    ensures
        dec_digits(n).len() >= 1,
        forall|k: int| 0 <= k < dec_digits(n).len() ==> is_digit_char(#[trigger] dec_digits(n)[k]),
    decreases n,
{
    if n < 10 {
        lemma_dec_digit_str_facts(n);
    } else {
        lemma_dec_digits_chars(n / 10);
        lemma_dec_digit_str_facts(n % 10);
    }
}

/// Reading a printed number back gives the number.
proof fn lemma_num_val_dec_digits(n: nat)
    requires
        n < 0x1_0000_0000,
    ensures
        num_val(dec_digits(n)) == n,
    decreases n,
{
    if n < 10 {
        lemma_dec_digit_str_facts(n);
        let s = dec_digits(n);
        assert(s.subrange(0, 0) =~= Seq::<char>::empty());
        assert(num_val(s) == (num_val(s.subrange(0, 0)) * 10 + digit_val(s[0]))
            % 0x1_0000_0000);
    } else {
        lemma_num_val_dec_digits(n / 10);
        lemma_dec_digit_str_facts(n % 10);
        let s = dec_digits(n);
        assert(s == dec_digits(n / 10) + dec_digit_str(n % 10));
        assert(s.subrange(0, s.len() - 1) =~= dec_digits(n / 10));
        assert(s[s.len() - 1] == dec_digit_str(n % 10)[0]);
        assert(num_val(s) == (num_val(dec_digits(n / 10)) * 10 + digit_val(s[s.len() - 1]))
            % 0x1_0000_0000);
        assert((n / 10) * 10 + n % 10 == n);
    }
}

/// Each character of a matched literal stands in the text.
proof fn lemma_matches_chars(t: Seq<char>, c: int, x: Seq<char>)
    requires
        matches_at(t, c, x),
    ensures
        forall|k: int| 0 <= k < x.len() ==> t[c + k] == #[trigger] x[k],
{
    assert forall|k: int| 0 <= k < x.len() implies t[c + k] == #[trigger] x[k] by {
        assert(t.subrange(c, c + x.len())[k] == t[c + k]);
    }
}

/// A literal that occurs inside a matched literal is matched at its offset.
proof fn lemma_matches_at_sub(t: Seq<char>, c: int, x: Seq<char>, off: int, y: Seq<char>)
    requires
        matches_at(t, c, x),
        0 <= off,
        off + y.len() <= x.len(),
        forall|k: int| 0 <= k < y.len() ==> x[off + k] == #[trigger] y[k],
    ensures
        matches_at(t, c + off, y),
{
    lemma_matches_chars(t, c, x);
    assert(t.subrange(c + off, c + off + y.len()) =~= y);
}

/// A literal whose character at `k` differs from the text cannot match.
proof fn lemma_not_matches(t: Seq<char>, c: int, p: Seq<char>, k: int)
    requires
        0 <= k < p.len(),
        0 <= c,
        c + k < t.len(),
        t[c + k] != p[k],
    ensures
        !matches_at(t, c, p),
{
    if matches_at(t, c, p) {
        assert(t.subrange(c, c + p.len())[k] == t[c + k]);
    }
}

/// Parsing the printed form of one message field, with the indentation
/// already skipped: the cursor stands (after its own leading skip) at the
/// first keyword of the field's line, reads back exactly the field, and
/// ends just past the line's newline with any following whitespace and
/// comments consumed.
#[verifier::rlimit(100)]
proof fn lemma_parse_print_message_field(t: Seq<char>, i: int, f: MessageFieldV)
    requires
        wf_msg_field(f),
        0 <= i <= t.len(),
        matches_at(t, skip_wsoc_end(t, i), print_message_field(f, 0)),
    ensures
        crate::grammar::spec_consume_message_field(t, i) == Some(
            (f, skip_wsoc_end(t, skip_wsoc_end(t, i) + print_message_field(f, 0).len())),
        ),
{
    reveal_strlit("optional");
    reveal_strlit("repeated");
    reveal_strlit("required");
    reveal_strlit("string");
    reveal_strlit("int32");
    reveal_strlit(" ");
    reveal_strlit(";\n");
    lemma_skip_wsoc_end_bounds(t, i);
    let c = skip_wsoc_end(t, i);
    let core = print_message_field(f, 0);
    let fp: Seq<char> = match f.frequency {
        Some(fr) => fr.spec_keyword() + " "@,
        None => Seq::empty(),
    };
    let tk = f.ty.spec_keyword();
    let nm = f.name;
    let dg = dec_digits(f.position as nat);
    lemma_dec_digits_chars(f.position as nat);
    assert(core =~= fp + tk + " "@ + nm + " "@ + dg + ";\n"@);
    assert(core.len() == fp.len() + tk.len() + nm.len() + dg.len() + 4);
    lemma_matches_chars(t, c, core);
    assert(c + core.len() <= t.len());

    // the optional frequency keyword
    let fpk: int = match f.frequency {
        Some(fr) => fr.spec_keyword().len() as int,
        None => 0,
    };
    match f.frequency {
        Some(fr) => {
            lemma_matches_at_sub(t, c, core, 0, fr.spec_keyword());
            assert(core[0] == fp[0]);
            assert(fp[0] == fr.spec_keyword()[0]);
            assert(t[c + 0] == core[0]);
            match fr {
                crate::ast::Frequency::Optional => {},
                crate::ast::Frequency::Repeated => {
                    assert(t[c + 0] == 'r');
                    lemma_not_matches(t, c, "optional"@, 0);
                },
                crate::ast::Frequency::Required => {
                    assert(t[c + 0] == 'r');
                    lemma_not_matches(t, c, "optional"@, 0);
                    assert(fp[2] == fr.spec_keyword()[2]);
                    assert(t[c + 2] == core[2]);
                    assert(t[c + 2] == 'q');
                    lemma_not_matches(t, c, "repeated"@, 2);
                },
            }
            assert(crate::grammar::spec_consume_frequency(t, c) == (f.frequency, c + fpk));
        },
        None => {
            assert(core[0] == tk[0]);
            assert(t[c + 0] == core[0]);
            assert(t[c + 0] == 's' || t[c + 0] == 'i');
            lemma_not_matches(t, c, "optional"@, 0);
            lemma_not_matches(t, c, "repeated"@, 0);
            lemma_not_matches(t, c, "required"@, 0);
            assert(crate::grammar::spec_consume_frequency(t, c) == (f.frequency, c));
        },
    }

    // the space after the frequency, if one was printed
    let c2: int = c + fp.len();
    assert(skip_wsoc_end(t, c + fpk) == c2) by {
        match f.frequency {
            Some(fr) => {
                assert(t[c + fpk] == core[fpk]);
                assert(core[fpk] == ' ');
                assert(t[c2] == core[fp.len() as int]);
                assert(!is_ws_char(t[c2]) && t[c2] != '/');
                lemma_skip_wsoc_ws_run(t, c + fpk, c2);
                lemma_skip_wsoc_fixed(t, c2);
            },
            None => {
                assert(t[c2] == core[0]);
                assert(!is_ws_char(t[c2]) && t[c2] != '/');
                lemma_skip_wsoc_fixed(t, c2);
            },
        }
    }

    // the type keyword
    lemma_matches_at_sub(t, c, core, fp.len() as int, tk);
    lemma_matches_chars(t, c2, tk);
    match f.ty {
        crate::ast::Type::String => {},
        crate::ast::Type::Int32 => {
            assert(tk[0] == 'i');
            assert(t[c2 + 0] == tk[0]);
            lemma_not_matches(t, c2, "string"@, 0);
        },
    }
    let c3: int = c2 + tk.len();
    assert(crate::grammar::spec_consume_type(t, c2) == Some((f.ty, c3)));

    // the space, the name, the space: the leading skip of the name
    // consumes one space, or both when the name is empty
    let nstart: int = c3 + 1;
    let nend: int = nstart + nm.len();
    assert(t[c3] == core[c3 - c]) by {
        assert(c3 - c == fp.len() + tk.len());
    }
    assert(t[c3] == ' ');
    assert forall|k: int| nstart <= k < nend implies is_name_char(#[trigger] t[k]) by {
        assert(t[k] == core[k - c]);
        assert(core[k - c] == nm[k - nstart]);
    }
    assert(t[nend] == ' ') by {
        assert(t[nend] == core[nend - c]);
        assert(core[nend - c] == ' ');
    }
    let ds: int = nend + 1;
    assert forall|k: int| ds <= k < ds + dg.len() implies is_digit_char(#[trigger] t[k]) by {
        assert(t[k] == core[k - c]);
        assert(core[k - c] == dg[k - ds]);
    }
    assert(!is_ws_char(t[ds]) && t[ds] != '/') by {
        assert(is_digit_char(t[ds]));
    }
    let i4 = skip_wsoc_end(t, c3);
    assert(i4 == if nm.len() > 0 { nstart } else { ds }) by {
        if nm.len() > 0 {
            assert(!is_ws_char(t[nstart]) && t[nstart] != '/') by {
                assert(is_name_char(t[nstart]));
            }
            lemma_skip_wsoc_ws_run(t, c3, nstart);
            lemma_skip_wsoc_fixed(t, nstart);
        } else {
            lemma_skip_wsoc_ws_run(t, c3, ds);
            lemma_skip_wsoc_fixed(t, ds);
        }
    }
    lemma_skip_wsoc_end_bounds(t, c3);
    assert(skip_wsoc_end(t, i4) == i4);
    if nm.len() > 0 {
        lemma_name_end_run(t, nstart, nm.len() as int);
        assert forall|k: int| 0 <= k < nm.len() implies t.subrange(nstart, nend)[k] == #[trigger] nm[k] by {
            assert(t[nstart + k] == core[nstart - c + k]);
            assert(core[nstart - c + k] == nm[k]);
        }
        assert(t.subrange(nstart, nend) =~= nm);
    } else {
        assert(!is_name_char(t[ds]));
        assert(name_end(t, ds) == ds);
        assert(t.subrange(ds, ds) =~= nm);
    }
    assert(crate::grammar::spec_consume_name(t, i4) == Some((nm, nend_pos(nm, nstart, ds))))
        by {
        if nm.len() > 0 {
            assert(name_end(t, nstart) == nend);
        }
    }
    let ne: int = nend_pos(nm, nstart, ds);

    // between name and number: skip one space (none when the name was
    // empty), ignore the absent `=`, and land on the first digit
    assert(skip_wsoc_end(t, ne) == ds) by {
        if nm.len() > 0 {
            lemma_skip_wsoc_ws_run(t, ne, ds);
            lemma_skip_wsoc_fixed(t, ds);
        } else {
            lemma_skip_wsoc_fixed(t, ds);
        }
    }
    assert(ds < t.len());
    assert(t[ds] != '=');
    assert(crate::grammar::spec_skip(t, ds, '=') == ds);

    // the number
    let de: int = ds + dg.len();
    assert(t[de] == ';') by {
        assert(t[de] == core[de - c]);
    }
    assert(!is_digit_char(t[de]));
    lemma_digits_end_run(t, ds, dg.len() as int);
    assert forall|k: int| 0 <= k < dg.len() implies t.subrange(ds, de)[k] == #[trigger] dg[k] by {
        assert(t[ds + k] == core[ds - c + k]);
        assert(core[ds - c + k] == dg[k]);
    }
    assert(t.subrange(ds, de) =~= dg);
    lemma_num_val_dec_digits(f.position as nat);
    assert(crate::grammar::spec_consume_number(t, ds) == Some((f.position, de)));

    // the semicolon and the newline
    assert(!is_ws_char(t[de]) && t[de] != '/');
    lemma_skip_wsoc_fixed(t, de);
    assert(crate::grammar::spec_skip(t, de, ';') == de + 1);
    assert(t[de + 1] == '\n') by {
        assert(t[de + 1] == core[de + 1 - c]);
    }
    assert(de + 2 == c + core.len());
    lemma_skip_wsoc_ws_run(t, de + 1, de + 2);
    assert(skip_wsoc_end(t, de + 1) == skip_wsoc_end(t, c + core.len()));
}

/// Where the name run ends: past the name, or at the digits when the name
/// is empty (the cursor's leading skip then consumed both spaces at once).
spec fn nend_pos(nm: Seq<char>, nstart: int, ds: int) -> int {
    if nm.len() > 0 {
        nstart + nm.len()
    } else {
        ds
    }
}

/// A field line at depth `d` is the indentation followed by the line at
/// depth zero.
proof fn lemma_print_message_field_split(f: MessageFieldV, d: int)
    requires
        0 <= d,
    ensures
        print_message_field(f, d) == tabs(d) + print_message_field(f, 0),
        print_message_field(f, d).len() == d + print_message_field(f, 0).len(),
{
    lemma_tabs_facts(d);
    assert(print_message_field(f, d) =~= tabs(d) + print_message_field(f, 0));
}

/// Parsing the printed form of one enum field from the start of its line:
/// the parse reads back exactly the field and ends just past the line's
/// newline, with any following whitespace and comments consumed. The
/// cursor never stops before the line's own `=`.
#[verifier::rlimit(100)]
proof fn lemma_parse_print_enum_field(t: Seq<char>, q: int, f: EnumFieldV, d: int)
    requires
        wf_name(f.name),
        0 <= q,
        0 <= d,
        matches_at(t, q, print_enum_field(f, d)),
    ensures
        crate::grammar::spec_consume_enum_field(t, q) == Some(
            (f, skip_wsoc_end(t, q + print_enum_field(f, d).len())),
        ),
        q <= skip_wsoc_end(t, q) < q + print_enum_field(f, d).len(),
{
    reveal_strlit(" = ");
    reveal_strlit(";
");
    lemma_tabs_facts(d);
    let line = print_enum_field(f, d);
    let nm = f.name;
    let dg = dec_digits(f.position as nat);
    lemma_dec_digits_chars(f.position as nat);
    assert(line =~= tabs(d) + nm + " = "@ + dg + ";
"@);
    assert(line.len() == d + nm.len() + 3 + dg.len() + 2);
    lemma_matches_chars(t, q, line);
    assert(q + line.len() <= t.len());

    let ns: int = q + d;
    let eq_pos: int = ns + nm.len() + 1;
    let ds: int = eq_pos + 2;
    let de: int = ds + dg.len();
    assert forall|k: int| q <= k < ns implies is_ws_char(#[trigger] t[k]) by {
        assert(t[k] == line[k - q]);
        assert(line[k - q] == tabs(d)[k - q]);
    }
    assert forall|k: int| ns <= k < ns + nm.len() implies is_name_char(#[trigger] t[k]) by {
        assert(t[k] == line[k - q]);
        assert(line[k - q] == nm[k - ns]);
    }
    assert(t[ns + nm.len()] == ' ') by {
        assert(t[ns + nm.len()] == line[ns + nm.len() - q]);
    }
    assert(t[eq_pos] == '=') by {
        assert(t[eq_pos] == line[eq_pos - q]);
    }
    assert(t[eq_pos + 1] == ' ') by {
        assert(t[eq_pos + 1] == line[eq_pos + 1 - q]);
    }
    assert forall|k: int| ds <= k < de implies is_digit_char(#[trigger] t[k]) by {
        assert(t[k] == line[k - q]);
        assert(line[k - q] == dg[k - ds]);
    }
    assert(t[de] == ';') by {
        assert(t[de] == line[de - q]);
    }
    assert(t[de + 1] == '\n') by {
        assert(t[de + 1] == line[de + 1 - q]);
    }
    assert(!is_ws_char(t[ds]) && t[ds] != '/') by {
        assert(is_digit_char(t[ds]));
    }

    // the leading skip of the name passes the tabs, and when the name is
    // empty also the space before the `=`
    let p = skip_wsoc_end(t, q);
    assert(p == if nm.len() > 0 { ns } else { eq_pos }) by {
        if nm.len() > 0 {
            assert(!is_ws_char(t[ns]) && t[ns] != '/') by {
                assert(is_name_char(t[ns]));
            }
            lemma_skip_wsoc_ws_run(t, q, ns);
            lemma_skip_wsoc_fixed(t, ns);
        } else {
            lemma_skip_wsoc_ws_run(t, q, eq_pos);
            lemma_skip_wsoc_fixed(t, eq_pos);
        }
    }
    assert(skip_wsoc_end(t, p) == p);
    let ne: int = if nm.len() > 0 { ns + nm.len() } else { eq_pos };
    if nm.len() > 0 {
        lemma_name_end_run(t, ns, nm.len() as int);
        assert forall|k: int| 0 <= k < nm.len() implies t.subrange(ns, ns + nm.len())[k]
            == #[trigger] nm[k] by {
            assert(t[ns + k] == line[ns - q + k]);
            assert(line[ns - q + k] == nm[k]);
        }
        assert(t.subrange(ns, ns + nm.len()) =~= nm);
    } else {
        assert(!is_name_char(t[eq_pos]));
        assert(name_end(t, eq_pos) == eq_pos);
        assert(t.subrange(eq_pos, eq_pos) =~= nm);
    }
    assert(crate::grammar::spec_consume_name(t, q) == Some((nm, ne)));

    // the `=` between the spaces
    assert(skip_wsoc_end(t, ne) == eq_pos) by {
        assert(!is_ws_char(t[eq_pos]) && t[eq_pos] != '/');
        if nm.len() > 0 {
            lemma_skip_wsoc_ws_run(t, ne, eq_pos);
        }
        lemma_skip_wsoc_fixed(t, eq_pos);
    }
    assert(eq_pos < t.len());
    assert(crate::grammar::spec_skip(t, eq_pos, '=') == eq_pos + 1);
    assert(skip_wsoc_end(t, eq_pos + 1) == ds) by {
        lemma_skip_wsoc_ws_run(t, eq_pos + 1, ds);
        lemma_skip_wsoc_fixed(t, ds);
    }

    // the number, the semicolon, the newline
    assert(!is_digit_char(t[de]));
    lemma_digits_end_run(t, ds, dg.len() as int);
    assert forall|k: int| 0 <= k < dg.len() implies t.subrange(ds, de)[k] == #[trigger] dg[k] by {
        assert(t[ds + k] == line[ds - q + k]);
        assert(line[ds - q + k] == dg[k]);
    }
    assert(t.subrange(ds, de) =~= dg);
    lemma_num_val_dec_digits(f.position as nat);
    assert(crate::grammar::spec_consume_number(t, ds) == Some((f.position, de)));
    assert(!is_ws_char(t[de]) && t[de] != '/');
    lemma_skip_wsoc_fixed(t, de);
    assert(crate::grammar::spec_skip(t, de, ';') == de + 1);
    assert(de + 2 == q + line.len());
    lemma_skip_wsoc_ws_run(t, de + 1, de + 2);
    assert(skip_wsoc_end(t, de + 1) == skip_wsoc_end(t, q + line.len()));
}

/// Parsing the printed lines of an enum body, up to the closing brace that
/// follows them.
proof fn lemma_parse_print_enum_fields_loop(t: Seq<char>, q: int, fs: Seq<EnumFieldV>, d: int)
    requires
        wf_enum_fields(fs),
        0 <= q,
        0 <= d,
        matches_at(t, q, print_enum_fields(fs, d)),
        q + print_enum_fields(fs, d).len() < t.len(),
        t[q + print_enum_fields(fs, d).len()] == '}',
    ensures
        crate::grammar::spec_enum_fields_loop(t, skip_wsoc_end(t, q)) == Some(
            (fs, q + print_enum_fields(fs, d).len()),
        ),
    decreases fs.len(),
{
    let tl = print_enum_fields(fs, d).len();
    if fs.len() == 0 {
        assert(!is_ws_char(t[q]) && t[q] != '/');
        lemma_skip_wsoc_fixed(t, q);
        assert(crate::grammar::spec_enum_fields_loop(t, q) == Some(
            (Seq::<EnumFieldV>::empty(), q),
        ));
        assert(fs =~= Seq::<EnumFieldV>::empty());
    } else {
        lemma_print_enum_fields_front(fs, d);
        let line = print_enum_field(fs[0], d);
        let rest = fs.subrange(1, fs.len() as int);
        let restt = print_enum_fields(rest, d);
        let q1 = q + line.len();
        lemma_matches_at_sub(t, q, print_enum_fields(fs, d), 0, line);
        lemma_matches_at_sub(t, q, print_enum_fields(fs, d), line.len() as int, restt);
        lemma_parse_print_enum_field(t, q, fs[0], d);
        let p = skip_wsoc_end(t, q);
        lemma_skip_wsoc_end_bounds(t, q);
        assert(p < t.len());
        assert(t[p] != '}') by {
            assert(t[p] == line[p - q]);
            lemma_matches_chars(t, q, line);
            lemma_line_has_no_brace(fs[0], d, p - q);
        }
        assert(skip_wsoc_end(t, p) == p);
        assert(crate::grammar::spec_consume_enum_field(t, p)
            == crate::grammar::spec_consume_enum_field(t, q));
        let r0 = skip_wsoc_end(t, q1);
        crate::lex::lemma_skip_wsoc_end_range(t, q1);
        assert(skip_wsoc_end(t, r0) == r0) by {
            lemma_skip_wsoc_end_bounds(t, q1);
        }
        assert(p < q1 && q1 <= r0 && r0 <= t.len());
        assert forall|i: int| 0 <= i < rest.len() implies wf_name(#[trigger] rest[i].name) by {
            assert(rest[i] == fs[i + 1]);
        }
        lemma_parse_print_enum_fields_loop(t, q1, rest, d);
        assert(skip_wsoc_end(t, q1) == r0);
        assert(crate::grammar::spec_enum_fields_loop(t, r0) == Some((rest, q1 + restt.len())));
        assert(seq![fs[0]] + rest =~= fs);
        assert(q1 + restt.len() == q + tl);
    }
}

/// Parsing the printed form of an `enum` block: the cursor stands (after
/// its own leading skip) at the `enum` keyword, reads back exactly the
/// enum, and ends just past the closing brace with any following
/// whitespace and comments consumed.
#[verifier::rlimit(100)]
proof fn lemma_parse_print_enum(t: Seq<char>, i: int, e: EnumV, d: int)
    requires
        wf_enum(e),
        0 <= i <= t.len(),
        0 <= d,
        matches_at(t, skip_wsoc_end(t, i), print_enum(e, d)),
    ensures
        crate::grammar::spec_consume_enum(t, i) == Some(
            (e, skip_wsoc_end(t, skip_wsoc_end(t, i) + print_enum(e, d).len())),
        ),
{
    reveal_strlit("enum ");
    reveal_strlit("enum");
    reveal_strlit(" {\n");
    reveal_strlit("}");
    lemma_skip_wsoc_end_bounds(t, i);
    let c = skip_wsoc_end(t, i);
    let blk = print_enum(e, d);
    let nm = e.name;
    let ft = print_enum_fields(e.fields, d + 1);
    assert(blk =~= "enum "@ + nm + " {\n"@ + ft + "}"@);
    assert(blk.len() == 5 + nm.len() + 3 + ft.len() + 1);
    lemma_matches_chars(t, c, blk);
    assert(c + blk.len() <= t.len());

    // the keyword
    assert forall|k: int| 0 <= k < 4 implies "enum"@[k] == #[trigger] blk[k] by {
        assert(blk[k] == "enum "@[k]);
    }
    lemma_matches_at_sub(t, c, blk, 0, "enum"@);
    assert(matches_at(t, c, "enum"@));

    // the name between the space and the opening brace
    let ns: int = c + 5;
    let bp: int = ns + nm.len() + 1;
    assert(t[c + 4] == ' ') by {
        assert(t[c + 4] == blk[4]);
    }
    assert forall|k: int| ns <= k < ns + nm.len() implies is_name_char(#[trigger] t[k]) by {
        assert(t[k] == blk[k - c]);
        assert(blk[k - c] == nm[k - ns]);
    }
    assert(t[ns + nm.len()] == ' ') by {
        assert(t[ns + nm.len()] == blk[ns + nm.len() - c]);
    }
    assert(t[bp] == '{') by {
        assert(t[bp] == blk[bp - c]);
    }
    assert(t[bp + 1] == '\n') by {
        assert(t[bp + 1] == blk[bp + 1 - c]);
    }
    let ne: int = if nm.len() > 0 {
        ns + nm.len()
    } else {
        bp
    };
    assert(skip_wsoc_end(t, c + 4) == if nm.len() > 0 { ns } else { bp }) by {
        if nm.len() > 0 {
            assert(!is_ws_char(t[ns]) && t[ns] != '/') by {
                assert(is_name_char(t[ns]));
            }
            lemma_skip_wsoc_ws_run(t, c + 4, ns);
            lemma_skip_wsoc_fixed(t, ns);
        } else {
            assert(!is_ws_char(t[bp]) && t[bp] != '/');
            lemma_skip_wsoc_ws_run(t, c + 4, bp);
            lemma_skip_wsoc_fixed(t, bp);
        }
    }
    if nm.len() > 0 {
        lemma_name_end_run(t, ns, nm.len() as int);
        assert forall|k: int| 0 <= k < nm.len() implies t.subrange(ns, ns + nm.len())[k]
            == #[trigger] nm[k] by {
            assert(t[ns + k] == blk[ns - c + k]);
            assert(blk[ns - c + k] == nm[k]);
        }
        assert(t.subrange(ns, ns + nm.len()) =~= nm);
    } else {
        assert(!is_name_char(t[bp]));
        assert(name_end(t, bp) == bp);
        assert(t.subrange(bp, bp) =~= nm);
    }
    assert(skip_wsoc_end(t, skip_wsoc_end(t, c + 4)) == skip_wsoc_end(t, c + 4)) by {
        lemma_skip_wsoc_end_bounds(t, c + 4);
    }
    assert(crate::grammar::spec_consume_name(t, c + 4) == Some((nm, ne)));

    // the opening brace
    assert(skip_wsoc_end(t, ne) == bp) by {
        assert(!is_ws_char(t[bp]) && t[bp] != '/');
        if nm.len() > 0 {
            lemma_skip_wsoc_ws_run(t, ne, bp);
        }
        lemma_skip_wsoc_fixed(t, bp);
    }
    assert(bp < t.len());
    assert(crate::grammar::spec_skip(t, bp, '{') == bp + 1);

    // the body lines and the closing brace
    let fstart: int = bp + 2;
    let fend: int = fstart + ft.len();
    assert(t[fend] == '}') by {
        assert(t[fend] == blk[fend - c]);
    }
    assert(fend < t.len());
    lemma_matches_at_sub(t, c, blk, fstart - c, ft);
    lemma_parse_print_enum_fields_loop(t, fstart, e.fields, d + 1);
    assert(skip_wsoc_end(t, bp + 1) == skip_wsoc_end(t, fstart)) by {
        lemma_skip_wsoc_ws_run(t, bp + 1, fstart);
    }
    let lp = skip_wsoc_end(t, fstart);
    assert(skip_wsoc_end(t, lp) == lp) by {
        lemma_skip_wsoc_end_bounds(t, fstart);
    }
    assert(crate::grammar::spec_enum_fields_loop(t, lp) == Some((e.fields, fend)));
    assert(!is_ws_char(t[fend]) && t[fend] != '/');
    lemma_skip_wsoc_fixed(t, fend);
    assert(crate::grammar::spec_consume_enum_fields(t, skip_wsoc_end(t, bp + 1)) == Some(
        (e.fields, fend),
    ));
    assert(crate::grammar::spec_skip(t, fend, '}') == fend + 1);
    assert(fend + 1 == c + blk.len());
}

/// No character of a printed enum-field line is a closing brace.
proof fn lemma_line_has_no_brace(f: EnumFieldV, d: int, k: int)
    requires
        0 <= d,
        wf_name(f.name),
        0 <= k < print_enum_field(f, d).len(),
    ensures
        print_enum_field(f, d)[k] != '}',
{
    reveal_strlit(" = ");
    reveal_strlit(";
");
    lemma_tabs_facts(d);
    lemma_dec_digits_chars(f.position as nat);
    let line = print_enum_field(f, d);
    let nm = f.name;
    let dg = dec_digits(f.position as nat);
    assert(line =~= tabs(d) + nm + " = "@ + dg + ";
"@);
    if k < d {
        assert(line[k] == tabs(d)[k]);
    } else if k < d + nm.len() {
        assert(line[k] == nm[k - d]);
        assert(is_name_char(nm[k - d]));
    } else if k < d + nm.len() + 3 {
        assert(line[k] == " = "@[k - d - nm.len()]);
    } else if k < d + nm.len() + 3 + dg.len() {
        assert(line[k] == dg[k - d - nm.len() - 3]);
        assert(is_digit_char(line[k]));
    } else {
        assert(line[k] == ";
"@[k - d - nm.len() - 3 - dg.len()]);
    }
}

/// Head decomposition of the size of a message run.
proof fn lemma_msgs_size_front(ms: Seq<MessageV>)
    requires
        ms.len() > 0,
    ensures
        msgs_size(ms) == msg_size(ms[0]) + msgs_size(ms.subrange(1, ms.len() as int)),
    decreases ms.len(),
{
    let rest = ms.subrange(1, ms.len() as int);
    if ms.len() == 1 {
        assert(ms.subrange(0, 0) =~= Seq::<MessageV>::empty());
        assert(rest =~= Seq::<MessageV>::empty());
    } else {
        let pre = ms.subrange(0, ms.len() - 1);
        lemma_msgs_size_front(pre);
        assert(pre.subrange(1, pre.len() as int) =~= rest.subrange(0, rest.len() - 1));
        assert(pre[0] == ms[0]);
        assert(rest[rest.len() - 1] == ms[ms.len() - 1]);
    }
}

/// Head decomposition of the size of a oneof run.
proof fn lemma_oneofs_size_front(os: Seq<OneofV>)
    requires
        os.len() > 0,
    ensures
        oneofs_size(os) == oneof_size(os[0]) + oneofs_size(os.subrange(1, os.len() as int)),
    decreases os.len(),
{
    let rest = os.subrange(1, os.len() as int);
    if os.len() == 1 {
        assert(os.subrange(0, 0) =~= Seq::<OneofV>::empty());
        assert(rest =~= Seq::<OneofV>::empty());
    } else {
        let pre = os.subrange(0, os.len() - 1);
        lemma_oneofs_size_front(pre);
        assert(pre.subrange(1, pre.len() as int) =~= rest.subrange(0, rest.len() - 1));
        assert(pre[0] == os[0]);
        assert(rest[rest.len() - 1] == os[os.len() - 1]);
    }
}

/// Head decomposition of well-formedness of a message run.
proof fn lemma_wf_msgs_front(ms: Seq<MessageV>)
    requires
        ms.len() > 0,
        wf_msgs(ms),
    ensures
        wf_msg(ms[0]),
        wf_msgs(ms.subrange(1, ms.len() as int)),
    decreases ms.len(),
{
    let rest = ms.subrange(1, ms.len() as int);
    if ms.len() == 1 {
        assert(rest =~= Seq::<MessageV>::empty());
    } else {
        let pre = ms.subrange(0, ms.len() - 1);
        lemma_wf_msgs_front(pre);
        assert(pre.subrange(1, pre.len() as int) =~= rest.subrange(0, rest.len() - 1));
        assert(pre[0] == ms[0]);
        assert(rest[rest.len() - 1] == ms[ms.len() - 1]);
    }
}

/// Head decomposition of well-formedness of a oneof run.
proof fn lemma_wf_oneofs_front(os: Seq<OneofV>)
    requires
        os.len() > 0,
        wf_oneofs(os),
    ensures
        wf_oneof(os[0]),
        wf_oneofs(os.subrange(1, os.len() as int)),
    decreases os.len(),
{
    let rest = os.subrange(1, os.len() as int);
    if os.len() == 1 {
        assert(rest =~= Seq::<OneofV>::empty());
    } else {
        let pre = os.subrange(0, os.len() - 1);
        lemma_wf_oneofs_front(pre);
        assert(pre.subrange(1, pre.len() as int) =~= rest.subrange(0, rest.len() - 1));
        assert(pre[0] == os[0]);
        assert(rest[rest.len() - 1] == os[os.len() - 1]);
    }
}

/// A position where a field's printed line begins (indentation already
/// skipped) passes the field-start lookahead, and the lookaheads for the
/// three block keywords fail there.
#[verifier::rlimit(100)]
proof fn lemma_field_core_dispatch(t: Seq<char>, p: int, f: MessageFieldV)
    requires
        matches_at(t, p, print_message_field(f, 0)),
    ensures
        crate::grammar::starts_field(t, p),
        !at_ws(t, p),
        t[p] != '/',
        t[p] != '}',
        print_message_field(f, 0).len() >= 9,
{
    reveal_strlit("optional");
    reveal_strlit("repeated");
    reveal_strlit("required");
    reveal_strlit("string");
    reveal_strlit("int32");
    reveal_strlit(" ");
    reveal_strlit(";\n");
    lemma_dec_digits_chars(f.position as nat);
    let core = print_message_field(f, 0);
    let fp: Seq<char> = match f.frequency {
        Some(fr) => fr.spec_keyword() + " "@,
        None => Seq::empty(),
    };
    let tk = f.ty.spec_keyword();
    assert(core =~= fp + tk + " "@ + f.name + " "@ + dec_digits(f.position as nat) + ";\n"@);
    lemma_matches_chars(t, p, core);
    let kws = crate::grammar::field_start_kws();
    assert(kws.len() == 5);
    assert(kws[0] == "string"@);
    assert(kws[1] == "int32"@);
    assert(kws[2] == "optional"@);
    assert(kws[3] == "repeated"@);
    assert(kws[4] == "required"@);
    match f.frequency {
        Some(fr) => {
            lemma_matches_at_sub(t, p, core, 0, fr.spec_keyword());
            assert(core[0] == fr.spec_keyword()[0]);
            assert(t[p + 0] == core[0]);
            match fr {
                crate::ast::Frequency::Optional => {
                    assert(t[p + 0] == 'o');
                    lemma_not_matches(t, p, "string"@, 0);
                    lemma_not_matches(t, p, "int32"@, 0);
                    crate::grammar::lemma_match_any_prefix(t, p, kws, 2);
                },
                crate::ast::Frequency::Repeated => {
                    assert(t[p + 0] == 'r');
                    lemma_not_matches(t, p, "string"@, 0);
                    lemma_not_matches(t, p, "int32"@, 0);
                    lemma_not_matches(t, p, "optional"@, 0);
                    crate::grammar::lemma_match_any_prefix(t, p, kws, 3);
                },
                crate::ast::Frequency::Required => {
                    assert(t[p + 0] == 'r');
                    assert(core[2] == fr.spec_keyword()[2]);
                    assert(t[p + 2] == 'q');
                    lemma_not_matches(t, p, "string"@, 0);
                    lemma_not_matches(t, p, "int32"@, 0);
                    lemma_not_matches(t, p, "optional"@, 0);
                    lemma_not_matches(t, p, "repeated"@, 2);
                    crate::grammar::lemma_match_any_prefix(t, p, kws, 4);
                },
            }
        },
        None => {
            lemma_matches_at_sub(t, p, core, 0, tk);
            assert(core[0] == tk[0]);
            assert(t[p + 0] == core[0]);
            match f.ty {
                crate::ast::Type::String => {
                    assert(t[p + 0] == 's');
                    crate::grammar::lemma_match_any_prefix(t, p, kws, 0);
                },
                crate::ast::Type::Int32 => {
                    assert(t[p + 0] == 'i');
                    lemma_not_matches(t, p, "string"@, 0);
                    crate::grammar::lemma_match_any_prefix(t, p, kws, 1);
                },
            }
        },
    }
}

/// At a position whose first character is none of the five field keywords'
/// first characters, the field lookahead fails. The `oneof` keyword shares
/// its first character with `optional`, so that case also looks one
/// character further.
proof fn lemma_kw_not_field(t: Seq<char>, p: int)
    requires
        0 <= p < t.len(),
        t[p] == 'e' || t[p] == 'm' || t[p] == '}' || (t[p] == 'o' && p + 1 < t.len() && t[p + 1] == 'n'),
    ensures
        !crate::grammar::starts_field(t, p),
{
    reveal_strlit("optional");
    reveal_strlit("repeated");
    reveal_strlit("required");
    reveal_strlit("string");
    reveal_strlit("int32");
    let kws = crate::grammar::field_start_kws();
    assert(kws.len() == 5);
    assert(kws[0] == "string"@);
    assert(kws[1] == "int32"@);
    assert(kws[2] == "optional"@);
    assert(kws[3] == "repeated"@);
    assert(kws[4] == "required"@);
    lemma_not_matches(t, p, "string"@, 0);
    lemma_not_matches(t, p, "int32"@, 0);
    if t[p] == 'o' {
        lemma_not_matches(t, p, "optional"@, 1);
    } else {
        lemma_not_matches(t, p, "optional"@, 0);
    }
    lemma_not_matches(t, p, "repeated"@, 0);
    lemma_not_matches(t, p, "required"@, 0);
    crate::grammar::lemma_match_any_prefix(t, p, kws, 5);
}

/// The members of a block as the printer lays them out: fields at their
/// own depth, then enums, messages and oneofs at the blocks' depth.
pub open spec fn members_text(
    fs: Seq<MessageFieldV>,
    es: Seq<EnumV>,
    ms: Seq<MessageV>,
    os: Seq<OneofV>,
    df: int,
    db: int,
) -> Seq<char> {
    print_message_fields(fs, df) + print_enums(es, db) + print_messages(ms, db) + print_oneofs(
        os,
        db,
    )
}

/// One step of the member-loop round trip: a field line at the front.
/// The outcome for the remaining members is a hypothesis; the conclusion
/// extends it by the first field.
#[verifier::rlimit(100)]
proof fn lemma_members_step_field(
    t: Seq<char>,
    q: int,
    fs: Seq<MessageFieldV>,
    es: Seq<EnumV>,
    ms: Seq<MessageV>,
    os: Seq<OneofV>,
    df: int,
    db: int,
)
    requires
        wf_msg_fields(fs),
        0 <= q,
        0 <= df,
        0 <= db,
        fs.len() > 0,
        matches_at(t, q, members_text(fs, es, ms, os, df, db)),
        q + members_text(fs, es, ms, os, df, db).len() < t.len(),
        crate::grammar::spec_members_loop(
            t,
            skip_wsoc_end(t, q + print_message_field(fs[0], df).len()),
        ) == Some(
            (
                crate::grammar::MembersV {
                    fields: fs.subrange(1, fs.len() as int),
                    enums: es,
                    messages: ms,
                    oneofs: os,
                },
                q + members_text(fs, es, ms, os, df, db).len(),
            ),
        ),
    ensures
        crate::grammar::spec_members_loop(t, skip_wsoc_end(t, q)) == Some(
            (
                crate::grammar::MembersV { fields: fs, enums: es, messages: ms, oneofs: os },
                q + members_text(fs, es, ms, os, df, db).len(),
            ),
        ),
{
    let tl = members_text(fs, es, ms, os, df, db);
    lemma_print_message_fields_front(fs, df);
    let fs1 = fs.subrange(1, fs.len() as int);
    let line = print_message_field(fs[0], df);
    let core = print_message_field(fs[0], 0);
    lemma_print_message_field_split(fs[0], df);
    let tl1 = members_text(fs1, es, ms, os, df, db);
    assert(tl =~= line + tl1);
    lemma_matches_at_sub(t, q, tl, 0, line);
    let cs0: int = q + df;
    lemma_matches_at_sub(t, q, tl, df, core);
    lemma_field_core_dispatch(t, cs0, fs[0]);
    lemma_tabs_facts(df);
    assert forall|k: int| q <= k < cs0 implies is_ws_char(#[trigger] t[k]) by {
        lemma_matches_chars(t, q, line);
        assert(t[k] == line[k - q]);
        assert(line[k - q] == tabs(df)[k - q]);
    }
    let p = skip_wsoc_end(t, q);
    assert(p == cs0) by {
        lemma_skip_wsoc_ws_run(t, q, cs0);
        lemma_skip_wsoc_fixed(t, cs0);
    }
    assert(skip_wsoc_end(t, p) == p) by {
        lemma_skip_wsoc_fixed(t, cs0);
    }
    lemma_parse_print_message_field(t, p, fs[0]);
    let q1: int = q + line.len();
    assert(p + core.len() == q1);
    let r0 = skip_wsoc_end(t, q1);
    crate::lex::lemma_skip_wsoc_end_range(t, q1);
    assert(skip_wsoc_end(t, r0) == r0) by {
        lemma_skip_wsoc_end_bounds(t, q1);
    }
    assert(p < q1 && q1 <= r0 <= t.len());
    assert(seq![fs[0]] + fs1 =~= fs);
}

/// One step of the member-loop round trip: an enum block at the front.
#[verifier::rlimit(100)]
proof fn lemma_members_step_enum(
    t: Seq<char>,
    q: int,
    fs: Seq<MessageFieldV>,
    es: Seq<EnumV>,
    ms: Seq<MessageV>,
    os: Seq<OneofV>,
    df: int,
    db: int,
)
    requires
        wf_enums(es),
        0 <= q,
        0 <= df,
        0 <= db,
        fs.len() == 0,
        es.len() > 0,
        matches_at(t, q, members_text(fs, es, ms, os, df, db)),
        q + members_text(fs, es, ms, os, df, db).len() < t.len(),
        crate::grammar::spec_members_loop(
            t,
            skip_wsoc_end(t, q + print_enum(es[0], db).len()),
        ) == Some(
            (
                crate::grammar::MembersV {
                    fields: fs,
                    enums: es.subrange(1, es.len() as int),
                    messages: ms,
                    oneofs: os,
                },
                q + members_text(fs, es, ms, os, df, db).len(),
            ),
        ),
    ensures
        crate::grammar::spec_members_loop(t, skip_wsoc_end(t, q)) == Some(
            (
                crate::grammar::MembersV { fields: fs, enums: es, messages: ms, oneofs: os },
                q + members_text(fs, es, ms, os, df, db).len(),
            ),
        ),
{
    reveal_strlit("enum ");
    reveal_strlit("enum");
    let tl = members_text(fs, es, ms, os, df, db);
    assert(print_message_fields(fs, df) =~= Seq::<char>::empty());
    lemma_print_enums_front(es, db);
    let es1 = es.subrange(1, es.len() as int);
    let blk = print_enum(es[0], db);
    let tl1 = members_text(fs, es1, ms, os, df, db);
    assert(tl =~= blk + tl1);
    lemma_matches_at_sub(t, q, tl, 0, blk);
    assert(blk =~= "enum "@ + es[0].name + " {\n"@ + print_enum_fields(
        es[0].fields,
        db + 1,
    ) + "}"@);
    assert(blk.len() >= 5);
    lemma_matches_chars(t, q, blk);
    assert(t[q + 0] == 'e') by {
        assert(blk[0] == "enum "@[0]);
    }
    let p = skip_wsoc_end(t, q);
    assert(p == q) by {
        lemma_skip_wsoc_fixed(t, q);
    }
    lemma_kw_not_field(t, q);
    assert forall|k: int| 0 <= k < 4 implies "enum"@[k] == #[trigger] blk[k] by {
        assert(blk[k] == "enum "@[k]);
    }
    lemma_matches_at_sub(t, q, blk, 0, "enum"@);
    assert(crate::grammar::starts_enum(t, q));
    assert(wf_enum(es[0]));
    lemma_parse_print_enum(t, q, es[0], db);
    let q1: int = q + blk.len();
    let r0 = skip_wsoc_end(t, q1);
    crate::lex::lemma_skip_wsoc_end_range(t, q1);
    assert(skip_wsoc_end(t, r0) == r0) by {
        lemma_skip_wsoc_end_bounds(t, q1);
    }
    assert(p < q1 && q1 <= r0 <= t.len());
    assert(seq![es[0]] + es1 =~= es);
}

/// One step of the member-loop round trip: a nested message at the front.
#[verifier::rlimit(100)]
proof fn lemma_members_step_message(
    t: Seq<char>,
    q: int,
    fs: Seq<MessageFieldV>,
    es: Seq<EnumV>,
    ms: Seq<MessageV>,
    os: Seq<OneofV>,
    df: int,
    db: int,
)
    requires
        0 <= q,
        0 <= df,
        0 <= db,
        fs.len() == 0,
        es.len() == 0,
        ms.len() > 0,
        matches_at(t, q, members_text(fs, es, ms, os, df, db)),
        q + members_text(fs, es, ms, os, df, db).len() < t.len(),
        crate::grammar::spec_consume_message(t, q) == Some(
            (ms[0], skip_wsoc_end(t, q + print_message(ms[0], db).len())),
        ),
        crate::grammar::spec_members_loop(
            t,
            skip_wsoc_end(t, q + print_message(ms[0], db).len()),
        ) == Some(
            (
                crate::grammar::MembersV {
                    fields: fs,
                    enums: es,
                    messages: ms.subrange(1, ms.len() as int),
                    oneofs: os,
                },
                q + members_text(fs, es, ms, os, df, db).len(),
            ),
        ),
    ensures
        crate::grammar::spec_members_loop(t, skip_wsoc_end(t, q)) == Some(
            (
                crate::grammar::MembersV { fields: fs, enums: es, messages: ms, oneofs: os },
                q + members_text(fs, es, ms, os, df, db).len(),
            ),
        ),
{
    reveal_strlit("message ");
    reveal_strlit("message");
    reveal_strlit("enum");
    let tl = members_text(fs, es, ms, os, df, db);
    assert(print_message_fields(fs, df) =~= Seq::<char>::empty());
    assert(print_enums(es, db) =~= Seq::<char>::empty());
    lemma_print_messages_front(ms, db);
    let ms1 = ms.subrange(1, ms.len() as int);
    let blk = print_message(ms[0], db);
    let tl1 = members_text(fs, es, ms1, os, df, db);
    assert(tl =~= blk + tl1);
    lemma_matches_at_sub(t, q, tl, 0, blk);
    assert(blk =~= "message "@ + ms[0].name + " {\n"@ + members_text(
        ms[0].fields,
        ms[0].enums,
        ms[0].messages,
        ms[0].oneofs,
        db,
        db + 1,
    ) + "}"@);
    assert(blk.len() >= 8);
    lemma_matches_chars(t, q, blk);
    assert(t[q + 0] == 'm') by {
        assert(blk[0] == "message "@[0]);
    }
    let p = skip_wsoc_end(t, q);
    assert(p == q) by {
        lemma_skip_wsoc_fixed(t, q);
    }
    lemma_kw_not_field(t, q);
    lemma_not_matches(t, q, "enum"@, 0);
    assert forall|k: int| 0 <= k < 7 implies "message"@[k] == #[trigger] blk[k] by {
        assert(blk[k] == "message "@[k]);
    }
    lemma_matches_at_sub(t, q, blk, 0, "message"@);
    assert(crate::grammar::starts_message(t, q));
    let q1: int = q + blk.len();
    let r0 = skip_wsoc_end(t, q1);
    crate::lex::lemma_skip_wsoc_end_range(t, q1);
    assert(skip_wsoc_end(t, r0) == r0) by {
        lemma_skip_wsoc_end_bounds(t, q1);
    }
    assert(p < q1 && q1 <= r0 <= t.len());
    assert(seq![ms[0]] + ms1 =~= ms);
}

/// One step of the member-loop round trip: a nested oneof at the front.
#[verifier::rlimit(100)]
proof fn lemma_members_step_oneof(
    t: Seq<char>,
    q: int,
    fs: Seq<MessageFieldV>,
    es: Seq<EnumV>,
    ms: Seq<MessageV>,
    os: Seq<OneofV>,
    df: int,
    db: int,
)
    requires
        0 <= q,
        0 <= df,
        0 <= db,
        fs.len() == 0,
        es.len() == 0,
        ms.len() == 0,
        os.len() > 0,
        matches_at(t, q, members_text(fs, es, ms, os, df, db)),
        q + members_text(fs, es, ms, os, df, db).len() < t.len(),
        crate::grammar::spec_consume_oneof(t, q) == Some(
            (os[0], skip_wsoc_end(t, q + print_oneof(os[0], db).len())),
        ),
        crate::grammar::spec_members_loop(
            t,
            skip_wsoc_end(t, q + print_oneof(os[0], db).len()),
        ) == Some(
            (
                crate::grammar::MembersV {
                    fields: fs,
                    enums: es,
                    messages: ms,
                    oneofs: os.subrange(1, os.len() as int),
                },
                q + members_text(fs, es, ms, os, df, db).len(),
            ),
        ),
    ensures
        crate::grammar::spec_members_loop(t, skip_wsoc_end(t, q)) == Some(
            (
                crate::grammar::MembersV { fields: fs, enums: es, messages: ms, oneofs: os },
                q + members_text(fs, es, ms, os, df, db).len(),
            ),
        ),
{
    reveal_strlit("oneof ");
    reveal_strlit("oneof");
    reveal_strlit("enum");
    reveal_strlit("message");
    let tl = members_text(fs, es, ms, os, df, db);
    assert(print_message_fields(fs, df) =~= Seq::<char>::empty());
    assert(print_enums(es, db) =~= Seq::<char>::empty());
    assert(print_messages(ms, db) =~= Seq::<char>::empty());
    lemma_print_oneofs_front(os, db);
    let os1 = os.subrange(1, os.len() as int);
    let blk = print_oneof(os[0], db);
    let tl1 = members_text(fs, es, ms, os1, df, db);
    assert(tl =~= blk + tl1);
    lemma_matches_at_sub(t, q, tl, 0, blk);
    assert(blk =~= "oneof "@ + os[0].name + " {\n"@ + members_text(
        os[0].fields,
        os[0].enums,
        os[0].messages,
        os[0].oneofs,
        db,
        db + 1,
    ) + "}"@);
    assert(blk.len() >= 6);
    lemma_matches_chars(t, q, blk);
    assert(t[q + 0] == 'o') by {
        assert(blk[0] == "oneof "@[0]);
    }
    assert(t[q + 1] == 'n') by {
        assert(blk[1] == "oneof "@[1]);
    }
    let p = skip_wsoc_end(t, q);
    assert(p == q) by {
        lemma_skip_wsoc_fixed(t, q);
    }
    lemma_kw_not_field(t, q);
    lemma_not_matches(t, q, "enum"@, 0);
    lemma_not_matches(t, q, "message"@, 0);
    assert forall|k: int| 0 <= k < 5 implies "oneof"@[k] == #[trigger] blk[k] by {
        assert(blk[k] == "oneof "@[k]);
    }
    lemma_matches_at_sub(t, q, blk, 0, "oneof"@);
    assert(crate::grammar::starts_oneof(t, q));
    let q1: int = q + blk.len();
    let r0 = skip_wsoc_end(t, q1);
    crate::lex::lemma_skip_wsoc_end_range(t, q1);
    assert(skip_wsoc_end(t, r0) == r0) by {
        lemma_skip_wsoc_end_bounds(t, q1);
    }
    assert(p < q1 && q1 <= r0 <= t.len());
    assert(seq![os[0]] + os1 =~= os);
}

/// The member loop at the closing brace: nothing can start, nothing is
/// read.
proof fn lemma_members_step_done(
    t: Seq<char>,
    q: int,
    fs: Seq<MessageFieldV>,
    es: Seq<EnumV>,
    ms: Seq<MessageV>,
    os: Seq<OneofV>,
    df: int,
    db: int,
)
    requires
        0 <= q,
        fs.len() == 0,
        es.len() == 0,
        ms.len() == 0,
        os.len() == 0,
        q + members_text(fs, es, ms, os, df, db).len() < t.len(),
        t[q + members_text(fs, es, ms, os, df, db).len()] == '}',
    ensures
        crate::grammar::spec_members_loop(t, skip_wsoc_end(t, q)) == Some(
            (
                crate::grammar::MembersV { fields: fs, enums: es, messages: ms, oneofs: os },
                q + members_text(fs, es, ms, os, df, db).len(),
            ),
        ),
{
    reveal_strlit("enum");
    reveal_strlit("message");
    reveal_strlit("oneof");
    let tl = members_text(fs, es, ms, os, df, db);
    assert(tl =~= Seq::<char>::empty());
    assert(t[q] == '}');
    let p = skip_wsoc_end(t, q);
    assert(p == q) by {
        lemma_skip_wsoc_fixed(t, q);
    }
    lemma_kw_not_field(t, q);
    lemma_not_matches(t, q, "enum"@, 0);
    lemma_not_matches(t, q, "message"@, 0);
    lemma_not_matches(t, q, "oneof"@, 0);
    assert(crate::grammar::spec_members_loop(t, q) == Some(
        (crate::grammar::members_empty(), q),
    ));
    assert(fs =~= Seq::<MessageFieldV>::empty());
    assert(es =~= Seq::<EnumV>::empty());
    assert(ms =~= Seq::<MessageV>::empty());
    assert(os =~= Seq::<OneofV>::empty());
}

/// Parsing the printed members of a block, up to the closing brace that
/// follows them: the member loop reads back exactly the printed fields,
/// enums, messages and oneofs, each kind in order, and stops at the brace.
#[verifier::rlimit(100)]
proof fn lemma_parse_print_members(
    t: Seq<char>,
    q: int,
    fs: Seq<MessageFieldV>,
    es: Seq<EnumV>,
    ms: Seq<MessageV>,
    os: Seq<OneofV>,
    df: int,
    db: int,
)
    requires
        wf_msg_fields(fs),
        wf_enums(es),
        wf_msgs(ms),
        wf_oneofs(os),
        0 <= q,
        0 <= df,
        0 <= db,
        matches_at(t, q, members_text(fs, es, ms, os, df, db)),
        q + members_text(fs, es, ms, os, df, db).len() < t.len(),
        t[q + members_text(fs, es, ms, os, df, db).len()] == '}',
    ensures
        crate::grammar::spec_members_loop(t, skip_wsoc_end(t, q)) == Some(
            (
                crate::grammar::MembersV { fields: fs, enums: es, messages: ms, oneofs: os },
                q + members_text(fs, es, ms, os, df, db).len(),
            ),
        ),
    decreases msgs_size(ms) + oneofs_size(os), fs.len() + es.len() + 1,
{
    let tl = members_text(fs, es, ms, os, df, db);
    if fs.len() > 0 {
        lemma_print_message_fields_front(fs, df);
        let fs1 = fs.subrange(1, fs.len() as int);
        let line = print_message_field(fs[0], df);
        let tl1 = members_text(fs1, es, ms, os, df, db);
        assert(tl =~= line + tl1);
        lemma_matches_at_sub(t, q, tl, line.len() as int, tl1);
        assert forall|i: int| 0 <= i < fs1.len() implies wf_msg_field(#[trigger] fs1[i]) by {
            assert(fs1[i] == fs[i + 1]);
        }
        lemma_parse_print_members(t, q + line.len(), fs1, es, ms, os, df, db);
        lemma_members_step_field(t, q, fs, es, ms, os, df, db);
    } else if es.len() > 0 {
        assert(print_message_fields(fs, df) =~= Seq::<char>::empty());
        lemma_print_enums_front(es, db);
        let es1 = es.subrange(1, es.len() as int);
        let blk = print_enum(es[0], db);
        let tl1 = members_text(fs, es1, ms, os, df, db);
        assert(tl =~= blk + tl1);
        lemma_matches_at_sub(t, q, tl, blk.len() as int, tl1);
        assert forall|i: int| 0 <= i < es1.len() implies wf_enum(#[trigger] es1[i]) by {
            assert(es1[i] == es[i + 1]);
        }
        lemma_parse_print_members(t, q + blk.len(), fs, es1, ms, os, df, db);
        lemma_members_step_enum(t, q, fs, es, ms, os, df, db);
    } else if ms.len() > 0 {
        assert(print_message_fields(fs, df) =~= Seq::<char>::empty());
        assert(print_enums(es, db) =~= Seq::<char>::empty());
        lemma_print_messages_front(ms, db);
        lemma_wf_msgs_front(ms);
        lemma_msgs_size_front(ms);
        let ms1 = ms.subrange(1, ms.len() as int);
        let blk = print_message(ms[0], db);
        let tl1 = members_text(fs, es, ms1, os, df, db);
        assert(tl =~= blk + tl1);
        lemma_matches_at_sub(t, q, tl, 0, blk);
        lemma_matches_at_sub(t, q, tl, blk.len() as int, tl1);
        assert(skip_wsoc_end(t, q) == q) by {
            reveal_strlit("message ");
            assert(blk =~= "message "@ + ms[0].name + " {\n"@ + members_text(
                ms[0].fields,
                ms[0].enums,
                ms[0].messages,
                ms[0].oneofs,
                db,
                db + 1,
            ) + "}"@);
            lemma_matches_chars(t, q, blk);
            assert(t[q] == 'm') by {
                assert(blk[0] == "message "@[0]);
            }
            lemma_skip_wsoc_fixed(t, q);
        }
        lemma_parse_print_message(t, q, ms[0], db);
        lemma_parse_print_members(t, q + blk.len(), fs, es, ms1, os, df, db);
        lemma_members_step_message(t, q, fs, es, ms, os, df, db);
    } else if os.len() > 0 {
        assert(print_message_fields(fs, df) =~= Seq::<char>::empty());
        assert(print_enums(es, db) =~= Seq::<char>::empty());
        assert(print_messages(ms, db) =~= Seq::<char>::empty());
        lemma_print_oneofs_front(os, db);
        lemma_wf_oneofs_front(os);
        lemma_oneofs_size_front(os);
        let os1 = os.subrange(1, os.len() as int);
        let blk = print_oneof(os[0], db);
        let tl1 = members_text(fs, es, ms, os1, df, db);
        assert(tl =~= blk + tl1);
        lemma_matches_at_sub(t, q, tl, 0, blk);
        lemma_matches_at_sub(t, q, tl, blk.len() as int, tl1);
        assert(skip_wsoc_end(t, q) == q) by {
            reveal_strlit("oneof ");
            assert(blk =~= "oneof "@ + os[0].name + " {\n"@ + members_text(
                os[0].fields,
                os[0].enums,
                os[0].messages,
                os[0].oneofs,
                db,
                db + 1,
            ) + "}"@);
            lemma_matches_chars(t, q, blk);
            assert(t[q] == 'o') by {
                assert(blk[0] == "oneof "@[0]);
            }
            lemma_skip_wsoc_fixed(t, q);
        }
        lemma_parse_print_oneof(t, q, os[0], db);
        lemma_parse_print_members(t, q + blk.len(), fs, es, ms, os1, df, db);
        lemma_members_step_oneof(t, q, fs, es, ms, os, df, db);
    } else {
        lemma_members_step_done(t, q, fs, es, ms, os, df, db);
    }
}

/// Parsing the printed form of a `message` block: the cursor stands (after
/// its own leading skip) at the `message` keyword, reads back exactly the
/// message, and ends just past the closing brace with any following
/// whitespace and comments consumed.
#[verifier::rlimit(100)]
proof fn lemma_parse_print_message(t: Seq<char>, i: int, mv: MessageV, d: int)
    requires
        wf_msg(mv),
        0 <= i <= t.len(),
        0 <= d,
        matches_at(t, skip_wsoc_end(t, i), print_message(mv, d)),
    ensures
        crate::grammar::spec_consume_message(t, i) == Some(
            (mv, skip_wsoc_end(t, skip_wsoc_end(t, i) + print_message(mv, d).len())),
        ),
    decreases msg_size(mv), 0int,
{
    reveal_strlit("message ");
    reveal_strlit("message");
    reveal_strlit(" {\n");
    reveal_strlit("}");
    lemma_skip_wsoc_end_bounds(t, i);
    let c = skip_wsoc_end(t, i);
    let blk = print_message(mv, d);
    let nm = mv.name;
    let body = members_text(mv.fields, mv.enums, mv.messages, mv.oneofs, d, d + 1);
    assert(blk =~= "message "@ + nm + " {\n"@ + body + "}"@);
    assert(blk.len() == 8 + nm.len() + 3 + body.len() + 1);
    lemma_matches_chars(t, c, blk);
    assert(c + blk.len() <= t.len());

    assert forall|k: int| 0 <= k < 7 implies "message"@[k] == #[trigger] blk[k] by {
        assert(blk[k] == "message "@[k]);
    }
    lemma_matches_at_sub(t, c, blk, 0, "message"@);
    assert(matches_at(t, c, "message"@));

    let ns: int = c + 8;
    let bp: int = ns + nm.len() + 1;
    assert(t[c + 7] == ' ') by {
        assert(t[c + 7] == blk[7]);
    }
    assert forall|k: int| ns <= k < ns + nm.len() implies is_name_char(#[trigger] t[k]) by {
        assert(t[k] == blk[k - c]);
        assert(blk[k - c] == nm[k - ns]);
    }
    assert(t[ns + nm.len()] == ' ') by {
        assert(t[ns + nm.len()] == blk[ns + nm.len() - c]);
    }
    assert(t[bp] == '{') by {
        assert(t[bp] == blk[bp - c]);
    }
    assert(t[bp + 1] == '\n') by {
        assert(t[bp + 1] == blk[bp + 1 - c]);
    }
    let ne: int = if nm.len() > 0 {
        ns + nm.len()
    } else {
        bp
    };
    assert(skip_wsoc_end(t, c + 7) == if nm.len() > 0 { ns } else { bp }) by {
        if nm.len() > 0 {
            assert(!is_ws_char(t[ns]) && t[ns] != '/') by {
                assert(is_name_char(t[ns]));
            }
            lemma_skip_wsoc_ws_run(t, c + 7, ns);
            lemma_skip_wsoc_fixed(t, ns);
        } else {
            assert(!is_ws_char(t[bp]) && t[bp] != '/');
            lemma_skip_wsoc_ws_run(t, c + 7, bp);
            lemma_skip_wsoc_fixed(t, bp);
        }
    }
    if nm.len() > 0 {
        lemma_name_end_run(t, ns, nm.len() as int);
        assert forall|k: int| 0 <= k < nm.len() implies t.subrange(ns, ns + nm.len())[k]
            == #[trigger] nm[k] by {
            assert(t[ns + k] == blk[ns - c + k]);
            assert(blk[ns - c + k] == nm[k]);
        }
        assert(t.subrange(ns, ns + nm.len()) =~= nm);
    } else {
        assert(!is_name_char(t[bp]));
        assert(name_end(t, bp) == bp);
        assert(t.subrange(bp, bp) =~= nm);
    }
    assert(skip_wsoc_end(t, skip_wsoc_end(t, c + 7)) == skip_wsoc_end(t, c + 7)) by {
        lemma_skip_wsoc_end_bounds(t, c + 7);
    }
    assert(crate::grammar::spec_consume_name(t, c + 7) == Some((nm, ne)));

    assert(skip_wsoc_end(t, ne) == bp) by {
        assert(!is_ws_char(t[bp]) && t[bp] != '/');
        if nm.len() > 0 {
            lemma_skip_wsoc_ws_run(t, ne, bp);
        }
        lemma_skip_wsoc_fixed(t, bp);
    }
    assert(bp < t.len());
    assert(crate::grammar::spec_skip(t, bp, '{') == bp + 1);

    let mstart: int = bp + 2;
    let mend: int = mstart + body.len();
    assert(t[mend] == '}') by {
        assert(t[mend] == blk[mend - c]);
    }
    assert(mend < t.len());
    lemma_matches_at_sub(t, c, blk, mstart - c, body);
    lemma_parse_print_members(t, mstart, mv.fields, mv.enums, mv.messages, mv.oneofs, d, d + 1);
    assert(skip_wsoc_end(t, bp + 1) == skip_wsoc_end(t, mstart)) by {
        lemma_skip_wsoc_ws_run(t, bp + 1, mstart);
    }
    assert(!is_ws_char(t[mend]) && t[mend] != '/');
    lemma_skip_wsoc_fixed(t, mend);
    assert(crate::grammar::spec_skip(t, mend, '}') == mend + 1);
    assert(mend + 1 == c + blk.len());
    assert(crate::grammar::message_from_parts(
        nm,
        crate::grammar::MembersV {
            fields: mv.fields,
            enums: mv.enums,
            messages: mv.messages,
            oneofs: mv.oneofs,
        },
    ) == mv);
}

/// Parsing the printed form of a `oneof` block, as for a message.
#[verifier::rlimit(100)]
proof fn lemma_parse_print_oneof(t: Seq<char>, i: int, ov: OneofV, d: int)
    requires
        wf_oneof(ov),
        0 <= i <= t.len(),
        0 <= d,
        matches_at(t, skip_wsoc_end(t, i), print_oneof(ov, d)),
    ensures
        crate::grammar::spec_consume_oneof(t, i) == Some(
            (ov, skip_wsoc_end(t, skip_wsoc_end(t, i) + print_oneof(ov, d).len())),
        ),
    decreases oneof_size(ov), 0int,
{
    reveal_strlit("oneof ");
    reveal_strlit("oneof");
    reveal_strlit(" {\n");
    reveal_strlit("}");
    lemma_skip_wsoc_end_bounds(t, i);
    let c = skip_wsoc_end(t, i);
    let blk = print_oneof(ov, d);
    let nm = ov.name;
    let body = members_text(ov.fields, ov.enums, ov.messages, ov.oneofs, d, d + 1);
    assert(blk =~= "oneof "@ + nm + " {\n"@ + body + "}"@);
    assert(blk.len() == 6 + nm.len() + 3 + body.len() + 1);
    lemma_matches_chars(t, c, blk);
    assert(c + blk.len() <= t.len());

    assert forall|k: int| 0 <= k < 5 implies "oneof"@[k] == #[trigger] blk[k] by {
        assert(blk[k] == "oneof "@[k]);
    }
    lemma_matches_at_sub(t, c, blk, 0, "oneof"@);
    assert(matches_at(t, c, "oneof"@));

    let ns: int = c + 6;
    let bp: int = ns + nm.len() + 1;
    assert(t[c + 5] == ' ') by {
        assert(t[c + 5] == blk[5]);
    }
    assert forall|k: int| ns <= k < ns + nm.len() implies is_name_char(#[trigger] t[k]) by {
        assert(t[k] == blk[k - c]);
        assert(blk[k - c] == nm[k - ns]);
    }
    assert(t[ns + nm.len()] == ' ') by {
        assert(t[ns + nm.len()] == blk[ns + nm.len() - c]);
    }
    assert(t[bp] == '{') by {
        assert(t[bp] == blk[bp - c]);
    }
    assert(t[bp + 1] == '\n') by {
        assert(t[bp + 1] == blk[bp + 1 - c]);
    }
    let ne: int = if nm.len() > 0 {
        ns + nm.len()
    } else {
        bp
    };
    assert(skip_wsoc_end(t, c + 5) == if nm.len() > 0 { ns } else { bp }) by {
        if nm.len() > 0 {
            assert(!is_ws_char(t[ns]) && t[ns] != '/') by {
                assert(is_name_char(t[ns]));
            }
            lemma_skip_wsoc_ws_run(t, c + 5, ns);
            lemma_skip_wsoc_fixed(t, ns);
        } else {
            assert(!is_ws_char(t[bp]) && t[bp] != '/');
            lemma_skip_wsoc_ws_run(t, c + 5, bp);
            lemma_skip_wsoc_fixed(t, bp);
        }
    }
    if nm.len() > 0 {
        lemma_name_end_run(t, ns, nm.len() as int);
        assert forall|k: int| 0 <= k < nm.len() implies t.subrange(ns, ns + nm.len())[k]
            == #[trigger] nm[k] by {
            assert(t[ns + k] == blk[ns - c + k]);
            assert(blk[ns - c + k] == nm[k]);
        }
        assert(t.subrange(ns, ns + nm.len()) =~= nm);
    } else {
        assert(!is_name_char(t[bp]));
        assert(name_end(t, bp) == bp);
        assert(t.subrange(bp, bp) =~= nm);
    }
    assert(skip_wsoc_end(t, skip_wsoc_end(t, c + 5)) == skip_wsoc_end(t, c + 5)) by {
        lemma_skip_wsoc_end_bounds(t, c + 5);
    }
    assert(crate::grammar::spec_consume_name(t, c + 5) == Some((nm, ne)));

    assert(skip_wsoc_end(t, ne) == bp) by {
        assert(!is_ws_char(t[bp]) && t[bp] != '/');
        if nm.len() > 0 {
            lemma_skip_wsoc_ws_run(t, ne, bp);
        }
        lemma_skip_wsoc_fixed(t, bp);
    }
    assert(bp < t.len());
    assert(crate::grammar::spec_skip(t, bp, '{') == bp + 1);

    let mstart: int = bp + 2;
    let mend: int = mstart + body.len();
    assert(t[mend] == '}') by {
        assert(t[mend] == blk[mend - c]);
    }
    assert(mend < t.len());
    lemma_matches_at_sub(t, c, blk, mstart - c, body);
    lemma_parse_print_members(
        t,
        mstart,
        ov.fields,
        ov.enums,
        ov.messages,
        ov.oneofs,
        d,
        d + 1,
    );
    assert(skip_wsoc_end(t, bp + 1) == skip_wsoc_end(t, mstart)) by {
        lemma_skip_wsoc_ws_run(t, bp + 1, mstart);
    }
    assert(!is_ws_char(t[mend]) && t[mend] != '/');
    lemma_skip_wsoc_fixed(t, mend);
    assert(crate::grammar::spec_skip(t, mend, '}') == mend + 1);
    assert(mend + 1 == c + blk.len());
    assert(crate::grammar::oneof_from_parts(
        nm,
        crate::grammar::MembersV {
            fields: ov.fields,
            enums: ov.enums,
            messages: ov.messages,
            oneofs: ov.oneofs,
        },
    ) == ov);
}

/// Round-trip law: pretty-printing a well-formed message at any depth and
/// parsing the text back yields exactly the same message -- fields, enums,
/// nested messages and oneofs each in their original order within their
/// kind -- with the cursor at the very end of the text.
pub proof fn lemma_print_parse_round_trip(mv: MessageV, d: int)
    requires
        wf_msg(mv),
        0 <= d,
    ensures
        ({
            let text = print_message(mv, d);
            crate::grammar::spec_consume_message(text, 0) == Some((mv, text.len() as int))
        }),
{
    reveal_strlit("message ");
    let text = print_message(mv, d);
    let body = members_text(mv.fields, mv.enums, mv.messages, mv.oneofs, d, d + 1);
    assert(text =~= "message "@ + mv.name + " {\n"@ + body + "}"@);
    assert(text[0] == 'm') by {
        assert(text[0] == "message "@[0]);
    }
    assert(skip_wsoc_end(text, 0) == 0) by {
        lemma_skip_wsoc_fixed(text, 0);
    }
    assert(text.subrange(0, text.len() as int) =~= text);
    assert(matches_at(text, 0, text));
    lemma_parse_print_message(text, 0, mv, d);
    assert(skip_wsoc_end(text, text.len() as int) == text.len());
}

/// Round-trip law for a top-level enum, printed and parsed back whole.
pub proof fn lemma_print_parse_round_trip_enum(ev: EnumV, d: int)
    requires
        wf_enum(ev),
        0 <= d,
    ensures
        ({
            let text = print_enum(ev, d);
            crate::grammar::spec_consume_enum(text, 0) == Some((ev, text.len() as int))
        }),
{
    reveal_strlit("enum ");
    let text = print_enum(ev, d);
    assert(text =~= "enum "@ + ev.name + " {\n"@ + print_enum_fields(ev.fields, d + 1) + "}"@);
    assert(text[0] == 'e') by {
        assert(text[0] == "enum "@[0]);
    }
    assert(skip_wsoc_end(text, 0) == 0) by {
        lemma_skip_wsoc_fixed(text, 0);
    }
    assert(text.subrange(0, text.len() as int) =~= text);
    assert(matches_at(text, 0, text));
    lemma_parse_print_enum(text, 0, ev, d);
    assert(skip_wsoc_end(text, text.len() as int) == text.len());
}

} // verus!
