//! The pretty-printer: a pure function from an AST node and an indentation
//! depth to canonical schema text.
//!
//! The canonical text of every node is first defined as a spec function over
//! the node's ghost view; each executable `pretty_print` is verified to
//! produce exactly that text. Leaf lines are indented with one tab per
//! depth level; nested blocks are printed one level deeper. Within a block
//! the printer emits fields, then enums, then messages, then oneofs: order
//! is kept within each kind, not across kinds.
use vstd::prelude::*;

use vstd::string::StringExecFns;

use crate::ast::Enum;
use crate::ast::EnumField;
use crate::ast::EnumFieldV;
use crate::ast::EnumV;
use crate::ast::enums_seq_view;
use crate::ast::fields_seq_view;
use crate::ast::Message;
use crate::ast::MessageField;
use crate::ast::MessageFieldV;
use crate::ast::MessageV;
use crate::ast::msg_fields_seq_view;
use crate::ast::msgs_seq_view;
use crate::ast::Oneof;
use crate::ast::OneofV;
use crate::ast::oneofs_seq_view;
use crate::ast::Type;

verus! {

/// `d` tab characters; none when `d` is not positive.
pub open spec fn tabs(d: int) -> Seq<char>
    decreases d,
{
    if d <= 0 {
        Seq::empty()
    } else {
        tabs(d - 1).push('\t')
    }
}

/// The single-character string of one decimal digit.
pub open spec fn dec_digit_str(d: nat) -> Seq<char> {
    if d == 0 {
        "0"@
    } else if d == 1 {
        "1"@
    } else if d == 2 {
        "2"@
    } else if d == 3 {
        "3"@
    } else if d == 4 {
        "4"@
    } else if d == 5 {
        "5"@
    } else if d == 6 {
        "6"@
    } else if d == 7 {
        "7"@
    } else if d == 8 {
        "8"@
    } else {
        "9"@
    }
}

/// The decimal rendering of `n`, most significant digit first, with no
/// leading zeros (except for the number 0 itself).
pub open spec fn dec_digits(n: nat) -> Seq<char>
    decreases n,
{
    if n < 10 {
        dec_digit_str(n)
    } else {
        dec_digits(n / 10) + dec_digit_str(n % 10)
    }
}

/// Canonical text of a message field at depth `d`: tabs, the qualifier
/// keyword and a space when one is present (nothing at all otherwise), the
/// type keyword, the name and the number separated by single spaces, then
/// `;` and a newline. Note the printed form has no `=`.
pub open spec fn print_message_field(f: MessageFieldV, d: int) -> Seq<char> {
    tabs(d) + (match f.frequency {
        Some(fr) => fr.spec_keyword() + " "@,
        None => Seq::empty(),
    }) + f.ty.spec_keyword() + " "@ + f.name + " "@ + dec_digits(f.position as nat) + ";\n"@
}

/// Canonical text of a run of message fields, in order.
pub open spec fn print_message_fields(fs: Seq<MessageFieldV>, d: int) -> Seq<char>
    decreases fs.len(),
{
    if fs.len() == 0 {
        Seq::empty()
    } else {
        print_message_fields(fs.subrange(0, fs.len() - 1), d) + print_message_field(
            fs[fs.len() - 1],
            d,
        )
    }
}

/// Canonical text of an enum field at depth `d`: tabs, then
/// `name = number;` and a newline. Unlike a message field, the printed
/// form keeps the `=`.
pub open spec fn print_enum_field(f: EnumFieldV, d: int) -> Seq<char> {
    tabs(d) + f.name + " = "@ + dec_digits(f.position as nat) + ";\n"@
}

/// Canonical text of a run of enum fields, in order.
pub open spec fn print_enum_fields(fs: Seq<EnumFieldV>, d: int) -> Seq<char>
    decreases fs.len(),
{
    if fs.len() == 0 {
        Seq::empty()
    } else {
        print_enum_fields(fs.subrange(0, fs.len() - 1), d) + print_enum_field(fs[fs.len() - 1], d)
    }
}

/// Canonical text of an `enum` block at depth `d`: header line, each field
/// one level deeper, then `}` with no trailing newline.
pub open spec fn print_enum(e: EnumV, d: int) -> Seq<char> {
    "enum "@ + e.name + " {\n"@ + print_enum_fields(e.fields, d + 1) + "}"@
}

/// Canonical text of a run of `enum` blocks, in order.
pub open spec fn print_enums(es: Seq<EnumV>, d: int) -> Seq<char>
    decreases es.len(),
{
    if es.len() == 0 {
        Seq::empty()
    } else {
        print_enums(es.subrange(0, es.len() - 1), d) + print_enum(es[es.len() - 1], d)
    }
}

/// Canonical text of a `message` block at depth `d`: header line, its own
/// fields at the given depth, then enums, nested messages and oneofs each
/// one level deeper, then `}` with no trailing newline.
pub open spec fn print_message(m: MessageV, d: int) -> Seq<char>
    decreases m, 1int,
{
    "message "@ + m.name + " {\n"@ + print_message_fields(m.fields, d) + print_enums(
        m.enums,
        d + 1,
    ) + print_messages(m.messages, d + 1) + print_oneofs(m.oneofs, d + 1) + "}"@
}

/// Canonical text of a run of `message` blocks, in order.
pub open spec fn print_messages(ms: Seq<MessageV>, d: int) -> Seq<char>
    decreases ms, 2int,
{
    if ms.len() == 0 {
        Seq::empty()
    } else {
        print_messages(ms.subrange(0, ms.len() - 1), d) + print_message(ms[ms.len() - 1], d)
    }
}

/// Canonical text of a `oneof` block at depth `d`: exactly as a message,
/// with the `oneof` keyword -- its own fields at the given depth, nested
/// blocks one level deeper.
pub open spec fn print_oneof(o: OneofV, d: int) -> Seq<char>
    decreases o, 1int,
{
    "oneof "@ + o.name + " {\n"@ + print_message_fields(o.fields, d) + print_enums(
        o.enums,
        d + 1,
    ) + print_messages(o.messages, d + 1) + print_oneofs(o.oneofs, d + 1) + "}"@
}

/// Canonical text of a run of `oneof` blocks, in order.
pub open spec fn print_oneofs(os: Seq<OneofV>, d: int) -> Seq<char>
    decreases os, 2int,
{
    if os.len() == 0 {
        Seq::empty()
    } else {
        print_oneofs(os.subrange(0, os.len() - 1), d) + print_oneof(os[os.len() - 1], d)
    }
}

/// How many extra depth levels printing a message may add: one for the
/// block itself, plus the deepest requirement of its children (an enum
/// child adds one more level for its fields).
pub open spec fn msg_height(m: MessageV) -> nat
    decreases m, 1int,
{
    let eh: nat = if m.enums.len() > 0 {
        1nat
    } else {
        0nat
    };
    let mh = msgs_height(m.messages);
    let oh = oneofs_height(m.oneofs);
    1 + (if eh >= mh && eh >= oh {
        eh
    } else if mh >= oh {
        mh
    } else {
        oh
    })
}

/// The largest height among a run of messages.
pub open spec fn msgs_height(ms: Seq<MessageV>) -> nat
    decreases ms, 2int,
{
    if ms.len() == 0 {
        0
    } else {
        let rest = msgs_height(ms.subrange(0, ms.len() - 1));
        let last = msg_height(ms[ms.len() - 1]);
        if rest >= last {
            rest
        } else {
            last
        }
    }
}

/// How many extra depth levels printing a oneof may add.
pub open spec fn oneof_height(o: OneofV) -> nat
    decreases o, 1int,
{
    let eh: nat = if o.enums.len() > 0 {
        1nat
    } else {
        0nat
    };
    let mh = msgs_height(o.messages);
    let oh = oneofs_height(o.oneofs);
    1 + (if eh >= mh && eh >= oh {
        eh
    } else if mh >= oh {
        mh
    } else {
        oh
    })
}

/// The largest height among a run of oneofs.
pub open spec fn oneofs_height(os: Seq<OneofV>) -> nat
    decreases os, 2int,
{
    if os.len() == 0 {
        0
    } else {
        let rest = oneofs_height(os.subrange(0, os.len() - 1));
        let last = oneof_height(os[os.len() - 1]);
        if rest >= last {
            rest
        } else {
            last
        }
    }
}

/// Every message in a run is within the run's height.
pub proof fn lemma_msgs_height_elem(ms: Seq<MessageV>, i: int)
    requires
        0 <= i < ms.len(),
    ensures
        msg_height(ms[i]) <= msgs_height(ms),
    decreases ms.len(),
{
    if i < ms.len() - 1 {
        let pre = ms.subrange(0, ms.len() - 1);
        lemma_msgs_height_elem(pre, i);
        assert(pre[i] == ms[i]);
    }
}

/// Every oneof in a run is within the run's height.
pub proof fn lemma_oneofs_height_elem(os: Seq<OneofV>, i: int)
    requires
        0 <= i < os.len(),
    ensures
        oneof_height(os[i]) <= oneofs_height(os),
    decreases os.len(),
{
    if i < os.len() - 1 {
        let pre = os.subrange(0, os.len() - 1);
        lemma_oneofs_height_elem(pre, i);
        assert(pre[i] == os[i]);
    }
}

/// Append `depth` tab characters to `s`.
pub fn indent_string(s: &mut String, depth: u64)
    ensures
        final(s)@ == old(s)@ + tabs(depth as int),
{
    let mut k: u64 = 0;
    while k < depth
        invariant
            k <= depth,
            s@ == old(s)@ + tabs(k as int),
        decreases depth - k,
    {
        s.append("\t");
        k = k + 1;
        proof {
            reveal_strlit("\t");
            assert(old(s)@ + tabs(k - 1 as int) + "\t"@ =~= old(s)@ + tabs(k as int));
        }
    }
    proof {
        assert(old(s)@ + tabs(0int) =~= old(s)@);
    }
}

/// Append the decimal rendering of `n` to `s`.
fn push_decimal(s: &mut String, n: u32)
    ensures
        final(s)@ == old(s)@ + dec_digits(n as nat),
    decreases n,
{
    if n >= 10 {
        push_decimal(s, n / 10);
    }
    let d = n % 10;
    let piece = match d {
        0 => "0",
        1 => "1",
        2 => "2",
        3 => "3",
        4 => "4",
        5 => "5",
        6 => "6",
        7 => "7",
        8 => "8",
        _ => "9",
    };
    s.append(piece);
    proof {
        if n < 10 {
            assert(old(s)@ + dec_digit_str(n as nat) =~= old(s)@ + dec_digits(n as nat));
        } else {
            assert((old(s)@ + dec_digits((n / 10) as nat)) + dec_digit_str((n % 10) as nat)
                =~= old(s)@ + dec_digits(n as nat));
        }
    }
}

impl EnumField {
    /// Render this enum field at the given depth.
    pub fn pretty_print(&self, depth: u64) -> (r: String)
        ensures
            r@ == print_enum_field(self@, depth as int),
    {
        let mut s = String::new();
        indent_string(&mut s, depth);
        s.append(self.name.as_str());
        s.append(" = ");
        push_decimal(&mut s, self.position);
        s.append(";\n");
        proof {
            assert(s@ =~= print_enum_field(self@, depth as int));
        }
        s
    }
}

impl MessageField {
    /// Render this message field at the given depth. With no frequency
    /// there is no qualifier token and no extra space: the line starts at
    /// the type keyword.
    pub fn pretty_print(&self, depth: u64) -> (r: String)
        ensures
            r@ == print_message_field(self@, depth as int),
    {
        let mut s = String::new();
        indent_string(&mut s, depth);
        let (frequency, name, position) = match self {
            MessageField::Int32(f, n, p) => (f, n, *p),
            MessageField::String(f, n, p) => (f, n, *p),
        };
        match frequency {
            Some(freq) => {
                s.append(freq.keyword());
                s.append(" ");
            },
            None => {},
        }
        let ty = match self {
            MessageField::Int32(_, _, _) => Type::Int32,
            MessageField::String(_, _, _) => Type::String,
        };
        s.append(ty.keyword());
        s.append(" ");
        s.append(name.as_str());
        s.append(" ");
        push_decimal(&mut s, position);
        s.append(";\n");
        proof {
            assert(s@ =~= print_message_field(self@, depth as int));
        }
        s
    }
}

impl Enum {
    /// Render this `enum` block at the given depth: header line, fields one
    /// level deeper, closing brace with no trailing newline.
    pub fn pretty_print(&self, depth: u64) -> (r: String)
        requires
            depth < u64::MAX,
        ensures
            r@ == print_enum(self@, depth as int),
    {
        let mut s = String::new();
        s.append("enum ");
        s.append(self.name.as_str());
        s.append(" {\n");
        let ghost base = s@;
        let mut i: usize = 0;
        while i < self.fields.len()
            invariant
                i <= self.fields@.len(),
                depth < u64::MAX,
                base == "enum "@ + self.name@ + " {\n"@,
                s@ == base + print_enum_fields(
                    fields_seq_view(self.fields@).subrange(0, i as int),
                    depth + 1,
                ),
            decreases self.fields@.len() - i,
        {
            let piece = self.fields[i].pretty_print(depth + 1);
            s.append(piece.as_str());
            i = i + 1;
            proof {
                let fv = fields_seq_view(self.fields@);
                crate::ast::lemma_fields_seq_view_props(self.fields@);
                assert(fv.subrange(0, i as int).subrange(0, i - 1) =~= fv.subrange(0, i - 1));
                assert(fv.subrange(0, i as int)[i - 1] == fv[i - 1]);
                assert(s@ =~= base + print_enum_fields(fv.subrange(0, i as int), depth + 1));
            }
        }
        proof {
            crate::ast::lemma_fields_seq_view_props(self.fields@);
            assert(fields_seq_view(self.fields@).subrange(
                0,
                self.fields@.len() as int,
            ) =~= fields_seq_view(self.fields@));
        }
        s.append("}");
        proof {
            assert(s@ =~= print_enum(self@, depth as int));
        }
        s
    }
}

impl Message {
    /// Render this `message` block at the given depth: header line, its own
    /// fields at this depth, then enums, nested messages and oneofs each
    /// one level deeper, closing brace with no trailing newline.
    pub fn pretty_print(&self, depth: u64) -> (r: String)
        requires
            depth + msg_height(self@) <= u64::MAX,
        ensures
            r@ == print_message(self@, depth as int),
        decreases *self,
    {
        let mut s = String::new();
        s.append("message ");
        s.append(self.name.as_str());
        s.append(" {\n");

        let ghost base0 = s@;
        let mut i: usize = 0;
        while i < self.fields.len()
            invariant
                i <= self.fields@.len(),
                s@ == base0 + print_message_fields(
                    msg_fields_seq_view(self.fields@).subrange(0, i as int),
                    depth as int,
                ),
            decreases self.fields@.len() - i,
        {
            let piece = self.fields[i].pretty_print(depth);
            s.append(piece.as_str());
            i = i + 1;
            proof {
                let fv = msg_fields_seq_view(self.fields@);
                crate::ast::lemma_msg_fields_seq_view_props(self.fields@);
                assert(fv.subrange(0, i as int).subrange(0, i - 1) =~= fv.subrange(0, i - 1));
                assert(s@ =~= base0 + print_message_fields(
                    fv.subrange(0, i as int),
                    depth as int,
                ));
            }
        }
        proof {
            crate::ast::lemma_msg_fields_seq_view_props(self.fields@);
            assert(msg_fields_seq_view(self.fields@).subrange(
                0,
                self.fields@.len() as int,
            ) =~= msg_fields_seq_view(self.fields@));
        }

        let ghost base1 = s@;
        let mut i: usize = 0;
        while i < self.enums.len()
            invariant
                i <= self.enums@.len(),
                depth + msg_height(self@) <= u64::MAX,
                s@ == base1 + print_enums(
                    enums_seq_view(self.enums@).subrange(0, i as int),
                    depth + 1,
                ),
            decreases self.enums@.len() - i,
        {
            proof {
                assert(self@.enums.len() > 0) by {
                    crate::ast::lemma_enums_seq_view_props(self.enums@);
                }
            }
            let piece = self.enums[i].pretty_print(depth + 1);
            s.append(piece.as_str());
            i = i + 1;
            proof {
                let ev = enums_seq_view(self.enums@);
                crate::ast::lemma_enums_seq_view_props(self.enums@);
                assert(ev.subrange(0, i as int).subrange(0, i - 1) =~= ev.subrange(0, i - 1));
                assert(s@ =~= base1 + print_enums(ev.subrange(0, i as int), depth + 1));
            }
        }
        proof {
            crate::ast::lemma_enums_seq_view_props(self.enums@);
            assert(enums_seq_view(self.enums@).subrange(
                0,
                self.enums@.len() as int,
            ) =~= enums_seq_view(self.enums@));
        }

        let ghost base2 = s@;
        let mut i: usize = 0;
        while i < self.messages.len()
            invariant
                i <= self.messages@.len(),
                depth + msg_height(self@) <= u64::MAX,
                s@ == base2 + print_messages(
                    msgs_seq_view(self.messages@).subrange(0, i as int),
                    depth + 1,
                ),
            decreases self.messages@.len() - i,
        {
            proof {
                crate::ast::lemma_msgs_seq_view_props(self.messages@);
                lemma_msgs_height_elem(msgs_seq_view(self.messages@), i as int);
            }
            let piece = self.messages[i].pretty_print(depth + 1);
            s.append(piece.as_str());
            i = i + 1;
            proof {
                let mv = msgs_seq_view(self.messages@);
                crate::ast::lemma_msgs_seq_view_props(self.messages@);
                assert(mv.subrange(0, i as int).subrange(0, i - 1) =~= mv.subrange(0, i - 1));
                assert(s@ =~= base2 + print_messages(mv.subrange(0, i as int), depth + 1));
            }
        }
        proof {
            crate::ast::lemma_msgs_seq_view_props(self.messages@);
            assert(msgs_seq_view(self.messages@).subrange(
                0,
                self.messages@.len() as int,
            ) =~= msgs_seq_view(self.messages@));
        }

        let ghost base3 = s@;
        let mut i: usize = 0;
        while i < self.oneofs.len()
            invariant
                i <= self.oneofs@.len(),
                depth + msg_height(self@) <= u64::MAX,
                s@ == base3 + print_oneofs(
                    oneofs_seq_view(self.oneofs@).subrange(0, i as int),
                    depth + 1,
                ),
            decreases self.oneofs@.len() - i,
        {
            proof {
                crate::ast::lemma_oneofs_seq_view_props(self.oneofs@);
                lemma_oneofs_height_elem(oneofs_seq_view(self.oneofs@), i as int);
            }
            let piece = self.oneofs[i].pretty_print(depth + 1);
            s.append(piece.as_str());
            i = i + 1;
            proof {
                let ov = oneofs_seq_view(self.oneofs@);
                crate::ast::lemma_oneofs_seq_view_props(self.oneofs@);
                assert(ov.subrange(0, i as int).subrange(0, i - 1) =~= ov.subrange(0, i - 1));
                assert(s@ =~= base3 + print_oneofs(ov.subrange(0, i as int), depth + 1));
            }
        }
        proof {
            crate::ast::lemma_oneofs_seq_view_props(self.oneofs@);
            assert(oneofs_seq_view(self.oneofs@).subrange(
                0,
                self.oneofs@.len() as int,
            ) =~= oneofs_seq_view(self.oneofs@));
        }

        s.append("}");
        proof {
            assert(s@ =~= print_message(self@, depth as int));
        }
        s
    }
}

impl Oneof {
    /// Render this `oneof` block at the given depth, exactly as a message
    /// with the `oneof` keyword: its own fields at this depth, nested
    /// blocks one level deeper.
    pub fn pretty_print(&self, depth: u64) -> (r: String)
        requires
            depth + oneof_height(self@) <= u64::MAX,
        ensures
            r@ == print_oneof(self@, depth as int),
        decreases *self,
    {
        let mut s = String::new();
        s.append("oneof ");
        s.append(self.name.as_str());
        s.append(" {\n");

        let ghost base0 = s@;
        let mut i: usize = 0;
        while i < self.fields.len()
            invariant
                i <= self.fields@.len(),
                depth + oneof_height(self@) <= u64::MAX,
                s@ == base0 + print_message_fields(
                    msg_fields_seq_view(self.fields@).subrange(0, i as int),
                    depth as int,
                ),
            decreases self.fields@.len() - i,
        {
            let piece = self.fields[i].pretty_print(depth);
            s.append(piece.as_str());
            i = i + 1;
            proof {
                let fv = msg_fields_seq_view(self.fields@);
                crate::ast::lemma_msg_fields_seq_view_props(self.fields@);
                assert(fv.subrange(0, i as int).subrange(0, i - 1) =~= fv.subrange(0, i - 1));
                assert(s@ =~= base0 + print_message_fields(
                    fv.subrange(0, i as int),
                    depth as int,
                ));
            }
        }
        proof {
            crate::ast::lemma_msg_fields_seq_view_props(self.fields@);
            assert(msg_fields_seq_view(self.fields@).subrange(
                0,
                self.fields@.len() as int,
            ) =~= msg_fields_seq_view(self.fields@));
        }

        let ghost base1 = s@;
        let mut i: usize = 0;
        while i < self.enums.len()
            invariant
                i <= self.enums@.len(),
                depth + oneof_height(self@) <= u64::MAX,
                s@ == base1 + print_enums(
                    enums_seq_view(self.enums@).subrange(0, i as int),
                    depth + 1,
                ),
            decreases self.enums@.len() - i,
        {
            proof {
                assert(self@.enums.len() > 0) by {
                    crate::ast::lemma_enums_seq_view_props(self.enums@);
                }
            }
            let piece = self.enums[i].pretty_print(depth + 1);
            s.append(piece.as_str());
            i = i + 1;
            proof {
                let ev = enums_seq_view(self.enums@);
                crate::ast::lemma_enums_seq_view_props(self.enums@);
                assert(ev.subrange(0, i as int).subrange(0, i - 1) =~= ev.subrange(0, i - 1));
                assert(s@ =~= base1 + print_enums(ev.subrange(0, i as int), depth + 1));
            }
        }
        proof {
            crate::ast::lemma_enums_seq_view_props(self.enums@);
            assert(enums_seq_view(self.enums@).subrange(
                0,
                self.enums@.len() as int,
            ) =~= enums_seq_view(self.enums@));
        }

        let ghost base2 = s@;
        let mut i: usize = 0;
        while i < self.messages.len()
            invariant
                i <= self.messages@.len(),
                depth + oneof_height(self@) <= u64::MAX,
                s@ == base2 + print_messages(
                    msgs_seq_view(self.messages@).subrange(0, i as int),
                    depth + 1,
                ),
            decreases self.messages@.len() - i,
        {
            proof {
                crate::ast::lemma_msgs_seq_view_props(self.messages@);
                lemma_msgs_height_elem(msgs_seq_view(self.messages@), i as int);
            }
            let piece = self.messages[i].pretty_print(depth + 1);
            s.append(piece.as_str());
            i = i + 1;
            proof {
                let mv = msgs_seq_view(self.messages@);
                crate::ast::lemma_msgs_seq_view_props(self.messages@);
                assert(mv.subrange(0, i as int).subrange(0, i - 1) =~= mv.subrange(0, i - 1));
                assert(s@ =~= base2 + print_messages(mv.subrange(0, i as int), depth + 1));
            }
        }
        proof {
            crate::ast::lemma_msgs_seq_view_props(self.messages@);
            assert(msgs_seq_view(self.messages@).subrange(
                0,
                self.messages@.len() as int,
            ) =~= msgs_seq_view(self.messages@));
        }

        let ghost base3 = s@;
        let mut i: usize = 0;
        while i < self.oneofs.len()
            invariant
                i <= self.oneofs@.len(),
                depth + oneof_height(self@) <= u64::MAX,
                s@ == base3 + print_oneofs(
                    oneofs_seq_view(self.oneofs@).subrange(0, i as int),
                    depth + 1,
                ),
            decreases self.oneofs@.len() - i,
        {
            proof {
                crate::ast::lemma_oneofs_seq_view_props(self.oneofs@);
                lemma_oneofs_height_elem(oneofs_seq_view(self.oneofs@), i as int);
            }
            let piece = self.oneofs[i].pretty_print(depth + 1);
            s.append(piece.as_str());
            i = i + 1;
            proof {
                let ov = oneofs_seq_view(self.oneofs@);
                crate::ast::lemma_oneofs_seq_view_props(self.oneofs@);
                assert(ov.subrange(0, i as int).subrange(0, i - 1) =~= ov.subrange(0, i - 1));
                assert(s@ =~= base3 + print_oneofs(ov.subrange(0, i as int), depth + 1));
            }
        }
        proof {
            crate::ast::lemma_oneofs_seq_view_props(self.oneofs@);
            assert(oneofs_seq_view(self.oneofs@).subrange(
                0,
                self.oneofs@.len() as int,
            ) =~= oneofs_seq_view(self.oneofs@));
        }

        s.append("}");
        proof {
            assert(s@ =~= print_oneof(self@, depth as int));
        }
        s
    }
}

} // verus!
